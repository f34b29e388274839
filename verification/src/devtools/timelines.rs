//! The Timelines panel's logic: the window every band is laid out against,
//! the band filter, the frame recorder switch, and the frame budget.

use vstd::prelude::*;

use super::state::{DevToolsState, TimelineEvent, TimelineKind};
use crate::time::{Duration, MAX_NANOS};

verus! {

/// The frame budget at sixty frames a second, in nanoseconds.
pub const FRAME_BUDGET_NANOS: u128 = 16_667_000;

/// The frame budget at sixty frames a second.
pub fn frame_budget() -> (r: Duration)
    ensures
        r@ == FRAME_BUDGET_NANOS,
{
    Duration::from_micros(16_667)
}

/// The earliest start among `events`, or zero when there are none.
pub open spec fn first_start(events: Seq<TimelineEvent>) -> nat
    decreases events.len(),
{
    if events.len() == 0 {
        0
    } else if events.len() == 1 {
        events[0].start@
    } else {
        let rest = first_start(events.drop_last());
        if events.last().start@ < rest { events.last().start@ } else { rest }
    }
}

/// The latest end among `events`, or zero when there are none.
pub open spec fn last_end(events: Seq<TimelineEvent>) -> nat
    decreases events.len(),
{
    if events.len() == 0 {
        0
    } else {
        let end = events.last().start@ + events.last().duration@;
        let rest = last_end(events.drop_last());
        if end > rest { end } else { rest }
    }
}

/// Every event ends within the range a `Duration` holds.
pub open spec fn ends_in_range(events: Seq<TimelineEvent>) -> bool {
    forall|i: int| 0 <= i < events.len() ==> #[trigger] events[i].start@ + events[i].duration@ <= MAX_NANOS
}

/// The Timelines panel's own state.
pub struct TimelinesPanel {
    /// `None` shows every band, as Safari's "All" instrument does.
    band: Option<TimelineKind>,
    /// Whether the frame recorder is armed. Off by default: an idle window's
    /// gap between frames is not a frame rate, so the measurement only means
    /// something while something is being measured.
    recording: bool,
}

impl TimelinesPanel {
    /// Every band shown, the frame recorder off.
    pub fn new() -> (r: TimelinesPanel)
        ensures
            r.band_spec() is None,
            !r.recording_spec(),
    {
        TimelinesPanel { band: None, recording: false }
    }

    pub closed spec fn band_spec(&self) -> Option<TimelineKind> {
        self.band
    }

    pub closed spec fn recording_spec(&self) -> bool {
        self.recording
    }

    pub fn band(&self) -> (r: Option<TimelineKind>)
        ensures
            r == self.band_spec(),
    {
        self.band
    }

    /// Show one band, or every band for `None`.
    pub fn set_band(&mut self, band: Option<TimelineKind>)
        ensures
            final(self).band_spec() == band,
            final(self).recording_spec() == old(self).recording_spec(),
    {
        self.band = band;
    }

    /// Whether events of `kind` are shown.
    pub fn shows(&self, kind: TimelineKind) -> (r: bool)
        ensures
            r == (self.band_spec() matches Some(b) ==> b == kind),
    {
        match self.band {
            Some(b) => b == kind,
            None => true,
        }
    }

    pub fn is_recording(&self) -> (r: bool)
        ensures
            r == self.recording_spec(),
    {
        self.recording
    }

    /// Arm or disarm the frame recorder. Disarming also forgets when the
    /// last frame landed, so the next run does not count the pause as a
    /// frame.
    pub fn toggle_recording(&mut self, state: &mut DevToolsState)
        requires
            old(self).recording_spec() ==> old(state)@.generation < u64::MAX,
        ensures
            final(self).recording_spec() == !old(self).recording_spec(),
            final(self).band_spec() == old(self).band_spec(),
            old(self).recording_spec() ==> final(state)@ == (super::state::StateView {
                last_frame: None,
                generation: old(state)@.generation + 1,
                ..old(state)@
            }),
            !old(self).recording_spec() ==> final(state)@ == old(state)@,
    {
        self.recording = !self.recording;
        if !self.recording {
            state.stop_frames();
        }
    }

    /// The window every band is laid out against: the earliest start to the
    /// latest end across the events being shown, never inverted.
    pub fn span(events: &[TimelineEvent]) -> (r: (Duration, Duration))
        requires
            ends_in_range(events@),
        ensures
            r.0@ == first_start(events@),
            r.1@ == if last_end(events@) >= first_start(events@) {
                last_end(events@)
            } else {
                first_start(events@)
            },
    {
        let mut start = Duration::zero();
        let mut end = Duration::zero();
        let mut i: usize = 0;
        while i < events.len()
            invariant
                i <= events@.len(),
                ends_in_range(events@),
                start@ == first_start(events@.take(i as int)),
                end@ == last_end(events@.take(i as int)),
            decreases events@.len() - i,
        {
            let ghost prefix = events@.take(i + 1);
            assert(prefix.drop_last() =~= events@.take(i as int));
            assert(prefix.last() == events@[i as int]);
            assert(events@[i as int].start@ + events@[i as int].duration@ <= MAX_NANOS);
            let e = &events[i];
            if i == 0 {
                start = e.start;
            } else {
                start = start.min(e.start);
            }
            end = end.max(e.end());
            i = i + 1;
        }
        assert(events@.take(events@.len() as int) =~= events@);
        let last = end.max(start);
        (start, last)
    }
}

impl Default for TimelinesPanel {
    fn default() -> (r: TimelinesPanel)
        ensures
            r.band_spec() is None,
            !r.recording_spec(),
    {
        TimelinesPanel::new()
    }
}

/// The span never inverts: it starts no later than it ends.
pub proof fn law_span_is_ordered(events: Seq<TimelineEvent>)
    ensures
        first_start(events) <= if last_end(events) >= first_start(events) {
            last_end(events)
        } else {
            first_start(events)
        },
{
}

} // verus!
