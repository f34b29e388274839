//! The prompt box's decisions: the draft it holds, when that draft is sent
//! and the box cleared, and what the host is asked to do. The host draws the
//! text field and feeds its edits in.

use vstd::prelude::*;

use crate::text::{to_chars, trim_range, trim_ws};

verus! {

/// What the composer asks the host to do.
#[derive(Debug)]
pub enum AIComposerEvent {
    /// Send this. The composer has already cleared itself.
    Submit(String),
    /// Interrupt the reply in flight.
    Stop,
    /// The attach button was pressed; the host owns the file dialog.
    Attach,
    /// The draft changed. Carries the current text, for hosts that persist
    /// it.
    Change(String),
}

/// A prompt box's state: the draft in the box, whether a reply is streaming
/// (send becomes stop), whether it offers attachments, its hint line, and
/// whether it is disabled.
pub struct AIComposer {
    pub draft: String,
    pub busy: bool,
    pub attachments: bool,
    pub hint: Option<String>,
    pub disabled: bool,
}

impl AIComposer {
    pub fn new() -> (r: AIComposer)
        ensures
            r.draft@.len() == 0,
            !r.busy,
            !r.attachments,
            r.hint is None,
            !r.disabled,
    {
        AIComposer { draft: String::new(), busy: false, attachments: false, hint: None, disabled: false }
    }

    /// Show the paperclip.
    pub fn attachments(self, attachments: bool) -> (r: AIComposer)
        ensures
            r == (AIComposer { attachments, ..self }),
    {
        AIComposer { attachments, ..self }
    }

    /// A line under the box, such as a keyboard hint.
    pub fn hint(self, hint: &str) -> (r: AIComposer)
        ensures
            r == (AIComposer { hint: r.hint, ..self }),
            r.hint matches Some(h) && h@ == hint@,
    {
        AIComposer { hint: Some(hint.to_string()), ..self }
    }

    pub fn disabled(self, disabled: bool) -> (r: AIComposer)
        ensures
            r == (AIComposer { disabled, ..self }),
    {
        AIComposer { disabled, ..self }
    }

    /// Switch the send button to a stop button: set it when the request
    /// goes out and clear it when the reply ends, including on error.
    pub fn set_busy(&mut self, busy: bool)
        ensures
            *final(self) == (AIComposer { busy, ..*old(self) }),
    {
        self.busy = busy;
    }

    pub fn is_busy(&self) -> (r: bool)
        ensures
            r == self.busy,
    {
        self.busy
    }

    /// The current draft.
    pub fn text(&self) -> (r: &str)
        ensures
            r@ == self.draft@,
    {
        self.draft.as_str()
    }

    /// Replace the draft — restoring a saved one, or dropping in a template.
    pub fn set_text(&mut self, text: &str)
        ensures
            final(self).draft@ == text@,
            final(self).busy == old(self).busy,
            final(self).attachments == old(self).attachments,
            final(self).hint == old(self).hint,
            final(self).disabled == old(self).disabled,
    {
        self.draft = text.to_string();
    }

    /// The user edited the box: the draft becomes `text`, and hosts that
    /// persist drafts are told.
    pub fn edit(&mut self, text: &str) -> (r: AIComposerEvent)
        ensures
            final(self).draft@ == text@,
            final(self).busy == old(self).busy,
            final(self).attachments == old(self).attachments,
            final(self).hint == old(self).hint,
            final(self).disabled == old(self).disabled,
            r matches AIComposerEvent::Change(t) && t@ == text@,
    {
        self.draft = text.to_string();
        AIComposerEvent::Change(text.to_string())
    }

    /// Send the draft and clear the box. An empty or blank draft, or a busy
    /// or disabled box, sends nothing and leaves the draft alone — sending
    /// white space to a model is never what was meant.
    pub fn submit(&mut self) -> (r: Option<AIComposerEvent>)
        ensures
            r is Some <==> (!old(self).disabled && !old(self).busy && trim_ws(old(self).draft@).len() > 0),
            r is Some ==> {
                &&& r->0 matches AIComposerEvent::Submit(t) && t@ == old(self).draft@
                &&& final(self).draft@.len() == 0
                &&& final(self).busy == old(self).busy
                &&& final(self).attachments == old(self).attachments
                &&& final(self).hint == old(self).hint
                &&& final(self).disabled == old(self).disabled
            },
            r is None ==> *final(self) == *old(self),
    {
        if self.disabled || self.busy {
            return None;
        }
        let chars = to_chars(self.draft.as_str());
        let (a, b) = trim_range(&chars, 0, chars.len());
        assert(chars@.subrange(0, chars@.len() as int) =~= self.draft@);
        if a == b {
            return None;
        }
        let mut text = String::new();
        std::mem::swap(&mut text, &mut self.draft);
        Some(AIComposerEvent::Submit(text))
    }
}

impl Default for AIComposer {
    fn default() -> (r: AIComposer)
        ensures
            r.draft@.len() == 0,
            !r.busy,
            !r.attachments,
            r.hint is None,
            !r.disabled,
    {
        AIComposer::new()
    }
}

} // verus!
