//! The Logs panel's filters: a level filter and a case-insensitive search
//! over a line's message, its detail rows and its source file.

use std::collections::HashSet;
use std::collections::VecDeque;

use vstd::prelude::*;

use super::state::{pairs_view, LogLevel, LogRecord};
use crate::text::{contains_chars, has_substring, lowercase, to_chars, to_lowercase};

verus! {

broadcast use vstd::std_specs::hash::group_hash_axioms;

/// The level filter, matching Safari's segmented control.
#[derive(Debug, Clone, Copy, PartialEq, Eq, Structural)]
pub enum LevelFilter {
    All,
    Errors,
    Warnings,
    Logs,
}

/// Whether `filter` lets a line at `level` through.
pub open spec fn admitted(filter: LevelFilter, level: LogLevel) -> bool {
    match filter {
        LevelFilter::All => true,
        LevelFilter::Errors => level == LogLevel::Error,
        LevelFilter::Warnings => level == LogLevel::Warning || level == LogLevel::Error,
        LevelFilter::Logs => level == LogLevel::Log || level == LogLevel::Info || level == LogLevel::Debug,
    }
}

impl LevelFilter {
    pub fn label(self) -> (r: &'static str)
        ensures
            r@ == match self {
                LevelFilter::All => "All"@,
                LevelFilter::Errors => "Errors"@,
                LevelFilter::Warnings => "Warnings"@,
                LevelFilter::Logs => "Logs"@,
            },
    {
        match self {
            LevelFilter::All => "All",
            LevelFilter::Errors => "Errors",
            LevelFilter::Warnings => "Warnings",
            LevelFilter::Logs => "Logs",
        }
    }

    /// Whether a record survives this filter.
    pub fn admits(self, level: LogLevel) -> (r: bool)
        ensures
            r == admitted(self, level),
    {
        match self {
            LevelFilter::All => true,
            LevelFilter::Errors => level == LogLevel::Error,
            LevelFilter::Warnings => level == LogLevel::Warning || level == LogLevel::Error,
            LevelFilter::Logs => level == LogLevel::Log || level == LogLevel::Info || level == LogLevel::Debug,
        }
    }
}

impl Default for LevelFilter {
    fn default() -> (r: LevelFilter)
        ensures
            r == LevelFilter::All,
    {
        LevelFilter::All
    }
}

/// The keys and values of a line's detail rows, key first, row by row.
pub open spec fn pair_texts(s: Seq<(Seq<char>, Seq<char>)>) -> Seq<Seq<char>>
    decreases s.len(),
{
    if s.len() == 0 {
        Seq::empty()
    } else {
        pair_texts(s.drop_last()).push(s.last().0).push(s.last().1)
    }
}

/// The texts a search runs over: the message, every detail key and value,
/// and the source file when there is one.
pub open spec fn search_texts(record: LogRecord) -> Seq<Seq<char>> {
    let base = seq![record.message@] + pair_texts(pairs_view(record.details@));
    match record.source {
        Some(s) => base.push(s.file@),
        None => base,
    }
}

/// Whether any of `hays` holds `needle`.
pub open spec fn any_holds(hays: Seq<Seq<char>>, needle: Seq<char>) -> bool {
    exists|i: int| 0 <= i < hays.len() && has_substring(#[trigger] hays[i], needle)
}

/// Whether a line passes the level filter and the search text together:
/// an empty query passes everything the level lets through, and otherwise
/// the lowercased query must occur in one of the line's lowercased texts.
pub open spec fn line_matches(record: LogRecord, level: LevelFilter, query: Seq<char>) -> bool {
    &&& admitted(level, record.level)
    &&& (query.len() == 0 || any_holds(search_texts(record).map_values(|t: Seq<char>| lowercase(t)), lowercase(query)))
}

/// The search written out field by field: the level admits the line, and
/// either the query is empty or its lowercase occurs in the lowercased
/// message, in some detail row's lowercased key or value, or in the
/// lowercased source file.
pub open spec fn line_matches_fields(record: LogRecord, level: LevelFilter, query: Seq<char>) -> bool {
    let q = lowercase(query);
    let rows = pairs_view(record.details@);
    &&& admitted(level, record.level)
    &&& {
        ||| query.len() == 0
        ||| has_substring(lowercase(record.message@), q)
        ||| exists|j: int|
            0 <= j < rows.len() && (has_substring(lowercase(#[trigger] rows[j].0), q) || has_substring(
                lowercase(rows[j].1),
                q,
            ))
        ||| (record.source matches Some(s) && has_substring(lowercase(s.file@), q))
    }
}

proof fn lemma_pair_texts(s: Seq<(Seq<char>, Seq<char>)>)
    ensures
        pair_texts(s).len() == 2 * s.len(),
        forall|j: int| 0 <= j < s.len() ==> pair_texts(s)[2 * j] == #[trigger] s[j].0 && pair_texts(s)[2 * j + 1] == s[j].1,
    decreases s.len(),
{
    if s.len() > 0 {
        lemma_pair_texts(s.drop_last());
        assert forall|j: int| 0 <= j < s.len() implies pair_texts(s)[2 * j] == #[trigger] s[j].0 && pair_texts(s)[2 * j + 1] == s[j].1 by {
            if j < s.len() - 1 {
                assert(s.drop_last()[j] == s[j]);
            }
        }
    }
}

/// The two readings of the search agree.
proof fn lemma_line_matches_fields(record: LogRecord, level: LevelFilter, query: Seq<char>)
    ensures
        line_matches(record, level, query) == line_matches_fields(record, level, query),
{
    let q = lowercase(query);
    let rows = pairs_view(record.details@);
    let pt = pair_texts(rows);
    lemma_pair_texts(rows);
    let base = seq![record.message@] + pt;
    let texts = search_texts(record);
    let low = texts.map_values(|t: Seq<char>| lowercase(t));
    assert(texts.len() >= base.len());
    assert forall|i: int| 0 <= i < base.len() implies texts[i] == base[i] by {}
    if any_holds(low, q) {
        let i = choose|i: int| 0 <= i < low.len() && has_substring(#[trigger] low[i], q);
        if i == 0 {
            assert(texts[0] == record.message@);
        } else if i < base.len() {
            let j = (i - 1) / 2;
            assert(0 <= j < rows.len());
            assert(pt[2 * j] == rows[j].0);
            assert(i - 1 == 2 * j + (i - 1) % 2);
            if (i - 1) % 2 == 0 {
                assert(texts[i] == pt[i - 1]);
            } else {
                assert(pt[2 * j + 1] == rows[j].1);
                assert(texts[i] == pt[i - 1]);
            }
        } else {
            assert(record.source is Some);
        }
    }
    if query.len() != 0 && !any_holds(low, q) {
        assert(!has_substring(lowercase(record.message@), q)) by {
            assert(low[0] == lowercase(texts[0]));
        }
        assert forall|j: int| 0 <= j < rows.len() implies !has_substring(lowercase(#[trigger] rows[j].0), q)
            && !has_substring(lowercase(rows[j].1), q) by {
            assert(base[1 + 2 * j] == pt[2 * j]);
            assert(base[2 + 2 * j] == pt[2 * j + 1]);
            assert(low[1 + 2 * j] == lowercase(rows[j].0));
            assert(low[2 + 2 * j] == lowercase(rows[j].1));
        }
        if record.source is Some {
            let s = record.source->0;
            assert(texts =~= base.push(s.file@));
            assert(low[base.len() as int] == lowercase(s.file@));
        }
    }
}

/// Whether `needle` occurs in any of `haystacks`; the search the Logs
/// filter runs once every text is lowercased.
pub fn any_contains(haystacks: &Vec<String>, needle: &str) -> (r: bool)
    ensures
        r == any_holds(haystacks@.map_values(|s: String| s@), needle@),
{
    let pattern = to_chars(needle);
    let ghost hays = haystacks@.map_values(|s: String| s@);
    let mut i: usize = 0;
    while i < haystacks.len()
        invariant
            i <= haystacks@.len(),
            pattern@ == needle@,
            hays == haystacks@.map_values(|s: String| s@),
            forall|j: int| 0 <= j < i ==> !has_substring(#[trigger] hays[j], needle@),
        decreases haystacks@.len() - i,
    {
        let hay = to_chars(haystacks[i].as_str());
        if contains_chars(&hay, &pattern) {
            assert(has_substring(hays[i as int], needle@));
            return true;
        }
        i = i + 1;
    }
    false
}

/// Append the lowercased keys and values of `rows` to `out`.
fn push_lowered_pairs(out: &mut Vec<String>, rows: &Vec<(String, String)>)
    ensures
        final(out)@.map_values(|s: String| s@) == old(out)@.map_values(|s: String| s@) + pair_texts(
            pairs_view(rows@),
        ).map_values(|t: Seq<char>| lowercase(t)),
{
    let ghost start = out@.map_values(|s: String| s@);
    let mut i: usize = 0;
    while i < rows.len()
        invariant
            i <= rows@.len(),
            out@.map_values(|s: String| s@) == start + pair_texts(pairs_view(rows@).take(i as int)).map_values(
                |t: Seq<char>| lowercase(t),
            ),
        decreases rows@.len() - i,
    {
        let ghost before = out@.map_values(|s: String| s@);
        out.push(to_lowercase(rows[i].0.as_str()));
        out.push(to_lowercase(rows[i].1.as_str()));
        proof {
            let p = pairs_view(rows@);
            assert(p.take(i + 1).drop_last() =~= p.take(i as int));
            assert(p.take(i + 1).last() == p[i as int]);
            assert(p[i as int] == (rows@[i as int].0@, rows@[i as int].1@));
            assert(out@.map_values(|s: String| s@) =~= before.push(lowercase(rows@[i as int].0@)).push(
                lowercase(rows@[i as int].1@),
            ));
            assert(pair_texts(p.take(i + 1)).map_values(|t: Seq<char>| lowercase(t)) =~= pair_texts(
                p.take(i as int),
            ).map_values(|t: Seq<char>| lowercase(t)).push(lowercase(rows@[i as int].0@)).push(
                lowercase(rows@[i as int].1@),
            ));
        }
        i = i + 1;
    }
    assert(pairs_view(rows@).take(rows@.len() as int) =~= pairs_view(rows@));
}

/// Whether a record passes the level filter and the search text together.
pub fn matches(record: &LogRecord, level: LevelFilter, query: &str) -> (r: bool)
    ensures
        r == line_matches(*record, level, query@),
        r == line_matches_fields(*record, level, query@),
{
    proof {
        lemma_line_matches_fields(*record, level, query@);
    }
    if !level.admits(record.level) {
        return false;
    }
    if query.unicode_len() == 0 {
        return true;
    }
    let needle = to_lowercase(query);
    let mut texts: Vec<String> = Vec::new();
    texts.push(to_lowercase(record.message.as_str()));
    let ghost first = texts@.map_values(|s: String| s@);
    assert(first =~= seq![lowercase(record.message@)]);
    push_lowered_pairs(&mut texts, &record.details);
    let ghost pairs = pair_texts(pairs_view(record.details@));
    let ghost base = seq![record.message@] + pairs;
    assert(texts@.map_values(|s: String| s@) =~= base.map_values(|t: Seq<char>| lowercase(t)));
    match &record.source {
        Some(source) => {
            let ghost mid = texts@.map_values(|s: String| s@);
            texts.push(to_lowercase(source.file.as_str()));
            assert(texts@.map_values(|s: String| s@) =~= mid.push(lowercase(source.file@)));
            assert(base.push(source.file@).map_values(|t: Seq<char>| lowercase(t)) =~= mid.push(
                lowercase(source.file@),
            ));
        },
        None => {},
    }
    assert(texts@.map_values(|s: String| s@) =~= search_texts(*record).map_values(|t: Seq<char>| lowercase(t)));
    any_contains(&texts, needle.as_str())
}

/// The lines of `logs` that pass the filter, in order.
pub open spec fn visible_lines(logs: Seq<LogRecord>, level: LevelFilter, query: Seq<char>) -> Seq<LogRecord> {
    logs.filter(|r: LogRecord| line_matches(r, level, query))
}

/// The Logs panel's own state: the level filter, the search text, whether
/// timestamps show, and which lines have their details disclosed.
pub struct LogsPanel {
    level: LevelFilter,
    query: String,
    timestamps: bool,
    expanded: HashSet<u64>,
}

/// The panel's state, by value.
pub struct LogsView {
    pub level: LevelFilter,
    pub query: Seq<char>,
    pub timestamps: bool,
    pub expanded: Set<u64>,
}

impl View for LogsPanel {
    type V = LogsView;

    closed spec fn view(&self) -> LogsView {
        LogsView {
            level: self.level,
            query: self.query@,
            timestamps: self.timestamps,
            expanded: self.expanded@,
        }
    }
}

impl LogsPanel {
    /// Everything shown, no search, no timestamps, nothing disclosed.
    pub fn new() -> (r: LogsPanel)
        ensures
            r@.level == LevelFilter::All,
            r@.query.len() == 0,
            !r@.timestamps,
            r@.expanded == Set::<u64>::empty(),
    {
        let r = LogsPanel { level: LevelFilter::All, query: String::new(), timestamps: false, expanded: HashSet::new() };
        r
    }

    pub fn level(&self) -> (r: LevelFilter)
        ensures
            r == self@.level,
    {
        self.level
    }

    pub fn set_level(&mut self, level: LevelFilter)
        ensures
            final(self)@ == (LogsView { level, ..old(self)@ }),
    {
        self.level = level;
    }

    pub fn query(&self) -> (r: &str)
        ensures
            r@ == self@.query,
    {
        self.query.as_str()
    }

    pub fn set_query(&mut self, query: &str)
        ensures
            final(self)@ == (LogsView { query: query@, ..old(self)@ }),
    {
        self.query = query.to_string();
    }

    pub fn timestamps(&self) -> (r: bool)
        ensures
            r == self@.timestamps,
    {
        self.timestamps
    }

    pub fn toggle_timestamps(&mut self)
        ensures
            final(self)@ == (LogsView { timestamps: !old(self)@.timestamps, ..old(self)@ }),
    {
        self.timestamps = !self.timestamps;
    }

    pub fn is_expanded(&self, id: u64) -> (r: bool)
        ensures
            r == self@.expanded.contains(id),
    {
        self.expanded.contains(&id)
    }

    /// Disclose a line's detail rows, or hide them again.
    pub fn toggle_expanded(&mut self, id: u64)
        ensures
            final(self)@ == (LogsView {
                expanded: if old(self)@.expanded.contains(id) {
                    old(self)@.expanded.remove(id)
                } else {
                    old(self)@.expanded.insert(id)
                },
                ..old(self)@
            }),
    {
        let was = self.expanded.remove(&id);
        assert(was == old(self)@.expanded.contains(id));
        if !was {
            assert(old(self)@.expanded.remove(id) =~= old(self)@.expanded);
            self.expanded.insert(id);
        }
    }

    /// The lines of `logs` that pass the panel's filters, in order.
    pub fn visible(&self, logs: &VecDeque<LogRecord>) -> (r: Vec<LogRecord>)
        ensures
            r@.len() == visible_lines(logs@, self@.level, self@.query).len(),
            forall|i: int|
                0 <= i < r@.len() ==> ({
                    let a = #[trigger] r@[i];
                    let b = visible_lines(logs@, self@.level, self@.query)[i];
                    &&& a.id == b.id
                    &&& a.level == b.level
                    &&& a.message@ == b.message@
                    &&& pairs_view(a.details@) == pairs_view(b.details@)
                    &&& a.source == b.source
                    &&& a.at == b.at
                    &&& a.count == b.count
                }),
    {
        let mut out: Vec<LogRecord> = Vec::new();
        let mut i: usize = 0;
        proof {
            reveal(Seq::filter);
        }
        while i < logs.len()
            invariant
                i <= logs@.len(),
                out@.len() == visible_lines(logs@.take(i as int), self@.level, self@.query).len(),
                forall|j: int|
                    0 <= j < out@.len() ==> ({
                        let a = #[trigger] out@[j];
                        let b = visible_lines(logs@.take(i as int), self@.level, self@.query)[j];
                        &&& a.id == b.id
                        &&& a.level == b.level
                        &&& a.message@ == b.message@
                        &&& pairs_view(a.details@) == pairs_view(b.details@)
                        &&& a.source == b.source
                        &&& a.at == b.at
                        &&& a.count == b.count
                    }),
            decreases logs@.len() - i,
        {
            let ghost before = visible_lines(logs@.take(i as int), self@.level, self@.query);
            proof {
                reveal(Seq::filter);
                let t1 = logs@.take(i + 1);
                let f = |r: LogRecord| line_matches(r, self@.level, self@.query);
                assert(t1.drop_last() =~= logs@.take(i as int));
                assert(t1.last() == logs@[i as int]);
                assert(visible_lines(t1, self@.level, self@.query) == t1.filter(f));
                assert(t1.filter(f) == if f(t1.last()) {
                    t1.drop_last().filter(f).push(t1.last())
                } else {
                    t1.drop_last().filter(f)
                });
            }
            let record = &logs[i];
            if matches(record, self.level, self.query.as_str()) {
                let copy = record.clone();
                out.push(copy);
                assert(visible_lines(logs@.take(i + 1), self@.level, self@.query) == before.push(logs@[i as int]));
            } else {
                assert(visible_lines(logs@.take(i + 1), self@.level, self@.query) == before);
            }
            i = i + 1;
        }
        assert(logs@.take(logs@.len() as int) =~= logs@);
        out
    }
}

impl Default for LogsPanel {
    fn default() -> (r: LogsPanel)
        ensures
            r@.level == LevelFilter::All,
            r@.query.len() == 0,
            !r@.timestamps,
            r@.expanded == Set::<u64>::empty(),
    {
        LogsPanel::new()
    }
}

/// The level filters nest and split: Errors sits inside Warnings, and
/// Warnings and Logs divide every level between them.
pub proof fn law_level_filters_nest(level: LogLevel)
    ensures
        admitted(LevelFilter::All, level),
        admitted(LevelFilter::Errors, level) ==> admitted(LevelFilter::Warnings, level),
        admitted(LevelFilter::Warnings, level) != admitted(LevelFilter::Logs, level),
{
}

/// Which levels each filter shows: Errors only errors, Warnings the two
/// levels the toolbar counts as issues (warnings and errors), and Logs the
/// rest — plain lines, info and debug output.
pub proof fn law_level_filters_pick_their_levels(level: LogLevel)
    ensures
        admitted(LevelFilter::Errors, level) <==> level == LogLevel::Error,
        admitted(LevelFilter::Warnings, level) <==> (level == LogLevel::Warning || level == LogLevel::Error),
        admitted(LevelFilter::Logs, level) <==> (level == LogLevel::Log || level == LogLevel::Info || level
            == LogLevel::Debug),
        admitted(LevelFilter::Logs, LogLevel::Debug) && !admitted(LevelFilter::Warnings, LogLevel::Debug),
        admitted(LevelFilter::Logs, LogLevel::Info) && !admitted(LevelFilter::Warnings, LogLevel::Info),
{
}

/// An empty search filters nothing out: only the level decides.
pub proof fn law_empty_query_filters_nothing(record: LogRecord, level: LevelFilter)
    ensures
        line_matches(record, level, Seq::<char>::empty()) == admitted(level, record.level),
{
}

/// The search ignores case: two queries that lowercase alike pick the same
/// lines.
pub proof fn law_search_ignores_case(record: LogRecord, level: LevelFilter, a: Seq<char>, b: Seq<char>)
    requires
        a.len() > 0,
        b.len() > 0,
        lowercase(a) == lowercase(b),
    ensures
        line_matches(record, level, a) == line_matches(record, level, b),
{
}

} // verus!
