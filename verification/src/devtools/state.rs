//! The record store behind every devtools panel.
//!
//! The host *reports* what it does — a log line, a request, a storage domain —
//! and this store keeps the rolling history the panels render. Every store is
//! a ring: capped, oldest-first eviction. `generation` ticks on every
//! mutation, which is what lets a panel skip work when nothing changed.

use std::collections::VecDeque;
use vstd::prelude::*;

use crate::text::{
    decimal, div_round_half_even, fixed_point, push_fixed, push_zero_padded, round_half_even,
    zero_padded, find_pat, find_pattern, first_index_of, first_of, last_index_of, last_of, push_decimal,
    to_chars,
};
use crate::binary64::{lemma_two_to_add, lemma_two_to_grows, lemma_two_to_values, lemma_round_below, nearest, nearest_of, nearest_pow2, pow2, sum_of};
use crate::ai::two_to;
use crate::time::MAX_NANOS;
use crate::time::Duration;

verus! {

broadcast use {
    vstd::string::group_string_axioms,
    vstd::std_specs::vecdeque::group_vec_dequeue_axioms,
    Duration::lemma_from_nanos,
    Duration::lemma_view_injective,
};

/// The characters of a list of text pairs, pair by pair.
pub open spec fn pairs_view(v: Seq<(String, String)>) -> Seq<(Seq<char>, Seq<char>)> {
    v.map_values(|p: (String, String)| (p.0@, p.1@))
}

/// Where a record came from in the source.
#[derive(Debug)]
pub struct SourceRef {
    pub file: String,
    pub line: u32,
    pub column: u32,
}

impl Clone for SourceRef {
    fn clone(&self) -> (r: Self)
        ensures
            r == *self,
    {
        SourceRef { file: self.file.clone(), line: self.line, column: self.column }
    }
}

/// The file name after the last `/` of `file`, or all of `file`.
pub open spec fn basename_of(file: Seq<char>) -> Seq<char> {
    file.subrange(last_of(file, '/') + 1, file.len() as int)
}

impl SourceRef {
    pub fn new(file: &str, line: u32, column: u32) -> (r: SourceRef)
        ensures
            r.file@ == file@,
            r.line == line,
            r.column == column,
    {
        SourceRef { file: file.to_owned(), line, column }
    }

    /// Just the file name, which is all the one-line displays have room for.
    pub fn basename(&self) -> (r: &str)
        ensures
            r@ == basename_of(self.file@),
    {
        let chars = to_chars(self.file.as_str());
        let n = chars.len();
        let start = match last_index_of(&chars, '/') {
            Some(i) => i + 1,
            None => 0,
        };
        self.file.as_str().substring_char(start, n)
    }

    /// `foo.rs:12:5`, the form both Safari and rustc print.
    pub fn short(&self) -> (r: String)
        ensures
            r@ == basename_of(self.file@) + seq![':'] + decimal(self.line as nat) + seq![':']
                + decimal(self.column as nat),
    {
        let mut out = String::new();
        out.append(self.basename());
        out.push(':');
        push_decimal(&mut out, self.line as u128);
        out.push(':');
        push_decimal(&mut out, self.column as u128);
        out
    }
}

/// Log severity. Mirrors the levels Safari's console filters by.
#[derive(Debug, Clone, Copy, PartialEq, Eq, Structural, Hash)]
pub enum LogLevel {
    /// `console.log` — no icon, no color.
    Log,
    /// `console.debug` — dimmed.
    Debug,
    /// `console.info` — blue dot.
    Info,
    /// `console.warn` — amber, counted in the toolbar.
    Warning,
    /// `console.error` — red, counted in the toolbar.
    Error,
}

impl Default for LogLevel {
    fn default() -> (r: LogLevel)
        ensures
            r == LogLevel::Log,
    {
        LogLevel::Log
    }
}

impl LogLevel {
    pub fn label(self) -> (r: &'static str)
        ensures
            r@ == match self {
                LogLevel::Log => "Log"@,
                LogLevel::Debug => "Debug"@,
                LogLevel::Info => "Info"@,
                LogLevel::Warning => "Warning"@,
                LogLevel::Error => "Error"@,
            },
    {
        match self {
            LogLevel::Log => "Log",
            LogLevel::Debug => "Debug",
            LogLevel::Info => "Info",
            LogLevel::Warning => "Warning",
            LogLevel::Error => "Error",
        }
    }

    /// Whether the toolbar's warning/error badges count this level.
    pub fn is_issue(self) -> (r: bool)
        ensures
            r == (self == LogLevel::Warning || self == LogLevel::Error),
    {
        match self {
            LogLevel::Warning | LogLevel::Error => true,
            _ => false,
        }
    }
}

/// Whether two lists of text pairs hold the same characters, pair by pair.
pub fn same_pairs(a: &Vec<(String, String)>, b: &Vec<(String, String)>) -> (r: bool)
    ensures
        r == (pairs_view(a@) == pairs_view(b@)),
{
    if a.len() != b.len() {
        assert(pairs_view(a@).len() != pairs_view(b@).len());
        return false;
    }
    let mut i: usize = 0;
    while i < a.len()
        invariant
            a@.len() == b@.len(),
            i <= a@.len(),
            forall|j: int| 0 <= j < i ==> pairs_view(a@)[j] == pairs_view(b@)[j],
        decreases a@.len() - i,
    {
        if a[i].0 != b[i].0 || a[i].1 != b[i].1 {
            assert(pairs_view(a@)[i as int] != pairs_view(b@)[i as int]);
            return false;
        }
        i = i + 1;
    }
    assert(pairs_view(a@) =~= pairs_view(b@));
    true
}

/// One log line. `count` is the repeat tally: identical consecutive messages
/// collapse into a single row with a counter.
#[derive(Debug)]
pub struct LogRecord {
    pub id: u64,
    pub level: LogLevel,
    pub message: String,
    /// Expandable key/value rows shown when the row is disclosed.
    pub details: Vec<(String, String)>,
    pub source: Option<SourceRef>,
    pub at: Duration,
    pub count: usize,
}

impl Clone for LogRecord {
    fn clone(&self) -> (r: Self)
        ensures
            r.id == self.id,
            r.level == self.level,
            r.message@ == self.message@,
            pairs_view(r.details@) == pairs_view(self.details@),
            r.source == self.source,
            r.at == self.at,
            r.count == self.count,
    {
        let source = match &self.source {
            Some(s) => Some(s.clone()),
            None => None,
        };
        LogRecord {
            id: self.id,
            level: self.level,
            message: self.message.clone(),
            details: clone_pairs(&self.details),
            source,
            at: self.at,
            count: self.count,
        }
    }
}

/// A copy of a list of text pairs.
pub fn clone_pairs(v: &Vec<(String, String)>) -> (r: Vec<(String, String)>)
    ensures
        pairs_view(r@) == pairs_view(v@),
{
    let mut r: Vec<(String, String)> = Vec::new();
    let mut i: usize = 0;
    while i < v.len()
        invariant
            i <= v@.len(),
            r@.len() == i,
            pairs_view(r@) == pairs_view(v@).take(i as int),
        decreases v@.len() - i,
    {
        let pair = (v[i].0.clone(), v[i].1.clone());
        let ghost old_r = r@;
        r.push(pair);
        assert(r@ == old_r.push(pair));
        assert(pairs_view(r@)[i as int] == (v@[i as int].0@, v@[i as int].1@));
        assert forall|k: int| 0 <= k < i implies pairs_view(r@)[k] == pairs_view(old_r)[k] by {
            assert(r@[k] == old_r[k]);
        }
        assert(pairs_view(r@) =~= pairs_view(v@).take(i + 1));
        i = i + 1;
    }
    assert(pairs_view(v@).take(v@.len() as int) =~= pairs_view(v@));
    r
}

/// Two log records coalesce when they would render identically.
pub open spec fn same_record(a: LogRecord, b: LogRecord) -> bool {
    &&& a.level == b.level
    &&& a.message@ == b.message@
    &&& pairs_view(a.details@) == pairs_view(b.details@)
}

impl LogRecord {
    pub fn new(level: LogLevel, message: &str) -> (r: LogRecord)
        ensures
            r.id == 0,
            r.level == level,
            r.message@ == message@,
            r.details@.len() == 0,
            r.source is None,
            r.at@ == 0,
            r.count == 1,
    {
        LogRecord {
            id: 0,
            level,
            message: message.to_owned(),
            details: Vec::new(),
            source: None,
            at: Duration::zero(),
            count: 1,
        }
    }

    pub fn detail(self, key: &str, value: &str) -> (r: LogRecord)
        ensures
            r == (LogRecord { details: r.details, ..self }),
            pairs_view(r.details@) == pairs_view(self.details@).push((key@, value@)),
    {
        let mut this = self;
        let ghost before = this.details@;
        this.details.push((key.to_owned(), value.to_owned()));
        assert(pairs_view(this.details@) =~= pairs_view(before).push((key@, value@)));
        this
    }

    pub fn details(self, rows: Vec<(String, String)>) -> (r: LogRecord)
        ensures
            r == (LogRecord { details: r.details, ..self }),
            r.details@ == self.details@ + rows@,
    {
        let mut this = self;
        let mut rows = rows;
        this.details.append(&mut rows);
        this
    }

    pub fn source(self, source: SourceRef) -> (r: LogRecord)
        ensures
            r == (LogRecord { source: Some(source), ..self }),
    {
        let mut this = self;
        this.source = Some(source);
        this
    }

    /// Two records coalesce when they would render identically.
    fn same_as(&self, other: &LogRecord) -> (r: bool)
        ensures
            r == same_record(*self, *other),
    {
        self.level == other.level && self.message == other.message && same_pairs(
            &self.details,
            &other.details,
        )
    }
}

/// What kind of resource a request fetched. Drives the Network panel's type
/// filter and the waterfall color.
#[derive(Debug, Clone, Copy, PartialEq, Eq, Structural, Hash)]
pub enum ResourceKind {
    Document,
    Stylesheet,
    Image,
    Font,
    Script,
    /// `XHR` and `fetch` in Safari; any app-level API call here.
    Fetch,
    WebSocket,
    Media,
    Other,
}

impl Default for ResourceKind {
    fn default() -> (r: ResourceKind)
        ensures
            r == ResourceKind::Other,
    {
        ResourceKind::Other
    }
}

impl ResourceKind {
    pub fn label(self) -> (r: &'static str)
        ensures
            r@ == match self {
                ResourceKind::Document => "Document"@,
                ResourceKind::Stylesheet => "Stylesheet"@,
                ResourceKind::Image => "Image"@,
                ResourceKind::Font => "Font"@,
                ResourceKind::Script => "Script"@,
                ResourceKind::Fetch => "Fetch"@,
                ResourceKind::WebSocket => "Socket"@,
                ResourceKind::Media => "Media"@,
                ResourceKind::Other => "Other"@,
            },
    {
        match self {
            ResourceKind::Document => "Document",
            ResourceKind::Stylesheet => "Stylesheet",
            ResourceKind::Image => "Image",
            ResourceKind::Font => "Font",
            ResourceKind::Script => "Script",
            ResourceKind::Fetch => "Fetch",
            ResourceKind::WebSocket => "Socket",
            ResourceKind::Media => "Media",
            ResourceKind::Other => "Other",
        }
    }
}

/// The phase breakdown behind the waterfall bar. Each field is the time spent
/// in that phase, so a partially-complete request has later phases at zero.
#[derive(Debug, Clone, Copy, PartialEq, Eq)]
pub struct Timings {
    pub stalled: Duration,
    pub dns: Duration,
    pub connect: Duration,
    pub tls: Duration,
    pub request: Duration,
    pub response: Duration,
}

/// The total time of all six phases.
pub open spec fn timings_total(t: Timings) -> nat {
    t.stalled@ + t.dns@ + t.connect@ + t.tls@ + t.request@ + t.response@
}

/// `s` with `(name, d)` appended when `d` is not zero.
pub open spec fn keep_phase(s: Seq<(Seq<char>, nat)>, name: Seq<char>, d: nat) -> Seq<(Seq<char>, nat)> {
    if d == 0 { s } else { s.push((name, d)) }
}

/// The non-empty phases in waterfall order.
pub open spec fn timings_phases(t: Timings) -> Seq<(Seq<char>, nat)> {
    let s = keep_phase(Seq::empty(), "Stalled"@, t.stalled@);
    let s = keep_phase(s, "DNS"@, t.dns@);
    let s = keep_phase(s, "Connect"@, t.connect@);
    let s = keep_phase(s, "Secure"@, t.tls@);
    let s = keep_phase(s, "Request"@, t.request@);
    keep_phase(s, "Response"@, t.response@)
}

/// A list of named spans, by characters and nanoseconds.
pub open spec fn phases_view(v: Seq<(&'static str, Duration)>) -> Seq<(Seq<char>, nat)> {
    v.map_values(|p: (&'static str, Duration)| (p.0@, p.1@))
}

impl Default for Timings {
    fn default() -> (r: Timings)
        ensures
            timings_total(r) == 0,
            r.stalled@ == 0 && r.dns@ == 0 && r.connect@ == 0,
            r.tls@ == 0 && r.request@ == 0 && r.response@ == 0,
    {
        Timings {
            stalled: Duration::zero(),
            dns: Duration::zero(),
            connect: Duration::zero(),
            tls: Duration::zero(),
            request: Duration::zero(),
            response: Duration::zero(),
        }
    }
}

fn push_phase(out: &mut Vec<(&'static str, Duration)>, name: &'static str, d: Duration)
    ensures
        phases_view(final(out)@) == keep_phase(phases_view(old(out)@), name@, d@),
{
    let ghost before = out@;
    if !d.is_zero() {
        out.push((name, d));
        assert(phases_view(out@) =~= phases_view(before).push((name@, d@))) by {
            assert(out@ == before.push((name, d)));
            assert forall|k: int| 0 <= k < before.len() implies phases_view(out@)[k] == phases_view(before)[k] by {
                assert(out@[k] == before[k]);
            }
        }
    }
}

impl Timings {
    /// The whole request, end to end. Like the sum of `std::time::Duration`s,
    /// the total must stay within range.
    pub fn total(&self) -> (r: Duration)
        requires
            timings_total(*self) <= MAX_NANOS,
        ensures
            r@ == timings_total(*self),
    {
        self.stalled.add(self.dns).add(self.connect).add(self.tls).add(self.request).add(
            self.response,
        )
    }

    /// The phases in waterfall order, skipping the ones that took no time.
    pub fn phases(&self) -> (r: Vec<(&'static str, Duration)>)
        ensures
            phases_view(r@) == timings_phases(*self),
    {
        let mut out: Vec<(&'static str, Duration)> = Vec::new();
        assert(phases_view(out@) =~= Seq::<(Seq<char>, nat)>::empty());
        push_phase(&mut out, "Stalled", self.stalled);
        push_phase(&mut out, "DNS", self.dns);
        push_phase(&mut out, "Connect", self.connect);
        push_phase(&mut out, "Secure", self.tls);
        push_phase(&mut out, "Request", self.request);
        push_phase(&mut out, "Response", self.response);
        out
    }
}

/// How far along a request is. A record starts `Pending` and the host settles
/// it later by id.
#[derive(Debug, Clone, Copy, PartialEq, Eq, Structural)]
pub enum RequestState {
    Pending,
    Finished,
    Failed,
    Canceled,
}

impl Default for RequestState {
    fn default() -> (r: RequestState)
        ensures
            r == RequestState::Pending,
    {
        RequestState::Pending
    }
}

/// One network request.
#[derive(Debug)]
pub struct NetworkRecord {
    pub id: u64,
    pub method: String,
    pub url: String,
    pub kind: ResourceKind,
    pub state: RequestState,
    pub status: Option<u16>,
    pub status_text: String,
    pub protocol: String,
    pub remote_address: String,
    pub priority: String,
    /// Bytes on the wire, after compression.
    pub transfer_size: u64,
    /// Bytes after decoding — what the app actually received.
    pub resource_size: u64,
    pub cached: bool,
    pub request_headers: Vec<(String, String)>,
    pub response_headers: Vec<(String, String)>,
    pub request_body: Option<String>,
    pub response_body: Option<String>,
    pub initiator: Option<SourceRef>,
    pub error: Option<String>,
    /// When the request started, relative to the store's epoch.
    pub start: Duration,
    pub timings: Timings,
}

/// The part of a URL after its `://`, or all of it when it has none.
pub open spec fn after_scheme(url: Seq<char>) -> Seq<char> {
    let i = find_pat(url, seq![':', '/', '/']);
    if i >= 0 { url.subrange(i + 3, url.len() as int) } else { url }
}

/// The Name column: the last path segment, or the host for a bare origin.
pub open spec fn url_name(url: Seq<char>) -> Seq<char> {
    let rest = after_scheme(url);
    let path = rest.subrange(0, first_of(rest, seq!['?', '#']) as int);
    let slash = last_of(path, '/');
    if slash >= 0 && slash + 1 < path.len() {
        path.subrange(slash + 1, path.len() as int)
    } else {
        path.subrange(0, first_of(path, seq!['/']) as int)
    }
}

/// The Domain column: the host part after the scheme.
pub open spec fn url_domain(url: Seq<char>) -> Seq<char> {
    let rest = after_scheme(url);
    rest.subrange(0, first_of(rest, seq!['/', '?', '#']) as int)
}

/// The Scheme column: what precedes `://`, or nothing.
pub open spec fn url_scheme(url: Seq<char>) -> Seq<char> {
    let i = find_pat(url, seq![':', '/', '/']);
    if i >= 0 { url.subrange(0, i) } else { Seq::empty() }
}

/// The index in `chars` where the part after `://` starts.
fn scheme_end(chars: &Vec<char>) -> (r: usize)
    ensures
        r <= chars@.len(),
        chars@.subrange(r as int, chars@.len() as int) == after_scheme(chars@),
        find_pat(chars@, seq![':', '/', '/']) >= 0 ==> r == find_pat(chars@, seq![':', '/', '/']) + 3,
        find_pat(chars@, seq![':', '/', '/']) < 0 ==> r == 0,
{
    let n = chars.len();
    let pat = vec![':', '/', '/'];
    assert(pat@ =~= seq![':', '/', '/']);
    match find_pattern(chars, &pat) {
        Some(i) => i + 3,
        None => {
            assert(chars@.subrange(0, chars@.len() as int) =~= chars@);
            0
        },
    }
}

impl NetworkRecord {
    pub fn new(method: &str, url: &str) -> (r: NetworkRecord)
        ensures
            r.id == 0,
            r.method@ == method@,
            r.url@ == url@,
            r.kind == ResourceKind::Other,
            r.state == RequestState::Pending,
            r.status is None,
            r.status_text@.len() == 0,
            r.protocol@.len() == 0,
            r.remote_address@.len() == 0,
            r.priority@.len() == 0,
            r.transfer_size == 0,
            r.resource_size == 0,
            !r.cached,
            r.request_headers@.len() == 0,
            r.response_headers@.len() == 0,
            r.request_body is None,
            r.response_body is None,
            r.initiator is None,
            r.error is None,
            r.start@ == 0,
            timings_total(r.timings) == 0,
    {
        NetworkRecord {
            id: 0,
            method: method.to_owned(),
            url: url.to_owned(),
            kind: ResourceKind::Other,
            state: RequestState::Pending,
            status: None,
            status_text: String::new(),
            protocol: String::new(),
            remote_address: String::new(),
            priority: String::new(),
            transfer_size: 0,
            resource_size: 0,
            cached: false,
            request_headers: Vec::new(),
            response_headers: Vec::new(),
            request_body: None,
            response_body: None,
            initiator: None,
            error: None,
            start: Duration::zero(),
            timings: Timings::default(),
        }
    }

    pub fn kind(self, kind: ResourceKind) -> (r: NetworkRecord)
        ensures
            r == (NetworkRecord { kind, ..self }),
    {
        let mut this = self;
        this.kind = kind;
        this
    }

    pub fn status(self, status: u16, text: &str) -> (r: NetworkRecord)
        ensures
            r == (NetworkRecord { status: Some(status), status_text: r.status_text, ..self }),
            r.status_text@ == text@,
    {
        let mut this = self;
        this.status = Some(status);
        this.status_text = text.to_owned();
        this
    }

    pub fn sizes(self, transfer: u64, resource: u64) -> (r: NetworkRecord)
        ensures
            r == (NetworkRecord { transfer_size: transfer, resource_size: resource, ..self }),
    {
        let mut this = self;
        this.transfer_size = transfer;
        this.resource_size = resource;
        this
    }

    pub fn timings(self, timings: Timings) -> (r: NetworkRecord)
        ensures
            r == (NetworkRecord { timings, ..self }),
    {
        let mut this = self;
        this.timings = timings;
        this
    }

    pub fn request_header(self, name: &str, value: &str) -> (r: NetworkRecord)
        ensures
            r == (NetworkRecord { request_headers: r.request_headers, ..self }),
            pairs_view(r.request_headers@) == pairs_view(self.request_headers@).push((name@, value@)),
    {
        let mut this = self;
        let ghost before = this.request_headers@;
        this.request_headers.push((name.to_owned(), value.to_owned()));
        assert(pairs_view(this.request_headers@) =~= pairs_view(before).push((name@, value@)));
        this
    }

    pub fn response_header(self, name: &str, value: &str) -> (r: NetworkRecord)
        ensures
            r == (NetworkRecord { response_headers: r.response_headers, ..self }),
            pairs_view(r.response_headers@) == pairs_view(self.response_headers@).push((name@, value@)),
    {
        let mut this = self;
        let ghost before = this.response_headers@;
        this.response_headers.push((name.to_owned(), value.to_owned()));
        assert(pairs_view(this.response_headers@) =~= pairs_view(before).push((name@, value@)));
        this
    }

    pub fn request_body(self, body: &str) -> (r: NetworkRecord)
        ensures
            r == (NetworkRecord { request_body: r.request_body, ..self }),
            r.request_body matches Some(b) && b@ == body@,
    {
        let mut this = self;
        this.request_body = Some(body.to_owned());
        this
    }

    pub fn response_body(self, body: &str) -> (r: NetworkRecord)
        ensures
            r == (NetworkRecord { response_body: r.response_body, ..self }),
            r.response_body matches Some(b) && b@ == body@,
    {
        let mut this = self;
        this.response_body = Some(body.to_owned());
        this
    }

    pub fn initiator(self, source: SourceRef) -> (r: NetworkRecord)
        ensures
            r == (NetworkRecord { initiator: Some(source), ..self }),
    {
        let mut this = self;
        this.initiator = Some(source);
        this
    }

    pub fn finished(self) -> (r: NetworkRecord)
        ensures
            r == (NetworkRecord { state: RequestState::Finished, ..self }),
    {
        let mut this = self;
        this.state = RequestState::Finished;
        this
    }

    pub fn failed(self, error: &str) -> (r: NetworkRecord)
        ensures
            r == (NetworkRecord { state: RequestState::Failed, error: r.error, ..self }),
            r.error matches Some(e) && e@ == error@,
    {
        let mut this = self;
        this.state = RequestState::Failed;
        this.error = Some(error.to_owned());
        this
    }

    /// The Name column: the last path segment, or the host for a bare origin.
    pub fn name(&self) -> (r: &str)
        ensures
            r@ == url_name(self.url@),
    {
        let chars = to_chars(self.url.as_str());
        let n = chars.len();
        let rest_start = scheme_end(&chars);
        let ghost rest = chars@.subrange(rest_start as int, n as int);
        // The path runs from the end of the scheme to the first `?` or `#`.
        let mut tail: Vec<char> = Vec::new();
        let mut k = rest_start;
        while k < n
            invariant
                rest_start <= k <= n == chars@.len(),
                tail@ == chars@.subrange(rest_start as int, k as int),
            decreases n - k,
        {
            tail.push(chars[k]);
            assert(tail@ =~= chars@.subrange(rest_start as int, k + 1));
            k = k + 1;
        }
        assert(tail@ == rest);
        let stops = vec!['?', '#'];
        assert(stops@ =~= seq!['?', '#']);
        let path_len = first_index_of(&tail, &stops);
        let mut path: Vec<char> = Vec::new();
        let mut j: usize = 0;
        while j < path_len
            invariant
                path_len <= tail@.len(),
                j <= path_len,
                path@ == tail@.subrange(0, j as int),
            decreases path_len - j,
        {
            path.push(tail[j]);
            assert(path@ =~= tail@.subrange(0, j + 1));
            j = j + 1;
        }
        let slash = vec!['/'];
        assert(slash@ =~= seq!['/']);
        match last_index_of(&path, '/') {
            Some(i) if i + 1 < path_len => {
                assert(chars@.subrange((rest_start + i + 1) as int, (rest_start + path_len) as int)
                    =~= path@.subrange(i + 1, path_len as int));
                self.url.as_str().substring_char(rest_start + i + 1, rest_start + path_len)
            },
            _ => {
                let first = first_index_of(&path, &slash);
                assert(chars@.subrange(rest_start as int, (rest_start + first) as int)
                    =~= path@.subrange(0, first as int));
                self.url.as_str().substring_char(rest_start, rest_start + first)
            },
        }
    }

    /// The Domain column.
    pub fn domain(&self) -> (r: &str)
        ensures
            r@ == url_domain(self.url@),
    {
        let chars = to_chars(self.url.as_str());
        let n = chars.len();
        let rest_start = scheme_end(&chars);
        let mut tail: Vec<char> = Vec::new();
        let mut k = rest_start;
        while k < n
            invariant
                rest_start <= k <= n == chars@.len(),
                tail@ == chars@.subrange(rest_start as int, k as int),
            decreases n - k,
        {
            tail.push(chars[k]);
            assert(tail@ =~= chars@.subrange(rest_start as int, k + 1));
            k = k + 1;
        }
        let stops = vec!['/', '?', '#'];
        assert(stops@ =~= seq!['/', '?', '#']);
        let end = first_index_of(&tail, &stops);
        assert(chars@.subrange(rest_start as int, (rest_start + end) as int) =~= tail@.subrange(0, end as int));
        self.url.as_str().substring_char(rest_start, rest_start + end)
    }

    /// The Scheme column.
    pub fn scheme(&self) -> (r: &str)
        ensures
            r@ == url_scheme(self.url@),
    {
        let chars = to_chars(self.url.as_str());
        let pat = vec![':', '/', '/'];
        assert(pat@ =~= seq![':', '/', '/']);
        match find_pattern(&chars, &pat) {
            Some(i) => self.url.as_str().substring_char(0, i),
            None => self.url.as_str().substring_char(0, 0),
        }
    }

    /// Whether the row renders in the error color: a transport failure, or
    /// any 4xx/5xx response.
    pub fn is_error(&self) -> (r: bool)
        ensures
            r == (self.state == RequestState::Failed || (self.status matches Some(s) && s >= 400)),
    {
        self.state == RequestState::Failed || match self.status {
            Some(s) => s >= 400,
            None => false,
        }
    }

    pub fn duration(&self) -> (r: Duration)
        requires
            timings_total(self.timings) <= MAX_NANOS,
        ensures
            r@ == timings_total(self.timings),
    {
        self.timings.total()
    }
}

/// What a storage domain holds. Only affects the icon and the sidebar grouping.
#[derive(Debug, Clone, Copy, PartialEq, Eq, Structural)]
pub enum StorageKind {
    /// Persisted settings — the native analogue of Local Storage.
    Local,
    /// In-memory state that dies with the process.
    Session,
    Cookies,
    /// A structured store: a database, an index.
    Database,
    Cache,
}

impl Default for StorageKind {
    fn default() -> (r: StorageKind)
        ensures
            r == StorageKind::Local,
    {
        StorageKind::Local
    }
}

impl StorageKind {
    pub fn label(self) -> (r: &'static str)
        ensures
            r@ == match self {
                StorageKind::Local => "Local Storage"@,
                StorageKind::Session => "Session Storage"@,
                StorageKind::Cookies => "Cookies"@,
                StorageKind::Database => "Databases"@,
                StorageKind::Cache => "Caches"@,
            },
    {
        match self {
            StorageKind::Local => "Local Storage",
            StorageKind::Session => "Session Storage",
            StorageKind::Cookies => "Cookies",
            StorageKind::Database => "Databases",
            StorageKind::Cache => "Caches",
        }
    }
}

/// One row in a storage domain.
#[derive(Debug)]
pub struct StorageEntry {
    pub key: String,
    pub value: String,
    /// Extra columns — cookie domain/path/expiry, a record's type, and so on.
    pub extra: Vec<(String, String)>,
}

impl StorageEntry {
    pub fn new(key: &str, value: &str) -> (r: StorageEntry)
        ensures
            r.key@ == key@,
            r.value@ == value@,
            r.extra@.len() == 0,
    {
        StorageEntry { key: key.to_owned(), value: value.to_owned(), extra: Vec::new() }
    }

    pub fn extra(self, name: &str, value: &str) -> (r: StorageEntry)
        ensures
            r.key == self.key,
            r.value == self.value,
            pairs_view(r.extra@) == pairs_view(self.extra@).push((name@, value@)),
    {
        let mut this = self;
        let ghost before = this.extra@;
        this.extra.push((name.to_owned(), value.to_owned()));
        assert(pairs_view(this.extra@) =~= pairs_view(before).push((name@, value@)));
        this
    }
}

/// A named collection of storage rows, listed in the Storage panel's sidebar.
#[derive(Debug)]
pub struct StorageDomain {
    pub id: String,
    pub name: String,
    pub kind: StorageKind,
    pub entries: Vec<StorageEntry>,
    /// Extra column headers beyond Key and Value.
    pub columns: Vec<String>,
}

/// The bytes of every key and value among `entries`, in UTF-8.
pub open spec fn entries_size(entries: Seq<StorageEntry>) -> nat
    decreases entries.len(),
{
    if entries.len() == 0 {
        0
    } else {
        entries_size(entries.drop_last()) + utf8_len(entries.last().key@) + utf8_len(
            entries.last().value@,
        )
    }
}

proof fn lemma_entries_size_prefix(entries: Seq<StorageEntry>, n: int)
    requires
        0 <= n <= entries.len(),
    ensures
        entries_size(entries.take(n)) <= entries_size(entries),
    decreases entries.len(),
{
    if n < entries.len() {
        assert(entries.drop_last().take(n) =~= entries.take(n));
        lemma_entries_size_prefix(entries.drop_last(), n);
    } else {
        assert(entries.take(n) =~= entries);
    }
}

/// The UTF-8 byte length of a run of characters.
pub open spec fn utf8_len(s: Seq<char>) -> nat {
    vstd::utf8::encode_utf8(s).len()
}

impl StorageDomain {
    pub fn new(id: &str, name: &str) -> (r: StorageDomain)
        ensures
            r.id@ == id@,
            r.name@ == name@,
            r.kind == StorageKind::Local,
            r.entries@.len() == 0,
            r.columns@.len() == 0,
    {
        StorageDomain {
            id: id.to_owned(),
            name: name.to_owned(),
            kind: StorageKind::Local,
            entries: Vec::new(),
            columns: Vec::new(),
        }
    }

    pub fn kind(self, kind: StorageKind) -> (r: StorageDomain)
        ensures
            r == (StorageDomain { kind, ..self }),
    {
        let mut this = self;
        this.kind = kind;
        this
    }

    pub fn columns(self, columns: Vec<String>) -> (r: StorageDomain)
        ensures
            r == (StorageDomain { columns, ..self }),
    {
        let mut this = self;
        this.columns = columns;
        this
    }

    pub fn entry(self, entry: StorageEntry) -> (r: StorageDomain)
        ensures
            r == (StorageDomain { entries: r.entries, ..self }),
            r.entries@ == self.entries@.push(entry),
    {
        let mut this = self;
        this.entries.push(entry);
        this
    }

    /// Total bytes, as the Storage panel's footer reports.
    pub fn size(&self) -> (r: u64)
        requires
            entries_size(self.entries@) <= u64::MAX,
            forall|i: int|
                0 <= i < self.entries@.len() ==> utf8_len(#[trigger] self.entries@[i].key@) <= usize::MAX
                    && utf8_len(self.entries@[i].value@) <= usize::MAX,
        ensures
            r == entries_size(self.entries@),
    {
        let mut total: u64 = 0;
        let mut i: usize = 0;
        while i < self.entries.len()
            invariant
                i <= self.entries@.len(),
                entries_size(self.entries@) <= u64::MAX,
                forall|i: int|
                    0 <= i < self.entries@.len() ==> utf8_len(#[trigger] self.entries@[i].key@) <= usize::MAX
                        && utf8_len(self.entries@[i].value@) <= usize::MAX,
                total == entries_size(self.entries@.take(i as int)),
            decreases self.entries@.len() - i,
        {
            proof {
                lemma_entries_size_prefix(self.entries@, i as int + 1);
                assert(self.entries@.take(i + 1).drop_last() =~= self.entries@.take(i as int));
            }
            let k = self.entries[i].key.as_str().len() as u64;
            let v = self.entries[i].value.as_str().len() as u64;
            assert(self.entries@.take(i + 1).last() == self.entries@[i as int]);
            assert(k == utf8_len(self.entries@[i as int].key@));
            assert(v == utf8_len(self.entries@[i as int].value@));
            total = total + k + v;
            i = i + 1;
        }
        assert(self.entries@.take(i as int) =~= self.entries@);
        total
    }

    pub fn entries(self, entries: Vec<StorageEntry>) -> (r: StorageDomain)
        ensures
            r == (StorageDomain { entries: r.entries, ..self }),
            r.entries@ == self.entries@ + entries@,
    {
        let mut this = self;
        let mut entries = entries;
        this.entries.append(&mut entries);
        this
    }
}

/// A band on the Timelines panel.
#[derive(Debug, Clone, Copy, PartialEq, Eq, Structural, Hash)]
pub enum TimelineKind {
    /// A rendered frame — the band that reveals dropped frames.
    Frame,
    Layout,
    Paint,
    /// App work: a handler, a task, a computation.
    Script,
    Network,
}

impl Default for TimelineKind {
    fn default() -> (r: TimelineKind)
        ensures
            r == TimelineKind::Frame,
    {
        TimelineKind::Frame
    }
}

impl TimelineKind {
    pub fn label(self) -> (r: &'static str)
        ensures
            r@ == match self {
                TimelineKind::Frame => "Frames"@,
                TimelineKind::Layout => "Layout"@,
                TimelineKind::Paint => "Rendering"@,
                TimelineKind::Script => "JavaScript & Events"@,
                TimelineKind::Network => "Network Requests"@,
            },
    {
        match self {
            TimelineKind::Frame => "Frames",
            TimelineKind::Layout => "Layout",
            TimelineKind::Paint => "Rendering",
            TimelineKind::Script => "JavaScript & Events",
            TimelineKind::Network => "Network Requests",
        }
    }
}

/// One span on a timeline band.
#[derive(Debug)]
pub struct TimelineEvent {
    pub id: u64,
    pub kind: TimelineKind,
    pub label: String,
    pub start: Duration,
    pub duration: Duration,
    pub source: Option<SourceRef>,
}

impl TimelineEvent {
    pub fn new(kind: TimelineKind, label: &str, duration: Duration) -> (r: TimelineEvent)
        ensures
            r.id == 0,
            r.kind == kind,
            r.label@ == label@,
            r.start@ == 0,
            r.duration == duration,
            r.source is None,
    {
        TimelineEvent {
            id: 0,
            kind,
            label: label.to_owned(),
            start: Duration::zero(),
            duration,
            source: None,
        }
    }

    /// Where the span ends. Like a sum of `std::time::Duration`s, it must stay
    /// within range.
    pub fn end(&self) -> (r: Duration)
        requires
            self.start@ + self.duration@ <= MAX_NANOS,
        ensures
            r@ == self.start@ + self.duration@,
    {
        self.start.add(self.duration)
    }
}

/// How many records each store keeps before evicting the oldest.
#[derive(Debug, Clone, Copy, PartialEq, Eq, Structural)]
pub struct Limits {
    pub logs: usize,
    pub network: usize,
    pub timeline: usize,
}

impl Default for Limits {
    fn default() -> (r: Limits)
        ensures
            r == (Limits { logs: 1000, network: 1000, timeline: 4000 }),
    {
        Limits { logs: 1000, network: 1000, timeline: 4000 }
    }
}

/// How many frame intervals the Frames graph keeps.
pub const FRAME_HISTORY: usize = 240;

/// A frame gap at least this long means the window was idle, not slow.
pub const IDLE_GAP_NANOS: u128 = 1_000_000_000;

/// The clock the store stamps its records on.
#[verifier::external_type_specification]
#[verifier::external_body]
pub struct ExInstant(std::time::Instant);

/// Calls `std::time::Instant::now`. Nothing is claimed of the reading.
#[verifier::external_body]
fn instant_now() -> std::time::Instant {
    std::time::Instant::now()
}

/// Calls `std::time::Instant::elapsed` and reads it as nanoseconds. Claims only
/// that the result lies within the range of `std::time::Duration`, which
/// bounds every elapsed time; the reading itself depends on the clock.
#[verifier::external_body]
fn elapsed_nanos(epoch: &std::time::Instant) -> (r: u128)
    ensures
        r <= MAX_NANOS,
{
    epoch.elapsed().as_nanos()
}

/// What the store holds, as the panels see it.
pub struct StateView {
    pub next_id: nat,
    pub generation: nat,
    pub limits: Limits,
    pub logs: Seq<LogRecord>,
    pub network: Seq<NetworkRecord>,
    pub timeline: Seq<TimelineEvent>,
    pub storage: Seq<StorageDomain>,
    /// Frame intervals in nanoseconds, newest last.
    pub frames: Seq<nat>,
    /// When the last frame landed, in nanoseconds since the epoch.
    pub last_frame: Option<nat>,
}

/// The newest `cap` elements of `s`: a ring's oldest-first eviction.
pub open spec fn trim<T>(s: Seq<T>, cap: nat) -> Seq<T> {
    if s.len() > cap {
        s.subrange(s.len() - cap, s.len() as int)
    } else {
        s
    }
}

/// Whether `record` folds into the previous log line instead of adding one.
pub open spec fn log_coalesces(v: StateView, record: LogRecord) -> bool {
    v.logs.len() > 0 && same_record(v.logs.last(), record)
}

/// The store after logging `record` at `at`: a repeat of the last line bumps
/// its tally; anything else is stamped with the next id and appended, and the
/// oldest lines past the limit are dropped.
pub open spec fn logged(v: StateView, record: LogRecord, at: Duration) -> StateView {
    if log_coalesces(v, record) {
        let last = v.logs.last();
        StateView {
            logs: v.logs.update(v.logs.len() - 1, LogRecord { count: (last.count + 1) as usize, ..last }),
            generation: v.generation + 1,
            ..v
        }
    } else {
        StateView {
            logs: trim(v.logs.push(LogRecord { id: v.next_id as u64, at, ..record }), v.limits.logs as nat),
            generation: v.generation + 1,
            next_id: v.next_id + 1,
            ..v
        }
    }
}

/// The counters `logged` advances all stay within range.
pub open spec fn can_log(v: StateView, record: LogRecord) -> bool {
    &&& v.generation < u64::MAX
    &&& log_coalesces(v, record) ==> v.logs.last().count < usize::MAX
    &&& !log_coalesces(v, record) ==> v.next_id < u64::MAX
}

/// The store after a request starts at `now`: stamped with the next id, its
/// start filled in when the host left it at zero, then appended.
pub open spec fn requested(v: StateView, record: NetworkRecord, now: Duration) -> StateView {
    let start = if record.start@ == 0 { now } else { record.start };
    StateView {
        network: trim(
            v.network.push(NetworkRecord { id: v.next_id as u64, start, ..record }),
            v.limits.network as nat,
        ),
        generation: v.generation + 1,
        next_id: v.next_id + 1,
        ..v
    }
}

/// The position of the first request with `id`, or `-1`.
pub open spec fn find_request(s: Seq<NetworkRecord>, id: u64) -> int
    decreases s.len(),
{
    if s.len() == 0 {
        -1
    } else if s[0].id == id {
        0
    } else {
        let r = find_request(s.drop_first(), id);
        if r < 0 { -1 } else { r + 1 }
    }
}

proof fn lemma_find_request(s: Seq<NetworkRecord>, id: u64, i: int)
    requires
        0 <= i <= s.len(),
        forall|j: int| 0 <= j < i ==> #[trigger] s[j].id != id,
        i < s.len() ==> s[i].id == id,
    ensures
        find_request(s, id) == if i < s.len() { i } else { -1 },
    decreases i,
{
    if i > 0 {
        let t = s.drop_first();
        assert forall|j: int| 0 <= j < i - 1 implies #[trigger] t[j].id != id by {
            assert(t[j] == s[j + 1]);
        }
        assert(s[0].id != id);
        lemma_find_request(t, id, i - 1);
    }
}

/// The position of the first storage domain whose id reads `id`, or `-1`.
pub open spec fn find_domain(s: Seq<StorageDomain>, id: Seq<char>) -> int
    decreases s.len(),
{
    if s.len() == 0 {
        -1
    } else if s[0].id@ == id {
        0
    } else {
        let r = find_domain(s.drop_first(), id);
        if r < 0 { -1 } else { r + 1 }
    }
}

pub(crate) proof fn lemma_find_domain(s: Seq<StorageDomain>, id: Seq<char>, i: int)
    requires
        0 <= i <= s.len(),
        forall|j: int| 0 <= j < i ==> #[trigger] s[j].id@ != id,
        i < s.len() ==> s[i].id@ == id,
    ensures
        find_domain(s, id) == if i < s.len() { i } else { -1 },
    decreases i,
{
    if i > 0 {
        let t = s.drop_first();
        assert forall|j: int| 0 <= j < i - 1 implies #[trigger] t[j].id@ != id by {
            assert(t[j] == s[j + 1]);
        }
        assert(s[0].id@ != id);
        lemma_find_domain(t, id, i - 1);
    }
}

/// The storage domains after registering `domain`: it replaces the first one
/// with the same id, or joins the end.
pub open spec fn stored(s: Seq<StorageDomain>, domain: StorageDomain) -> Seq<StorageDomain> {
    let i = find_domain(s, domain.id@);
    if i >= 0 { s.update(i, domain) } else { s.push(domain) }
}

/// The storage domains whose id does not read `id`, in order.
pub open spec fn without_domain(s: Seq<StorageDomain>, id: Seq<char>) -> Seq<StorageDomain>
    decreases s.len(),
{
    if s.len() == 0 {
        s
    } else if s.last().id@ == id {
        without_domain(s.drop_last(), id)
    } else {
        without_domain(s.drop_last(), id).push(s.last())
    }
}

/// The store after a timeline event lands at `now`: stamped with the next id,
/// and, when the host left its start at zero, placed so it ends at `now`.
pub open spec fn traced(v: StateView, event: TimelineEvent, now: Duration) -> StateView {
    let start = if event.start@ == 0 {
        Duration::spec_from_nanos(if now@ >= event.duration@ { (now@ - event.duration@) as nat } else { 0 })
    } else {
        event.start
    };
    StateView {
        timeline: trim(
            v.timeline.push(TimelineEvent { id: v.next_id as u64, start, ..event }),
            v.limits.timeline as nat,
        ),
        generation: v.generation + 1,
        next_id: v.next_id + 1,
        ..v
    }
}

/// The store after a frame lands at `now`: the interval since the previous
/// frame joins the graph unless it is an idle gap, `now` becomes the
/// previous frame, and the generation ticks.
pub open spec fn framed(v: StateView, now: nat) -> StateView {
    let frames = match v.last_frame {
        Some(previous) => {
            let delta: nat = if now >= previous { (now - previous) as nat } else { 0 };
            if delta < IDLE_GAP_NANOS { trim(v.frames.push(delta), FRAME_HISTORY as nat) } else { v.frames }
        },
        None => v.frames,
    };
    StateView { frames, last_frame: Some(now), generation: v.generation + 1, ..v }
}

/// The sum of the repeat tallies of the log lines at `level`.
pub open spec fn level_total(logs: Seq<LogRecord>, level: LogLevel) -> nat
    decreases logs.len(),
{
    if logs.len() == 0 {
        0
    } else {
        level_total(logs.drop_last(), level) + if logs.last().level == level {
            logs.last().count as nat
        } else {
            0
        }
    }
}

/// The earliest start among `s`, or zero when there are none.
pub open spec fn earliest_start(s: Seq<NetworkRecord>) -> nat
    decreases s.len(),
{
    if s.len() == 0 {
        0
    } else if s.len() == 1 {
        s[0].start@
    } else {
        let rest = earliest_start(s.drop_last());
        if s.last().start@ < rest { s.last().start@ } else { rest }
    }
}

/// The latest end among `s`, or zero when there are none.
pub open spec fn latest_end(s: Seq<NetworkRecord>) -> nat
    decreases s.len(),
{
    if s.len() == 0 {
        0
    } else {
        let end = s.last().start@ + timings_total(s.last().timings);
        let rest = latest_end(s.drop_last());
        if end > rest { end } else { rest }
    }
}

/// Total transfer and resource bytes across `s`.
pub open spec fn transfer_total(s: Seq<NetworkRecord>) -> nat
    decreases s.len(),
{
    if s.len() == 0 { 0 } else { transfer_total(s.drop_last()) + s.last().transfer_size as nat }
}

pub open spec fn resource_total(s: Seq<NetworkRecord>) -> nat
    decreases s.len(),
{
    if s.len() == 0 { 0 } else { resource_total(s.drop_last()) + s.last().resource_size as nat }
}

/// The nanoseconds of each span in `s`.
pub open spec fn nanos_of(s: Seq<Duration>) -> Seq<nat> {
    s.map_values(|d: Duration| d@)
}

/// Everything the inspector displays, and the only mutable state it owns.
pub struct DevToolsState {
    epoch: std::time::Instant,
    next_id: u64,
    generation: u64,
    limits: Limits,
    logs: VecDeque<LogRecord>,
    network: VecDeque<NetworkRecord>,
    timeline: VecDeque<TimelineEvent>,
    storage: Vec<StorageDomain>,
    /// Wall-clock frame durations, newest last — the Timelines FPS graph.
    frames: VecDeque<Duration>,
    /// When the last frame landed, relative to `epoch`.
    last_frame: Option<Duration>,
}

impl View for DevToolsState {
    type V = StateView;

    closed spec fn view(&self) -> StateView {
        StateView {
            next_id: self.next_id as nat,
            generation: self.generation as nat,
            limits: self.limits,
            logs: self.logs@,
            network: self.network@,
            timeline: self.timeline@,
            storage: self.storage@,
            frames: nanos_of(self.frames@),
            last_frame: match self.last_frame {
                Some(d) => Some(d@),
                None => None,
            },
        }
    }
}

/// Drop the oldest elements of `ring` until at most `cap` remain.
fn evict<T>(ring: &mut VecDeque<T>, cap: usize)
    ensures
        final(ring)@ == trim(old(ring)@, cap as nat),
{
    let ghost full = ring@;
    while ring.len() > cap
        invariant
            ring@.len() <= full.len(),
            ring@ == full.subrange(full.len() - ring@.len(), full.len() as int),
            full.len() > cap ==> ring@.len() >= cap,
            full.len() <= cap ==> ring@ == full,
        decreases ring@.len(),
    {
        let ghost before = ring@;
        ring.pop_front();
        assert(ring@ =~= full.subrange(full.len() - ring@.len(), full.len() as int));
    }
    assert(full.len() <= cap ==> ring@ =~= full);
}

impl Default for DevToolsState {
    fn default() -> (r: DevToolsState)
        ensures
            r@.next_id == 1,
            r@.generation == 0,
            r@.limits == (Limits { logs: 1000, network: 1000, timeline: 4000 }),
            r@.logs.len() == 0 && r@.network.len() == 0 && r@.timeline.len() == 0,
            r@.storage.len() == 0 && r@.frames.len() == 0 && r@.last_frame is None,
    {
        DevToolsState::new()
    }
}

impl DevToolsState {
    pub fn new() -> (r: DevToolsState)
        ensures
            r@.next_id == 1,
            r@.generation == 0,
            r@.limits == (Limits { logs: 1000, network: 1000, timeline: 4000 }),
            r@.logs.len() == 0 && r@.network.len() == 0 && r@.timeline.len() == 0,
            r@.storage.len() == 0 && r@.frames.len() == 0 && r@.last_frame is None,
    {
        let r = DevToolsState {
            epoch: instant_now(),
            next_id: 1,
            generation: 0,
            limits: Limits::default(),
            logs: VecDeque::new(),
            network: VecDeque::new(),
            timeline: VecDeque::new(),
            storage: Vec::new(),
            frames: VecDeque::new(),
            last_frame: None,
        };
        assert(nanos_of(r.frames@) =~= Seq::<nat>::empty());
        r
    }

    pub fn limits(self, limits: Limits) -> (r: DevToolsState)
        ensures
            r@ == (StateView { limits, ..self@ }),
    {
        let mut this = self;
        this.limits = limits;
        this
    }

    /// Whether one more change can be counted: the generation has not
    /// reached its ceiling.
    pub fn can_count(&self) -> (r: bool)
        ensures
            r == (self@.generation < u64::MAX),
    {
        self.generation < u64::MAX
    }

    /// Whether one more record can be stamped: both the generation and the
    /// next id are below their ceilings.
    pub fn can_stamp(&self) -> (r: bool)
        ensures
            r == (self@.generation < u64::MAX && self@.next_id < u64::MAX),
    {
        self.generation < u64::MAX && self.next_id < u64::MAX
    }

    /// Whether `record` can be logged without a counter overflowing.
    pub fn can_log(&self, record: &LogRecord) -> (r: bool)
        ensures
            r == can_log(self@, *record),
    {
        if self.generation == u64::MAX {
            return false;
        }
        let n = self.logs.len();
        if n > 0 && self.logs[n - 1].same_as(record) {
            self.logs[n - 1].count < usize::MAX
        } else {
            self.next_id < u64::MAX
        }
    }

    /// Bumped on every mutation, so a panel can tell "nothing changed" cheaply.
    pub fn generation(&self) -> (r: u64)
        ensures
            r == self@.generation,
    {
        self.generation
    }

    /// Time since the store was created — the clock every record is stamped
    /// on. What it reads depends on the clock.
    pub fn now(&self) -> (r: Duration) {
        Duration::from_total_nanos(elapsed_nanos(&self.epoch))
    }

    // --- logs ---------------------------------------------------------------

    /// Append a line, coalescing it into the previous one when identical.
    pub fn push_log(&mut self, record: LogRecord)
        requires
            can_log(old(self)@, record),
        ensures
            exists|at: Duration| final(self)@ == logged(old(self)@, record, at),
    {
        let at = self.now();
        self.push_log_at(record, at);
    }

    /// Append a line stamped `at`, coalescing it into the previous one when
    /// identical.
    pub fn push_log_at(&mut self, record: LogRecord, at: Duration)
        requires
            can_log(old(self)@, record),
        ensures
            final(self)@ == logged(old(self)@, record, at),
    {
        let n = self.logs.len();
        if n > 0 && self.logs[n - 1].same_as(&record) {
            let mut last = self.logs.pop_back().unwrap();
            last.count = last.count + 1;
            self.logs.push_back(last);
            self.generation = self.generation + 1;
            assert(self.logs@ =~= old(self)@.logs.update(n - 1, last));
            return;
        }
        let mut record = record;
        record.id = self.next_id;
        record.at = at;
        self.generation = self.generation + 1;
        self.next_id = self.next_id + 1;
        self.logs.push_back(record);
        evict(&mut self.logs, self.limits.logs);
    }

    pub fn logs(&self) -> (r: &VecDeque<LogRecord>)
        ensures
            r@ == self@.logs,
    {
        &self.logs
    }

    pub fn clear_logs(&mut self)
        requires
            old(self)@.generation < u64::MAX,
        ensures
            final(self)@ == (StateView {
                logs: Seq::empty(),
                generation: old(self)@.generation + 1,
                ..old(self)@
            }),
    {
        self.logs.clear();
        self.generation = self.generation + 1;
    }

    /// Warning and error tallies for the toolbar badges.
    pub fn log_issues(&self) -> (r: (usize, usize))
        requires
            level_total(self@.logs, LogLevel::Warning) <= usize::MAX,
            level_total(self@.logs, LogLevel::Error) <= usize::MAX,
        ensures
            r.0 == level_total(self@.logs, LogLevel::Warning),
            r.1 == level_total(self@.logs, LogLevel::Error),
    {
        let mut warnings: usize = 0;
        let mut errors: usize = 0;
        let mut i: usize = 0;
        while i < self.logs.len()
            invariant
                i <= self.logs@.len(),
                level_total(self.logs@, LogLevel::Warning) <= usize::MAX,
                level_total(self.logs@, LogLevel::Error) <= usize::MAX,
                warnings == level_total(self.logs@.take(i as int), LogLevel::Warning),
                errors == level_total(self.logs@.take(i as int), LogLevel::Error),
            decreases self.logs@.len() - i,
        {
            proof {
                assert(self.logs@.take(i + 1).drop_last() =~= self.logs@.take(i as int));
                lemma_level_total_prefix(self.logs@, i + 1, LogLevel::Warning);
                lemma_level_total_prefix(self.logs@, i + 1, LogLevel::Error);
            }
            match self.logs[i].level {
                LogLevel::Warning => warnings = warnings + self.logs[i].count,
                LogLevel::Error => errors = errors + self.logs[i].count,
                _ => {},
            }
            i = i + 1;
        }
        assert(self.logs@.take(i as int) =~= self.logs@);
        (warnings, errors)
    }
}

impl DevToolsState {
    // --- network -----------------------------------------------------------

    /// Record a request that has started. Returns its id, which the host
    /// keeps to settle the request later.
    pub fn push_network(&mut self, record: NetworkRecord) -> (id: u64)
        requires
            old(self)@.generation < u64::MAX,
            old(self)@.next_id < u64::MAX,
        ensures
            id == old(self)@.next_id,
            exists|now: Duration| final(self)@ == requested(old(self)@, record, now),
    {
        let now = self.now();
        self.push_network_at(record, now)
    }

    /// Record a request that started, stamping it at `now` when the host left
    /// its start at zero.
    pub fn push_network_at(&mut self, record: NetworkRecord, now: Duration) -> (id: u64)
        requires
            old(self)@.generation < u64::MAX,
            old(self)@.next_id < u64::MAX,
        ensures
            id == old(self)@.next_id,
            final(self)@ == requested(old(self)@, record, now),
    {
        let id = self.next_id;
        self.generation = self.generation + 1;
        self.next_id = self.next_id + 1;
        let mut record = record;
        record.id = id;
        if record.start.is_zero() {
            record.start = now;
        }
        self.network.push_back(record);
        evict(&mut self.network, self.limits.network);
        id
    }

    /// Amend a request in flight — the response landed, the transfer grew, it
    /// failed. `f` receives the record and returns its new state. Does
    /// nothing if the record was already evicted.
    pub fn update_network<F: FnOnce(NetworkRecord) -> NetworkRecord>(&mut self, id: u64, f: F)
        requires
            find_request(old(self)@.network, id) >= 0 ==> {
                &&& old(self)@.generation < u64::MAX
                &&& f.requires((old(self)@.network[find_request(old(self)@.network, id)],))
            },
        ensures
            find_request(old(self)@.network, id) < 0 ==> final(self)@ == old(self)@,
            find_request(old(self)@.network, id) >= 0 ==> exists|out: NetworkRecord|
                {
                    &&& #[trigger] f.ensures(
                        (old(self)@.network[find_request(old(self)@.network, id)],),
                        out,
                    )
                    &&& final(self)@ == (StateView {
                    network: old(self)@.network.update(find_request(old(self)@.network, id), out),
                    generation: old(self)@.generation + 1,
                    ..old(self)@
                })
            },
    {
        if let Some(i) = self.find_network(id) {
            let record = self.network.remove(i).unwrap();
            let out = f(record);
            self.network.insert(i, out);
            self.generation = self.generation + 1;
            assert(self.network@ =~= old(self)@.network.update(i as int, out));
        }
    }

    /// The position of the first request with `id`.
    fn find_network(&self, id: u64) -> (r: Option<usize>)
        ensures
            match r {
                Some(i) => i == find_request(self@.network, id) && i < self@.network.len(),
                None => find_request(self@.network, id) < 0,
            },
    {
        let mut i: usize = 0;
        while i < self.network.len()
            invariant
                i <= self.network@.len(),
                forall|j: int| 0 <= j < i ==> #[trigger] self.network@[j].id != id,
            decreases self.network@.len() - i,
        {
            if self.network[i].id == id {
                proof {
                    lemma_find_request(self.network@, id, i as int);
                }
                return Some(i);
            }
            i = i + 1;
        }
        proof {
            lemma_find_request(self.network@, id, i as int);
        }
        None
    }

    pub fn network(&self) -> (r: &VecDeque<NetworkRecord>)
        ensures
            r@ == self@.network,
    {
        &self.network
    }

    pub fn clear_network(&mut self)
        requires
            old(self)@.generation < u64::MAX,
        ensures
            final(self)@ == (StateView {
                network: Seq::empty(),
                generation: old(self)@.generation + 1,
                ..old(self)@
            }),
    {
        self.network.clear();
        self.generation = self.generation + 1;
    }

    /// The window the waterfall is drawn against: earliest start to latest
    /// end, never inverted.
    pub fn network_span(&self) -> (r: (Duration, Duration))
        requires
            forall|i: int|
                0 <= i < self@.network.len() ==> #[trigger] self@.network[i].start@ + timings_total(
                    self@.network[i].timings,
                ) <= MAX_NANOS,
        ensures
            r.0@ == earliest_start(self@.network),
            r.1@ == if latest_end(self@.network) >= earliest_start(self@.network) {
                latest_end(self@.network)
            } else {
                earliest_start(self@.network)
            },
    {
        let mut start = Duration::zero();
        let mut end = Duration::zero();
        let mut i: usize = 0;
        while i < self.network.len()
            invariant
                i <= self.network@.len(),
                forall|k: int|
                    0 <= k < self@.network.len() ==> #[trigger] self@.network[k].start@ + timings_total(
                        self@.network[k].timings,
                    ) <= MAX_NANOS,
                start@ == earliest_start(self.network@.take(i as int)),
                end@ == latest_end(self.network@.take(i as int)),
            decreases self.network@.len() - i,
        {
            let ghost prefix = self.network@.take(i + 1);
            assert(prefix.drop_last() =~= self.network@.take(i as int));
            assert(prefix.last() == self.network@[i as int]);
            let record = &self.network[i];
            assert(self@.network[i as int] == *record);
            assert(record.start@ + timings_total(record.timings) <= MAX_NANOS);
            let finish = record.start.add(record.duration());
            if i == 0 {
                start = record.start;
            } else {
                start = start.min(record.start);
            }
            end = end.max(finish);
            i = i + 1;
        }
        assert(self.network@.take(i as int) =~= self.network@);
        (start, end.max(start))
    }

    /// Row count, total transfer, and total resource bytes — the status bar.
    pub fn network_totals(&self) -> (r: (usize, u64, u64))
        requires
            transfer_total(self@.network) <= u64::MAX,
            resource_total(self@.network) <= u64::MAX,
        ensures
            r.0 == self@.network.len(),
            r.1 == transfer_total(self@.network),
            r.2 == resource_total(self@.network),
    {
        let mut transfer: u64 = 0;
        let mut resource: u64 = 0;
        let mut i: usize = 0;
        while i < self.network.len()
            invariant
                i <= self.network@.len(),
                transfer_total(self.network@) <= u64::MAX,
                resource_total(self.network@) <= u64::MAX,
                transfer == transfer_total(self.network@.take(i as int)),
                resource == resource_total(self.network@.take(i as int)),
            decreases self.network@.len() - i,
        {
            proof {
                assert(self.network@.take(i + 1).drop_last() =~= self.network@.take(i as int));
                lemma_totals_prefix(self.network@, i + 1);
            }
            transfer = transfer + self.network[i].transfer_size;
            resource = resource + self.network[i].resource_size;
            i = i + 1;
        }
        assert(self.network@.take(i as int) =~= self.network@);
        (self.network.len(), transfer, resource)
    }

    // --- storage -----------------------------------------------------------

    /// Register a domain, replacing any existing one with the same id.
    pub fn set_storage(&mut self, domain: StorageDomain)
        requires
            old(self)@.generation < u64::MAX,
        ensures
            final(self)@ == (StateView {
                storage: stored(old(self)@.storage, domain),
                generation: old(self)@.generation + 1,
                ..old(self)@
            }),
    {
        match find_storage(&self.storage, &domain.id) {
            Some(i) => self.storage.set(i, domain),
            None => self.storage.push(domain),
        }
        self.generation = self.generation + 1;
    }

    pub fn remove_storage(&mut self, id: &str)
        requires
            old(self)@.generation < u64::MAX,
        ensures
            final(self)@ == (StateView {
                storage: without_domain(old(self)@.storage, id@),
                generation: old(self)@.generation + 1,
                ..old(self)@
            }),
    {
        let mut kept: Vec<StorageDomain> = Vec::new();
        let mut old_domains: Vec<StorageDomain> = Vec::new();
        std::mem::swap(&mut old_domains, &mut self.storage);
        let ghost all = old_domains@;
        let target = id.to_owned();
        // Walk the domains front to back, keeping the ones that stay.
        let mut i: usize = 0;
        let n = old_domains.len();
        let mut source = old_domains;
        while i < n
            invariant
                n == all.len(),
                i <= n,
                source@ == all.subrange(i as int, n as int),
                target@ == id@,
                kept@ == without_domain(all.take(i as int), id@),
            decreases n - i,
        {
            let domain = source.remove(0);
            assert(source@ =~= all.subrange(i + 1, n as int));
            assert(domain == all[i as int]);
            assert(all.take(i + 1).drop_last() =~= all.take(i as int));
            assert(all.take(i + 1).last() == all[i as int]);
            let ghost t = all.take(i + 1);
            let ghost before = kept@;
            assert(without_domain(t, id@) == if t.last().id@ == id@ {
                without_domain(t.drop_last(), id@)
            } else {
                without_domain(t.drop_last(), id@).push(t.last())
            });
            let same = domain.id == target;
            if !same {
                kept.push(domain);
            }
            assert(kept@ == without_domain(t, id@));
            i = i + 1;
        }
        assert(all.take(n as int) =~= all);
        self.storage = kept;
        self.generation = self.generation + 1;
    }

    pub fn storage(&self) -> (r: &[StorageDomain])
        ensures
            r@ == self@.storage,
    {
        self.storage.as_slice()
    }

    // --- timelines ---------------------------------------------------------

    /// Record a timeline event, placing it so it ends now when the host left
    /// its start at zero.
    pub fn push_timeline(&mut self, event: TimelineEvent)
        requires
            old(self)@.generation < u64::MAX,
            old(self)@.next_id < u64::MAX,
        ensures
            exists|now: Duration| final(self)@ == traced(old(self)@, event, now),
    {
        let now = self.now();
        self.push_timeline_at(event, now);
    }

    /// Record a timeline event; one the host left at zero is placed so it
    /// ends at `now`.
    pub fn push_timeline_at(&mut self, event: TimelineEvent, now: Duration)
        requires
            old(self)@.generation < u64::MAX,
            old(self)@.next_id < u64::MAX,
        ensures
            final(self)@ == traced(old(self)@, event, now),
    {
        let mut event = event;
        event.id = self.next_id;
        self.generation = self.generation + 1;
        self.next_id = self.next_id + 1;
        if event.start.is_zero() {
            let _ = now.as_nanos();
            event.start = now.saturating_sub(event.duration);
            proof {
                let n: nat = if now@ >= event.duration@ { (now@ - event.duration@) as nat } else { 0 };
                assert(event.start@ == n);
                assert(Duration::spec_from_nanos(n)@ == n);
            }
        }
        self.timeline.push_back(event);
        evict(&mut self.timeline, self.limits.timeline);
    }

    pub fn timeline(&self) -> (r: &VecDeque<TimelineEvent>)
        ensures
            r@ == self@.timeline,
    {
        &self.timeline
    }

    pub fn clear_timeline(&mut self)
        requires
            old(self)@.generation < u64::MAX,
        ensures
            final(self)@ == (StateView {
                timeline: Seq::empty(),
                frames: Seq::empty(),
                last_frame: None,
                generation: old(self)@.generation + 1,
                ..old(self)@
            }),
    {
        self.timeline.clear();
        self.frames.clear();
        self.last_frame = None;
        self.generation = self.generation + 1;
        assert(nanos_of(self.frames@) =~= Seq::<nat>::empty());
    }

    /// Called once per rendered frame by the inspector itself.
    pub fn record_frame(&mut self)
        requires
            old(self)@.generation < u64::MAX,
        ensures
            exists|now: nat| final(self)@ == framed(old(self)@, now),
    {
        let now = self.now();
        self.record_frame_at(now);
    }

    /// A frame landed at `now`, measured from the store's epoch.
    pub fn record_frame_at(&mut self, now: Duration)
        requires
            old(self)@.generation < u64::MAX,
        ensures
            final(self)@ == framed(old(self)@, now@),
    {
        let ghost before = self.frames@;
        match self.last_frame {
            Some(previous) => {
                let delta = now.saturating_sub(previous);
                if delta.as_nanos() < IDLE_GAP_NANOS {
                    self.frames.push_back(delta);
                    assert(nanos_of(self.frames@) =~= nanos_of(before).push(delta@));
                    let ghost pushed = self.frames@;
                    evict(&mut self.frames, FRAME_HISTORY);
                    proof {
                        lemma_nanos_of_trim(pushed, FRAME_HISTORY as nat);
                    }
                }
            },
            None => {},
        }
        self.last_frame = Some(now);
        self.generation = self.generation + 1;
    }

    /// Forget where the last frame landed, so the idle gap before recording
    /// resumes is not measured as one enormous frame.
    pub fn stop_frames(&mut self)
        requires
            old(self)@.generation < u64::MAX,
        ensures
            final(self)@ == (StateView { last_frame: None, generation: old(self)@.generation + 1, ..old(self)@ }),
    {
        self.last_frame = None;
        self.generation = self.generation + 1;
    }

    pub fn frames(&self) -> (r: &VecDeque<Duration>)
        ensures
            nanos_of(r@) == self@.frames,
    {
        &self.frames
    }

    /// Drop every record. Storage domains stay registered.
    pub fn clear_all(&mut self)
        requires
            old(self)@.generation < u64::MAX,
        ensures
            final(self)@ == (StateView {
                logs: Seq::empty(),
                network: Seq::empty(),
                timeline: Seq::empty(),
                frames: Seq::empty(),
                last_frame: None,
                generation: old(self)@.generation + 1,
                ..old(self)@
            }),
    {
        self.logs.clear();
        self.network.clear();
        self.timeline.clear();
        self.frames.clear();
        self.last_frame = None;
        self.generation = self.generation + 1;
        assert(nanos_of(self.frames@) =~= Seq::<nat>::empty());
    }
}

/// The position of the first domain in `storage` whose id reads `id`.
fn find_storage(storage: &Vec<StorageDomain>, id: &String) -> (r: Option<usize>)
    ensures
        match r {
            Some(i) => i == find_domain(storage@, id@) && i < storage@.len(),
            None => find_domain(storage@, id@) < 0,
        },
{
    let mut i: usize = 0;
    while i < storage.len()
        invariant
            i <= storage@.len(),
            forall|j: int| 0 <= j < i ==> #[trigger] storage@[j].id@ != id@,
        decreases storage@.len() - i,
    {
        if storage[i].id == *id {
            proof {
                lemma_find_domain(storage@, id@, i as int);
            }
            return Some(i);
        }
        i = i + 1;
    }
    proof {
        lemma_find_domain(storage@, id@, i as int);
    }
    None
}

proof fn lemma_nanos_of_trim(s: Seq<Duration>, cap: nat)
    ensures
        nanos_of(trim(s, cap)) == trim(nanos_of(s), cap),
{
    assert(nanos_of(trim(s, cap)) =~= trim(nanos_of(s), cap));
}

proof fn lemma_totals_prefix(s: Seq<NetworkRecord>, n: int)
    requires
        0 <= n <= s.len(),
    ensures
        transfer_total(s.take(n)) <= transfer_total(s),
        resource_total(s.take(n)) <= resource_total(s),
    decreases s.len(),
{
    if n < s.len() {
        assert(s.drop_last().take(n) =~= s.take(n));
        lemma_totals_prefix(s.drop_last(), n);
    } else {
        assert(s.take(n) =~= s);
    }
}

proof fn lemma_level_total_prefix(logs: Seq<LogRecord>, n: int, level: LogLevel)
    requires
        0 <= n <= logs.len(),
    ensures
        level_total(logs.take(n), level) <= level_total(logs, level),
    decreases logs.len(),
{
    if n < logs.len() {
        assert(logs.drop_last().take(n) =~= logs.take(n));
        lemma_level_total_prefix(logs.drop_last(), n, level);
    } else {
        assert(logs.take(n) =~= logs);
    }
}

/// The spacing of the `f64` values near `b`: one below 2^53, doubling with
/// each further bit of `b`.
pub open spec fn f64_spacing(b: nat) -> nat
    decreases b,
{
    if b < 0x20_0000_0000_0000 { 1 } else { 2 * f64_spacing(b / 2) }
}

/// `b as f64`: the nearest value the format holds, ties to even.
pub open spec fn as_f64(b: nat) -> nat {
    round_half_even(b, f64_spacing(b)) * f64_spacing(b)
}

pub(crate) proof fn lemma_spacing_positive(b: nat)
    ensures
        f64_spacing(b) > 0,
    decreases b,
{
    if b >= 0x20_0000_0000_0000 {
        lemma_spacing_positive(b / 2);
    }
}

/// `bytes as f64`, exactly as the conversion rounds it.
pub(crate) fn f64_of(bytes: u64) -> (r: u128)
    ensures
        r == as_f64(bytes as nat),
        r <= 0x2_0000_0000_0000_0000,
{
    let mut unit: u128 = 1;
    let mut m: u64 = bytes;
    while m >= 0x20_0000_0000_0000
        invariant
            1 <= unit <= 0x1000,
            m as nat == bytes as nat / (unit as nat),
            f64_spacing(bytes as nat) == unit * f64_spacing(m as nat),
        decreases m,
    {
        proof {
            vstd::arithmetic::div_mod::lemma_div_denominator(bytes as int, unit as int, 2);
            assert(f64_spacing(m as nat) == 2 * f64_spacing((m / 2) as nat));
            assert(unit * f64_spacing(m as nat) == (unit * 2) * f64_spacing((m / 2) as nat)) by (nonlinear_arith)
                requires
                    f64_spacing(m as nat) == 2 * f64_spacing((m / 2) as nat),
            ;
            vstd::arithmetic::div_mod::lemma_fundamental_div_mod(bytes as int, (unit * 2) as int);
            assert(unit * 2 <= 0x1000) by (nonlinear_arith)
                requires
                    (m / 2) as nat == bytes as nat / ((unit * 2) as nat),
                    m >= 0x20_0000_0000_0000,
                    bytes <= 0xffff_ffff_ffff_ffff,
                    bytes == (unit * 2) * (bytes as nat / ((unit * 2) as nat)) + bytes as nat % ((unit * 2) as nat),
                    bytes as nat % ((unit * 2) as nat) >= 0,
            ;
        }
        m = m / 2;
        unit = unit * 2;
    }
    assert(f64_spacing(m as nat) == 1);
    assert(unit == f64_spacing(bytes as nat)) by (nonlinear_arith)
        requires
            f64_spacing(m as nat) == 1,
            f64_spacing(bytes as nat) == unit * f64_spacing(m as nat),
    ;
    let q = div_round_half_even(bytes as u128, unit);
    proof {
        vstd::arithmetic::div_mod::lemma_fundamental_div_mod(bytes as int, unit as int);
        assert(q * unit <= 0x2_0000_0000_0000_0000) by (nonlinear_arith)
            requires
                q <= bytes as nat / (unit as nat) + 1,
                1 <= unit <= 0x1000,
                bytes <= 0xffff_ffff_ffff_ffff,
                bytes == unit * (bytes as nat / (unit as nat)) + bytes as nat % (unit as nat),
                bytes as nat % (unit as nat) >= 0,
        ;
    }
    q * unit
}

/// How Safari's size columns render a byte count.
pub open spec fn bytes_text(bytes: nat) -> Seq<char> {
    if bytes < 1024 {
        decimal(bytes) + " B"@
    } else if bytes < 1024 * 1024 {
        fixed_point(round_half_even(bytes * 10, 1024), 1) + " KB"@
    } else if bytes < 1024 * 1024 * 1024 {
        fixed_point(round_half_even(bytes * 100, 1024 * 1024), 2) + " MB"@
    } else {
        fixed_point(round_half_even(as_f64(bytes) * 100, 1024 * 1024 * 1024), 2) + " GB"@
    }
}

/// Format a byte count the way Safari's size columns do: whole bytes below a
/// kilobyte, then one decimal of KB, then two of MB or GB.
pub fn format_bytes(bytes: u64) -> (r: String)
    ensures
        r@ == bytes_text(bytes as nat),
{
    let mut out = String::new();
    let b = bytes as u128;
    if b < 1024 {
        push_decimal(&mut out, b);
        out.append(" B");
    } else if b < 1024 * 1024 {
        push_fixed(&mut out, div_round_half_even(b * 10, 1024), 1);
        out.append(" KB");
    } else if b < 1024 * 1024 * 1024 {
        push_fixed(&mut out, div_round_half_even(b * 100, 1024 * 1024), 2);
        out.append(" MB");
    } else {
        let v = f64_of(bytes);
        push_fixed(&mut out, div_round_half_even(v * 100, 1024 * 1024 * 1024), 2);
        out.append(" GB");
    }
    out
}

/// `Duration::as_secs_f64` for a span of `nanos`: the whole seconds as a
/// double, plus the nanoseconds divided by a billion as a double, the sum
/// rounded to a double. As `(num, den)`, the value being `num / den`.
pub open spec fn secs_f64(nanos: nat) -> (nat, nat) {
    let b = nearest(nanos % 1_000_000_000, 1_000_000_000);
    nearest(as_f64(nanos / 1_000_000_000) * b.1 + b.0, b.1)
}

/// How Safari's timing columns render a span, computed the way the doubles
/// round: the seconds as a double times a thousand, as a double, gives the
/// milliseconds; below one they show with two decimals, below a thousand
/// whole, and beyond that divided by a thousand, as a double, with two
/// decimals of a second.
pub open spec fn duration_text(nanos: nat) -> Seq<char> {
    let c = secs_f64(nanos);
    let ms = nearest(c.0 * 1000, c.1);
    if ms.0 < ms.1 {
        fixed_point(round_half_even(ms.0 * 100, ms.1), 2) + " ms"@
    } else if ms.0 < 1000 * ms.1 {
        decimal(round_half_even(ms.0, ms.1)) + " ms"@
    } else {
        let x = nearest(ms.0, ms.1 * 1000);
        fixed_point(round_half_even(x.0 * 100, x.1), 2) + " s"@
    }
}

/// Format a duration the way Safari's timing columns do: sub-millisecond
/// work still reads as a number, and anything past a second switches unit.
pub fn format_duration(duration: Duration) -> (r: String)
    ensures
        r@ == duration_text(duration@),
{
    proof {
        lemma_two_to_values();
    }
    let n = duration.as_nanos();
    let secs = n / 1_000_000_000;
    let frac = n % 1_000_000_000;
    let (bnum, bsh) = nearest_of(frac, 1_000_000_000);
    proof {
        if frac > 0 {
            let k = crate::binary64::shortfall(frac as nat, 1_000_000_000);
            assert(k >= 1);
            assert(two_to(bsh as nat) == two_to(52 + k));
            lemma_two_to_grows(53, 52 + k);
            assert(2 * (frac * two_to(bsh as nat)) + 1_000_000_000 < 2 * (1_000_000_000 * two_to(bsh as nat))) by (nonlinear_arith)
                requires
                    frac < 1_000_000_000,
                    two_to(bsh as nat) >= 0x20_0000_0000_0000,
            ;
            lemma_round_below(frac as nat * two_to(bsh as nat), 1_000_000_000, two_to(bsh as nat));
            assert(bsh > 0);
            lemma_two_to_add(60, 52);
            lemma_two_to_grows(bsh as nat, 112);
            assert(bnum * two_to(60) >= two_to(bsh as nat)) by (nonlinear_arith)
                requires
                    bnum >= two_to(52),
                    two_to(112) == two_to(60) * two_to(52),
                    two_to(bsh as nat) <= two_to(112),
                    two_to(60) > 0,
            ;
        } else {
            assert(bnum == 0 && bsh == 0);
        }
    }
    let a = f64_of(secs as u64);
    let (cnum, csh) = sum_of(a, bnum, bsh);
    proof {
        if csh > 0 {
            lemma_two_to_add(60, 52);
            lemma_two_to_grows(csh as nat, 112);
            assert(cnum * 1000 * two_to(60) >= two_to(csh as nat)) by (nonlinear_arith)
                requires
                    cnum >= two_to(52),
                    two_to(112) == two_to(60) * two_to(52),
                    two_to(csh as nat) <= two_to(112),
                    two_to(60) > 0,
            ;
        } else {
            assert(cnum * 1000 == 0 || cnum * 1000 * two_to(60) >= 1) by (nonlinear_arith)
                requires
                    two_to(60) > 0,
            ;
        }
    }
    let (mnum, msh) = nearest_pow2(cnum * 1000, csh);
    let mden = pow2(msh);
    proof {
        lemma_two_to_grows(0, msh as nat);
        lemma_two_to_grows(msh as nat, 112);
        lemma_two_to_add(60, 52);
    }
    let mut out = String::new();
    if mnum < mden {
        push_fixed(&mut out, div_round_half_even(mnum * 100, mden), 2);
        out.append(" ms");
    } else if mnum < 1000 * mden {
        push_decimal(&mut out, div_round_half_even(mnum, mden));
        out.append(" ms");
    } else {
        proof {
            if msh > 43 {
                lemma_two_to_grows(44, msh as nat);
            }
        }
        let (xnum, xsh) = nearest_of(mnum, mden * 1000);
        let xden = pow2(xsh);
        proof {
            lemma_two_to_grows(0, xsh as nat);
        }
        push_fixed(&mut out, div_round_half_even(xnum * 100, xden), 2);
        out.append(" s");
    }
    out
}

/// Elapsed time as the log's timestamp column shows it: `mm:ss.mmm`.
pub open spec fn timestamp_text(nanos: nat) -> Seq<char> {
    let secs = nanos / 1_000_000_000;
    zero_padded(secs / 60, 2) + seq![':'] + zero_padded(secs % 60, 2) + seq!['.'] + zero_padded(
        (nanos % 1_000_000_000) / 1_000_000,
        3,
    )
}

/// Elapsed time as the log's timestamp column shows it.
pub fn format_timestamp(at: Duration) -> (r: String)
    ensures
        r@ == timestamp_text(at@),
{
    let total = at.as_secs();
    let minutes = total / 60;
    let seconds = total % 60;
    let mut out = String::new();
    push_zero_padded(&mut out, minutes as u128, 2);
    out.push(':');
    push_zero_padded(&mut out, seconds as u128, 2);
    out.push('.');
    push_zero_padded(&mut out, at.subsec_millis() as u128, 3);
    out
}

/// Every store is a ring: however many records arrive, each keeps within
/// its limit, the frame graph within its history.
pub proof fn law_stores_stay_capped(
    v: StateView,
    record: LogRecord,
    request: NetworkRecord,
    event: TimelineEvent,
    now: Duration,
    frame_at: nat,
)
    requires
        v.logs.len() <= v.limits.logs,
        v.frames.len() <= FRAME_HISTORY,
    ensures
        logged(v, record, now).logs.len() <= v.limits.logs,
        requested(v, request, now).network.len() <= v.limits.network,
        traced(v, event, now).timeline.len() <= v.limits.timeline,
        framed(v, frame_at).frames.len() <= FRAME_HISTORY,
{
}

/// Eviction is oldest first: a new line lands at the end, and what stays
/// of the old ones is their newest run, in order.
pub proof fn law_eviction_drops_the_oldest(v: StateView, record: LogRecord, at: Duration)
    requires
        v.limits.logs > 0,
        !log_coalesces(v, record),
    ensures
        logged(v, record, at).logs.last() == (LogRecord { id: v.next_id as u64, at, ..record }),
        ({
            let kept = logged(v, record, at).logs.drop_last();
            kept == v.logs.subrange(v.logs.len() - kept.len(), v.logs.len() as int)
        }),
{
    let pushed = v.logs.push(LogRecord { id: v.next_id as u64, at, ..record });
    let kept = logged(v, record, at).logs.drop_last();
    if pushed.len() > v.limits.logs {
        assert(kept =~= v.logs.subrange(v.logs.len() - kept.len(), v.logs.len() as int));
    } else {
        assert(kept =~= v.logs);
        assert(v.logs.subrange(0, v.logs.len() as int) =~= v.logs);
    }
}

/// Identical consecutive lines collapse: once a line is logged, the same
/// line again folds into it.
pub proof fn law_repeats_coalesce(v: StateView, record: LogRecord, at: Duration)
    requires
        v.limits.logs > 0,
    ensures
        log_coalesces(logged(v, record, at), record),
{
    if !log_coalesces(v, record) {
        law_eviction_drops_the_oldest(v, record, at);
    }
}

/// A repeat bumps the tally of the line it folds into and adds no line.
pub proof fn law_repeat_counts(v: StateView, record: LogRecord, at: Duration)
    requires
        log_coalesces(v, record),
        can_log(v, record),
    ensures
        logged(v, record, at).logs.len() == v.logs.len(),
        logged(v, record, at).logs.last().count == v.logs.last().count + 1,
{
}

/// One call that changes the log store: a line logged at a time, or the
/// log cleared.
pub enum LogStep {
    Push(LogRecord, Duration),
    Clear,
}

/// The store after one log step.
pub open spec fn log_step(v: StateView, step: LogStep) -> StateView {
    match step {
        LogStep::Push(record, at) => logged(v, record, at),
        LogStep::Clear => StateView { logs: Seq::empty(), generation: v.generation + 1, ..v },
    }
}

/// The store after `steps`, in order.
pub open spec fn log_steps(v: StateView, steps: Seq<LogStep>) -> StateView
    decreases steps.len(),
{
    if steps.len() == 0 {
        v
    } else {
        log_steps(log_step(v, steps[0]), steps.drop_first())
    }
}

/// No two neighbouring lines would render identically.
pub open spec fn neighbours_differ(logs: Seq<LogRecord>) -> bool {
    forall|i: int| 0 <= i < logs.len() - 1 ==> !same_record(#[trigger] logs[i], logs[i + 1])
}

proof fn lemma_log_step_keeps(v: StateView, step: LogStep)
    requires
        v.logs.len() <= v.limits.logs,
        neighbours_differ(v.logs),
    ensures
        log_step(v, step).logs.len() <= v.limits.logs,
        neighbours_differ(log_step(v, step).logs),
        log_step(v, step).limits == v.limits,
{
    match step {
        LogStep::Push(record, at) => {
            let n = v.logs.len();
            if log_coalesces(v, record) {
                let out = logged(v, record, at).logs;
                assert forall|i: int| 0 <= i < out.len() - 1 implies !same_record(#[trigger] out[i], out[i + 1]) by {
                    assert(v.logs[i] == out[i]);
                    assert(same_record(out[i + 1], v.logs[i + 1]));
                }
            } else {
                let pushed = v.logs.push(LogRecord { id: v.next_id as u64, at, ..record });
                assert forall|i: int| 0 <= i < pushed.len() - 1 implies !same_record(#[trigger] pushed[i], pushed[i + 1]) by {
                    if i + 1 < n {
                        assert(pushed[i] == v.logs[i] && pushed[i + 1] == v.logs[i + 1]);
                    } else {
                        assert(pushed[i] == v.logs.last());
                    }
                }
                let out = trim(pushed, v.limits.logs as nat);
                if pushed.len() > v.limits.logs {
                    let d = pushed.len() - v.limits.logs;
                    assert forall|i: int| 0 <= i < out.len() - 1 implies !same_record(#[trigger] out[i], out[i + 1]) by {
                        assert(out[i] == pushed[i + d] && out[i + 1] == pushed[i + d + 1]);
                    }
                }
            }
        },
        LogStep::Clear => {},
    }
}

/// Across any run of logging and clearing, the log keeps within its limit
/// and no two neighbouring lines would render identically: a repeat is
/// always folded into the line before it.
pub proof fn law_log_stays_capped_and_coalesced(v: StateView, steps: Seq<LogStep>)
    requires
        v.logs.len() <= v.limits.logs,
        neighbours_differ(v.logs),
    ensures
        log_steps(v, steps).logs.len() <= v.limits.logs,
        neighbours_differ(log_steps(v, steps).logs),
    decreases steps.len(),
{
    if steps.len() > 0 {
        lemma_log_step_keeps(v, steps[0]);
        law_log_stays_capped_and_coalesced(log_step(v, steps[0]), steps.drop_first());
    }
}

/// A line folds into the previous one exactly when its level, message and
/// detail rows all match that line's: a line that differs from the last in
/// any of them is stamped with a fresh id, and below the limit it adds a
/// line of its own, carrying its details and a tally of one.
pub proof fn law_only_identical_lines_coalesce(v: StateView, record: LogRecord, at: Duration)
    requires
        v.logs.len() > 0,
        v.logs.last().count < usize::MAX,
    ensures
        logged(v, record, at).next_id == v.next_id <==> {
            &&& v.logs.last().level == record.level
            &&& v.logs.last().message@ == record.message@
            &&& pairs_view(v.logs.last().details@) == pairs_view(record.details@)
        },
        logged(v, record, at).next_id != v.next_id ==> logged(v, record, at).next_id == v.next_id + 1,
        logged(v, record, at).next_id == v.next_id ==> {
            &&& logged(v, record, at).logs.len() == v.logs.len()
            &&& logged(v, record, at).logs.last().count == v.logs.last().count + 1
        },
        logged(v, record, at).next_id != v.next_id && v.logs.len() < v.limits.logs ==> {
            &&& logged(v, record, at).logs.len() == v.logs.len() + 1
            &&& logged(v, record, at).logs.take(v.logs.len() as int) == v.logs
            &&& logged(v, record, at).logs.last().details == record.details
            &&& logged(v, record, at).logs.last().message == record.message
            &&& logged(v, record, at).logs.last().count == record.count
        },
{
    let w = logged(v, record, at);
    if !log_coalesces(v, record) && v.logs.len() < v.limits.logs {
        assert(w.logs.take(v.logs.len() as int) =~= v.logs);
    }
}

/// The first `/`, `?` or `#` after the scheme is the first `/` of the path
/// that runs up to the query or fragment.
proof fn lemma_path_slash(rest: Seq<char>)
    ensures
        first_of(rest, seq!['?', '#']) <= rest.len(),
        first_of(rest.take(first_of(rest, seq!['?', '#']) as int), seq!['/']) == first_of(
            rest,
            seq!['/', '?', '#'],
        ),
        first_of(rest, seq!['/', '?', '#']) <= first_of(rest, seq!['?', '#']),
    decreases rest.len(),
{
    let q = seq!['?', '#'];
    let all = seq!['/', '?', '#'];
    let slash = seq!['/'];
    if rest.len() > 0 {
        let t = rest.drop_first();
        lemma_path_slash(t);
        let c = rest[0];
        assert(q.contains(c) <==> (c == '?' || c == '#')) by {
            if c == '?' { assert(q[0] == c); }
            if c == '#' { assert(q[1] == c); }
        }
        assert(all.contains(c) <==> (c == '/' || c == '?' || c == '#')) by {
            if c == '/' { assert(all[0] == c); }
            if c == '?' { assert(all[1] == c); }
            if c == '#' { assert(all[2] == c); }
        }
        assert(slash.contains(c) <==> c == '/') by {
            if c == '/' { assert(slash[0] == c); }
        }
        if !(c == '?' || c == '#') {
            let p = first_of(rest, q);
            assert(p == 1 + first_of(t, q));
            let path = rest.take(p as int);
            assert(path[0] == c);
            assert(path.drop_first() =~= t.take(first_of(t, q) as int));
        }
    }
}

proof fn lemma_last_slash(s: Seq<char>)
    ensures
        -1 <= last_of(s, '/') < s.len(),
        last_of(s, '/') >= 0 ==> s[last_of(s, '/')] == '/',
        forall|j: int| last_of(s, '/') < j < s.len() ==> #[trigger] s[j] != '/',
    decreases s.len(),
{
    if s.len() > 0 && s.last() != '/' {
        lemma_last_slash(s.drop_last());
        assert forall|j: int| last_of(s, '/') < j < s.len() implies #[trigger] s[j] != '/' by {
            if j < s.len() - 1 {
                assert(s.drop_last()[j] == s[j]);
            }
        }
    }
}

/// The Name column is the last segment of the path: when the path (up to
/// any query or fragment) holds a `/` and does not end with one, the name is
/// the non-empty text after the last `/`. It is never blank for a URL with
/// a host: when the path after its last `/` is empty, the name is the Domain
/// column itself.
pub proof fn law_name_falls_back_to_domain(url: Seq<char>)
    ensures
        ({
            let rest = after_scheme(url);
            let path = rest.take(first_of(rest, seq!['?', '#']) as int);
            let name = url_name(url);
            path.contains('/') && path.last() != '/' ==> {
                &&& name.len() > 0
                &&& name.len() < path.len()
                &&& path == path.take(path.len() - name.len()) + name
                &&& path[path.len() - name.len() - 1] == '/'
                &&& !name.contains('/')
            }
        }),
        url_domain(url).len() > 0 ==> url_name(url).len() > 0,
        ({
            let rest = after_scheme(url);
            let path = rest.take(first_of(rest, seq!['?', '#']) as int);
            path.len() > 0 && path.last() == '/'
        }) ==> url_name(url) == url_domain(url),
{
    let rest = after_scheme(url);
    lemma_path_slash(rest);
    let p = first_of(rest, seq!['?', '#']);
    let path = rest.subrange(0, p as int);
    assert(path =~= rest.take(p as int));
    let d = first_of(rest, seq!['/', '?', '#']);
    assert(path.subrange(0, d as int) =~= rest.subrange(0, d as int));
    let slash = last_of(path, '/');
    lemma_last_slash(path);
    if path.len() > 0 && path.last() == '/' {
        assert(slash == path.len() - 1);
    }
    if path.contains('/') && path.last() != '/' {
        let w = choose|w: int| 0 <= w < path.len() && path[w] == '/';
        assert(slash >= 0);
        let name = path.subrange(slash + 1, path.len() as int);
        assert(url_name(url) == name);
        assert(path =~= path.take(path.len() - name.len()) + name);
        assert forall|j: int| 0 <= j < name.len() implies name[j] != '/' by {
            assert(name[j] == path[slash + 1 + j]);
        }
    }
}

/// `generation` ticks on every change a record makes.
pub proof fn law_changes_tick_the_generation(
    v: StateView,
    record: LogRecord,
    request: NetworkRecord,
    event: TimelineEvent,
    now: Duration,
    frame_at: nat,
)
    ensures
        logged(v, record, now).generation == v.generation + 1,
        requested(v, request, now).generation == v.generation + 1,
        traced(v, event, now).generation == v.generation + 1,
        framed(v, frame_at).generation == v.generation + 1,
{
}

/// Whether the requests' ids rise strictly, all below `next`.
pub open spec fn ids_rise_below(s: Seq<NetworkRecord>, next: nat) -> bool {
    &&& forall|i: int, j: int| 0 <= i < j < s.len() ==> (#[trigger] s[i]).id < (#[trigger] s[j]).id
    &&& forall|i: int| 0 <= i < s.len() ==> (#[trigger] s[i]).id < next
}

/// Request ids are handed out fresh and rising, so the id a request was
/// given finds it — and only it — until it is evicted.
pub proof fn law_request_ids_find_their_request(v: StateView, request: NetworkRecord, now: Duration)
    requires
        ids_rise_below(v.network, v.next_id),
        v.next_id <= u64::MAX,
        v.limits.network > 0,
    ensures
        ids_rise_below(requested(v, request, now).network, v.next_id + 1),
        ({
            let s = requested(v, request, now).network;
            find_request(s, v.next_id as u64) == s.len() - 1
        }),
{
    let start = if request.start@ == 0 { now } else { request.start };
    let new = NetworkRecord { id: v.next_id as u64, start, ..request };
    let pushed = v.network.push(new);
    let s = requested(v, request, now).network;
    let cap = v.limits.network as nat;
    let off: int = if pushed.len() > cap { pushed.len() - cap } else { 0 };
    assert(s =~= pushed.subrange(off, pushed.len() as int));
    assert forall|i: int| 0 <= i < s.len() implies #[trigger] s[i] == pushed[i + off] by {}
    assert forall|i: int, j: int| 0 <= i < j < s.len() implies (#[trigger] s[i]).id < (#[trigger] s[j]).id by {
        assert(s[i] == pushed[i + off]);
        assert(s[j] == pushed[j + off]);
        if j + off < v.network.len() {
            assert(pushed[i + off] == v.network[i + off]);
            assert(pushed[j + off] == v.network[j + off]);
        } else {
            assert(pushed[i + off] == v.network[i + off]);
        }
    }
    assert forall|i: int| 0 <= i < s.len() implies (#[trigger] s[i]).id < v.next_id + 1 by {
        assert(s[i] == pushed[i + off]);
        if i + off < v.network.len() {
            assert(pushed[i + off] == v.network[i + off]);
        }
    }
    assert forall|j: int| 0 <= j < s.len() - 1 implies #[trigger] s[j].id != v.next_id as u64 by {
        assert(s[j] == pushed[j + off]);
        assert(pushed[j + off] == v.network[j + off]);
    }
    assert(s[s.len() - 1] == new);
    lemma_find_request(s, v.next_id as u64, s.len() - 1);
}

/// Whether no two storage domains share an id.
pub open spec fn unique_domains(s: Seq<StorageDomain>) -> bool {
    forall|i: int, j: int| 0 <= i < j < s.len() ==> (#[trigger] s[i]).id@ != (#[trigger] s[j]).id@
}

proof fn lemma_find_domain_shape(s: Seq<StorageDomain>, id: Seq<char>)
    ensures
        -1 <= find_domain(s, id) < s.len(),
        find_domain(s, id) >= 0 ==> s[find_domain(s, id)].id@ == id,
        find_domain(s, id) < 0 ==> forall|j: int| 0 <= j < s.len() ==> (#[trigger] s[j]).id@ != id,
    decreases s.len(),
{
    if s.len() > 0 && s[0].id@ != id {
        lemma_find_domain_shape(s.drop_first(), id);
        let r = find_domain(s.drop_first(), id);
        if r >= 0 {
            assert(s.drop_first()[r] == s[r + 1]);
        } else {
            assert forall|j: int| 0 <= j < s.len() implies (#[trigger] s[j]).id@ != id by {
                if j > 0 {
                    assert(s.drop_first()[j - 1] == s[j]);
                }
            }
        }
    }
}

/// Publishing a storage domain replaces any earlier snapshot of it: the
/// store keeps one domain per id, and the id finds the new snapshot.
pub proof fn law_storage_keeps_one_per_id(s: Seq<StorageDomain>, domain: StorageDomain)
    requires
        unique_domains(s),
    ensures
        unique_domains(stored(s, domain)),
        find_domain(stored(s, domain), domain.id@) >= 0,
        stored(s, domain)[find_domain(stored(s, domain), domain.id@)] == domain,
{
    lemma_find_domain_shape(s, domain.id@);
    let t = stored(s, domain);
    let k = find_domain(s, domain.id@);
    if k >= 0 {
        assert forall|i: int, j: int| 0 <= i < j < t.len() implies (#[trigger] t[i]).id@ != (#[trigger] t[j]).id@ by {
            if i == k {
                assert(s[k].id@ == domain.id@);
            } else if j == k {
                assert(s[k].id@ == domain.id@);
            }
        }
        assert forall|j: int| 0 <= j < k implies (#[trigger] t[j]).id@ != domain.id@ by {
            assert(s[k].id@ == domain.id@);
        }
        lemma_find_domain(t, domain.id@, k);
    } else {
        assert forall|j: int| 0 <= j < s.len() implies (#[trigger] t[j]).id@ != domain.id@ by {
            assert(t[j] == s[j]);
        }
        lemma_find_domain(t, domain.id@, s.len() as int);
    }
}

} // verus!
