//! The Network panel's logic: the type filter and search over requests, the
//! cookie parser behind the Cookies tab, and how a request's outcome is
//! toned in the list.

use std::collections::VecDeque;

use vstd::prelude::*;

use super::logs::{any_contains, any_holds};
use super::state::{
    bytes_text, duration_text, format_bytes, format_duration, timings_total, NetworkRecord, RequestState,
    ResourceKind,
};
use crate::time::{Duration, MAX_NANOS};
use crate::text::{
    decimal, first_index_of, first_of, lemma_trim_idempotent, lowercase, push_chars, push_decimal, split_on,
    to_chars, to_lowercase, trim_range, trim_ws,
};

verus! {

/// The detail sidebar's tabs, in Safari's order.
#[derive(Debug, Clone, Copy, PartialEq, Eq, Structural)]
pub enum RequestDetail {
    Headers,
    Cookies,
    Sizes,
    Timing,
    Preview,
}

impl RequestDetail {
    pub fn label(self) -> (r: &'static str)
        ensures
            r@ == match self {
                RequestDetail::Headers => "Headers"@,
                RequestDetail::Cookies => "Cookies"@,
                RequestDetail::Sizes => "Sizes"@,
                RequestDetail::Timing => "Timing"@,
                RequestDetail::Preview => "Preview"@,
            },
    {
        match self {
            RequestDetail::Headers => "Headers",
            RequestDetail::Cookies => "Cookies",
            RequestDetail::Sizes => "Sizes",
            RequestDetail::Timing => "Timing",
            RequestDetail::Preview => "Preview",
        }
    }
}

impl Default for RequestDetail {
    fn default() -> (r: RequestDetail)
        ensures
            r == RequestDetail::Headers,
    {
        RequestDetail::Headers
    }
}

/// The texts a request search runs over: the lowercased URL and method, and
/// the status code in decimal when there is one.
pub open spec fn request_texts(record: NetworkRecord) -> Seq<Seq<char>> {
    let base = seq![lowercase(record.url@), lowercase(record.method@)];
    match record.status {
        Some(code) => base.push(decimal(code as nat)),
        None => base,
    }
}

/// Whether a request survives the type filter and the search box: the type
/// must be the one picked, when one is, and a non-empty query, lowercased,
/// must occur in the URL, the method or the status code.
pub open spec fn request_matches(record: NetworkRecord, kind: Option<ResourceKind>, query: Seq<char>) -> bool {
    &&& (kind matches Some(k) ==> record.kind == k)
    &&& (query.len() == 0 || any_holds(request_texts(record), lowercase(query)))
}

/// Whether a request survives the type filter and the search box.
pub fn matches(record: &NetworkRecord, kind: Option<ResourceKind>, query: &str) -> (r: bool)
    ensures
        r == request_matches(*record, kind, query@),
{
    match kind {
        Some(k) => {
            if record.kind != k {
                return false;
            }
        },
        None => {},
    }
    if query.unicode_len() == 0 {
        return true;
    }
    let needle = to_lowercase(query);
    let mut texts: Vec<String> = Vec::new();
    texts.push(to_lowercase(record.url.as_str()));
    texts.push(to_lowercase(record.method.as_str()));
    match record.status {
        Some(code) => {
            let mut digits = String::new();
            push_decimal(&mut digits, code as u128);
            texts.push(digits);
        },
        None => {},
    }
    assert(texts@.map_values(|s: String| s@) =~= request_texts(*record));
    any_contains(&texts, needle.as_str())
}

/// The cookie a piece of a header holds: the piece, trimmed, split at its
/// first `=` into a trimmed name and value. A blank piece, or a bare flag
/// with no `=`, holds none.
pub open spec fn cookie_of(piece: Seq<char>) -> Option<(Seq<char>, Seq<char>)> {
    let t = trim_ws(piece);
    let e = first_of(t, seq!['=']);
    if t.len() == 0 || e >= t.len() {
        None
    } else {
        Some((trim_ws(t.subrange(0, e as int)), trim_ws(t.subrange(e as int + 1, t.len() as int))))
    }
}

/// The cookies the pieces hold, in order.
pub open spec fn cookies_of(pieces: Seq<Seq<char>>) -> Seq<(Seq<char>, Seq<char>)>
    decreases pieces.len(),
{
    if pieces.len() == 0 {
        Seq::empty()
    } else {
        let rest = cookies_of(pieces.drop_last());
        match cookie_of(pieces.last()) {
            Some(c) => rest.push(c),
            None => rest,
        }
    }
}

/// The name/value pairs of a `Cookie:` or `Set-Cookie:` header.
pub open spec fn cookies_in(header: Seq<char>) -> Seq<(Seq<char>, Seq<char>)> {
    cookies_of(split_on(header, ';'))
}

/// The text of `chars[from..to]`.
fn text_of(chars: &Vec<char>, from: usize, to: usize) -> (r: String)
    requires
        from <= to <= chars@.len(),
    ensures
        r@ == chars@.subrange(from as int, to as int),
{
    let mut out = String::new();
    push_chars(&mut out, chars, from, to);
    out
}

/// The cookie `chars[from..to]` holds, appended to `out` when there is one.
fn push_cookie(out: &mut Vec<(String, String)>, chars: &Vec<char>, from: usize, to: usize)
    requires
        from <= to <= chars@.len(),
    ensures
        final(out)@.map_values(|p: (String, String)| (p.0@, p.1@)) == match cookie_of(
            chars@.subrange(from as int, to as int),
        ) {
            Some(c) => old(out)@.map_values(|p: (String, String)| (p.0@, p.1@)).push(c),
            None => old(out)@.map_values(|p: (String, String)| (p.0@, p.1@)),
        },
{
    let (a, b) = trim_range(chars, from, to);
    if a == b {
        return;
    }
    let mut piece: Vec<char> = Vec::new();
    let mut i = a;
    while i < b
        invariant
            a <= i <= b <= chars@.len(),
            piece@ == chars@.subrange(a as int, i as int),
        decreases b - i,
    {
        piece.push(chars[i]);
        assert(piece@ =~= chars@.subrange(a as int, i + 1));
        i = i + 1;
    }
    let mut eq: Vec<char> = Vec::new();
    eq.push('=');
    assert(eq@ =~= seq!['=']);
    let e = first_index_of(&piece, &eq);
    if e >= piece.len() {
        return;
    }
    let (n0, n1) = trim_range(&piece, 0, e);
    let (v0, v1) = trim_range(&piece, e + 1, piece.len());
    let name = text_of(&piece, n0, n1);
    let value = text_of(&piece, v0, v1);
    let ghost before = out@;
    out.push((name, value));
    assert(out@.map_values(|p: (String, String)| (p.0@, p.1@)) =~= before.map_values(
        |p: (String, String)| (p.0@, p.1@),
    ).push((name@, value@)));
    assert(piece@.subrange(0, e as int) == piece@.subrange(0, e as int));
}

/// Split a `Cookie:` or `Set-Cookie:` header into its name/value pairs.
pub fn parse_cookies(header: &str) -> (r: Vec<(String, String)>)
    ensures
        r@.map_values(|p: (String, String)| (p.0@, p.1@)) == cookies_in(header@),
{
    let chars = to_chars(header);
    let mut out: Vec<(String, String)> = Vec::new();
    let ghost done: Seq<Seq<char>> = Seq::empty();
    let mut start: usize = 0;
    let mut i: usize = 0;
    assert(chars@.take(0) =~= Seq::<char>::empty());
    assert(split_on(chars@.take(0), ';') =~= done.push(chars@.subrange(0, 0)));
    assert(out@.map_values(|p: (String, String)| (p.0@, p.1@)) =~= cookies_of(done));
    while i < chars.len()
        invariant
            start <= i <= chars@.len(),
            chars@ == header@,
            split_on(chars@.take(i as int), ';') == done.push(chars@.subrange(start as int, i as int)),
            out@.map_values(|p: (String, String)| (p.0@, p.1@)) == cookies_of(done),
        decreases chars@.len() - i,
    {
        let ghost prefix = chars@.take(i + 1);
        assert(prefix.drop_last() =~= chars@.take(i as int));
        assert(prefix.last() == chars@[i as int]);
        if chars[i] == ';' {
            push_cookie(&mut out, &chars, start, i);
            proof {
                let piece = chars@.subrange(start as int, i as int);
                assert(cookies_of(done.push(piece)) == match cookie_of(piece) {
                    Some(c) => cookies_of(done).push(c),
                    None => cookies_of(done),
                }) by {
                    assert(done.push(piece).drop_last() =~= done);
                }
                done = done.push(piece);
                assert(chars@.subrange(i + 1, i + 1) =~= Seq::<char>::empty());
            }
            start = i + 1;
        } else {
            proof {
                let p = split_on(chars@.take(i as int), ';');
                assert(p.last() == chars@.subrange(start as int, i as int));
                assert(chars@.subrange(start as int, i + 1) =~= chars@.subrange(start as int, i as int).push(
                    chars@[i as int],
                ));
                assert(split_on(prefix, ';') =~= done.push(chars@.subrange(start as int, i + 1)));
            }
        }
        i = i + 1;
    }
    push_cookie(&mut out, &chars, start, chars.len());
    proof {
        let piece = chars@.subrange(start as int, chars@.len() as int);
        assert(chars@.take(chars@.len() as int) =~= chars@);
        assert(done.push(piece).drop_last() =~= done);
    }
    out
}

/// How a request's outcome is toned in the list: failures and client or
/// server errors alarm, cancellations and redirects warn, a request still
/// in flight is dimmed, and the rest succeeded.
#[derive(Debug, Clone, Copy, PartialEq, Eq, Structural)]
pub enum StatusTone {
    Danger,
    Warning,
    Dim,
    Success,
}

/// The tone of a request in the given state with the given status code.
pub open spec fn tone_of(state: RequestState, status: Option<u16>) -> StatusTone {
    match state {
        RequestState::Failed => StatusTone::Danger,
        RequestState::Canceled => StatusTone::Warning,
        RequestState::Pending => StatusTone::Dim,
        RequestState::Finished => match status {
            Some(code) => if code >= 400 {
                StatusTone::Danger
            } else if code >= 300 {
                StatusTone::Warning
            } else {
                StatusTone::Success
            },
            None => StatusTone::Success,
        },
    }
}

/// How a request's outcome is toned in the list.
pub fn status_tone(record: &NetworkRecord) -> (r: StatusTone)
    ensures
        r == tone_of(record.state, record.status),
{
    match record.state {
        RequestState::Failed => StatusTone::Danger,
        RequestState::Canceled => StatusTone::Warning,
        RequestState::Pending => StatusTone::Dim,
        RequestState::Finished => match record.status {
            Some(code) => if code >= 400 {
                StatusTone::Danger
            } else if code >= 300 {
                StatusTone::Warning
            } else {
                StatusTone::Success
            },
            None => StatusTone::Success,
        },
    }
}

/// The positions in `records`, among the first `n`, of the requests that
/// pass the filters, in order.
pub open spec fn matching_upto(
    records: Seq<NetworkRecord>,
    kind: Option<ResourceKind>,
    query: Seq<char>,
    n: int,
) -> Seq<usize>
    decreases n,
{
    if n <= 0 {
        Seq::empty()
    } else {
        let rest = matching_upto(records, kind, query, n - 1);
        if request_matches(records[n - 1], kind, query) {
            rest.push((n - 1) as usize)
        } else {
            rest
        }
    }
}

/// The requests at `shown`, in that order.
pub open spec fn picked(records: Seq<NetworkRecord>, shown: Seq<usize>) -> Seq<NetworkRecord> {
    shown.map_values(|i: usize| records[i as int])
}

/// Bytes on the wire across `s`.
pub open spec fn wire_total(s: Seq<NetworkRecord>) -> nat
    decreases s.len(),
{
    if s.len() == 0 { 0 } else { wire_total(s.drop_last()) + s.last().transfer_size as nat }
}

/// Decoded bytes across `s`.
pub open spec fn decoded_total(s: Seq<NetworkRecord>) -> nat
    decreases s.len(),
{
    if s.len() == 0 { 0 } else { decoded_total(s.drop_last()) + s.last().resource_size as nat }
}

/// The longest duration among `s`, or zero.
pub open spec fn slowest(s: Seq<NetworkRecord>) -> nat
    decreases s.len(),
{
    if s.len() == 0 {
        0
    } else {
        let d = timings_total(s.last().timings);
        let rest = slowest(s.drop_last());
        if d > rest { d } else { rest }
    }
}

/// The summary line under the request table, piece by piece: how many
/// requests, the bytes transferred, the bytes of resources, and the
/// slowest request.
pub open spec fn summary_texts(s: Seq<NetworkRecord>) -> Seq<Seq<char>> {
    seq![
        decimal(s.len()) + " requests"@,
        bytes_text(wire_total(s)) + " transferred"@,
        bytes_text(decoded_total(s)) + " resources"@,
        "slowest "@ + duration_text(slowest(s)),
    ]
}

/// The summary line under the request table for the requests at `shown`.
pub fn summary(records: &VecDeque<NetworkRecord>, shown: &Vec<usize>) -> (r: Vec<String>)
    requires
        forall|k: int| 0 <= k < shown@.len() ==> #[trigger] shown@[k] < records@.len(),
        wire_total(picked(records@, shown@)) <= u64::MAX,
        decoded_total(picked(records@, shown@)) <= u64::MAX,
        forall|k: int|
            0 <= k < shown@.len() ==> timings_total(records@[#[trigger] shown@[k] as int].timings) <= MAX_NANOS,
    ensures
        r@.map_values(|t: String| t@) == summary_texts(picked(records@, shown@)),
{
    let ghost p = picked(records@, shown@);
    let mut transfer: u64 = 0;
    let mut resource: u64 = 0;
    let mut longest = Duration::zero();
    let mut k: usize = 0;
    while k < shown.len()
        invariant
            k <= shown@.len(),
            p == picked(records@, shown@),
            forall|j: int| 0 <= j < shown@.len() ==> #[trigger] shown@[j] < records@.len(),
            forall|j: int|
                0 <= j < shown@.len() ==> timings_total(records@[#[trigger] shown@[j] as int].timings) <= MAX_NANOS,
            wire_total(p) <= u64::MAX,
            decoded_total(p) <= u64::MAX,
            transfer == wire_total(p.take(k as int)),
            resource == decoded_total(p.take(k as int)),
            longest@ == slowest(p.take(k as int)),
        decreases shown@.len() - k,
    {
        let ghost prefix = p.take(k + 1);
        assert(prefix.drop_last() =~= p.take(k as int));
        assert(prefix.last() == records@[shown@[k as int] as int]);
        proof {
            lemma_totals_grow(p, k + 1);
        }
        let idx = shown[k];
        assert(idx < records@.len());
        let record = &records[idx];
        transfer = transfer + record.transfer_size;
        resource = resource + record.resource_size;
        longest = longest.max(record.duration());
        k = k + 1;
    }
    assert(p.take(p.len() as int) =~= p);
    let mut out: Vec<String> = Vec::new();
    let mut count = String::new();
    push_decimal(&mut count, shown.len() as u128);
    count.append(" requests");
    out.push(count);
    let mut wire = format_bytes(transfer);
    wire.append(" transferred");
    out.push(wire);
    let mut decoded = format_bytes(resource);
    decoded.append(" resources");
    out.push(decoded);
    let mut slow = String::from_str("slowest ");
    slow.append(format_duration(longest).as_str());
    out.push(slow);
    assert(out@.map_values(|t: String| t@) =~= summary_texts(p));
    out
}

proof fn lemma_totals_grow(s: Seq<NetworkRecord>, n: int)
    requires
        0 <= n <= s.len(),
    ensures
        wire_total(s.take(n)) <= wire_total(s),
        decoded_total(s.take(n)) <= decoded_total(s),
    decreases s.len() - n,
{
    if n < s.len() {
        lemma_totals_grow(s, n + 1);
        assert(s.take(n + 1).drop_last() =~= s.take(n));
    } else {
        assert(s.take(n) =~= s);
    }
}

/// The panel's state, by value.
pub struct NetworkView {
    pub kind: Option<ResourceKind>,
    pub query: Seq<char>,
    pub selected: Option<u64>,
    pub detail: RequestDetail,
}

/// The Network panel's own state: the type filter, the search text, the
/// selected request, and the detail tab showing.
pub struct NetworkPanel {
    kind: Option<ResourceKind>,
    query: String,
    selected: Option<u64>,
    detail: RequestDetail,
}

impl View for NetworkPanel {
    type V = NetworkView;

    closed spec fn view(&self) -> NetworkView {
        NetworkView { kind: self.kind, query: self.query@, selected: self.selected, detail: self.detail }
    }
}

impl NetworkPanel {
    /// Every type, no search, nothing selected, on the Headers tab.
    pub fn new() -> (r: NetworkPanel)
        ensures
            r@.kind is None,
            r@.query.len() == 0,
            r@.selected is None,
            r@.detail == RequestDetail::Headers,
    {
        NetworkPanel { kind: None, query: String::new(), selected: None, detail: RequestDetail::Headers }
    }

    pub fn kind(&self) -> (r: Option<ResourceKind>)
        ensures
            r == self@.kind,
    {
        self.kind
    }

    /// Show only requests of `kind`, or every type for `None`.
    pub fn set_kind(&mut self, kind: Option<ResourceKind>)
        ensures
            final(self)@ == (NetworkView { kind, ..old(self)@ }),
    {
        self.kind = kind;
    }

    pub fn query(&self) -> (r: &str)
        ensures
            r@ == self@.query,
    {
        self.query.as_str()
    }

    pub fn set_query(&mut self, query: &str)
        ensures
            final(self)@ == (NetworkView { query: query@, ..old(self)@ }),
    {
        self.query = query.to_string();
    }

    pub fn selected(&self) -> (r: Option<u64>)
        ensures
            r == self@.selected,
    {
        self.selected
    }

    /// Select the request with `id`, which opens its detail sidebar.
    pub fn select(&mut self, id: u64)
        ensures
            final(self)@ == (NetworkView { selected: Some(id), ..old(self)@ }),
    {
        self.selected = Some(id);
    }

    pub fn detail(&self) -> (r: RequestDetail)
        ensures
            r == self@.detail,
    {
        self.detail
    }

    pub fn set_detail(&mut self, detail: RequestDetail)
        ensures
            final(self)@ == (NetworkView { detail, ..old(self)@ }),
    {
        self.detail = detail;
    }

    /// The positions of the requests that pass the panel's filters, in order.
    pub fn visible(&self, records: &VecDeque<NetworkRecord>) -> (r: Vec<usize>)
        ensures
            r@ == matching_upto(records@, self@.kind, self@.query, records@.len() as int),
    {
        let mut out: Vec<usize> = Vec::new();
        let mut i: usize = 0;
        while i < records.len()
            invariant
                i <= records@.len(),
                out@ == matching_upto(records@, self@.kind, self@.query, i as int),
            decreases records@.len() - i,
        {
            if matches(&records[i], self.kind, self.query.as_str()) {
                out.push(i);
            }
            i = i + 1;
        }
        out
    }
}

impl Default for NetworkPanel {
    fn default() -> (r: NetworkPanel)
        ensures
            r@.kind is None,
            r@.query.len() == 0,
            r@.selected is None,
            r@.detail == RequestDetail::Headers,
    {
        NetworkPanel::new()
    }
}

/// Every cookie the parser hands out has a trimmed name and value: white
/// space around a pair never reaches the Cookies tab.
pub proof fn law_cookies_are_trimmed(pieces: Seq<Seq<char>>)
    ensures
        forall|i: int|
            0 <= i < cookies_of(pieces).len() ==> trim_ws(#[trigger] cookies_of(pieces)[i].0) == cookies_of(
                pieces,
            )[i].0 && trim_ws(cookies_of(pieces)[i].1) == cookies_of(pieces)[i].1,
    decreases pieces.len(),
{
    if pieces.len() > 0 {
        law_cookies_are_trimmed(pieces.drop_last());
        let rest = cookies_of(pieces.drop_last());
        match cookie_of(pieces.last()) {
            Some(c) => {
                let t = trim_ws(pieces.last());
                let e = first_of(t, seq!['=']);
                lemma_trim_idempotent(t.subrange(0, e as int));
                lemma_trim_idempotent(t.subrange(e as int + 1, t.len() as int));
                assert forall|i: int| 0 <= i < rest.len() + 1 implies trim_ws(#[trigger] rest.push(c)[i].0)
                    == rest.push(c)[i].0 && trim_ws(rest.push(c)[i].1) == rest.push(c)[i].1 by {
                    if i < rest.len() {
                        assert(rest.push(c)[i] == rest[i]);
                    }
                }
            },
            None => {},
        }
    }
}

/// The type filter is exact, and an empty search lets through everything of
/// the picked type.
pub proof fn law_request_filter(record: NetworkRecord, kind: ResourceKind)
    ensures
        request_matches(record, Some(kind), Seq::<char>::empty()) == (record.kind == kind),
        request_matches(record, None, Seq::<char>::empty()),
{
}

} // verus!
