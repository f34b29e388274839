//! The Audit panel's logic: how much a finding matters, the nesting rule,
//! the order findings are listed in, and the severity filter.
//!
//! The rules that measure laid-out bounds and colours work in floating
//! point and belong to the host; their findings join these here.

use vstd::prelude::*;

use super::probe::{NodeView, ProbeNode};
use super::state::SourceRef;
use crate::text::{
    decimal, lemma_text_lt_irreflexive, lemma_text_lt_order, lemma_text_lt_transitive, push_decimal, text_less,
    text_lt, to_chars,
};

verus! {

/// How much a finding matters.
#[derive(Debug, Clone, Copy, PartialEq, Eq, Structural, PartialOrd, Ord, Hash)]
pub enum Severity {
    /// Worth knowing, not worth fixing on its own.
    Info,
    /// Likely wrong.
    Warning,
    /// Wrong, and users will hit it.
    Error,
}

impl Severity {
    pub fn label(self) -> (r: &'static str)
        ensures
            r@ == match self {
                Severity::Info => "Info"@,
                Severity::Warning => "Warning"@,
                Severity::Error => "Error"@,
            },
    {
        match self {
            Severity::Info => "Info",
            Severity::Warning => "Warning",
            Severity::Error => "Error",
        }
    }
}

/// Where a severity is listed: errors first, then warnings, then info.
pub open spec fn rank(s: Severity) -> int {
    match s {
        Severity::Error => 0,
        Severity::Warning => 1,
        Severity::Info => 2,
    }
}

fn rank_of(s: Severity) -> (r: u8)
    ensures
        r == rank(s),
{
    match s {
        Severity::Error => 0,
        Severity::Warning => 1,
        Severity::Info => 2,
    }
}

/// One rule violation, tied to the node that broke it.
#[derive(Debug)]
pub struct Finding {
    pub severity: Severity,
    /// The rule's stable name, shown as the group heading.
    pub rule: &'static str,
    pub message: String,
    /// The node's key, so clicking the row selects it in Elements.
    pub node: String,
    pub source: Option<SourceRef>,
}

/// Nesting past this is a smell rather than a defect, so it reports as info.
pub const MAX_DEPTH: usize = 24;

/// What the nesting rule reports for a node, if anything: an info finding
/// once it sits deeper than `MAX_DEPTH`.
pub open spec fn depth_finding(node: NodeView) -> Option<(Severity, Seq<char>, Seq<char>)> {
    if node.depth > MAX_DEPTH {
        Some((Severity::Info, "Nesting depth"@, "Nested "@ + decimal(node.depth) + " levels deep"@))
    } else {
        None
    }
}

/// Report a node nested deeper than `MAX_DEPTH`.
pub fn depth_rule(node: &ProbeNode, out: &mut Vec<Finding>)
    ensures
        match depth_finding(node@) {
            Some(f) => {
                &&& final(out)@.len() == old(out)@.len() + 1
                &&& final(out)@.take(old(out)@.len() as int) == old(out)@
                &&& final(out)@.last().severity == f.0
                &&& final(out)@.last().rule@ == f.1
                &&& final(out)@.last().message@ == f.2
                &&& final(out)@.last().node@ == node@.key
                &&& final(out)@.last().source == node.source
            },
            None => final(out)@ == old(out)@,
        },
{
    if node.depth > MAX_DEPTH {
        let mut message = String::from_str("Nested ");
        push_decimal(&mut message, node.depth as u128);
        message.append(" levels deep");
        let source = match &node.source {
            Some(s) => Some(s.clone()),
            None => None,
        };
        let ghost before = out@;
        out.push(Finding {
            severity: Severity::Info,
            rule: "Nesting depth",
            message,
            node: node.key.clone(),
            source,
        });
        proof {
            reveal_strlit("Nested ");
            reveal_strlit(" levels deep");
            assert(out@.take(before.len() as int) =~= before);
        }
    }
}

/// Whether finding `a`, at position `i`, is listed before finding `b`, at
/// position `j`: worse severity first, then by rule name, then in the order
/// the rules reported them.
pub open spec fn listed_before(a: Finding, i: int, b: Finding, j: int) -> bool {
    ||| rank(a.severity) < rank(b.severity)
    ||| rank(a.severity) == rank(b.severity) && text_lt(a.rule@, b.rule@)
    ||| rank(a.severity) == rank(b.severity) && a.rule@ == b.rule@ && i < j
}

proof fn lemma_listed_order(a: Finding, i: int, b: Finding, j: int)
    requires
        i != j,
    ensures
        !(listed_before(a, i, b, j) && listed_before(b, j, a, i)),
        listed_before(a, i, b, j) || listed_before(b, j, a, i),
{
    lemma_text_lt_order(a.rule@, b.rule@);
}

proof fn lemma_listed_transitive(a: Finding, i: int, b: Finding, j: int, c: Finding, k: int)
    requires
        listed_before(a, i, b, j),
        listed_before(b, j, c, k),
    ensures
        listed_before(a, i, c, k),
{
    if text_lt(a.rule@, b.rule@) && text_lt(b.rule@, c.rule@) {
        lemma_text_lt_transitive(a.rule@, b.rule@, c.rule@);
    }
}

/// Whether `order` lists the positions of `findings` in listing order: each
/// position once, each before the next.
pub open spec fn is_listing(findings: Seq<Finding>, order: Seq<usize>) -> bool {
    &&& order.len() == findings.len()
    &&& forall|k: int| 0 <= k < order.len() ==> #[trigger] order[k] < findings.len()
    &&& forall|k: int, l: int|
        0 <= k < l < order.len() ==> listed_before(
            findings[#[trigger] order[k] as int],
            order[k] as int,
            findings[#[trigger] order[l] as int],
            order[l] as int,
        )
}

/// Whether finding `a` is listed before finding `b` at a later position.
fn before_later(a: &Finding, b: &Finding) -> (r: bool)
    ensures
        r == (rank(a.severity) < rank(b.severity) || rank(a.severity) == rank(b.severity) && text_lt(
            a.rule@,
            b.rule@,
        )),
{
    let ra = rank_of(a.severity);
    let rb = rank_of(b.severity);
    if ra != rb {
        return ra < rb;
    }
    let x = to_chars(a.rule);
    let y = to_chars(b.rule);
    text_less(&x, &y)
}

/// The order to list `findings` in: worst first, grouped by rule, and in
/// the order they were reported within a rule.
pub fn listing(findings: &Vec<Finding>) -> (r: Vec<usize>)
    ensures
        is_listing(findings@, r@),
{
    let mut order: Vec<usize> = Vec::new();
    let mut i: usize = 0;
    while i < findings.len()
        invariant
            i <= findings@.len(),
            order@.len() == i,
            forall|k: int| 0 <= k < order@.len() ==> #[trigger] order@[k] < i,
            forall|k: int, l: int|
                0 <= k < l < order@.len() ==> listed_before(
                    findings@[#[trigger] order@[k] as int],
                    order@[k] as int,
                    findings@[#[trigger] order@[l] as int],
                    order@[l] as int,
                ),
        decreases findings@.len() - i,
    {
        let ghost f = findings@;
        // The new finding goes before the first one it is listed before.
        let mut pos: usize = 0;
        while pos < order.len()
            invariant
                i < findings@.len(),
                f == findings@,
                pos <= order@.len(),
                forall|k: int| 0 <= k < order@.len() ==> #[trigger] order@[k] < i,
                forall|k: int| 0 <= k < pos ==> listed_before(f[#[trigger] order@[k] as int], order@[k] as int, f[i as int], i as int),
            ensures
                pos <= order@.len(),
                forall|k: int| 0 <= k < pos ==> listed_before(f[#[trigger] order@[k] as int], order@[k] as int, f[i as int], i as int),
                pos < order@.len() ==> !listed_before(f[order@[pos as int] as int], order@[pos as int] as int, f[i as int], i as int),
            decreases order@.len() - pos,
        {
            let j = order[pos];
            assert(j < i);
            let first = before_later(&findings[i], &findings[j]);
            proof {
                lemma_listed_order(f[j as int], j as int, f[i as int], i as int);
                lemma_text_lt_irreflexive(f[i as int].rule@);
            }
            if first {
                break;
            }
            pos = pos + 1;
        }
        let ghost old_order = order@;
        proof {
            if pos < old_order.len() {
                let j = old_order[pos as int];
                lemma_listed_order(f[j as int], j as int, f[i as int], i as int);
            }
            assert forall|k: int| pos <= k < old_order.len() implies listed_before(
                f[i as int],
                i as int,
                f[#[trigger] old_order[k] as int],
                old_order[k] as int,
            ) by {
                let j = old_order[pos as int];
                lemma_listed_order(f[j as int], j as int, f[i as int], i as int);
                if k > pos {
                    lemma_listed_transitive(
                        f[i as int],
                        i as int,
                        f[j as int],
                        j as int,
                        f[old_order[k] as int],
                        old_order[k] as int,
                    );
                }
            }
        }
        order.insert(pos, i);
        proof {
            let o = order@;
            assert forall|k: int| 0 <= k < o.len() implies #[trigger] o[k] == if k < pos {
                old_order[k]
            } else if k == pos {
                i
            } else {
                old_order[k - 1]
            } by {}
            assert forall|a: int, b: int| 0 <= a < b < o.len() implies listed_before(
                f[#[trigger] o[a] as int],
                o[a] as int,
                f[#[trigger] o[b] as int],
                o[b] as int,
            ) by {
                if a < pos && b < pos {
                } else if a < pos && b == pos {
                } else if a < pos && b > pos {
                    lemma_listed_transitive(
                        f[old_order[a] as int],
                        old_order[a] as int,
                        f[i as int],
                        i as int,
                        f[old_order[b - 1] as int],
                        old_order[b - 1] as int,
                    );
                } else if a == pos {
                } else {
                    assert(o[a] == old_order[a - 1]);
                    assert(o[b] == old_order[b - 1]);
                }
            }
        }
        i = i + 1;
    }
    order
}

/// A copy of a finding.
fn copy_finding(f: &Finding) -> (r: Finding)
    ensures
        r.severity == f.severity,
        r.rule == f.rule,
        r.message@ == f.message@,
        r.node@ == f.node@,
        r.source == f.source,
{
    let source = match &f.source {
        Some(s) => Some(s.clone()),
        None => None,
    };
    Finding { severity: f.severity, rule: f.rule, message: f.message.clone(), node: f.node.clone(), source }
}

/// Whether two findings read the same.
pub open spec fn same_finding(a: Finding, b: Finding) -> bool {
    &&& a.severity == b.severity
    &&& a.rule == b.rule
    &&& a.message@ == b.message@
    &&& a.node@ == b.node@
    &&& a.source == b.source
}

/// `findings` in listing order: worst first, so the panel opens on what
/// matters.
pub fn sort_findings(findings: &Vec<Finding>) -> (r: Vec<Finding>)
    ensures
        exists|order: Seq<usize>|
            is_listing(findings@, order) && r@.len() == order.len() && forall|k: int|
                0 <= k < order.len() ==> same_finding(#[trigger] r@[k], findings@[order[k] as int]),
{
    let order = listing(findings);
    let mut out: Vec<Finding> = Vec::new();
    let mut k: usize = 0;
    while k < order.len()
        invariant
            is_listing(findings@, order@),
            k <= order@.len(),
            out@.len() == k,
            forall|m: int| 0 <= m < k ==> same_finding(#[trigger] out@[m], findings@[order@[m] as int]),
        decreases order@.len() - k,
    {
        let j = order[k];
        out.push(copy_finding(&findings[j]));
        k = k + 1;
    }
    out
}

/// The panel's own state: `None` shows every finding, otherwise only this
/// severity.
pub struct AuditPanel {
    severity: Option<Severity>,
}

impl AuditPanel {
    pub fn new() -> (r: AuditPanel)
        ensures
            r.filter() is None,
    {
        AuditPanel { severity: None }
    }

    /// The severity shown, or `None` for all.
    pub closed spec fn filter(&self) -> Option<Severity> {
        self.severity
    }

    pub fn severity(&self) -> (r: Option<Severity>)
        ensures
            r == self.filter(),
    {
        self.severity
    }

    pub fn set_severity(&mut self, severity: Option<Severity>)
        ensures
            final(self).filter() == severity,
    {
        self.severity = severity;
    }

    /// Whether a finding of `severity` is listed under the filter.
    pub fn shows(&self, severity: Severity) -> (r: bool)
        ensures
            r == (self.filter() matches Some(s) ==> s == severity),
    {
        match self.severity {
            Some(s) => s == severity,
            None => true,
        }
    }
}

impl Default for AuditPanel {
    fn default() -> (r: AuditPanel)
        ensures
            r.filter() is None,
    {
        AuditPanel::new()
    }
}

/// How many of `findings` have `severity`.
pub open spec fn count_of(findings: Seq<Finding>, severity: Severity) -> nat
    decreases findings.len(),
{
    if findings.len() == 0 {
        0
    } else {
        count_of(findings.drop_last(), severity) + if findings.last().severity == severity {
            1nat
        } else {
            0nat
        }
    }
}

/// How many findings have `severity`, for the filter pills.
pub fn count(findings: &Vec<Finding>, severity: Severity) -> (r: usize)
    ensures
        r == count_of(findings@, severity),
{
    let mut n: usize = 0;
    let mut i: usize = 0;
    while i < findings.len()
        invariant
            i <= findings@.len(),
            n == count_of(findings@.take(i as int), severity),
            n <= i,
        decreases findings@.len() - i,
    {
        assert(findings@.take(i + 1).drop_last() =~= findings@.take(i as int));
        if findings[i].severity == severity {
            n = n + 1;
        }
        i = i + 1;
    }
    assert(findings@.take(findings@.len() as int) =~= findings@);
    n
}

/// A listing puts every error before every warning and every warning
/// before every info.
pub proof fn law_listing_is_worst_first(findings: Seq<Finding>, order: Seq<usize>)
    requires
        is_listing(findings, order),
    ensures
        forall|k: int, l: int|
            0 <= k < l < order.len() ==> rank(findings[#[trigger] order[k] as int].severity) <= rank(
                findings[#[trigger] order[l] as int].severity,
            ),
{
}

} // verus!
