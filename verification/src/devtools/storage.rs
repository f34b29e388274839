//! The Storage panel's logic: domains grouped under their kind in Safari's
//! order, and which domain the table shows.

use vstd::prelude::*;

use super::state::{find_domain, StorageDomain, StorageKind};

verus! {

/// The order the sidebar lists the kinds in.
pub open spec fn kind_order() -> Seq<StorageKind> {
    seq![StorageKind::Local, StorageKind::Session, StorageKind::Cookies, StorageKind::Database, StorageKind::Cache]
}

/// The domains of `kind`, in registration order.
pub open spec fn of_kind(domains: Seq<StorageDomain>, kind: StorageKind) -> Seq<StorageDomain> {
    domains.filter(|d: StorageDomain| d.kind == kind)
}

/// The non-empty groups among the first `n` kinds of the sidebar order.
pub open spec fn groups_upto(domains: Seq<StorageDomain>, n: int) -> Seq<(StorageKind, Seq<StorageDomain>)>
    decreases n,
{
    if n <= 0 {
        Seq::empty()
    } else {
        let rest = groups_upto(domains, n - 1);
        let kind = kind_order()[n - 1];
        let group = of_kind(domains, kind);
        if group.len() > 0 {
            rest.push((kind, group))
        } else {
            rest
        }
    }
}

/// Every non-empty group, in the sidebar's order.
pub open spec fn groups_of(domains: Seq<StorageDomain>) -> Seq<(StorageKind, Seq<StorageDomain>)> {
    groups_upto(domains, 5)
}

/// Where a kind's heading sits in the sidebar: Local storage, then Session
/// storage, Cookies, Databases and the Cache.
pub open spec fn sidebar_place(kind: StorageKind) -> int {
    match kind {
        StorageKind::Local => 0,
        StorageKind::Session => 1,
        StorageKind::Cookies => 2,
        StorageKind::Database => 3,
        StorageKind::Cache => 4,
    }
}

proof fn lemma_groups_upto(domains: Seq<StorageDomain>, n: int)
    requires
        0 <= n <= 5,
    ensures
        forall|i: int| 0 <= i < groups_upto(domains, n).len() ==> sidebar_place(
            #[trigger] groups_upto(domains, n)[i].0,
        ) < n,
        forall|i: int, j: int|
            0 <= i < j < groups_upto(domains, n).len() ==> sidebar_place(
                #[trigger] groups_upto(domains, n)[i].0,
            ) < sidebar_place(#[trigger] groups_upto(domains, n)[j].0),
        forall|i: int|
            0 <= i < groups_upto(domains, n).len() ==> (#[trigger] groups_upto(domains, n)[i]).1 == of_kind(
                domains,
                groups_upto(domains, n)[i].0,
            ) && groups_upto(domains, n)[i].1.len() > 0,
        forall|k: StorageKind|
            sidebar_place(k) < n && #[trigger] of_kind(domains, k).len() > 0 ==> exists|i: int|
                0 <= i < groups_upto(domains, n).len() && groups_upto(domains, n)[i].0 == k,
    decreases n,
{
    if n > 0 {
        lemma_groups_upto(domains, n - 1);
        let kind = kind_order()[n - 1];
        assert(sidebar_place(kind) == n - 1);
        assert forall|k: StorageKind| sidebar_place(k) == n - 1 implies k == kind by {}
        let rest = groups_upto(domains, n - 1);
        let g = groups_upto(domains, n);
        assert forall|k: StorageKind|
            sidebar_place(k) < n && #[trigger] of_kind(domains, k).len() > 0 implies exists|i: int|
                0 <= i < g.len() && g[i].0 == k by {
            if sidebar_place(k) < n - 1 {
                let i = choose|i: int| 0 <= i < rest.len() && rest[i].0 == k;
                assert(g[i] == rest[i]);
            } else {
                assert(k == kind);
                assert(g[g.len() - 1].0 == k);
            }
        }
    }
}

/// Whether `x` is `y` with some elements left out, the rest in their order.
pub open spec fn subsequence(x: Seq<StorageDomain>, y: Seq<StorageDomain>) -> bool
    decreases y.len(),
{
    if x.len() == 0 {
        true
    } else if y.len() == 0 {
        false
    } else if x.last() == y.last() {
        subsequence(x.drop_last(), y.drop_last())
    } else {
        subsequence(x, y.drop_last())
    }
}

/// A kind's domains are the domains with some left out, in order.
proof fn lemma_of_kind_in_order(s: Seq<StorageDomain>, k: StorageKind)
    ensures
        subsequence(of_kind(s, k), s),
    decreases s.len(),
{
    reveal(Seq::filter);
    if s.len() > 0 {
        let t = s.drop_last();
        lemma_of_kind_in_order(t, k);
        let ft = of_kind(t, k);
        if s.last().kind == k {
            assert(of_kind(s, k) == ft.push(s.last()));
            assert(ft.push(s.last()).drop_last() =~= ft);
        } else {
            assert(of_kind(s, k) == ft);
            if ft.len() > 0 {
                t.lemma_filter_pred(|d: StorageDomain| d.kind == k, ft.len() - 1);
                assert(ft.last().kind == k);
            }
        }
    }
}

/// The sidebar lists a heading for every kind that has domains and none
/// for a kind without: Local, Session, Cookies, Database, Cache, in that
/// order, each heading holding exactly that kind's domains, in the order
/// they were registered.
pub proof fn law_groups_follow_the_sidebar(domains: Seq<StorageDomain>)
    ensures
        forall|i: int|
            0 <= i < groups_of(domains).len() ==> subsequence(#[trigger] groups_of(domains)[i].1, domains),
        forall|i: int, j: int|
            0 <= i < j < groups_of(domains).len() ==> sidebar_place(#[trigger] groups_of(domains)[i].0)
                < sidebar_place(#[trigger] groups_of(domains)[j].0),
        forall|i: int|
            0 <= i < groups_of(domains).len() ==> {
                &&& (#[trigger] groups_of(domains)[i]).1.len() > 0
                &&& forall|d: StorageDomain| #[trigger] groups_of(domains)[i].1.contains(d) ==> d.kind
                    == groups_of(domains)[i].0
            },
        forall|d: StorageDomain|
            #[trigger] domains.contains(d) ==> exists|i: int|
                0 <= i < groups_of(domains).len() && groups_of(domains)[i].0 == d.kind
                    && groups_of(domains)[i].1.contains(d),
{
    lemma_groups_upto(domains, 5);
    let g = groups_of(domains);
    assert forall|i: int| 0 <= i < groups_of(domains).len() implies subsequence(
        #[trigger] groups_of(domains)[i].1,
        domains,
    ) by {
        lemma_of_kind_in_order(domains, groups_of(domains)[i].0);
    }
    assert forall|i: int|
        0 <= i < g.len() implies forall|d: StorageDomain| #[trigger] (#[trigger] g[i]).1.contains(d) ==> d.kind == g[i].0 by {
        let k = g[i].0;
        assert forall|d: StorageDomain| #[trigger] g[i].1.contains(d) implies d.kind == k by {
            let f = domains.filter(|e: StorageDomain| e.kind == k);
            assert(g[i].1 == f);
            let j = choose|j: int| 0 <= j < f.len() && f[j] == d;
            domains.lemma_filter_pred(|e: StorageDomain| e.kind == k, j);
        }
    }
    assert forall|d: StorageDomain| #[trigger] domains.contains(d) implies exists|i: int|
        0 <= i < g.len() && g[i].0 == d.kind && g[i].1.contains(d) by {
        let k = d.kind;
        let j = choose|j: int| 0 <= j < domains.len() && domains[j] == d;
        domains.lemma_filter_contains(|e: StorageDomain| e.kind == k, j);
        assert(of_kind(domains, k).len() > 0);
        let i = choose|i: int| 0 <= i < g.len() && g[i].0 == k;
        assert(g[i].1.contains(d));
    }
}

/// The domains themselves behind a list of references.
pub open spec fn derefs(s: Seq<&StorageDomain>) -> Seq<StorageDomain> {
    s.map_values(|d: &StorageDomain| *d)
}

/// The kind at `n` in the sidebar order.
fn kind_at(n: usize) -> (r: StorageKind)
    requires
        n < 5,
    ensures
        r == kind_order()[n as int],
{
    match n {
        0 => StorageKind::Local,
        1 => StorageKind::Session,
        2 => StorageKind::Cookies,
        3 => StorageKind::Database,
        _ => StorageKind::Cache,
    }
}

/// The domains of `kind`, in registration order.
fn collect_kind<'a>(domains: &'a [StorageDomain], kind: StorageKind) -> (r: Vec<&'a StorageDomain>)
    ensures
        derefs(r@) == of_kind(domains@, kind),
{
    let mut out: Vec<&StorageDomain> = Vec::new();
    let mut i: usize = 0;
    proof {
        reveal(Seq::filter);
    }
    assert(domains@.take(0).filter(|d: StorageDomain| d.kind == kind) =~= Seq::<StorageDomain>::empty());
    assert(derefs(out@) =~= Seq::<StorageDomain>::empty());
    while i < domains.len()
        invariant
            i <= domains@.len(),
            derefs(out@) == of_kind(domains@.take(i as int), kind),
        decreases domains@.len() - i,
    {
        proof {
            reveal(Seq::filter);
            assert(domains@.take(i + 1).drop_last() =~= domains@.take(i as int));
            assert(domains@.take(i + 1).last() == domains@[i as int]);
        }
        let ghost before = out@;
        if domains[i].kind == kind {
            out.push(&domains[i]);
            assert(derefs(out@) =~= derefs(before).push(domains@[i as int]));
        }
        i = i + 1;
    }
    assert(domains@.take(domains@.len() as int) =~= domains@);
    out
}

/// The panel's own state: the selected domain, held by id so a host adding
/// a domain does not move the selection out from under the user.
pub struct StoragePanel {
    selected: Option<String>,
}

impl StoragePanel {
    /// Nothing selected: the table shows the first domain.
    pub fn new() -> (r: StoragePanel)
        ensures
            r.selection() is None,
    {
        StoragePanel { selected: None }
    }

    /// The selected domain's id, if one was picked.
    pub closed spec fn selection(&self) -> Option<Seq<char>> {
        match self.selected {
            Some(id) => Some(id@),
            None => None,
        }
    }

    pub fn select(&mut self, id: &str)
        ensures
            final(self).selection() == Some(id@),
    {
        self.selected = Some(id.to_string());
    }

    /// Group domains under their kind, preserving registration order within a
    /// group, and keeping the groups in the order Safari lists them; a kind
    /// with no domains gets no heading.
    pub fn grouped(domains: &[StorageDomain]) -> (r: Vec<(StorageKind, Vec<&StorageDomain>)>)
        ensures
            r@.len() == groups_of(domains@).len(),
            forall|i: int|
                0 <= i < r@.len() ==> (#[trigger] r@[i]).0 == groups_of(domains@)[i].0 && derefs(r@[i].1@)
                    == groups_of(domains@)[i].1,
    {
        let mut out: Vec<(StorageKind, Vec<&StorageDomain>)> = Vec::new();
        let mut n: usize = 0;
        while n < 5
            invariant
                n <= 5,
                out@.len() == groups_upto(domains@, n as int).len(),
                forall|i: int|
                    0 <= i < out@.len() ==> (#[trigger] out@[i]).0 == groups_upto(domains@, n as int)[i].0
                        && derefs(out@[i].1@) == groups_upto(domains@, n as int)[i].1,
            decreases 5 - n,
        {
            let kind = kind_at(n);
            let group = collect_kind(domains, kind);
            if group.len() > 0 {
                out.push((kind, group));
            }
            n = n + 1;
        }
        out
    }

    /// Which domain the table shows: the selected one while it is still
    /// registered, else the first, else none.
    pub fn shown(&self, domains: &[StorageDomain]) -> (r: Option<usize>)
        ensures
            r == match self.selection() {
                Some(id) => if find_domain(domains@, id) >= 0 {
                    Some(find_domain(domains@, id) as usize)
                } else if domains@.len() > 0 {
                    Some(0usize)
                } else {
                    None::<usize>
                },
                None => if domains@.len() > 0 {
                    Some(0usize)
                } else {
                    None::<usize>
                },
            },
    {
        match &self.selected {
            Some(id) => {
                let mut i: usize = 0;
                while i < domains.len()
                    invariant
                        self.selection() == Some(id@),
                        i <= domains@.len(),
                        forall|j: int| 0 <= j < i ==> #[trigger] domains@[j].id@ != id@,
                    decreases domains@.len() - i,
                {
                    let same = domains[i].id == *id;
                    if same {
                        assert(domains@[i as int].id@ == id@);
                        proof {
                            super::state::lemma_find_domain(domains@, id@, i as int);
                        }
                        return Some(i);
                    }
                    i = i + 1;
                }
                proof {
                    super::state::lemma_find_domain(domains@, id@, i as int);
                }
            },
            None => {},
        }
        if domains.len() > 0 {
            Some(0)
        } else {
            None
        }
    }
}

impl Default for StoragePanel {
    fn default() -> (r: StoragePanel)
        ensures
            r.selection() is None,
    {
        StoragePanel::new()
    }
}

} // verus!
