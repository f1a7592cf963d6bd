//! The local cycle collector: trial deletion over the cells that a
//! candidate can reach.
//!
//! A pass has three steps. *Trace* walks the edges from the candidate and
//! takes one count away from a cell for every edge that it follows; the
//! cells that it visits are grey. *Restore* starts from the grey cells that
//! kept a count, which something outside the region still refers to, walks
//! the edges from them and gives the counts back; the cells that it visits
//! are black. *Sweep* writes the restored counts to the black cells and
//! finalizes the cells that stayed grey.

use crate::cactus::graph::{
    after_collect, garbage, Graph, graph_wf, has_edge, in_degree, inbound_from, is_garbage,
    is_rescuer, live, multiplicity, node, reach_set, reaches, residual,
};
use crate::cactus::heap::CactusHeap;
use crate::cactus::laws::{lemma_after_collect_wf, lemma_nothing_collected};
use crate::cactus::rooted::{lemma_collect_leaves_no_garbage, no_garbage};
use crate::cactus::lemmas::{
    lemma_closed_set_holds_reach, lemma_inbound_insert, lemma_inbound_split, lemma_inbound_subset,
    lemma_inbound_zero, lemma_pigeonhole, lemma_reached_is_live, lemma_reaches_self,
    lemma_reaches_step,
};
use std::collections::HashMap;
use vstd::prelude::*;

verus! {

/// How often `v` occurs among the first `k` entries of `list`.
pub open spec fn occurrences(list: Seq<usize>, k: nat, v: usize) -> nat
    decreases k,
{
    if k == 0 {
        0
    } else {
        occurrences(list, (k - 1) as nat, v) + if list[k - 1] == v {
            1nat
        } else {
            0nat
        }
    }
}

/// Counting the occurrences in a whole list is counting them in the
/// multiset of its entries.
pub proof fn lemma_occurrences_total(list: Seq<usize>, v: usize)
    ensures
        occurrences(list, list.len(), v) == list.to_multiset().count(v),
    decreases list.len(),
{
    if list.len() == 0 {
        list.to_multiset_ensures();
        assert(list.to_multiset().len() == 0);
        if list.to_multiset().count(v) > 0 {
            assert(list.contains(v));
        }
    } else {
        let front = list.drop_last();
        lemma_occurrences_total(front, v);
        lemma_occurrences_prefix(list, front, front.len(), v);
        front.to_multiset_ensures();
        assert(front.push(list.last()) =~= list);
    }
}

/// The count over a prefix depends on the prefix alone.
pub proof fn lemma_occurrences_prefix(a: Seq<usize>, b: Seq<usize>, k: nat, v: usize)
    requires
        k <= a.len(),
        k <= b.len(),
        forall|j: int| 0 <= j < k ==> a[j] == b[j],
    ensures
        occurrences(a, k, v) == occurrences(b, k, v),
    decreases k,
{
    if k > 0 {
        lemma_occurrences_prefix(a, b, (k - 1) as nat, v);
    }
}

/// The count over a prefix is at most the count over a longer prefix.
pub proof fn lemma_occurrences_grow(list: Seq<usize>, k: nat, n: nat, v: usize)
    requires
        k <= n,
    ensures
        occurrences(list, k, v) <= occurrences(list, n, v),
    decreases n,
{
    if k < n {
        lemma_occurrences_grow(list, k, (n - 1) as nat, v);
    }
}

/// A value that a prefix does not hold occurs in it no times.
pub proof fn lemma_occurrences_none(list: Seq<usize>, k: nat, v: usize)
    requires
        forall|j: int| 0 <= j < k ==> list[j] != v,
    ensures
        occurrences(list, k, v) == 0,
    decreases k,
{
    if k > 0 {
        lemma_occurrences_none(list, (k - 1) as nat, v);
    }
}

/// What pushing does to membership.
pub proof fn lemma_push_contains(s: Seq<usize>, v: usize)
    ensures
        forall|x: usize| s.push(v).contains(x) <==> s.contains(x) || x == v,
        s.no_duplicates() && !s.contains(v) ==> s.push(v).no_duplicates(),
{
    let t = s.push(v);
    assert forall|x: usize| t.contains(x) <==> s.contains(x) || x == v by {
        if s.contains(x) {
            let i = choose|i: int| 0 <= i < s.len() && s[i] == x;
            assert(t[i] == x);
        }
        if x == v {
            assert(t[s.len() as int] == v);
        }
        if t.contains(x) {
            let i = choose|i: int| 0 <= i < t.len() && t[i] == x;
            if i < s.len() {
                assert(s[i] == x);
            }
        }
    }
    if s.no_duplicates() && !s.contains(v) {
        assert forall|i: int, j: int| 0 <= i < t.len() && 0 <= j < t.len() && i != j implies t[i]
            != t[j] by {
            if i < s.len() {
                assert(s.contains(t[i]));
            }
            if j < s.len() {
                assert(s.contains(t[j]));
            }
        }
    }
}

/// The entries of `list` before position `i`, as a set.
pub open spec fn prefix_set(list: Seq<usize>, i: int) -> Set<usize> {
    Set::new(|x: usize| exists|j: int| 0 <= j < i && j < list.len() && list[j] == x)
}

/// What the trace has established when it has dealt with the first `i`
/// cells of its work list and with the first `k` edges of the next one.
pub open spec fn trace_inv(
    g: Graph,
    c: usize,
    order: Seq<usize>,
    left: Map<usize, usize>,
    i: int,
    es: Seq<usize>,
    k: nat,
) -> bool {
    &&& 0 <= i <= order.len()
    &&& order.len() > 0
    &&& order[0] == c
    &&& order.no_duplicates()
    &&& forall|j: int| 0 <= j < order.len() ==> reaches(g, c, #[trigger] order[j])
    &&& forall|x: usize| left.contains_key(x) <==> order.contains(x)
    &&& forall|u: usize, v: usize|
        prefix_set(order, i).contains(u) && #[trigger] has_edge(g, u, v) ==> left.contains_key(v)
    &&& forall|j: int| 0 <= j < k ==> left.contains_key(#[trigger] es[j])
    &&& forall|x: usize|
        #[trigger] left.contains_key(x) ==> left[x] + inbound_from(g, prefix_set(order, i), x)
            + occurrences(es, k, x) == node(g, x).strong_count
}

/// What the trace hands over: the cells that the candidate reaches, each
/// once, and for each of them the count that is left when the edges that
/// start at those cells are taken away.
pub open spec fn traced(g: Graph, c: usize, order: Seq<usize>, left: Map<usize, usize>) -> bool {
    &&& order.no_duplicates()
    &&& forall|x: usize| order.contains(x) <==> reaches(g, c, x)
    &&& forall|x: usize| left.contains_key(x) <==> reaches(g, c, x)
    &&& forall|x: usize| reaches(g, c, x) ==> #[trigger] left[x] == residual(g, c, x)
}

/// Whether some rescuer reaches `x`.
pub open spec fn is_rescued(g: Graph, c: usize, x: usize) -> bool {
    exists|s: usize| #[trigger] is_rescuer(g, c, s) && reaches(g, s, x)
}

/// What the restore step has established when it has dealt with the first
/// `i` cells of its work list and with the first `k` edges of the next one.
pub open spec fn restore_inv(
    g: Graph,
    c: usize,
    work: Seq<usize>,
    kept: Map<usize, usize>,
    i: int,
    es: Seq<usize>,
    k: nat,
) -> bool {
    &&& 0 <= i <= work.len()
    &&& work.no_duplicates()
    &&& forall|j: int| 0 <= j < work.len() ==> is_rescued(g, c, #[trigger] work[j])
    &&& forall|j: int| 0 <= j < work.len() ==> reaches(g, c, #[trigger] work[j])
    &&& forall|x: usize| kept.contains_key(x) <==> work.contains(x)
    &&& forall|u: usize, v: usize|
        prefix_set(work, i).contains(u) && #[trigger] has_edge(g, u, v) ==> kept.contains_key(v)
    &&& forall|j: int| 0 <= j < k ==> kept.contains_key(#[trigger] es[j])
    &&& forall|x: usize|
        #[trigger] kept.contains_key(x) ==> kept[x] == residual(g, c, x) + inbound_from(
            g,
            prefix_set(work, i),
            x,
        ) + occurrences(es, k, x)
}

/// What the restore step hands over: the cells that the candidate reaches
/// and that are not garbage, each with the count that it has once the
/// garbage is gone.
pub open spec fn restored(g: Graph, c: usize, kept: Map<usize, usize>) -> bool {
    &&& forall|x: usize| kept.contains_key(x) <==> reaches(g, c, x) && !is_garbage(g, c, x)
    &&& forall|x: usize|
        #[trigger] kept.contains_key(x) ==> kept[x] == node(g, x).strong_count - inbound_from(
            g,
            garbage(g, c),
            x,
        )
}

/// The set of the first `i + 1` entries is the set of the first `i` with
/// entry `i` added.
pub proof fn lemma_prefix_set_next(list: Seq<usize>, i: int)
    requires
        0 <= i < list.len(),
    ensures
        prefix_set(list, i + 1) == prefix_set(list, i).insert(list[i]),
        list.no_duplicates() ==> !prefix_set(list, i).contains(list[i]),
{
    assert forall|x: usize| prefix_set(list, i + 1).contains(x) <==> prefix_set(list, i).insert(
        list[i],
    ).contains(x) by {
        if prefix_set(list, i + 1).contains(x) {
            let j = choose|j: int| 0 <= j < i + 1 && j < list.len() && list[j] == x;
            if j < i {
                assert(prefix_set(list, i).contains(x));
            }
        }
        if prefix_set(list, i).contains(x) {
            let j = choose|j: int| 0 <= j < i && j < list.len() && list[j] == x;
            assert(0 <= j < i + 1 && j < list.len() && list[j] == x);
        }
        if x == list[i] {
            assert(0 <= i < i + 1 && i < list.len() && list[i] == x);
        }
    }
    assert(prefix_set(list, i + 1) =~= prefix_set(list, i).insert(list[i]));
}

/// Pushing onto a list leaves the sets of its prefixes as they were.
pub proof fn lemma_prefix_set_push(list: Seq<usize>, v: usize, i: int)
    requires
        0 <= i <= list.len(),
    ensures
        prefix_set(list.push(v), i) == prefix_set(list, i),
{
    let t = list.push(v);
    assert forall|x: usize| prefix_set(t, i).contains(x) <==> prefix_set(list, i).contains(x) by {
        if prefix_set(t, i).contains(x) {
            let j = choose|j: int| 0 <= j < i && j < t.len() && t[j] == x;
            assert(list[j] == x);
        }
        if prefix_set(list, i).contains(x) {
            let j = choose|j: int| 0 <= j < i && j < list.len() && list[j] == x;
            assert(t[j] == x);
        }
    }
    assert(prefix_set(t, i) =~= prefix_set(list, i));
}

/// The set of all entries of a list is the set of its members.
pub proof fn lemma_prefix_set_all(list: Seq<usize>)
    ensures
        forall|x: usize| prefix_set(list, list.len() as int).contains(x) <==> list.contains(x),
{
    assert forall|x: usize| prefix_set(list, list.len() as int).contains(x) <==> list.contains(
        x,
    ) by {
        if list.contains(x) {
            let j = choose|j: int| 0 <= j < list.len() && list[j] == x;
            assert(0 <= j < list.len() && j < list.len() && list[j] == x);
        }
    }
}

/// Following one more edge of the cell `u` stays within the number of edges
/// that lead to its target from `region`, a set that holds `u` and the
/// cells dealt with before it.
pub proof fn lemma_edge_is_counted(
    g: Graph,
    done: Set<usize>,
    region: Set<usize>,
    u: usize,
    es: Seq<usize>,
    k: nat,
)
    requires
        graph_wf(g),
        live(g, u),
        !done.contains(u),
        done.insert(u).subset_of(region),
        es.to_multiset() == node(g, u).edges,
        k < es.len(),
    ensures
        has_edge(g, u, es[k as int]),
        live(g, es[k as int]),
        inbound_from(g, done, es[k as int]) + occurrences(es, k, es[k as int]) + 1 <= inbound_from(
            g,
            region,
            es[k as int],
        ),
        inbound_from(g, region, es[k as int]) <= in_degree(g, es[k as int]),
        in_degree(g, es[k as int]) <= node(g, es[k as int]).strong_count,
{
    let v = es[k as int];
    lemma_occurrences_total(es, v);
    lemma_occurrences_grow(es, k + 1, es.len(), v);
    assert(occurrences(es, k + 1, v) == occurrences(es, k, v) + 1);
    assert(multiplicity(g, u, v) == es.to_multiset().count(v));
    assert(has_edge(g, u, v));
    lemma_inbound_insert(g, done, v, u);
    lemma_inbound_subset(g, done.insert(u), region, v);
    lemma_inbound_subset(g, region, Set::full(), v);
    assert(node(g, v).strong_count == node(g, v).handles + in_degree(g, v));
}

/// When the scan has put the rescuers on the work list, the restore step
/// can start.
pub proof fn lemma_restore_start(
    g: Graph,
    c: usize,
    order: Seq<usize>,
    work: Seq<usize>,
    kept: Map<usize, usize>,
)
    requires
        graph_wf(g),
        forall|x: usize| order.contains(x) <==> reaches(g, c, x),
        work.no_duplicates(),
        forall|x: usize|
            work.contains(x) <==> prefix_set(order, order.len() as int).contains(x) && is_rescuer(
                g,
                c,
                x,
            ),
        forall|x: usize| kept.contains_key(x) <==> work.contains(x),
        forall|x: usize| #[trigger] kept.contains_key(x) ==> kept[x] == residual(g, c, x),
    ensures
        restore_inv(g, c, work, kept, 0, Seq::<usize>::empty(), 0),
        forall|s: usize| #[trigger] is_rescuer(g, c, s) ==> kept.contains_key(s),
        work.len() <= g.len(),
{
    let none = Seq::<usize>::empty();
    lemma_prefix_set_all(order);
    assert(prefix_set(work, 0) =~= Set::<usize>::empty());
    assert forall|k: int| 0 <= k < work.len() implies is_rescued(g, c, #[trigger] work[k])
        && reaches(g, c, work[k]) by {
        let x = work[k];
        assert(work.contains(x));
        assert(is_rescuer(g, c, x));
        lemma_reached_is_live(g, c, x);
        lemma_reaches_self(g, x);
    }
    assert forall|x: usize| #[trigger] kept.contains_key(x) implies kept[x] == residual(g, c, x)
        + inbound_from(g, prefix_set(work, 0), x) + occurrences(none, 0, x) by {
        lemma_inbound_zero(g, prefix_set(work, 0), x);
    }
    assert forall|s: usize| #[trigger] is_rescuer(g, c, s) implies kept.contains_key(s) by {
        assert(order.contains(s));
        assert(work.contains(s));
    }
    assert forall|k: int| 0 <= k < work.len() implies #[trigger] work[k] < g.len() by {
        lemma_reached_is_live(g, c, work[k]);
    }
    lemma_pigeonhole(work, g.len());
}

/// When the work list is used up, the cells on it are the cells that are
/// kept, and the counts are the counts that they keep.
pub proof fn lemma_restore_finish(g: Graph, c: usize, work: Seq<usize>, kept: Map<usize, usize>)
    requires
        graph_wf(g),
        restore_inv(g, c, work, kept, work.len() as int, Seq::<usize>::empty(), 0),
        forall|s: usize| #[trigger] is_rescuer(g, c, s) ==> kept.contains_key(s),
    ensures
        restored(g, c, kept),
{
    let region = reach_set(g, c);
    lemma_prefix_set_all(work);
    let all = prefix_set(work, work.len() as int);
    let dead = garbage(g, c);
    assert forall|x: usize| kept.contains_key(x) implies reaches(g, c, x) && !is_garbage(
        g,
        c,
        x,
    ) by {
        assert(work.contains(x));
        let jj = choose|jj: int| 0 <= jj < work.len() && work[jj] == x;
        assert(is_rescued(g, c, work[jj]));
        assert(reaches(g, c, work[jj]));
    }
    assert forall|w: usize, v: usize| all.contains(w) && #[trigger] has_edge(g, w, v) implies all.contains(
        v,
    ) by {
        assert(kept.contains_key(v));
        assert(work.contains(v));
    }
    assert forall|x: usize| reaches(g, c, x) && !is_garbage(g, c, x) implies kept.contains_key(
        x,
    ) by {
        let s = choose|s: usize| #[trigger] is_rescuer(g, c, s) && reaches(g, s, x);
        assert(kept.contains_key(s));
        assert(work.contains(s));
        assert(all.contains(s));
        lemma_closed_set_holds_reach(g, all, s, x);
        assert(work.contains(x));
    }
    assert(all.disjoint(dead)) by {
        assert forall|x: usize| !(all.contains(x) && dead.contains(x)) by {
            if all.contains(x) {
                assert(work.contains(x));
                assert(kept.contains_key(x));
            }
        }
    }
    assert forall|x: usize| all.union(dead).contains(x) <==> region.contains(x) by {
        if all.contains(x) {
            assert(work.contains(x));
            assert(kept.contains_key(x));
        }
        if region.contains(x) && !dead.contains(x) {
            assert(kept.contains_key(x));
            assert(work.contains(x));
        }
    }
    assert(all.union(dead) =~= region);
    assert forall|x: usize| #[trigger] kept.contains_key(x) implies kept[x] == node(
        g,
        x,
    ).strong_count - inbound_from(g, dead, x) by {
        lemma_inbound_split(g, all, dead, x, g.len());
    }
}

impl<T> CactusHeap<T> {
    /// The first step of a pass. Returns the cells that `candidate`
    /// reaches, in the order in which the walk found them, and for each of
    /// them what is left of its strong count when one is taken away for
    /// every edge that starts at one of those cells.
    pub fn trace(&self, candidate: usize) -> (found: (Vec<usize>, HashMap<usize, usize>))
        requires
            graph_wf(self@),
            live(self@, candidate),
        ensures
            traced(self@, candidate, found.0@, found.1@),
    {
        let ghost g = self@;
        let mut order: Vec<usize> = Vec::new();
        let mut left: HashMap<usize, usize> = HashMap::new();
        order.push(candidate);
        left.insert(candidate, self.cell(candidate).strong_count());
        let ghost none = Seq::<usize>::empty();
        proof {
            lemma_reaches_self(g, candidate);
            assert(order@ =~= seq![candidate]);
            assert forall|x: usize| left@.contains_key(x) <==> order@.contains(x) by {
                if order@.contains(x) {
                    let j = choose|j: int| 0 <= j < order@.len() && order@[j] == x;
                }
                if x == candidate {
                    assert(order@[0] == x);
                }
            }
            assert(prefix_set(order@, 0) =~= Set::<usize>::empty());
            lemma_inbound_zero(g, prefix_set(order@, 0), candidate);
            assert(trace_inv(g, candidate, order@, left@, 0, none, 0));
        }
        let mut i: usize = 0;
        while i < order.len()
            invariant
                g == self@,
                graph_wf(g),
                none.len() == 0,
                trace_inv(g, candidate, order@, left@, i as int, none, 0),
                order@.len() <= g.len(),
            decreases g.len() - i,
        {
            let u = order[i];
            let ghost done = prefix_set(order@, i as int);
            proof {
                lemma_reached_is_live(g, candidate, u);
                lemma_prefix_set_next(order@, i as int);
            }
            let es = self.cell(u).edges();
            let mut k: usize = 0;
            while k < es.len()
                invariant
                    g == self@,
                    graph_wf(g),
                    i < order@.len(),
                    order@[i as int] == u,
                    live(g, u),
                    done == prefix_set(order@, i as int),
                    !done.contains(u),
                    es@.to_multiset() == node(g, u).edges,
                    k <= es@.len(),
                    trace_inv(g, candidate, order@, left@, i as int, es@, k as nat),
                decreases es@.len() - k,
            {
                let v = es[k];
                let ghost order0 = order@;
                let ghost left0 = left@;
                proof {
                    lemma_edge_is_counted(g, done, Set::full(), u, es@, k as nat);
                    lemma_reaches_step(g, candidate, u, v);
                }
                let seen = left.get(&v);
                match seen {
                    Some(r) => {
                        let r = *r;
                        left.insert(v, r - 1);
                    },
                    None => {
                        proof {
                            assert forall|w: usize| done.contains(w) implies !#[trigger] has_edge(
                                g,
                                w,
                                v,
                            ) by {}
                            lemma_inbound_zero(g, done, v);
                            lemma_occurrences_none(es@, k as nat, v);
                            lemma_push_contains(order0, v);
                            lemma_prefix_set_push(order0, v, i as int);
                        }
                        let s = self.cell(v).strong_count();
                        left.insert(v, s - 1);
                        order.push(v);
                    },
                }
                proof {
                    assert(left@.contains_key(v));
                    lemma_push_contains(order0, v);
                    assert forall|x: usize| left@.contains_key(x) <==> order@.contains(x) by {
                        assert(left0.contains_key(x) <==> order0.contains(x));
                        assert(left@.contains_key(x) <==> left0.contains_key(x) || x == v);
                        if left0.contains_key(v) {
                            assert(order@ == order0);
                        } else {
                            assert(order@ == order0.push(v));
                        }
                    }
                    assert forall|j: int| 0 <= j < order@.len() implies reaches(
                        g,
                        candidate,
                        #[trigger] order@[j],
                    ) by {
                        if j < order0.len() {
                            assert(order@[j] == order0[j]);
                        }
                    }
                    assert forall|j: int| 0 <= j < k + 1 implies left@.contains_key(
                        #[trigger] es@[j],
                    ) by {
                        if j < k {
                            assert(left0.contains_key(es@[j]));
                        }
                    }
                    assert forall|x: usize| #[trigger] left@.contains_key(x) implies left@[x]
                        + inbound_from(g, prefix_set(order@, i as int), x) + occurrences(
                        es@,
                        (k + 1) as nat,
                        x,
                    ) == node(g, x).strong_count by {
                        if x != v {
                            assert(left0.contains_key(x));
                        }
                    }
                    assert(trace_inv(g, candidate, order@, left@, i as int, es@, (k + 1) as nat));
                }
                k = k + 1;
            }
            proof {
                let next = prefix_set(order@, i + 1);
                assert(next == done.insert(u));
                assert forall|w: usize, v: usize| next.contains(w) && #[trigger] has_edge(
                    g,
                    w,
                    v,
                ) implies left@.contains_key(v) by {
                    if w == u {
                        assert(es@.to_multiset().count(v) > 0);
                        es@.to_multiset_ensures();
                        assert(es@.contains(v));
                        let j = choose|j: int| 0 <= j < es@.len() && es@[j] == v;
                        assert(left@.contains_key(es@[j]));
                    } else {
                        assert(done.contains(w));
                    }
                }
                assert forall|x: usize| #[trigger] left@.contains_key(x) implies left@[x]
                    + inbound_from(g, next, x) + occurrences(none, 0, x) == node(
                    g,
                    x,
                ).strong_count by {
                    lemma_inbound_insert(g, done, x, u);
                    lemma_occurrences_total(es@, x);
                }
                assert(trace_inv(g, candidate, order@, left@, i + 1, none, 0));
                assert forall|j: int| 0 <= j < order@.len() implies #[trigger] order@[j]
                    < g.len() by {
                    lemma_reached_is_live(g, candidate, order@[j]);
                }
                lemma_pigeonhole(order@, g.len());
            }
            i = i + 1;
        }
        proof {
            lemma_prefix_set_all(order@);
            let all = prefix_set(order@, order@.len() as int);
            assert forall|x: usize| reaches(g, candidate, x) implies order@.contains(x) by {
                assert(all.contains(candidate)) by {
                    assert(order@[0] == candidate);
                    assert(order@.contains(candidate));
                }
                assert forall|w: usize, v: usize| all.contains(w) && #[trigger] has_edge(
                    g,
                    w,
                    v,
                ) implies all.contains(v) by {
                    assert(left@.contains_key(v));
                    assert(order@.contains(v));
                }
                lemma_closed_set_holds_reach(g, all, candidate, x);
            }
            assert forall|x: usize| order@.contains(x) implies reaches(g, candidate, x) by {
                let j = choose|j: int| 0 <= j < order@.len() && order@[j] == x;
                assert(reaches(g, candidate, order@[j]));
            }
            assert(all =~= reach_set(g, candidate));
            assert forall|x: usize| reaches(g, candidate, x) implies #[trigger] left@[x]
                == residual(g, candidate, x) by {
                assert(left@.contains_key(x));
            }
        }
        (order, left)
    }
    /// The second step of a pass. Starting from the cells that kept a count
    /// in the trace, gives back one count for every edge that starts at a
    /// cell that is kept. Returns the cells that are kept, each with the
    /// strong count that it has once the others are gone.
    pub fn restore(
        &self,
        candidate: usize,
        order: &Vec<usize>,
        left: &HashMap<usize, usize>,
    ) -> (kept: HashMap<usize, usize>)
        requires
            graph_wf(self@),
            traced(self@, candidate, order@, left@),
        ensures
            restored(self@, candidate, kept@),
    {
        let ghost g = self@;
        let ghost region = reach_set(g, candidate);
        let mut work: Vec<usize> = Vec::new();
        let mut kept: HashMap<usize, usize> = HashMap::new();
        let mut j: usize = 0;
        while j < order.len()
            invariant
                g == self@,
                graph_wf(g),
                traced(g, candidate, order@, left@),
                j <= order@.len(),
                work@.no_duplicates(),
                forall|x: usize|
                    work@.contains(x) <==> prefix_set(order@, j as int).contains(x) && is_rescuer(
                        g,
                        candidate,
                        x,
                    ),
                forall|x: usize| kept@.contains_key(x) <==> work@.contains(x),
                forall|x: usize| #[trigger]
                    kept@.contains_key(x) ==> kept@[x] == residual(g, candidate, x),
            decreases order@.len() - j,
        {
            let x = order[j];
            let ghost work0 = work@;
            let ghost kept0 = kept@;
            proof {
                assert(order@.contains(x));
                assert(reaches(g, candidate, x));
                assert(left@.contains_key(x));
                lemma_prefix_set_next(order@, j as int);
                lemma_push_contains(work0, x);
            }
            match left.get(&x) {
                Some(r) => {
                    let r = *r;
                    if r > 0 {
                        kept.insert(x, r);
                        work.push(x);
                    }
                },
                None => {},
            }
            proof {
                assert forall|y: usize|
                    work@.contains(y) <==> prefix_set(order@, j + 1).contains(y) && is_rescuer(
                        g,
                        candidate,
                        y,
                    ) by {
                    assert(work0.contains(y) <==> prefix_set(order@, j as int).contains(y)
                        && is_rescuer(g, candidate, y));
                }
                assert forall|y: usize| kept@.contains_key(y) <==> work@.contains(y) by {
                    assert(kept0.contains_key(y) <==> work0.contains(y));
                }
            }
            j = j + 1;
        }
        let ghost none = Seq::<usize>::empty();
        proof {
            lemma_restore_start(g, candidate, order@, work@, kept@);
        }
        let mut i: usize = 0;
        while i < work.len()
            invariant
                g == self@,
                graph_wf(g),
                region == reach_set(g, candidate),
                none.len() == 0,
                traced(g, candidate, order@, left@),
                restore_inv(g, candidate, work@, kept@, i as int, none, 0),
                forall|s: usize| #[trigger] is_rescuer(g, candidate, s) ==> kept@.contains_key(s),
                work@.len() <= g.len(),
            decreases g.len() - i,
        {
            let u = work[i];
            let ghost done = prefix_set(work@, i as int);
            proof {
                lemma_reached_is_live(g, candidate, u);
                lemma_prefix_set_next(work@, i as int);
            }
            let es = self.cell(u).edges();
            let mut k: usize = 0;
            while k < es.len()
                invariant
                    g == self@,
                    graph_wf(g),
                    region == reach_set(g, candidate),
                    traced(g, candidate, order@, left@),
                    i < work@.len(),
                    work@[i as int] == u,
                    live(g, u),
                    done == prefix_set(work@, i as int),
                    !done.contains(u),
                    es@.to_multiset() == node(g, u).edges,
                    k <= es@.len(),
                    restore_inv(g, candidate, work@, kept@, i as int, es@, k as nat),
                    forall|s: usize| #[trigger]
                        is_rescuer(g, candidate, s) ==> kept@.contains_key(s),
                decreases es@.len() - k,
            {
                let v = es[k];
                let ghost work0 = work@;
                let ghost kept0 = kept@;
                proof {
                    assert forall|w: usize| done.insert(u).contains(w) implies region.contains(
                        w,
                    ) by {
                        if w != u {
                            let jj = choose|jj: int|
                                0 <= jj < i && jj < work@.len() && work@[jj] == w;
                            assert(reaches(g, candidate, work@[jj]));
                        }
                    }
                    lemma_edge_is_counted(g, done, region, u, es@, k as nat);
                    lemma_reaches_step(g, candidate, u, v);
                    assert(left@.contains_key(v));
                    let s = choose|s: usize| #[trigger]
                        is_rescuer(g, candidate, s) && reaches(g, s, u);
                    lemma_reaches_step(g, s, u, v);
                    assert(is_rescued(g, candidate, v));
                    lemma_push_contains(work0, v);
                    lemma_prefix_set_push(work0, v, i as int);
                }
                let total = self.cell(v).strong_count();
                match kept.get(&v) {
                    Some(r) => {
                        let r = *r;
                        kept.insert(v, r + 1);
                    },
                    None => {
                        proof {
                            assert forall|w: usize| done.contains(w) implies !#[trigger] has_edge(
                                g,
                                w,
                                v,
                            ) by {}
                            lemma_inbound_zero(g, done, v);
                            lemma_occurrences_none(es@, k as nat, v);
                            if residual(g, candidate, v) > 0 {
                                assert(is_rescuer(g, candidate, v));
                            }
                        }
                        match left.get(&v) {
                            Some(r) => {
                                let r = *r;
                                kept.insert(v, r + 1);
                                work.push(v);
                            },
                            None => {},
                        }
                    },
                }
                proof {
                    assert(kept@.contains_key(v));
                    assert forall|x: usize| kept@.contains_key(x) <==> work@.contains(x) by {
                        assert(kept0.contains_key(x) <==> work0.contains(x));
                        assert(kept@.contains_key(x) <==> kept0.contains_key(x) || x == v);
                        if kept0.contains_key(v) {
                            assert(work@ == work0);
                        } else {
                            assert(work@ == work0.push(v));
                        }
                    }
                    assert forall|jj: int| 0 <= jj < work@.len() implies is_rescued(
                        g,
                        candidate,
                        #[trigger] work@[jj],
                    ) && reaches(g, candidate, work@[jj]) by {
                        if jj < work0.len() {
                            assert(work@[jj] == work0[jj]);
                        }
                    }
                    assert forall|jj: int| 0 <= jj < k + 1 implies kept@.contains_key(
                        #[trigger] es@[jj],
                    ) by {
                        if jj < k {
                            assert(kept0.contains_key(es@[jj]));
                        }
                    }
                    assert forall|x: usize| #[trigger] kept@.contains_key(x) implies kept@[x]
                        == residual(g, candidate, x) + inbound_from(
                        g,
                        prefix_set(work@, i as int),
                        x,
                    ) + occurrences(es@, (k + 1) as nat, x) by {
                        if x != v {
                            assert(kept0.contains_key(x));
                        }
                    }
                    assert(restore_inv(g, candidate, work@, kept@, i as int, es@, (k + 1) as nat));
                }
                k = k + 1;
            }
            proof {
                let next = prefix_set(work@, i + 1);
                assert(next == done.insert(u));
                assert forall|w: usize, v: usize| next.contains(w) && #[trigger] has_edge(
                    g,
                    w,
                    v,
                ) implies kept@.contains_key(v) by {
                    if w == u {
                        assert(es@.to_multiset().count(v) > 0);
                        es@.to_multiset_ensures();
                        assert(es@.contains(v));
                        let jj = choose|jj: int| 0 <= jj < es@.len() && es@[jj] == v;
                        assert(kept@.contains_key(es@[jj]));
                    } else {
                        assert(done.contains(w));
                    }
                }
                assert forall|x: usize| #[trigger] kept@.contains_key(x) implies kept@[x]
                    == residual(g, candidate, x) + inbound_from(g, next, x) + occurrences(
                    none,
                    0,
                    x,
                ) by {
                    lemma_inbound_insert(g, done, x, u);
                    lemma_occurrences_total(es@, x);
                }
                assert(restore_inv(g, candidate, work@, kept@, i + 1, none, 0));
                assert forall|jj: int| 0 <= jj < work@.len() implies #[trigger] work@[jj]
                    < g.len() by {
                    lemma_reached_is_live(g, candidate, work@[jj]);
                }
                lemma_pigeonhole(work@, g.len());
            }
            i = i + 1;
        }
        proof {
            lemma_restore_finish(g, candidate, work@, kept@);
        }
        kept
    }

    /// The third step of a pass. Writes the restored counts to the cells
    /// that are kept and finalizes the others, in the order in which the
    /// trace found them. Returns the ids of the cells that it finalized.
    pub fn sweep(
        &mut self,
        candidate: usize,
        order: &Vec<usize>,
        kept: &HashMap<usize, usize>,
    ) -> (finalized: Vec<usize>)
        requires
            old(self).wf(),
            order@.no_duplicates(),
            forall|x: usize| order@.contains(x) <==> reaches(old(self)@, candidate, x),
            restored(old(self)@, candidate, kept@),
        ensures
            final(self)@ == after_collect(old(self)@, candidate),
            final(self).free_list_wf(),
            finalized@.no_duplicates(),
            forall|x: usize| finalized@.contains(x) <==> garbage(old(self)@, candidate).contains(x),
            final(self).same_payloads(old(self)),
    {
        let ghost g = self@;
        let ghost before = *self;
        let ghost target = after_collect(g, candidate);
        let mut finalized: Vec<usize> = Vec::new();
        let mut j: usize = 0;
        proof {
            assert(prefix_set(order@, 0) =~= Set::<usize>::empty());
        }
        while j < order.len()
            invariant
                g == before@,
                graph_wf(g),
                target == after_collect(g, candidate),
                order@.no_duplicates(),
                forall|x: usize| order@.contains(x) <==> reaches(g, candidate, x),
                restored(g, candidate, kept@),
                j <= order@.len(),
                self.free_list_wf(),
                self@.len() == g.len(),
                forall|x: usize|
                    x < g.len() ==> #[trigger] self@[x as int] == if prefix_set(
                        order@,
                        j as int,
                    ).contains(x) {
                        target[x as int]
                    } else {
                        g[x as int]
                    },
                finalized@.no_duplicates(),
                forall|x: usize|
                    finalized@.contains(x) <==> prefix_set(order@, j as int).contains(x)
                        && is_garbage(g, candidate, x),
                forall|x: usize|
                    live(self@, x) ==> #[trigger] self.payload_of(x) == before.payload_of(x),
            decreases order@.len() - j,
        {
            let x = order[j];
            let ghost mid = self@;
            let ghost list0 = finalized@;
            proof {
                assert(order@.contains(x));
                lemma_reached_is_live(g, candidate, x);
                lemma_prefix_set_next(order@, j as int);
                lemma_push_contains(list0, x);
                assert(self@[x as int] == g[x as int]);
            }
            match kept.get(&x) {
                Some(n) => {
                    let n = *n;
                    self.set_count(x, n);
                },
                None => {
                    self.discard(x);
                    finalized.push(x);
                },
            }
            proof {
                assert forall|y: usize| y < g.len() implies #[trigger] self@[y as int]
                    == if prefix_set(order@, j + 1).contains(y) {
                    target[y as int]
                } else {
                    g[y as int]
                } by {
                    if y != x {
                        assert(self@[y as int] == mid[y as int]);
                    }
                }
                assert forall|y: usize|
                    finalized@.contains(y) <==> prefix_set(order@, j + 1).contains(y)
                        && is_garbage(g, candidate, y) by {
                    assert(list0.contains(y) <==> prefix_set(order@, j as int).contains(y)
                        && is_garbage(g, candidate, y));
                }
            }
            j = j + 1;
        }
        proof {
            lemma_prefix_set_all(order@);
            let dead = garbage(g, candidate);
            assert forall|y: int| 0 <= y < g.len() implies self@[y] == target[y] by {
                let x = y as usize;
                assert(self@[x as int] == if prefix_set(order@, order@.len() as int).contains(x) {
                    target[x as int]
                } else {
                    g[x as int]
                });
                if !order@.contains(x) {
                    assert(!reaches(g, candidate, x));
                    assert forall|u: usize| dead.contains(u) implies !#[trigger] has_edge(
                        g,
                        u,
                        x,
                    ) by {
                        if has_edge(g, u, x) {
                            lemma_reaches_step(g, candidate, u, x);
                        }
                    }
                    lemma_inbound_zero(g, dead, x);
                }
            }
            assert(self@ =~= target);
            lemma_after_collect_wf(g, candidate);
        }
        finalized
    }

    /// Runs one pass of the collector, seeded at `candidate`: finalizes
    /// the cells that `candidate` reaches and that no cell with a handle,
    /// and no cell outside that region, can reach. Returns the ids of the
    /// finalized cells; which of them comes first is not specified. If
    /// `candidate` is not a live cell, nothing happens.
    pub fn collect_from(&mut self, candidate: usize) -> (finalized: Vec<usize>)
        requires
            old(self).wf(),
        ensures
            final(self).wf(),
            final(self)@ == after_collect(old(self)@, candidate),
            finalized@.no_duplicates(),
            forall|x: usize| finalized@.contains(x) <==> garbage(old(self)@, candidate).contains(x),
            final(self).same_payloads(old(self)),
            finalized@.len() == 0 ==> final(self)@ == old(self)@,
            no_garbage(old(self)@) ==> no_garbage(final(self)@),
    {
        proof {
            if no_garbage(self@) {
                lemma_collect_leaves_no_garbage(self@, candidate);
            }
        }
        if !self.is_live(candidate) {
            proof {
                let g = self@;
                assert forall|x: usize| !garbage(g, candidate).contains(x) by {
                    if reaches(g, candidate, x) {
                        crate::cactus::lemmas::lemma_reaches_from_live(g, candidate, x);
                    }
                }
                lemma_nothing_collected(g, candidate);
            }
            return Vec::new();
        }
        let (order, left) = self.trace(candidate);
        let kept = self.restore(candidate, &order, &left);
        let finalized = self.sweep(candidate, &order, &kept);
        proof {
            lemma_after_collect_wf(old(self)@, candidate);
            if finalized@.len() == 0 {
                assert forall|x: usize| !garbage(old(self)@, candidate).contains(x) by {
                    if garbage(old(self)@, candidate).contains(x) {
                        assert(finalized@.contains(x));
                    }
                }
                lemma_nothing_collected(old(self)@, candidate);
            }
        }
        finalized
    }
}

} // verus!
