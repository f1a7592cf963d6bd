//! Facts about paths and about sums of edge multiplicities.

use crate::cactus::graph::{
    has_edge, in_degree, inbound_from, inbound_upto, is_path, live, multiplicity, reaches, Graph,
};
use vstd::prelude::*;

verus! {

/// The contribution of slot `u` to the number of edges from `from` into `v`.
pub open spec fn term(g: Graph, from: Set<usize>, v: usize, u: usize) -> nat {
    if from.contains(u) {
        multiplicity(g, u, v)
    } else {
        0
    }
}

/// Every live cell reaches itself.
pub proof fn lemma_reaches_self(g: Graph, a: usize)
    requires
        live(g, a),
    ensures
        reaches(g, a, a),
{
    let p = seq![a];
    assert(is_path(g, p));
    assert(p[0] == a && p.last() == a);
}

/// The start of a path is live.
pub proof fn lemma_reaches_from_live(g: Graph, a: usize, b: usize)
    requires
        reaches(g, a, b),
    ensures
        live(g, a),
{
}

/// A path can be extended by one edge.
pub proof fn lemma_reaches_step(g: Graph, a: usize, b: usize, c: usize)
    requires
        reaches(g, a, b),
        has_edge(g, b, c),
    ensures
        reaches(g, a, c),
{
    let p = choose|p: Seq<usize>| #[trigger] is_path(g, p) && p[0] == a && p.last() == b;
    let q = p.push(c);
    assert forall|i: int| 0 <= i < q.len() - 1 implies has_edge(g, #[trigger] q[i], q[i + 1]) by {
        if i < p.len() - 1 {
            assert(q[i] == p[i]);
            assert(q[i + 1] == p[i + 1]);
        } else {
            assert(q[i] == b);
            assert(q[i + 1] == c);
        }
    }
    assert(is_path(g, q));
    assert(q[0] == a && q.last() == c);
}

proof fn lemma_path_in_closed(g: Graph, s: Set<usize>, p: Seq<usize>, k: int)
    requires
        is_path(g, p),
        s.contains(p[0]),
        forall|u: usize, v: usize| s.contains(u) && #[trigger] has_edge(g, u, v) ==> s.contains(v),
        0 <= k < p.len(),
    ensures
        s.contains(p[k]),
    decreases k,
{
    if k > 0 {
        lemma_path_in_closed(g, s, p, k - 1);
        assert(has_edge(g, p[k - 1], p[k - 1 + 1]));
    }
}

/// A set that holds `a` and every successor of its members holds everything
/// that `a` reaches.
pub proof fn lemma_closed_set_holds_reach(g: Graph, s: Set<usize>, a: usize, b: usize)
    requires
        reaches(g, a, b),
        s.contains(a),
        forall|u: usize, v: usize| s.contains(u) && #[trigger] has_edge(g, u, v) ==> s.contains(v),
    ensures
        s.contains(b),
{
    let p = choose|p: Seq<usize>| #[trigger] is_path(g, p) && p[0] == a && p.last() == b;
    lemma_path_in_closed(g, s, p, p.len() - 1);
}

proof fn lemma_path_in_pred_closed(g: Graph, s: Set<usize>, p: Seq<usize>, k: int)
    requires
        is_path(g, p),
        s.contains(p.last()),
        forall|u: usize, v: usize| s.contains(v) && #[trigger] has_edge(g, u, v) ==> s.contains(u),
        0 <= k < p.len(),
    ensures
        s.contains(p[k]),
    decreases p.len() - k,
{
    if k < p.len() - 1 {
        lemma_path_in_pred_closed(g, s, p, k + 1);
        assert(has_edge(g, p[k], p[k + 1]));
    }
}

/// A set that holds `b` and every predecessor of its members holds
/// everything that reaches `b`.
pub proof fn lemma_pred_closed_set_holds_sources(g: Graph, s: Set<usize>, a: usize, b: usize)
    requires
        reaches(g, a, b),
        s.contains(b),
        forall|u: usize, v: usize| s.contains(v) && #[trigger] has_edge(g, u, v) ==> s.contains(u),
    ensures
        s.contains(a),
{
    let p = choose|p: Seq<usize>| #[trigger] is_path(g, p) && p[0] == a && p.last() == b;
    lemma_path_in_pred_closed(g, s, p, 0);
}

/// Reachability is transitive.
pub proof fn lemma_reaches_trans(g: Graph, a: usize, b: usize, c: usize)
    requires
        reaches(g, a, b),
        reaches(g, b, c),
    ensures
        reaches(g, a, c),
{
    let s = Set::new(|x: usize| reaches(g, a, x));
    assert forall|u: usize, v: usize| s.contains(u) && #[trigger] has_edge(g, u, v) implies s.contains(
        v,
    ) by {
        lemma_reaches_step(g, a, u, v);
    }
    lemma_closed_set_holds_reach(g, s, b, c);
}

/// In a graph whose edges lead to live cells, whatever is reached is live.
pub proof fn lemma_reached_is_live(g: Graph, a: usize, b: usize)
    requires
        reaches(g, a, b),
        forall|u: usize, v: usize| #[trigger] has_edge(g, u, v) ==> live(g, v),
    ensures
        live(g, b),
{
    let s = Set::new(|x: usize| live(g, x));
    lemma_closed_set_holds_reach(g, s, a, b);
}

/// A path of one graph is a path of another that has the same live start
/// and keeps every edge.
pub proof fn lemma_reaches_transfer(g: Graph, h: Graph, a: usize, b: usize)
    requires
        reaches(g, a, b),
        live(h, a),
        forall|u: usize, v: usize| #[trigger] has_edge(g, u, v) ==> has_edge(h, u, v),
    ensures
        reaches(h, a, b),
{
    let p = choose|p: Seq<usize>| #[trigger] is_path(g, p) && p[0] == a && p.last() == b;
    assert forall|i: int| 0 <= i < p.len() - 1 implies has_edge(h, #[trigger] p[i], p[i + 1]) by {
        assert(has_edge(g, p[i], p[i + 1]));
    }
    assert(is_path(h, p));
}

/// Two sums whose terms agree slot by slot are equal.
pub proof fn lemma_inbound_pointwise(
    g: Graph,
    from: Set<usize>,
    h: Graph,
    other: Set<usize>,
    v: usize,
    n: nat,
)
    requires
        n <= usize::MAX + 1,
        forall|u: usize| u < n ==> #[trigger] term(g, from, v, u) == term(h, other, v, u),
    ensures
        inbound_upto(g, from, v, n) == inbound_upto(h, other, v, n),
    decreases n,
{
    if n > 0 {
        lemma_inbound_pointwise(g, from, h, other, v, (n - 1) as nat);
        let u = (n - 1) as usize;
        assert(term(g, from, v, u) == term(h, other, v, u));
    }
}

/// A sum whose terms are no larger, slot by slot, is no larger.
pub proof fn lemma_inbound_monotone(
    g: Graph,
    from: Set<usize>,
    h: Graph,
    other: Set<usize>,
    v: usize,
    n: nat,
)
    requires
        n <= usize::MAX + 1,
        forall|u: usize| u < n ==> #[trigger] term(g, from, v, u) <= term(h, other, v, u),
    ensures
        inbound_upto(g, from, v, n) <= inbound_upto(h, other, v, n),
    decreases n,
{
    if n > 0 {
        lemma_inbound_monotone(g, from, h, other, v, (n - 1) as nat);
        let u = (n - 1) as usize;
        assert(term(g, from, v, u) <= term(h, other, v, u));
    }
}

/// Two sums whose terms agree in every slot but `w`, where they differ by
/// `d`, differ by `d`.
pub proof fn lemma_inbound_delta(
    g: Graph,
    from: Set<usize>,
    h: Graph,
    other: Set<usize>,
    v: usize,
    n: nat,
    w: usize,
    d: int,
)
    requires
        n <= usize::MAX + 1,
        forall|u: usize| u < n && u != w ==> #[trigger] term(g, from, v, u) == term(h, other, v, u),
        term(h, other, v, w) == term(g, from, v, w) + d,
    ensures
        inbound_upto(h, other, v, n) == inbound_upto(g, from, v, n) + if w < n {
            d
        } else {
            0
        },
    decreases n,
{
    if n > 0 {
        lemma_inbound_delta(g, from, h, other, v, (n - 1) as nat, w, d);
        let u = (n - 1) as usize;
        if u != w {
            assert(term(g, from, v, u) == term(h, other, v, u));
        }
    }
}

/// The edges from a union of two disjoint sets are those from the one and
/// those from the other.
pub proof fn lemma_inbound_split(g: Graph, a: Set<usize>, b: Set<usize>, v: usize, n: nat)
    requires
        n <= usize::MAX + 1,
        a.disjoint(b),
    ensures
        inbound_upto(g, a.union(b), v, n) == inbound_upto(g, a, v, n) + inbound_upto(g, b, v, n),
    decreases n,
{
    if n > 0 {
        lemma_inbound_split(g, a, b, v, (n - 1) as nat);
        let u = (n - 1) as usize;
        assert(!(a.contains(u) && b.contains(u)));
    }
}

/// A positive sum has a positive term.
pub proof fn lemma_inbound_positive(g: Graph, from: Set<usize>, v: usize, n: nat) -> (u: usize)
    requires
        n <= usize::MAX + 1,
        inbound_upto(g, from, v, n) > 0,
    ensures
        u < n,
        from.contains(u),
        has_edge(g, u, v),
    decreases n,
{
    let last = (n - 1) as usize;
    if from.contains(last) && multiplicity(g, last, v) > 0 {
        last
    } else {
        lemma_inbound_positive(g, from, v, (n - 1) as nat)
    }
}

/// A sum is at least each of its terms.
pub proof fn lemma_inbound_at_least_term(g: Graph, from: Set<usize>, v: usize, n: nat, u: usize)
    requires
        n <= usize::MAX + 1,
        u < n,
    ensures
        inbound_upto(g, from, v, n) >= term(g, from, v, u),
    decreases n,
{
    if u < n - 1 {
        lemma_inbound_at_least_term(g, from, v, (n - 1) as nat, u);
    }
}

/// No edge leads into `v` from a set none of whose members has one.
pub proof fn lemma_inbound_zero(g: Graph, from: Set<usize>, v: usize)
    requires
        g.len() <= usize::MAX,
        forall|u: usize| from.contains(u) ==> !#[trigger] has_edge(g, u, v),
    ensures
        inbound_from(g, from, v) == 0,
{
    if inbound_from(g, from, v) > 0 {
        let u = lemma_inbound_positive(g, from, v, g.len());
        assert(has_edge(g, u, v));
    }
}

/// The edges into `v` are those from `from` and those from elsewhere.
pub proof fn lemma_in_degree_split(g: Graph, from: Set<usize>, v: usize)
    requires
        g.len() <= usize::MAX,
    ensures
        in_degree(g, v) == inbound_from(g, from, v) + inbound_from(g, from.complement(), v),
{
    lemma_inbound_split(g, from, from.complement(), v, g.len());
    assert(from.union(from.complement()) =~= Set::full());
}

/// Adding a cell to the set of sources adds its edges.
pub proof fn lemma_inbound_insert(g: Graph, from: Set<usize>, v: usize, w: usize)
    requires
        g.len() <= usize::MAX,
        !from.contains(w),
    ensures
        inbound_from(g, from.insert(w), v) == inbound_from(g, from, v) + multiplicity(g, w, v),
{
    let d = multiplicity(g, w, v) as int;
    lemma_inbound_delta(g, from, g, from.insert(w), v, g.len(), w, d);
    if w >= g.len() {
        assert(!live(g, w));
    }
}

/// Fewer sources have fewer edges.
pub proof fn lemma_inbound_subset(g: Graph, a: Set<usize>, b: Set<usize>, v: usize)
    requires
        g.len() <= usize::MAX,
        a.subset_of(b),
    ensures
        inbound_from(g, a, v) <= inbound_from(g, b, v),
{
    lemma_inbound_monotone(g, a, g, b, v, g.len());
}

/// A duplicate-free sequence of numbers below `n` has at most `n` entries.
pub proof fn lemma_pigeonhole(s: Seq<usize>, n: nat)
    requires
        s.no_duplicates(),
        forall|i: int| 0 <= i < s.len() ==> #[trigger] s[i] < n,
    ensures
        s.len() <= n,
    decreases n,
{
    if n == 0 {
        if s.len() > 0 {
            assert(s[0] < n);
        }
    } else {
        let top = (n - 1) as usize;
        if exists|i: int| 0 <= i < s.len() && s[i] == top {
            let i = choose|i: int| 0 <= i < s.len() && s[i] == top;
            let t = s.remove(i);
            assert forall|j: int| 0 <= j < t.len() implies #[trigger] t[j] < n - 1 by {
                if j < i {
                    assert(t[j] == s[j]);
                } else {
                    assert(t[j] == s[j + 1]);
                }
                assert(t[j] < n);
            }
            assert(t.no_duplicates()) by {
                assert forall|j: int, k: int| 0 <= j < t.len() && 0 <= k < t.len() && j != k implies t[j]
                    != t[k] by {
                    let jj = if j < i { j } else { j + 1 };
                    let kk = if k < i { k } else { k + 1 };
                    assert(t[j] == s[jj]);
                    assert(t[k] == s[kk]);
                }
            }
            lemma_pigeonhole(t, (n - 1) as nat);
        } else {
            assert forall|j: int| 0 <= j < s.len() implies #[trigger] s[j] < n - 1 by {
                assert(s[j] < n);
            }
            lemma_pigeonhole(s, (n - 1) as nat);
        }
    }
}

} // verus!
