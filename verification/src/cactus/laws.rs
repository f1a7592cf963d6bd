//! What a collection may and may not finalize.

use crate::cactus::graph::{
    adopted, after_collect, garbage, graph_wf, handle_dropped, has_edge, in_degree, inbound_from,
    is_garbage, is_rescuer, live, node, reach_set, reaches, residual, unadopted, Graph,
};
use crate::cactus::lemmas::{
    lemma_in_degree_split, lemma_inbound_at_least_term, lemma_inbound_positive,
    lemma_pred_closed_set_holds_sources, lemma_reached_is_live, lemma_reaches_self,
    lemma_reaches_step, term,
};
use crate::cactus::transitions::{lemma_handle_dropped_wf, lemma_without_wf};
use vstd::prelude::*;

verus! {

/// After the trial deletion seeded at `c`, the count that is left on a cell
/// is the number of its handles plus the number of edges that lead to it
/// from cells that `c` does not reach.
pub proof fn lemma_residual_is_external(g: Graph, c: usize, v: usize)
    requires
        graph_wf(g),
        live(g, v),
    ensures
        residual(g, c, v) == node(g, v).handles + inbound_from(
            g,
            reach_set(g, c).complement(),
            v,
        ),
{
    assert(node(g, v).strong_count == node(g, v).handles + in_degree(g, v));
    lemma_in_degree_split(g, reach_set(g, c), v);
}

/// No premature free: a cell that a collection finalizes is live, has no
/// handle, and every edge that leads to it starts at a cell that the same
/// collection finalizes.
pub proof fn law_no_premature_free(g: Graph, c: usize, x: usize)
    requires
        graph_wf(g),
        garbage(g, c).contains(x),
    ensures
        live(g, x),
        node(g, x).handles == 0,
        forall|u: usize| #[trigger] has_edge(g, u, x) ==> garbage(g, c).contains(u),
{
    lemma_reached_is_live(g, c, x);
    lemma_reaches_self(g, x);
    lemma_residual_is_external(g, c, x);
    if residual(g, c, x) > 0 {
        assert(is_rescuer(g, c, x));
    }
    let outside = reach_set(g, c).complement();
    assert forall|u: usize| #[trigger] has_edge(g, u, x) implies garbage(g, c).contains(u) by {
        if !reaches(g, c, u) {
            assert(outside.contains(u));
            lemma_inbound_at_least_term(g, outside, x, g.len(), u);
            assert(term(g, outside, x, u) > 0);
        }
        assert forall|s: usize| #[trigger] is_rescuer(g, c, s) implies !reaches(g, s, u) by {
            if reaches(g, s, u) {
                lemma_reaches_step(g, s, u, x);
            }
        }
        assert(is_garbage(g, c, u));
    }
}

/// A collection leaves the graph well formed, and empties exactly the slots
/// of the cells that it finalizes.
pub proof fn lemma_after_collect_wf(g: Graph, c: usize)
    requires
        graph_wf(g),
    ensures
        graph_wf(after_collect(g, c)),
        forall|x: usize| live(after_collect(g, c), x) <==> live(g, x) && !garbage(g, c).contains(x),
{
    let dead = garbage(g, c);
    assert forall|u: usize, v: usize| dead.contains(v) && #[trigger] has_edge(g, u, v) implies dead.contains(
        u,
    ) by {
        law_no_premature_free(g, c, v);
    }
    lemma_without_wf(g, dead);
}

/// A collection that finds no garbage leaves the graph as it is.
pub proof fn lemma_nothing_collected(g: Graph, c: usize)
    requires
        graph_wf(g),
        forall|x: usize| !garbage(g, c).contains(x),
    ensures
        after_collect(g, c) == g,
{
    assert forall|y: int| 0 <= y < g.len() implies g[y] == after_collect(g, c)[y] by {
        crate::cactus::lemmas::lemma_inbound_zero(g, garbage(g, c), y as usize);
    }
    assert(g =~= after_collect(g, c));
}

/// No cell is finalized while something with a handle can reach it: every
/// cell that is reachable from a cell with a handle survives a collection,
/// wherever the collection was seeded.
pub proof fn law_rooted_cells_survive(g: Graph, c: usize, root: usize, x: usize)
    requires
        graph_wf(g),
        live(g, root),
        node(g, root).handles > 0,
        reaches(g, root, x),
    ensures
        !garbage(g, c).contains(x),
        live(after_collect(g, c), x),
{
    let dead = garbage(g, c);
    if dead.contains(x) {
        assert forall|u: usize, v: usize| dead.contains(v) && #[trigger] has_edge(g, u, v) implies dead.contains(
            u,
        ) by {
            law_no_premature_free(g, c, v);
        }
        lemma_pred_closed_set_holds_sources(g, dead, root, x);
        law_no_premature_free(g, c, root);
    }
    lemma_reached_is_live(g, root, x);
    lemma_after_collect_wf(g, c);
}

/// No leak on a closed cluster: if every member of a set of cells is
/// reachable from `c`, has no handle, and is the target only of edges that
/// start inside the set, then a collection seeded at `c` finalizes the whole
/// set. A cycle through `c` whose members are referred to only from within
/// the cycle is such a set.
pub proof fn law_closed_cluster_is_collected(g: Graph, c: usize, cluster: Set<usize>)
    requires
        graph_wf(g),
        forall|m: usize| cluster.contains(m) ==> reaches(g, c, m),
        forall|m: usize| cluster.contains(m) ==> node(g, m).handles == 0,
        forall|u: usize, m: usize| cluster.contains(m) && #[trigger] has_edge(g, u, m) ==> cluster.contains(u),
    ensures
        cluster.subset_of(garbage(g, c)),
        forall|m: usize| cluster.contains(m) ==> !live(after_collect(g, c), m),
{
    assert forall|m: usize| cluster.contains(m) implies garbage(g, c).contains(m) by {
        assert forall|s: usize| #[trigger] is_rescuer(g, c, s) implies !reaches(g, s, m) by {
            if reaches(g, s, m) {
                lemma_pred_closed_set_holds_sources(g, cluster, s, m);
                lemma_reached_is_live(g, c, s);
                lemma_residual_is_external(g, c, s);
                let outside = reach_set(g, c).complement();
                let u = lemma_inbound_positive(g, outside, s, g.len());
                assert(has_edge(g, u, s));
                assert(cluster.contains(u));
                assert(reaches(g, c, u));
            }
        }
        assert(is_garbage(g, c, m));
    }
    lemma_after_collect_wf(g, c);
}

/// Self-cycle collection: a cell whose last handle is given up, and which
/// is the target only of edges that it holds itself, is finalized by the
/// collection that the release seeds, however many times it has adopted
/// itself.
pub proof fn law_self_cycle_is_collected(g: Graph, a: usize)
    requires
        graph_wf(g),
        live(g, a),
        node(g, a).handles == 1,
        forall|u: usize| #[trigger] has_edge(g, u, a) ==> u == a,
    ensures
        garbage(handle_dropped(g, a), a).contains(a),
        !live(after_collect(handle_dropped(g, a), a), a),
{
    let h = handle_dropped(g, a);
    lemma_handle_dropped_wf(g, a);
    let cluster = Set::<usize>::empty().insert(a);
    assert(live(h, a));
    lemma_reaches_self(h, a);
    assert forall|u: usize, m: usize| cluster.contains(m) && #[trigger] has_edge(h, u, m) implies cluster.contains(
        u,
    ) by {
        assert(has_edge(g, u, a));
    }
    law_closed_cluster_is_collected(h, a, cluster);
    assert(cluster.contains(a));
}

/// A cell to which nothing refers is garbage: a collection seeded at a cell
/// whose strong count is zero finalizes that cell.
pub proof fn law_unreferenced_cell_is_collected(g: Graph, c: usize)
    requires
        graph_wf(g),
        live(g, c),
        node(g, c).strong_count == 0,
    ensures
        garbage(g, c).contains(c),
        !live(after_collect(g, c), c),
{
    let cluster = Set::<usize>::empty().insert(c);
    lemma_reaches_self(g, c);
    assert(node(g, c).strong_count == node(g, c).handles + in_degree(g, c));
    assert forall|u: usize, m: usize| cluster.contains(m) && #[trigger] has_edge(g, u, m) implies cluster.contains(
        u,
    ) by {
        if live(g, u) {
            lemma_inbound_at_least_term(g, Set::full(), c, g.len(), u);
            assert(term(g, Set::full(), c, u) > 0);
        }
    }
    law_closed_cluster_is_collected(g, c, cluster);
    assert(cluster.contains(c));
}

/// Adoption accounting: taking away the edge that an adoption has just
/// added gives back the graph as it was, counters and edges alike.
pub proof fn law_adopt_then_unadopt_is_identity(g: Graph, owner: usize, dependent: usize)
    requires
        live(g, owner),
        live(g, dependent),
    ensures
        unadopted(adopted(g, owner, dependent), owner, dependent) == g,
{
    let h = adopted(g, owner, dependent);
    let k = unadopted(h, owner, dependent);
    assert(node(g, owner).edges.insert(dependent).remove(dependent) =~= node(g, owner).edges);
    assert forall|i: int| 0 <= i < g.len() implies k[i] == g[i] by {
        if i == owner as int || i == dependent as int {
            assert(k[i].unwrap().edges =~= g[i].unwrap().edges);
            assert(k[i].unwrap() == g[i].unwrap());
        }
    }
    assert(k =~= g);
}

} // verus!
