//! Every step that the heap takes keeps the graph well formed.

use crate::cactus::graph::{
    adopted, allocated, graph_wf, handle_added, handle_dropped, has_edge, in_degree, inbound_from,
    inbound_upto, live, multiplicity, node, unadopted, without, Graph,
};
use crate::cactus::lemmas::{
    lemma_in_degree_split, lemma_inbound_at_least_term, lemma_inbound_delta,
    lemma_inbound_pointwise, lemma_inbound_subset, lemma_inbound_zero, term,
};
use vstd::prelude::*;

verus! {

/// Two graphs of one length with the same edges have the same in-degrees.
pub proof fn lemma_same_edges_same_in_degree(g: Graph, h: Graph, v: usize)
    requires
        g.len() == h.len(),
        g.len() <= usize::MAX,
        forall|u: usize| #[trigger] multiplicity(g, u, v) == multiplicity(h, u, v),
    ensures
        in_degree(g, v) == in_degree(h, v),
{
    assert forall|u: usize| u < g.len() implies #[trigger] term(g, Set::full(), v, u) == term(
        h,
        Set::full(),
        v,
        u,
    ) by {
        assert(multiplicity(g, u, v) == multiplicity(h, u, v));
    }
    lemma_inbound_pointwise(g, Set::full(), h, Set::full(), v, g.len());
}

/// Creating a cell in a free slot keeps the graph well formed.
pub proof fn lemma_allocated_wf(g: Graph, id: usize)
    requires
        graph_wf(g),
        !live(g, id),
        id <= g.len(),
        id < usize::MAX,
    ensures
        graph_wf(allocated(g, id)),
        live(allocated(g, id), id),
{
    let h = allocated(g, id);
    assert forall|u: usize, v: usize| multiplicity(h, u, v) == multiplicity(g, u, v) by {
        if u == id {
            assert(node(h, u).edges.count(v) == 0);
        } else if u < g.len() {
            assert(h[u as int] == g[u as int]);
        }
    }
    assert forall|v: usize| in_degree(h, v) == in_degree(g, v) by {
        assert forall|u: usize| u < g.len() implies #[trigger] term(g, Set::full(), v, u) == term(
            h,
            Set::full(),
            v,
            u,
        ) by {
            assert(multiplicity(h, u, v) == multiplicity(g, u, v));
        }
        lemma_inbound_pointwise(g, Set::full(), h, Set::full(), v, g.len());
        if id == g.len() {
            assert(h.len() == g.len() + 1);
            assert(multiplicity(h, id, v) == 0);
            assert(inbound_upto(h, Set::full(), v, h.len()) == inbound_upto(
                h,
                Set::full(),
                v,
                g.len(),
            ) + term(h, Set::full(), v, id));
        }
    }
    assert forall|u: usize, v: usize| #[trigger] has_edge(h, u, v) implies live(h, v) by {
        assert(multiplicity(h, u, v) == multiplicity(g, u, v));
        assert(has_edge(g, u, v));
        assert(live(g, v));
    }
    assert forall|v: usize| live(h, v) implies (#[trigger] node(h, v)).strong_count == node(
        h,
        v,
    ).handles + in_degree(h, v) by {
        assert(in_degree(h, v) == in_degree(g, v));
        if v == id {
            assert forall|u: usize| Set::<usize>::full().contains(u) implies !#[trigger] has_edge(
                g,
                u,
                v,
            ) by {
                if has_edge(g, u, v) {
                    assert(live(g, v));
                }
            }
            lemma_inbound_zero(g, Set::full(), v);
        } else {
            assert(h[v as int] == g[v as int]);
            assert(node(g, v).strong_count == node(g, v).handles + in_degree(g, v));
        }
    }
}

/// Changing the counters of one cell, in step with each other, keeps the
/// graph well formed.
pub proof fn lemma_counters_shifted_wf(g: Graph, h: Graph, id: usize)
    requires
        graph_wf(g),
        live(g, id),
        h.len() == g.len(),
        forall|i: int| 0 <= i < g.len() && i != id ==> h[i] == g[i],
        live(h, id),
        node(h, id).edges == node(g, id).edges,
        node(h, id).strong_count - node(h, id).handles == node(g, id).strong_count - node(
            g,
            id,
        ).handles,
    ensures
        graph_wf(h),
        forall|u: usize, v: usize| multiplicity(h, u, v) == multiplicity(g, u, v),
        forall|v: usize| in_degree(h, v) == in_degree(g, v),
        forall|u: usize| live(h, u) == live(g, u),
{
    assert forall|u: usize, v: usize| multiplicity(h, u, v) == multiplicity(g, u, v) by {
        if u < g.len() && u != id {
            assert(h[u as int] == g[u as int]);
        }
    }
    assert forall|u: usize| live(h, u) == live(g, u) by {
        if u < g.len() && u != id {
            assert(h[u as int] == g[u as int]);
        }
    }
    assert forall|v: usize| in_degree(h, v) == in_degree(g, v) by {
        lemma_same_edges_same_in_degree(g, h, v);
    }
    assert forall|u: usize, v: usize| #[trigger] has_edge(h, u, v) implies live(h, v) by {
        assert(multiplicity(h, u, v) == multiplicity(g, u, v));
        assert(has_edge(g, u, v));
        assert(live(g, v));
    }
    assert forall|v: usize| live(h, v) implies (#[trigger] node(h, v)).strong_count == node(
        h,
        v,
    ).handles + in_degree(h, v) by {
        assert(in_degree(h, v) == in_degree(g, v));
        assert(node(g, v).strong_count == node(g, v).handles + in_degree(g, v));
        if v != id {
            assert(h[v as int] == g[v as int]);
        }
    }
}

/// One more handle keeps the graph well formed.
pub proof fn lemma_handle_added_wf(g: Graph, id: usize)
    requires
        graph_wf(g),
        live(g, id),
    ensures
        graph_wf(handle_added(g, id)),
{
    lemma_counters_shifted_wf(g, handle_added(g, id), id);
}

/// One handle fewer keeps the graph well formed.
pub proof fn lemma_handle_dropped_wf(g: Graph, id: usize)
    requires
        graph_wf(g),
        live(g, id),
        node(g, id).handles > 0,
    ensures
        graph_wf(handle_dropped(g, id)),
        forall|u: usize, v: usize|
            multiplicity(handle_dropped(g, id), u, v) == multiplicity(g, u, v),
        forall|u: usize| live(handle_dropped(g, id), u) == live(g, u),
{
    assert(node(g, id).strong_count == node(g, id).handles + in_degree(g, id));
    lemma_counters_shifted_wf(g, handle_dropped(g, id), id);
}

/// One more edge keeps the graph well formed.
pub proof fn lemma_adopted_wf(g: Graph, owner: usize, dependent: usize)
    requires
        graph_wf(g),
        live(g, owner),
        live(g, dependent),
    ensures
        graph_wf(adopted(g, owner, dependent)),
        forall|u: usize| live(adopted(g, owner, dependent), u) == live(g, u),
{
    let h = adopted(g, owner, dependent);
    assert forall|u: usize| live(h, u) == live(g, u) by {
        if u < g.len() && u != owner && u != dependent {
            assert(h[u as int] == g[u as int]);
        }
    }
    assert forall|u: usize, v: usize|
        multiplicity(h, u, v) == multiplicity(g, u, v) + if u == owner && v == dependent {
            1nat
        } else {
            0nat
        } by {
        if u < g.len() && u != owner && u != dependent {
            assert(h[u as int] == g[u as int]);
        }
    }
    assert forall|u: usize, v: usize| #[trigger] has_edge(h, u, v) implies live(h, v) by {
        if !(u == owner && v == dependent) {
            assert(multiplicity(h, u, v) == multiplicity(g, u, v));
            assert(has_edge(g, u, v));
            assert(live(g, v));
        }
    }
    assert forall|v: usize| live(h, v) implies (#[trigger] node(h, v)).strong_count == node(
        h,
        v,
    ).handles + in_degree(h, v) by {
        assert(node(g, v).strong_count == node(g, v).handles + in_degree(g, v));
        if v == dependent {
            assert forall|u: usize| u < g.len() && u != owner implies #[trigger] term(
                g,
                Set::full(),
                v,
                u,
            ) == term(h, Set::full(), v, u) by {
                assert(multiplicity(h, u, v) == multiplicity(g, u, v));
            }
            assert(multiplicity(h, owner, v) == multiplicity(g, owner, v) + 1);
            lemma_inbound_delta(g, Set::full(), h, Set::full(), v, g.len(), owner, 1);
        } else {
            assert forall|u: usize| #[trigger] multiplicity(g, u, v) == multiplicity(h, u, v) by {
                assert(multiplicity(h, u, v) == multiplicity(g, u, v));
            }
            lemma_same_edges_same_in_degree(g, h, v);
            if v != owner {
                assert(h[v as int] == g[v as int]);
            }
        }
    }
}

/// One edge fewer keeps the graph well formed.
pub proof fn lemma_unadopted_wf(g: Graph, owner: usize, dependent: usize)
    requires
        graph_wf(g),
        has_edge(g, owner, dependent),
    ensures
        graph_wf(unadopted(g, owner, dependent)),
        node(g, dependent).strong_count > 0,
        forall|u: usize| live(unadopted(g, owner, dependent), u) == live(g, u),
{
    let h = unadopted(g, owner, dependent);
    assert(live(g, owner));
    assert(live(g, dependent));
    assert(node(g, dependent).strong_count == node(g, dependent).handles + in_degree(
        g,
        dependent,
    ));
    lemma_inbound_at_least_term(g, Set::full(), dependent, g.len(), owner);
    assert(in_degree(g, dependent) >= 1);
    assert forall|u: usize| live(h, u) == live(g, u) by {
        if u < g.len() && u != owner && u != dependent {
            assert(h[u as int] == g[u as int]);
        }
    }
    assert forall|u: usize, v: usize|
        multiplicity(h, u, v) == multiplicity(g, u, v) - if u == owner && v == dependent {
            1int
        } else {
            0int
        } by {
        if u < g.len() && u != owner && u != dependent {
            assert(h[u as int] == g[u as int]);
        }
    }
    assert forall|u: usize, v: usize| #[trigger] has_edge(h, u, v) implies live(h, v) by {
        assert(multiplicity(h, u, v) <= multiplicity(g, u, v));
        assert(has_edge(g, u, v));
        assert(live(g, v));
    }
    assert forall|v: usize| live(h, v) implies (#[trigger] node(h, v)).strong_count == node(
        h,
        v,
    ).handles + in_degree(h, v) by {
        assert(node(g, v).strong_count == node(g, v).handles + in_degree(g, v));
        if v == dependent {
            assert forall|u: usize| u < g.len() && u != owner implies #[trigger] term(
                g,
                Set::full(),
                v,
                u,
            ) == term(h, Set::full(), v, u) by {
                assert(multiplicity(h, u, v) == multiplicity(g, u, v));
            }
            assert(multiplicity(h, owner, v) == multiplicity(g, owner, v) - 1);
            lemma_inbound_delta(g, Set::full(), h, Set::full(), v, g.len(), owner, -1);
        } else {
            assert forall|u: usize| #[trigger] multiplicity(g, u, v) == multiplicity(h, u, v) by {
                assert(multiplicity(h, u, v) == multiplicity(g, u, v));
            }
            lemma_same_edges_same_in_degree(g, h, v);
            if v != owner {
                assert(h[v as int] == g[v as int]);
            }
        }
    }
}

/// Finalizing a set of cells that holds every predecessor of its members
/// keeps the graph well formed.
pub proof fn lemma_without_wf(g: Graph, dead: Set<usize>)
    requires
        graph_wf(g),
        forall|u: usize, v: usize| dead.contains(v) && #[trigger] has_edge(g, u, v) ==> dead.contains(u),
    ensures
        graph_wf(without(g, dead)),
        forall|x: usize| live(without(g, dead), x) <==> live(g, x) && !dead.contains(x),
        forall|v: usize| inbound_from(g, dead, v) <= in_degree(g, v),
{
    let h = without(g, dead);
    assert forall|x: usize| live(h, x) <==> live(g, x) && !dead.contains(x) by {}
    assert forall|u: usize, v: usize|
        multiplicity(h, u, v) == term(g, dead.complement(), v, u) by {}
    assert forall|v: usize| inbound_from(g, dead, v) <= in_degree(g, v) by {
        lemma_inbound_subset(g, dead, Set::full(), v);
    }
    assert forall|u: usize, v: usize| #[trigger] has_edge(h, u, v) implies live(h, v) by {
        assert(multiplicity(h, u, v) == term(g, dead.complement(), v, u));
        assert(has_edge(g, u, v));
        assert(live(g, v));
    }
    assert forall|v: usize| live(h, v) implies (#[trigger] node(h, v)).strong_count == node(
        h,
        v,
    ).handles + in_degree(h, v) by {
        assert(node(g, v).strong_count == node(g, v).handles + in_degree(g, v));
        assert forall|u: usize| u < g.len() implies #[trigger] term(h, Set::full(), v, u) == term(
            g,
            dead.complement(),
            v,
            u,
        ) by {
            assert(multiplicity(h, u, v) == term(g, dead.complement(), v, u));
        }
        lemma_inbound_pointwise(h, Set::full(), g, dead.complement(), v, g.len());
        lemma_in_degree_split(g, dead, v);
    }
}

} // verus!
