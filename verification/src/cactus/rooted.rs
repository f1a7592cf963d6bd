//! No leak: a heap in which every cell can be reached from a handle stays
//! such a heap, whatever is done to it.

use crate::cactus::graph::{
    adopted, after_collect, allocated, garbage, Graph, graph_wf, handle_added, handle_dropped,
    has_edge, is_garbage, is_rescuer, live, multiplicity, node, reach_set, reaches, released,
    severed, unadopted,
};
use crate::cactus::laws::{
    law_rooted_cells_survive, lemma_after_collect_wf, lemma_residual_is_external,
};
use crate::cactus::lemmas::{
    lemma_closed_set_holds_reach, lemma_inbound_positive, lemma_reached_is_live,
    lemma_reaches_self, lemma_reaches_step, lemma_reaches_trans,
};
use crate::cactus::transitions::{
    lemma_adopted_wf, lemma_allocated_wf, lemma_counters_shifted_wf, lemma_handle_dropped_wf,
    lemma_unadopted_wf,
};
use vstd::prelude::*;

verus! {

/// Whether `r` is a live cell with a handle.
pub open spec fn is_root(g: Graph, r: usize) -> bool {
    live(g, r) && node(g, r).handles > 0
}

/// Whether some cell with a handle reaches `x`.
pub open spec fn is_rooted(g: Graph, x: usize) -> bool {
    exists|r: usize| #[trigger] is_root(g, r) && reaches(g, r, x)
}

/// Whether every live cell can be reached from a cell with a handle: the
/// heap holds no garbage.
pub open spec fn no_garbage(g: Graph) -> bool {
    forall|x: usize| live(g, x) ==> #[trigger] is_rooted(g, x)
}

/// If every root of `g` is a root of `h`, and every edge of `g` either is
/// an edge of `h` or leads to a root of `h`, then whatever a root reaches
/// in `g` is reached by a root in `h`.
pub proof fn lemma_rooted_carries_over(g: Graph, h: Graph, x: usize)
    requires
        is_rooted(g, x),
        forall|r: usize| #[trigger] is_root(g, r) ==> is_root(h, r),
        forall|u: usize, v: usize|
            #[trigger] has_edge(g, u, v) && is_rooted(h, u) ==> has_edge(h, u, v) || is_root(h, v),
    ensures
        is_rooted(h, x),
{
    let r = choose|r: usize| #[trigger] is_root(g, r) && reaches(g, r, x);
    let kept = Set::new(|y: usize| is_rooted(h, y));
    assert(is_root(h, r));
    lemma_reaches_self(h, r);
    assert(kept.contains(r));
    assert forall|u: usize, v: usize| kept.contains(u) && #[trigger] has_edge(g, u, v) implies kept.contains(
        v,
    ) by {
        if has_edge(h, u, v) {
            let ru = choose|ru: usize| #[trigger] is_root(h, ru) && reaches(h, ru, u);
            lemma_reaches_step(h, ru, u, v);
        } else {
            assert(is_root(h, v));
            lemma_reaches_self(h, v);
        }
    }
    lemma_closed_set_holds_reach(g, kept, r, x);
}

/// No leak on creation: a new cell has a handle of its own.
pub proof fn law_create_leaves_no_garbage(g: Graph, id: usize)
    requires
        graph_wf(g),
        no_garbage(g),
        !live(g, id),
        id <= g.len(),
        id < usize::MAX,
    ensures
        no_garbage(allocated(g, id)),
{
    let h = allocated(g, id);
    lemma_allocated_wf(g, id);
    assert forall|u: usize, v: usize| multiplicity(h, u, v) == multiplicity(g, u, v) by {
        if u == id {
            assert(node(h, u).edges.count(v) == 0);
        } else if u < g.len() {
            assert(h[u as int] == g[u as int]);
        }
    }
    assert forall|x: usize| live(h, x) implies #[trigger] is_rooted(h, x) by {
        if x == id {
            assert(is_root(h, id));
            lemma_reaches_self(h, id);
        } else {
            assert(h[x as int] == g[x as int]);
            assert(is_rooted(g, x));
            assert forall|r: usize| #[trigger] is_root(g, r) implies is_root(h, r) by {
                assert(h[r as int] == g[r as int]);
            }
            assert forall|u: usize, v: usize| #[trigger]
                has_edge(g, u, v) && is_rooted(h, u) implies has_edge(h, u, v) || is_root(h, v) by {
                assert(multiplicity(h, u, v) == multiplicity(g, u, v));
            }
            lemma_rooted_carries_over(g, h, x);
        }
    }
}

/// No leak on cloning a handle.
pub proof fn law_clone_leaves_no_garbage(g: Graph, id: usize)
    requires
        graph_wf(g),
        no_garbage(g),
        live(g, id),
    ensures
        no_garbage(handle_added(g, id)),
{
    let h = handle_added(g, id);
    lemma_counters_shifted_wf(g, h, id);
    assert forall|x: usize| live(h, x) implies #[trigger] is_rooted(h, x) by {
        assert(live(g, x));
        assert(is_rooted(g, x));
        assert forall|r: usize| #[trigger] is_root(g, r) implies is_root(h, r) by {
            if r != id {
                assert(h[r as int] == g[r as int]);
            }
        }
        assert forall|u: usize, v: usize| #[trigger]
            has_edge(g, u, v) && is_rooted(h, u) implies has_edge(h, u, v) || is_root(h, v) by {
            assert(multiplicity(h, u, v) == multiplicity(g, u, v));
        }
        lemma_rooted_carries_over(g, h, x);
    }
}

/// No leak on adoption.
pub proof fn law_adopt_leaves_no_garbage(g: Graph, owner: usize, dependent: usize)
    requires
        graph_wf(g),
        no_garbage(g),
        live(g, owner),
        live(g, dependent),
    ensures
        no_garbage(adopted(g, owner, dependent)),
{
    let h = adopted(g, owner, dependent);
    lemma_adopted_wf(g, owner, dependent);
    assert forall|u: usize| live(g, u) implies live(h, u) && node(h, u).handles == node(
        g,
        u,
    ).handles by {
        if u != owner && u != dependent {
            assert(h[u as int] == g[u as int]);
        }
    }
    assert forall|u: usize, v: usize| multiplicity(h, u, v) >= multiplicity(g, u, v) by {
        if u < g.len() && u != owner && u != dependent {
            assert(h[u as int] == g[u as int]);
        }
    }
    assert forall|x: usize| live(h, x) implies #[trigger] is_rooted(h, x) by {
        assert(live(g, x));
        assert(is_rooted(g, x));
        assert forall|r: usize| #[trigger] is_root(g, r) implies is_root(h, r) by {}
        assert forall|u: usize, v: usize| #[trigger]
            has_edge(g, u, v) && is_rooted(h, u) implies has_edge(h, u, v) || is_root(h, v) by {
            assert(multiplicity(h, u, v) >= multiplicity(g, u, v));
        }
        lemma_rooted_carries_over(g, h, x);
    }
}

/// No leak on taking an edge away from under a cell that has a handle.
pub proof fn law_unadopt_leaves_no_garbage(g: Graph, owner: usize, dependent: usize)
    requires
        graph_wf(g),
        no_garbage(g),
        has_edge(g, owner, dependent),
        node(g, dependent).handles > 0,
    ensures
        no_garbage(unadopted(g, owner, dependent)),
{
    let h = unadopted(g, owner, dependent);
    lemma_unadopted_wf(g, owner, dependent);
    assert(live(g, owner) && live(g, dependent));
    assert forall|u: usize| live(g, u) implies live(h, u) && node(h, u).handles == node(
        g,
        u,
    ).handles by {
        if u != owner && u != dependent {
            assert(h[u as int] == g[u as int]);
        }
    }
    assert forall|u: usize, v: usize|
        !(u == owner && v == dependent) implies multiplicity(h, u, v) == multiplicity(g, u, v) by {
        if u < g.len() && u != owner && u != dependent {
            assert(h[u as int] == g[u as int]);
        }
    }
    assert forall|x: usize| live(h, x) implies #[trigger] is_rooted(h, x) by {
        assert(live(g, x));
        assert(is_rooted(g, x));
        assert forall|r: usize| #[trigger] is_root(g, r) implies is_root(h, r) by {}
        assert forall|u: usize, v: usize| #[trigger]
            has_edge(g, u, v) && is_rooted(h, u) implies has_edge(h, u, v) || is_root(h, v) by {
            if u == owner && v == dependent {
                assert(is_root(h, dependent));
            } else {
                assert(multiplicity(h, u, v) == multiplicity(g, u, v));
            }
        }
        lemma_rooted_carries_over(g, h, x);
    }
}

/// What a root reaches before a collection, it reaches after it.
pub proof fn lemma_root_reaches_after_collect(g: Graph, c: usize, r: usize, x: usize)
    requires
        graph_wf(g),
        is_root(g, r),
        reaches(g, r, x),
    ensures
        is_root(after_collect(g, c), r),
        reaches(after_collect(g, c), r, x),
{
    let k = after_collect(g, c);
    lemma_after_collect_wf(g, c);
    lemma_reaches_self(g, r);
    law_rooted_cells_survive(g, c, r, r);
    let kept = Set::new(|y: usize| reaches(g, r, y) && reaches(k, r, y));
    lemma_reaches_self(k, r);
    assert(kept.contains(r));
    assert forall|u: usize, v: usize| kept.contains(u) && #[trigger] has_edge(g, u, v) implies kept.contains(
        v,
    ) by {
        lemma_reaches_step(g, r, u, v);
        law_rooted_cells_survive(g, c, r, u);
        assert(!garbage(g, c).contains(u));
        assert(multiplicity(k, u, v) == multiplicity(g, u, v));
        lemma_reaches_step(k, r, u, v);
    }
    lemma_closed_set_holds_reach(g, kept, r, x);
}

/// A collection leaves no garbage behind, provided that the only cells
/// that no root reaches are cells that the candidate reaches.
pub proof fn lemma_collect_leaves_no_garbage(g: Graph, c: usize)
    requires
        graph_wf(g),
        forall|x: usize| live(g, x) && !reaches(g, c, x) ==> #[trigger] is_rooted(g, x),
    ensures
        no_garbage(after_collect(g, c)),
{
    let k = after_collect(g, c);
    lemma_after_collect_wf(g, c);
    assert forall|x: usize| live(k, x) implies #[trigger] is_rooted(k, x) by {
        assert(live(g, x) && !is_garbage(g, c, x));
        if reaches(g, c, x) {
            let s = choose|s: usize| #[trigger] is_rescuer(g, c, s) && reaches(g, s, x);
            lemma_reached_is_live(g, c, s);
            lemma_residual_is_external(g, c, s);
            if node(g, s).handles > 0 {
                assert(is_root(g, s));
                lemma_root_reaches_after_collect(g, c, s, x);
                assert(is_root(k, s));
            } else {
                let outside = reach_set(g, c).complement();
                let u = lemma_inbound_positive(g, outside, s, g.len());
                assert(live(g, u));
                assert(!reaches(g, c, u));
                assert(is_rooted(g, u));
                let r = choose|r: usize| #[trigger] is_root(g, r) && reaches(g, r, u);
                lemma_reaches_step(g, r, u, s);
                lemma_reaches_trans(g, r, s, x);
                lemma_root_reaches_after_collect(g, c, r, x);
                assert(is_root(k, r));
            }
        } else {
            assert(is_rooted(g, x));
            let r = choose|r: usize| #[trigger] is_root(g, r) && reaches(g, r, x);
            lemma_root_reaches_after_collect(g, c, r, x);
            assert(is_root(k, r));
        }
    }
}

/// No leak on release: when a handle is given up in a heap without
/// garbage, whatever has become unreachable is finalized before the call
/// returns, and the heap is without garbage again.
pub proof fn law_release_leaves_no_garbage(g: Graph, id: usize)
    requires
        graph_wf(g),
        no_garbage(g),
        live(g, id),
        node(g, id).handles > 0,
    ensures
        no_garbage(released(g, id)),
{
    let h = handle_dropped(g, id);
    lemma_handle_dropped_wf(g, id);
    assert forall|u: usize| live(g, u) && u != id implies node(h, u).handles == node(
        g,
        u,
    ).handles by {
        assert(h[u as int] == g[u as int]);
    }
    assert forall|x: usize| live(h, x) && (node(h, id).handles > 0 || !reaches(
        h,
        id,
        x,
    )) implies #[trigger] is_rooted(h, x) by {
        assert(live(g, x));
        assert(is_rooted(g, x));
        let r = choose|r: usize| #[trigger] is_root(g, r) && reaches(g, r, x);
        crate::cactus::lemmas::lemma_reaches_transfer(g, h, r, x);
        if r == id && node(h, id).handles == 0 {
            assert(reaches(h, id, x));
        } else {
            assert(is_root(h, r));
        }
    }
    if node(h, id).handles == 0 {
        lemma_collect_leaves_no_garbage(h, id);
    }
}

/// No leak on severing an edge: when an edge is taken away in a heap
/// without garbage, whatever has become unreachable is finalized before
/// the call returns, and the heap is without garbage again.
pub proof fn law_sever_leaves_no_garbage(g: Graph, owner: usize, dependent: usize)
    requires
        graph_wf(g),
        no_garbage(g),
        has_edge(g, owner, dependent),
    ensures
        no_garbage(severed(g, owner, dependent)),
{
    let h = unadopted(g, owner, dependent);
    lemma_unadopted_wf(g, owner, dependent);
    assert(live(g, owner) && live(g, dependent));
    assert forall|u: usize| live(g, u) implies live(h, u) && node(h, u).handles == node(
        g,
        u,
    ).handles by {
        if u != owner && u != dependent {
            assert(h[u as int] == g[u as int]);
        }
    }
    if node(h, dependent).handles > 0 {
        law_unadopt_leaves_no_garbage(g, owner, dependent);
    } else {
        assert forall|u: usize, v: usize|
            !(u == owner && v == dependent) implies multiplicity(h, u, v) == multiplicity(
            g,
            u,
            v,
        ) by {
            if u < g.len() && u != owner && u != dependent {
                assert(h[u as int] == g[u as int]);
            }
        }
        lemma_reaches_self(h, dependent);
        assert forall|x: usize| live(h, x) && !reaches(h, dependent, x) implies #[trigger] is_rooted(
            h,
            x,
        ) by {
            assert(is_rooted(g, x));
            let r = choose|r: usize| #[trigger] is_root(g, r) && reaches(g, r, x);
            let kept = Set::new(|y: usize| reaches(h, r, y) || reaches(h, dependent, y));
            lemma_reaches_self(h, r);
            assert(kept.contains(r));
            assert forall|u: usize, v: usize| kept.contains(u) && #[trigger] has_edge(
                g,
                u,
                v,
            ) implies kept.contains(v) by {
                if u == owner && v == dependent {
                } else {
                    assert(multiplicity(h, u, v) == multiplicity(g, u, v));
                    if reaches(h, r, u) {
                        lemma_reaches_step(h, r, u, v);
                    } else {
                        lemma_reaches_step(h, dependent, u, v);
                    }
                }
            }
            lemma_closed_set_holds_reach(g, kept, r, x);
            assert(reaches(h, r, x));
            assert(is_root(h, r));
        }
        lemma_collect_leaves_no_garbage(h, dependent);
    }
}

} // verus!
