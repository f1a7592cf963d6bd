//! The mathematical model of the heap: a directed multigraph with two
//! counters on every node, and what it means for a node to be garbage.

use vstd::multiset::Multiset;
use vstd::prelude::*;

verus! {

/// What the heap records about one cell, apart from its payload.
pub struct Node {
    /// All references that keep the cell alive: handles and inbound edges.
    pub strong_count: nat,
    /// How many of those references are handles.
    pub handles: nat,
    /// The cells this cell has adopted, with multiplicity.
    pub edges: Multiset<usize>,
}

/// The arena as a sequence of slots; the index of a slot is the cell's id.
pub type Graph = Seq<Option<Node>>;

/// Whether slot `id` holds a cell.
pub open spec fn live(g: Graph, id: usize) -> bool {
    id < g.len() && g[id as int] is Some
}

/// The node in slot `id`; meaningful when the slot is live.
pub open spec fn node(g: Graph, id: usize) -> Node {
    g[id as int].unwrap()
}

/// How many edges lead from `u` to `v`.
pub open spec fn multiplicity(g: Graph, u: usize, v: usize) -> nat {
    if live(g, u) {
        node(g, u).edges.count(v)
    } else {
        0
    }
}

/// Whether at least one edge leads from `u` to `v`.
pub open spec fn has_edge(g: Graph, u: usize, v: usize) -> bool {
    multiplicity(g, u, v) > 0
}

/// A non-empty walk along edges that starts at a live cell.
pub open spec fn is_path(g: Graph, p: Seq<usize>) -> bool {
    &&& p.len() > 0
    &&& live(g, p[0])
    &&& forall|i: int| 0 <= i < p.len() - 1 ==> has_edge(g, #[trigger] p[i], p[i + 1])
}

/// Whether `b` can be reached from `a` along zero or more edges.
pub open spec fn reaches(g: Graph, a: usize, b: usize) -> bool {
    exists|p: Seq<usize>| #[trigger] is_path(g, p) && p[0] == a && p.last() == b
}

/// The cells that can be reached from `c`.
pub open spec fn reach_set(g: Graph, c: usize) -> Set<usize> {
    Set::new(|x: usize| reaches(g, c, x))
}

/// The number of edges into `v` that start in `from`, counting only slots
/// below `n`.
pub open spec fn inbound_upto(g: Graph, from: Set<usize>, v: usize, n: nat) -> nat
    decreases n,
{
    if n == 0 {
        0
    } else {
        let u = (n - 1) as usize;
        inbound_upto(g, from, v, (n - 1) as nat) + if from.contains(u) {
            multiplicity(g, u, v)
        } else {
            0
        }
    }
}

/// The number of edges into `v` that start in `from`.
pub open spec fn inbound_from(g: Graph, from: Set<usize>, v: usize) -> nat {
    inbound_upto(g, from, v, g.len())
}

/// The number of edges into `v`.
pub open spec fn in_degree(g: Graph, v: usize) -> nat {
    inbound_from(g, Set::full(), v)
}

/// The invariant of the heap when no collection is running: every edge
/// leads to a live cell, and the strong count of a cell is the number of its
/// handles plus the number of edges into it.
pub open spec fn graph_wf(g: Graph) -> bool {
    &&& g.len() <= usize::MAX
    &&& forall|u: usize, v: usize| #[trigger] has_edge(g, u, v) ==> live(g, v)
    &&& forall|v: usize|
        live(g, v) ==> (#[trigger] node(g, v)).strong_count == node(g, v).handles + in_degree(g, v)
}

/// What is left of the strong count of `v` once every edge that starts at a
/// cell reachable from `c` has been taken away.
pub open spec fn residual(g: Graph, c: usize, v: usize) -> int {
    node(g, v).strong_count - inbound_from(g, reach_set(g, c), v)
}

/// A cell reachable from `c` that something outside that region still
/// refers to.
pub open spec fn is_rescuer(g: Graph, c: usize, s: usize) -> bool {
    reaches(g, c, s) && residual(g, c, s) > 0
}

/// Whether a collection seeded at `c` finds `x` to be garbage: `x` is
/// reachable from `c` and from no rescuer.
pub open spec fn is_garbage(g: Graph, c: usize, x: usize) -> bool {
    reaches(g, c, x) && forall|s: usize| #[trigger] is_rescuer(g, c, s) ==> !reaches(g, s, x)
}

/// The cells that a collection seeded at `c` finalizes.
pub open spec fn garbage(g: Graph, c: usize) -> Set<usize> {
    Set::new(|x: usize| is_garbage(g, c, x))
}

/// The graph once the cells in `dead` have been finalized: their slots are
/// empty, and each remaining cell has lost one count for every edge that led
/// to it from a finalized cell.
pub open spec fn without(g: Graph, dead: Set<usize>) -> Graph {
    Seq::new(
        g.len(),
        |i: int|
            if g[i] is Some && !dead.contains(i as usize) {
                Some(
                    Node {
                        strong_count: (g[i].unwrap().strong_count - inbound_from(
                            g,
                            dead,
                            i as usize,
                        )) as nat,
                        handles: g[i].unwrap().handles,
                        edges: g[i].unwrap().edges,
                    },
                )
            } else {
                None
            },
    )
}

/// The graph after a collection seeded at `c`.
pub open spec fn after_collect(g: Graph, c: usize) -> Graph {
    without(g, garbage(g, c))
}

/// The node of a cell that has just been created.
pub open spec fn fresh_node() -> Node {
    Node { strong_count: 1, handles: 1, edges: Multiset::empty() }
}

/// The graph with a new cell in slot `id`, which is either an empty slot or
/// the first slot past the end.
pub open spec fn allocated(g: Graph, id: usize) -> Graph {
    if id < g.len() {
        g.update(id as int, Some(fresh_node()))
    } else {
        g.push(Some(fresh_node()))
    }
}

/// The graph with one more handle on `id`.
pub open spec fn handle_added(g: Graph, id: usize) -> Graph {
    g.update(
        id as int,
        Some(
            Node {
                strong_count: node(g, id).strong_count + 1,
                handles: node(g, id).handles + 1,
                edges: node(g, id).edges,
            },
        ),
    )
}

/// The graph with one handle on `id` given up, before anything is collected.
pub open spec fn handle_dropped(g: Graph, id: usize) -> Graph {
    g.update(
        id as int,
        Some(
            Node {
                strong_count: (node(g, id).strong_count - 1) as nat,
                handles: (node(g, id).handles - 1) as nat,
                edges: node(g, id).edges,
            },
        ),
    )
}

/// The graph with one more edge from `owner` to `dependent`.
pub open spec fn adopted(g: Graph, owner: usize, dependent: usize) -> Graph {
    let g1 = g.update(
        owner as int,
        Some(
            Node {
                strong_count: node(g, owner).strong_count,
                handles: node(g, owner).handles,
                edges: node(g, owner).edges.insert(dependent),
            },
        ),
    );
    g1.update(
        dependent as int,
        Some(
            Node {
                strong_count: node(g1, dependent).strong_count + 1,
                handles: node(g1, dependent).handles,
                edges: node(g1, dependent).edges,
            },
        ),
    )
}

/// The graph with one edge from `owner` to `dependent` taken away, before
/// anything is collected.
pub open spec fn unadopted(g: Graph, owner: usize, dependent: usize) -> Graph {
    let g1 = g.update(
        owner as int,
        Some(
            Node {
                strong_count: node(g, owner).strong_count,
                handles: node(g, owner).handles,
                edges: node(g, owner).edges.remove(dependent),
            },
        ),
    );
    g1.update(
        dependent as int,
        Some(
            Node {
                strong_count: (node(g1, dependent).strong_count - 1) as nat,
                handles: node(g1, dependent).handles,
                edges: node(g1, dependent).edges,
            },
        ),
    )
}

/// The graph after one handle on `id` has been released: the handle is
/// gone, and if it was the last handle of the cell, a collection seeded at
/// the cell has run.
pub open spec fn released(g: Graph, id: usize) -> Graph {
    let h = handle_dropped(g, id);
    if node(h, id).handles > 0 {
        h
    } else {
        after_collect(h, id)
    }
}

/// The cells that the release of one handle on `id` finalizes.
pub open spec fn release_garbage(g: Graph, id: usize) -> Set<usize> {
    let h = handle_dropped(g, id);
    if node(h, id).handles > 0 {
        Set::empty()
    } else {
        garbage(h, id)
    }
}

/// The graph after one edge from `owner` to `dependent` has been severed:
/// the edge is gone, and if the dependent has no handle, a collection
/// seeded at the dependent has run.
pub open spec fn severed(g: Graph, owner: usize, dependent: usize) -> Graph {
    let h = unadopted(g, owner, dependent);
    if node(h, dependent).handles > 0 {
        h
    } else {
        after_collect(h, dependent)
    }
}

/// The cells that severing one edge from `owner` to `dependent` finalizes.
pub open spec fn sever_garbage(g: Graph, owner: usize, dependent: usize) -> Set<usize> {
    let h = unadopted(g, owner, dependent);
    if node(h, dependent).handles > 0 {
        Set::empty()
    } else {
        garbage(h, dependent)
    }
}

/// The number of live cells in the slots below `n`.
pub open spec fn live_upto(g: Graph, n: nat) -> nat
    decreases n,
{
    if n == 0 {
        0
    } else {
        live_upto(g, (n - 1) as nat) + if n <= g.len() && g[n - 1] is Some {
            1nat
        } else {
            0nat
        }
    }
}

/// The number of live cells.
pub open spec fn live_count(g: Graph) -> nat {
    live_upto(g, g.len())
}

/// The number of edges that start in the slots below `n`.
pub open spec fn edges_upto(g: Graph, n: nat) -> nat
    decreases n,
{
    if n == 0 {
        0
    } else {
        edges_upto(g, (n - 1) as nat) + if n <= g.len() && g[n - 1] is Some {
            g[n - 1].unwrap().edges.len()
        } else {
            0nat
        }
    }
}

/// The number of edges in the graph.
pub open spec fn edge_count(g: Graph) -> nat {
    edges_upto(g, g.len())
}

} // verus!
