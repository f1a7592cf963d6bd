//! The arena: cells, handles, and the operations that touch one or two
//! cells at a time.

use crate::cactus::graph::{
    adopted, allocated, edge_count, edges_upto, graph_wf, handle_added, handle_dropped, has_edge,
    in_degree, live, live_count, live_upto, node, unadopted, Graph, Node,
};
use crate::cactus::rooted::{
    law_adopt_leaves_no_garbage, law_clone_leaves_no_garbage, law_create_leaves_no_garbage,
    no_garbage,
};
use crate::cactus::transitions::{
    lemma_adopted_wf, lemma_allocated_wf, lemma_handle_added_wf, lemma_handle_dropped_wf,
};
use vstd::pervasive::unreached;
use vstd::prelude::*;

verus! {

/// One heap allocation: a payload with its reference count and the edges
/// to the cells that it has adopted.
pub struct Cell<T> {
    payload: T,
    strong_count: usize,
    handles: usize,
    edges: Vec<usize>,
}

/// An owning reference to a cell. A handle is made by [`CactusHeap::create`]
/// and [`CactusHeap::clone_handle`] and given up by `release`; it cannot be
/// copied. A handle that is dropped without being released goes on keeping
/// its cell alive.
pub struct Handle {
    id: usize,
}

/// An arena of reference-counted cells that may adopt one another.
pub struct CactusHeap<T> {
    cells: Vec<Option<Cell<T>>>,
    free: Vec<usize>,
}

impl<T> Cell<T> {
    /// The counters and edges of the cell.
    pub closed spec fn model(&self) -> Node {
        Node {
            strong_count: self.strong_count as nat,
            handles: self.handles as nat,
            edges: self.edges@.to_multiset(),
        }
    }

    /// The payload of the cell.
    pub closed spec fn payload_spec(&self) -> T {
        self.payload
    }

    /// A cell with one handle and no edges.
    pub fn new(payload: T) -> (cell: Cell<T>)
        ensures
            cell.model() == crate::cactus::graph::fresh_node(),
            cell.payload_spec() == payload,
    {
        let cell = Cell { payload, strong_count: 1, handles: 1, edges: Vec::new() };
        proof {
            assert(cell.edges@.to_multiset() =~= vstd::multiset::Multiset::empty()) by {
                cell.edges@.to_multiset_ensures();
            }
        }
        cell
    }

    /// The number of references, handles and edges alike, to the cell.
    pub fn strong_count(&self) -> (n: usize)
        ensures
            n == self.model().strong_count,
    {
        self.strong_count
    }

    /// The number of handles to the cell.
    pub fn handle_count(&self) -> (n: usize)
        ensures
            n == self.model().handles,
    {
        self.handles
    }

    /// The targets of the edges of the cell, in no particular order.
    pub fn edges(&self) -> (e: &Vec<usize>)
        ensures
            e@.to_multiset() == self.model().edges,
    {
        &self.edges
    }

    /// The payload of the cell.
    pub fn payload(&self) -> (p: &T)
        ensures
            *p == self.payload_spec(),
    {
        &self.payload
    }
}

impl View for Handle {
    type V = usize;

    closed spec fn view(&self) -> usize {
        self.id
    }
}

impl Handle {
    /// The id of the cell that the handle refers to.
    pub fn id(&self) -> (id: usize)
        ensures
            id == self@,
    {
        self.id
    }
}

impl<T> View for CactusHeap<T> {
    type V = Graph;

    closed spec fn view(&self) -> Graph {
        Seq::new(
            self.cells@.len(),
            |i: int|
                match self.cells@[i] {
                    Some(c) => Some(c.model()),
                    None => None,
                },
        )
    }
}

impl<T> CactusHeap<T> {
    /// The payload of the cell in slot `id`; meaningful when the slot is
    /// live.
    pub closed spec fn payload_of(&self, id: usize) -> T {
        self.cells@[id as int].unwrap().payload
    }

    /// The list of free slots names empty slots, each once.
    pub closed spec fn free_list_wf(&self) -> bool {
        &&& self.free@.no_duplicates()
        &&& forall|k: int|
            0 <= k < self.free@.len() ==> (#[trigger] self.free@[k]) < self.cells@.len()
                && self.cells@[self.free@[k] as int] is None
    }

    /// The invariant of the heap between operations.
    pub open spec fn wf(&self) -> bool {
        graph_wf(self@) && self.free_list_wf()
    }

    /// Whether `handle` is a handle of this heap that has not been released.
    pub open spec fn holds(&self, handle: &Handle) -> bool {
        live(self@, handle@) && node(self@, handle@).handles > 0
    }

    /// Whether every cell that is live in both heaps has the same payload.
    pub open spec fn same_payloads(&self, other: &Self) -> bool {
        forall|id: usize|
            live(self@, id) && live(other@, id) ==> #[trigger] self.payload_of(id)
                == other.payload_of(id)
    }

    /// An empty heap.
    pub fn new() -> (heap: Self)
        ensures
            heap.wf(),
            heap@ == Seq::<Option<Node>>::empty(),
            no_garbage(heap@),
    {
        let heap = CactusHeap { cells: Vec::new(), free: Vec::new() };
        proof {
            assert(heap@ =~= Seq::<Option<Node>>::empty());
            assert forall|v: usize| !live(heap@, v) by {}
        }
        heap
    }

    /// The number of slots of the arena, live or free.
    pub fn slots(&self) -> (n: usize)
        ensures
            n == self@.len(),
    {
        self.cells.len()
    }

    /// Whether slot `id` holds a cell.
    pub fn is_live(&self, id: usize) -> (b: bool)
        ensures
            b == live(self@, id),
    {
        if id < self.cells.len() {
            self.cells[id].is_some()
        } else {
            false
        }
    }

    /// The cell in slot `id`.
    pub fn cell(&self, id: usize) -> (c: &Cell<T>)
        requires
            live(self@, id),
        ensures
            c.model() == node(self@, id),
            c.payload_spec() == self.payload_of(id),
    {
        match &self.cells[id] {
            Some(c) => c,
            None => unreached(),
        }
    }

    /// Creates a cell that holds `payload`, with a strong count of one and
    /// no edges, and returns the handle to it. The cell takes a free slot
    /// if there is one, and a new slot at the end of the arena otherwise.
    pub fn create(&mut self, payload: T) -> (handle: Handle)
        requires
            old(self).wf(),
        ensures
            final(self).wf(),
            !live(old(self)@, handle@),
            handle@ <= old(self)@.len(),
            final(self)@ == allocated(old(self)@, handle@),
            final(self).holds(&handle),
            final(self).payload_of(handle@) == payload,
            final(self).same_payloads(old(self)),
            no_garbage(old(self)@) ==> no_garbage(final(self)@),
    {
        let cell = Cell::new(payload);
        let id = match self.free.pop() {
            Some(id) => {
                self.cells[id] = Some(cell);
                id
            },
            None => {
                let id = self.cells.len();
                self.cells.push(Some(cell));
                let _ = self.cells.len();
                id
            },
        };
        proof {
            assert(final(self)@ =~= allocated(old(self)@, id));
            lemma_allocated_wf(old(self)@, id);
            if no_garbage(old(self)@) {
                law_create_leaves_no_garbage(old(self)@, id);
            }
            assert(final(self).free_list_wf()) by {
                let before = old(self).free@;
                let after = self.free@;
                if before.len() > 0 {
                    assert(after =~= before.subrange(0, before.len() - 1));
                    assert forall|k: int| 0 <= k < after.len() implies (#[trigger] after[k])
                        < self.cells@.len() && self.cells@[after[k] as int] is None by {
                        assert(after[k] == before[k]);
                        assert(before[k] != before[before.len() - 1]);
                    }
                } else {
                    assert(after =~= before);
                }
            }
        }
        Handle { id }
    }

    /// Gives the cell of `handle` one more handle.
    pub fn clone_handle(&mut self, handle: &Handle) -> (copy: Handle)
        requires
            old(self).wf(),
            old(self).holds(handle),
            node(old(self)@, handle@).strong_count < usize::MAX,
        ensures
            final(self).wf(),
            copy@ == handle@,
            final(self)@ == handle_added(old(self)@, handle@),
            final(self).holds(&copy),
            final(self).holds(handle),
            final(self).same_payloads(old(self)),
            no_garbage(old(self)@) ==> no_garbage(final(self)@),
    {
        let id = handle.id;
        proof {
            assert(node(self@, id).strong_count == node(self@, id).handles + in_degree(self@, id));
        }
        match &mut self.cells[id] {
            Some(c) => {
                c.strong_count = c.strong_count + 1;
                c.handles = c.handles + 1;
            },
            None => {},
        }
        proof {
            assert(final(self)@ =~= handle_added(old(self)@, id));
            lemma_handle_added_wf(old(self)@, id);
            if no_garbage(old(self)@) {
                law_clone_leaves_no_garbage(old(self)@, id);
            }
        }
        Handle { id }
    }

    /// Takes one handle away from the cell in slot `id`, and collects
    /// nothing.
    pub(crate) fn drop_handle_count(&mut self, id: usize)
        requires
            old(self).wf(),
            live(old(self)@, id),
            node(old(self)@, id).handles > 0,
        ensures
            final(self).wf(),
            final(self)@ == handle_dropped(old(self)@, id),
            final(self).same_payloads(old(self)),
    {
        proof {
            assert(node(self@, id).strong_count == node(self@, id).handles + in_degree(self@, id));
        }
        match &mut self.cells[id] {
            Some(c) => {
                c.strong_count = c.strong_count - 1;
                c.handles = c.handles - 1;
            },
            None => {},
        }
        proof {
            assert(final(self)@ =~= handle_dropped(old(self)@, id));
            lemma_handle_dropped_wf(old(self)@, id);
        }
    }

    /// Records that the payload of `owner` now refers to the cell of
    /// `dependent`: adds one edge from the one to the other and one to the
    /// strong count of the dependent. Adopting the same cell again adds
    /// another edge; a cell may adopt itself.
    pub fn adopt(&mut self, owner: &Handle, dependent: &Handle)
        requires
            old(self).wf(),
            old(self).holds(owner),
            old(self).holds(dependent),
            node(old(self)@, dependent@).strong_count < usize::MAX,
        ensures
            final(self).wf(),
            final(self)@ == adopted(old(self)@, owner@, dependent@),
            final(self).holds(owner),
            final(self).holds(dependent),
            final(self).same_payloads(old(self)),
            no_garbage(old(self)@) ==> no_garbage(final(self)@),
    {
        let o = owner.id;
        let d = dependent.id;
        match &mut self.cells[o] {
            Some(c) => {
                c.edges.push(d);
            },
            None => {},
        }
        match &mut self.cells[d] {
            Some(c) => {
                c.strong_count = c.strong_count + 1;
            },
            None => {},
        }
        proof {
            let before = old(self).cells@[o as int].unwrap().edges@;
            before.to_multiset_ensures();
            assert(before.push(d).to_multiset() =~= before.to_multiset().insert(d));
            assert(final(self)@ =~= adopted(old(self)@, o, d));
            lemma_adopted_wf(old(self)@, o, d);
            if no_garbage(old(self)@) {
                law_adopt_leaves_no_garbage(old(self)@, o, d);
            }
        }
    }

    /// Takes one edge from `owner` to `dependent` away, with the count that
    /// it gave the dependent, and collects nothing. Returns whether there
    /// was such an edge; if there was none, the heap is unchanged.
    pub(crate) fn remove_edge(&mut self, owner: usize, dependent: usize) -> (found: bool)
        requires
            old(self).wf(),
            live(old(self)@, owner),
        ensures
            found == has_edge(old(self)@, owner, dependent),
            found ==> final(self)@ == unadopted(old(self)@, owner, dependent),
            !found ==> final(self)@ == old(self)@,
            final(self).wf(),
            final(self).same_payloads(old(self)),
            forall|id: usize| live(final(self)@, id) == live(old(self)@, id),
    {
        let ghost es = old(self).cells@[owner as int].unwrap().edges@;
        proof {
            es.to_multiset_ensures();
        }
        let (at, n) = match &self.cells[owner] {
            Some(c) => (position_of(&c.edges, dependent), c.edges.len()),
            None => (0, 0),
        };
        if at == n {
            proof {
                assert(!es.contains(dependent));
            }
            return false;
        }
        proof {
            assert(es.contains(dependent));
            assert(has_edge(self@, owner, dependent));
            crate::cactus::transitions::lemma_unadopted_wf(self@, owner, dependent);
            assert(live(self@, dependent));
            assert(es.remove(at as int).to_multiset() =~= es.to_multiset().remove(dependent));
        }
        match &mut self.cells[owner] {
            Some(c) => {
                c.edges.remove(at);
            },
            None => {},
        }
        match &mut self.cells[dependent] {
            Some(c) => {
                c.strong_count = c.strong_count - 1;
            },
            None => {},
        }
        proof {
            assert(final(self)@ =~= unadopted(old(self)@, owner, dependent));
        }
        true
    }

    /// Sets the strong count of the cell in slot `id`.
    pub(crate) fn set_count(&mut self, id: usize, count: usize)
        requires
            live(old(self)@, id),
            old(self).free_list_wf(),
        ensures
            final(self)@ == old(self)@.update(
                id as int,
                Some(
                    Node {
                        strong_count: count as nat,
                        handles: node(old(self)@, id).handles,
                        edges: node(old(self)@, id).edges,
                    },
                ),
            ),
            final(self).free_list_wf(),
            forall|x: usize| live(old(self)@, x) ==> #[trigger] final(self).payload_of(x) == old(
                self,
            ).payload_of(x),
    {
        match &mut self.cells[id] {
            Some(c) => {
                c.strong_count = count;
            },
            None => {},
        }
        proof {
            assert(final(self)@ =~= old(self)@.update(
                id as int,
                Some(
                    Node {
                        strong_count: count as nat,
                        handles: node(old(self)@, id).handles,
                        edges: node(old(self)@, id).edges,
                    },
                ),
            ));
        }
    }

    /// Finalizes the cell in slot `id`: drops its payload and its edges
    /// and frees the slot. The counts of other cells are left as they are.
    pub(crate) fn discard(&mut self, id: usize)
        requires
            live(old(self)@, id),
            old(self).free_list_wf(),
        ensures
            final(self)@ == old(self)@.update(id as int, None),
            final(self).free_list_wf(),
            forall|x: usize|
                live(old(self)@, x) && x != id ==> #[trigger] final(self).payload_of(x) == old(
                    self,
                ).payload_of(x),
    {
        self.cells[id] = None;
        self.free.push(id);
        proof {
            assert(final(self)@ =~= old(self)@.update(id as int, None));
            let before = old(self).free@;
            let after = self.free@;
            assert forall|j: int, k: int| 0 <= j < after.len() && 0 <= k < after.len() && j != k implies after[j]
                != after[k] by {
                if j < before.len() {
                    assert(after[j] == before[j]);
                }
                if k < before.len() {
                    assert(after[k] == before[k]);
                }
            }
            assert forall|k: int| 0 <= k < after.len() implies (#[trigger] after[k])
                < self.cells@.len() && self.cells@[after[k] as int] is None by {
                if k < before.len() {
                    assert(after[k] == before[k]);
                }
            }
        }
    }

    /// The strong count of the cell of `handle`: its handles and the edges
    /// that lead to it.
    pub fn strong_count(&self, handle: &Handle) -> (n: usize)
        requires
            self.holds(handle),
        ensures
            n == node(self@, handle@).strong_count,
    {
        self.cell(handle.id).strong_count
    }

    /// The payload of the cell of `handle`.
    pub fn payload(&self, handle: &Handle) -> (p: &T)
        requires
            self.holds(handle),
        ensures
            *p == self.payload_of(handle@),
    {
        &self.cell(handle.id).payload
    }

    /// Puts `payload` into the cell of `handle` and returns what the cell
    /// held before.
    pub fn replace_payload(&mut self, handle: &Handle, payload: T) -> (previous: T)
        requires
            old(self).wf(),
            old(self).holds(handle),
        ensures
            final(self).wf(),
            final(self)@ == old(self)@,
            previous == old(self).payload_of(handle@),
            final(self).payload_of(handle@) == payload,
            forall|id: usize|
                live(old(self)@, id) && id != handle@ ==> #[trigger] final(self).payload_of(id)
                    == old(self).payload_of(id),
    {
        let id = handle.id;
        let mut held = payload;
        match &mut self.cells[id] {
            Some(c) => {
                std::mem::swap(&mut c.payload, &mut held);
            },
            None => {},
        }
        proof {
            assert(final(self)@ =~= old(self)@);
        }
        held
    }

    /// The number of live cells.
    pub fn live_cells(&self) -> (n: usize)
        ensures
            n == live_count(self@),
    {
        let mut n: usize = 0;
        let mut i: usize = 0;
        while i < self.cells.len()
            invariant
                i <= self.cells@.len(),
                self@.len() == self.cells@.len(),
                n == live_upto(self@, i as nat),
                n <= i,
            decreases self.cells@.len() - i,
        {
            if self.cells[i].is_some() {
                n = n + 1;
            }
            i = i + 1;
        }
        n
    }

    /// The number of adoption edges in the heap, or `None` if that number
    /// does not fit the result type.
    pub fn adopted_edges(&self) -> (n: Option<usize>)
        ensures
            match n {
                Some(n) => n == edge_count(self@),
                None => edge_count(self@) > usize::MAX,
            },
    {
        let mut n: usize = 0;
        let mut i: usize = 0;
        while i < self.cells.len()
            invariant
                i <= self.cells@.len(),
                self@.len() == self.cells@.len(),
                n == edges_upto(self@, i as nat),
            decreases self.cells@.len() - i,
        {
            let more: usize = match &self.cells[i] {
                Some(c) => {
                    proof {
                        c.edges@.to_multiset_ensures();
                    }
                    c.edges.len()
                },
                None => 0,
            };
            if more > usize::MAX - n {
                proof {
                    lemma_edges_upto_grows(self@, (i + 1) as nat, self@.len());
                }
                return None;
            }
            n = n + more;
            i = i + 1;
        }
        Some(n)
    }
}

/// The first position of `target` in `list`, or the length of `list` if it
/// does not occur.
pub fn position_of(list: &Vec<usize>, target: usize) -> (at: usize)
    ensures
        at <= list@.len(),
        at < list@.len() ==> list@[at as int] == target,
        forall|k: int| 0 <= k < at ==> list@[k] != target,
{
    let mut at: usize = 0;
    while at < list.len() && list[at] != target
        invariant
            at <= list@.len(),
            forall|k: int| 0 <= k < at ==> list@[k] != target,
        decreases list@.len() - at,
    {
        at = at + 1;
    }
    at
}

/// The number of edges counted grows with the number of slots counted.
pub proof fn lemma_edges_upto_grows(g: Graph, m: nat, n: nat)
    requires
        m <= n,
    ensures
        edges_upto(g, m) <= edges_upto(g, n),
    decreases n,
{
    if m < n {
        lemma_edges_upto_grows(g, m, (n - 1) as nat);
    }
}

} // verus!
