//! Giving up handles and edges, which is what may start a collection.

use crate::cactus::graph::{
    handle_dropped, has_edge, live, node, release_garbage, released, sever_garbage, severed,
    unadopted,
};
use crate::cactus::heap::{CactusHeap, Handle};
use crate::cactus::laws::{
    law_rooted_cells_survive, law_unreferenced_cell_is_collected, lemma_after_collect_wf,
};
use crate::cactus::lemmas::lemma_reaches_self;
use crate::cactus::rooted::{
    law_release_leaves_no_garbage, law_sever_leaves_no_garbage, law_unadopt_leaves_no_garbage,
    no_garbage,
};
use crate::cactus::transitions::{lemma_handle_dropped_wf, lemma_unadopted_wf};
use vstd::prelude::*;

verus! {

/// Why an edge could not be taken away.
#[derive(Debug, Clone, Copy, PartialEq, Eq)]
pub enum AdoptError {
    /// The owner holds no edge to the dependent: the caller's bookkeeping
    /// of its adoptions is out of step with the heap's.
    NoSuchEdge,
}

impl AdoptError {
    /// A sentence that says what went wrong.
    pub fn message(&self) -> (text: &'static str)
        ensures
            text@ == "the owner has not adopted the dependent"@,
    {
        "the owner has not adopted the dependent"
    }
}

impl<T> CactusHeap<T> {
    /// Gives up `handle`. The strong count of its cell goes down by one. If
    /// the cell has other handles, nothing else happens and no cell is
    /// visited. If this was its last handle, a collection seeded at the
    /// cell runs to its end before the call returns: a cell whose count has
    /// gone to zero is finalized, and a cell that is left with a count
    /// shares the fate of the cells that hold the edges to it. Returns the
    /// ids of the cells that were finalized; no cell that still has a
    /// handle is among them.
    pub fn release(&mut self, handle: Handle) -> (finalized: Vec<usize>)
        requires
            old(self).wf(),
            old(self).holds(&handle),
        ensures
            final(self).wf(),
            final(self)@ == released(old(self)@, handle@),
            finalized@.no_duplicates(),
            forall|x: usize|
                finalized@.contains(x) <==> release_garbage(old(self)@, handle@).contains(x),
            final(self).same_payloads(old(self)),
            finalized@.len() == 0 ==> final(self)@ == handle_dropped(old(self)@, handle@),
            node(old(self)@, handle@).strong_count == 1 ==> !live(final(self)@, handle@),
            forall|x: usize|
                live(old(self)@, x) && #[trigger] node(old(self)@, x).handles > (if x == handle@ {
                    1nat
                } else {
                    0nat
                }) ==> live(final(self)@, x) && node(final(self)@, x).handles > 0,
            no_garbage(old(self)@) ==> no_garbage(final(self)@),
    {
        let id = handle.id();
        let ghost g = self@;
        proof {
            if no_garbage(g) {
                law_release_leaves_no_garbage(g, id);
            }
        }
        self.drop_handle_count(id);
        let ghost h = self@;
        let ghost mid = *self;
        proof {
            lemma_handle_dropped_wf(g, id);
        }
        if self.cell(id).handle_count() > 0 {
            return Vec::new();
        }
        let finalized = self.collect_from(id);
        proof {
            lemma_after_collect_wf(h, id);
            if node(g, id).strong_count == 1 {
                law_unreferenced_cell_is_collected(h, id);
            }
            assert forall|x: usize|
                live(g, x) && #[trigger] node(g, x).handles > (if x == id {
                    1nat
                } else {
                    0nat
                }) implies live(self@, x) && node(self@, x).handles > 0 by {
                assert(live(h, x));
                assert(node(h, x).handles > 0);
                lemma_reaches_self(h, x);
                law_rooted_cells_survive(h, id, x, x);
            }
            assert forall|x: usize| live(self@, x) && live(g, x) implies #[trigger] self.payload_of(
                x,
            ) == old(self).payload_of(x) by {
                assert(live(h, x));
                assert(self.payload_of(x) == mid.payload_of(x));
            }
        }
        finalized
    }

    /// Takes away one edge from the cell of `owner` to the cell in slot
    /// `dependent`, and one from the strong count of the dependent. If the
    /// dependent is left without a handle, a collection seeded at it runs
    /// to its end before the call returns. Fails, and changes nothing, if
    /// the owner holds no such edge. Returns the ids of the cells that were
    /// finalized.
    pub fn unadopt_id(&mut self, owner: &Handle, dependent: usize) -> (outcome: Result<
        Vec<usize>,
        AdoptError,
    >)
        requires
            old(self).wf(),
            old(self).holds(owner),
        ensures
            final(self).wf(),
            outcome is Err <==> !has_edge(old(self)@, owner@, dependent),
            outcome is Err ==> final(self)@ == old(self)@ && outcome == Err::<
                Vec<usize>,
                AdoptError,
            >(AdoptError::NoSuchEdge),
            outcome is Ok ==> final(self)@ == severed(old(self)@, owner@, dependent),
            outcome is Ok ==> outcome->Ok_0@.no_duplicates(),
            outcome is Ok ==> forall|x: usize|
                outcome->Ok_0@.contains(x) <==> sever_garbage(
                    old(self)@,
                    owner@,
                    dependent,
                ).contains(x),
            final(self).same_payloads(old(self)),
            final(self).holds(owner),
            outcome is Ok && node(old(self)@, dependent).strong_count == 1 ==> !live(
                final(self)@,
                dependent,
            ),
            outcome is Ok && outcome->Ok_0@.len() == 0 ==> final(self)@ == unadopted(
                old(self)@,
                owner@,
                dependent,
            ),
            forall|x: usize|
                live(old(self)@, x) && #[trigger] node(old(self)@, x).handles > 0 ==> live(
                    final(self)@,
                    x,
                ) && node(final(self)@, x).handles > 0,
            no_garbage(old(self)@) ==> no_garbage(final(self)@),
    {
        let o = owner.id();
        let ghost g = self@;
        proof {
            if no_garbage(g) && has_edge(g, o, dependent) {
                law_sever_leaves_no_garbage(g, o, dependent);
            }
        }
        let found = self.remove_edge(o, dependent);
        if !found {
            return Err(AdoptError::NoSuchEdge);
        }
        let ghost h = self@;
        let ghost mid = *self;
        proof {
            lemma_unadopted_wf(g, o, dependent);
            assert(live(g, dependent));
            assert forall|x: usize| live(g, x) implies live(h, x) && node(h, x).handles == node(
                g,
                x,
            ).handles by {
                if x != o && x != dependent {
                    assert(h[x as int] == g[x as int]);
                }
            }
        }
        if self.cell(dependent).handle_count() > 0 {
            return Ok(Vec::new());
        }
        let finalized = self.collect_from(dependent);
        proof {
            lemma_after_collect_wf(h, dependent);
            if node(g, dependent).strong_count == 1 {
                assert(node(h, dependent).strong_count == 0);
                law_unreferenced_cell_is_collected(h, dependent);
            }
            assert forall|x: usize| live(g, x) && #[trigger] node(g, x).handles > 0 implies live(
                self@,
                x,
            ) && node(self@, x).handles > 0 by {
                assert(live(h, x));
                lemma_reaches_self(h, x);
                law_rooted_cells_survive(h, dependent, x, x);
            }
            assert forall|x: usize| live(self@, x) && live(g, x) implies #[trigger] self.payload_of(
                x,
            ) == old(self).payload_of(x) by {
                assert(live(h, x));
                assert(self.payload_of(x) == mid.payload_of(x));
            }
        }
        Ok(finalized)
    }

    /// Takes away one edge from the cell of `owner` to the cell of
    /// `dependent`, and one from the strong count of the dependent; the
    /// inverse of one [`CactusHeap::adopt`]. Fails, and changes nothing, if
    /// the owner holds no such edge. As the caller holds a handle to the
    /// dependent, no cell is finalized.
    pub fn unadopt(&mut self, owner: &Handle, dependent: &Handle) -> (outcome: Result<
        (),
        AdoptError,
    >)
        requires
            old(self).wf(),
            old(self).holds(owner),
            old(self).holds(dependent),
        ensures
            final(self).wf(),
            outcome is Err <==> !has_edge(old(self)@, owner@, dependent@),
            outcome is Err ==> final(self)@ == old(self)@ && outcome == Err::<(), AdoptError>(
                AdoptError::NoSuchEdge,
            ),
            outcome is Ok ==> final(self)@ == unadopted(old(self)@, owner@, dependent@),
            final(self).same_payloads(old(self)),
            final(self).holds(owner),
            final(self).holds(dependent),
            forall|x: usize| live(final(self)@, x) == live(old(self)@, x),
            no_garbage(old(self)@) ==> no_garbage(final(self)@),
    {
        let ghost g = self@;
        let found = self.remove_edge(owner.id(), dependent.id());
        proof {
            if found {
                lemma_unadopted_wf(g, owner@, dependent@);
                if no_garbage(g) {
                    law_unadopt_leaves_no_garbage(g, owner@, dependent@);
                }
            }
        }
        if found {
            Ok(())
        } else {
            Err(AdoptError::NoSuchEdge)
        }
    }
}

} // verus!
