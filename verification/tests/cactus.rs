use spinoso::cactus::heap::{CactusHeap, Handle};
use spinoso::cactus::release::AdoptError;
use std::cell::Cell;
use std::rc::Rc;

const ITERATIONS: usize = 50;

struct Counted(Rc<Cell<usize>>);

impl Drop for Counted {
    fn drop(&mut self) {
        self.0.set(self.0.get() + 1);
    }
}

struct RString {
    inner: String,
}

fn sorted(mut ids: Vec<usize>) -> Vec<usize> {
    ids.sort_unstable();
    ids
}

#[test]
fn cactusref_adopt_with_reachability_no_leak() {
    let s = "a".repeat(1024 * 1024);
    let mut heap: CactusHeap<RString> = CactusHeap::new();
    for _ in 0..ITERATIONS {
        // each iteration creates 10MB of `String`s
        let first = heap.create(RString { inner: s.clone() });
        let mut last = heap.clone_handle(&first);
        for _ in 1..10 {
            assert_eq!(heap.payload(&first).inner, s);
            let obj = heap.create(RString { inner: s.clone() });
            heap.adopt(&obj, &last);
            let previous = std::mem::replace(&mut last, obj);
            assert!(heap.release(previous).is_empty());
        }
        heap.adopt(&first, &last);
        assert_eq!(heap.live_cells(), 10);
        assert!(heap.release(first).is_empty());
        assert_eq!(heap.release(last).len(), 10);
        assert_eq!(heap.live_cells(), 0);
        assert_eq!(heap.adopted_edges(), Some(0));
    }
    // the slots of one round serve the next: the arena does not grow
    assert_eq!(heap.slots(), 10);
}

#[test]
fn new_cell_has_one_reference_and_no_edges() {
    let mut heap: CactusHeap<u32> = CactusHeap::new();
    assert_eq!(heap.live_cells(), 0);
    let a = heap.create(7);
    assert_eq!(heap.strong_count(&a), 1);
    assert_eq!(*heap.payload(&a), 7);
    assert_eq!(heap.live_cells(), 1);
    assert_eq!(heap.adopted_edges(), Some(0));
    assert!(heap.cell(a.id()).edges().is_empty());
    assert_eq!(heap.cell(a.id()).handle_count(), 1);
    assert_eq!(heap.release(a), vec![0]);
    assert_eq!(heap.live_cells(), 0);
    assert!(!heap.is_live(0));
}

#[test]
fn clone_and_release_move_the_count_by_one() {
    let mut heap: CactusHeap<u32> = CactusHeap::new();
    let a = heap.create(1);
    let b = heap.clone_handle(&a);
    assert_eq!(a.id(), b.id());
    assert_eq!(heap.strong_count(&a), 2);
    assert!(heap.release(b).is_empty());
    assert_eq!(heap.strong_count(&a), 1);
    assert!(heap.is_live(a.id()));
}

#[test]
fn adopt_counts_every_edge() {
    let mut heap: CactusHeap<u32> = CactusHeap::new();
    let a = heap.create(1);
    let b = heap.create(2);
    heap.adopt(&a, &b);
    heap.adopt(&a, &b);
    assert_eq!(heap.strong_count(&b), 3);
    assert_eq!(heap.strong_count(&a), 1);
    assert_eq!(heap.cell(a.id()).edges(), &vec![b.id(), b.id()]);
    assert_eq!(heap.adopted_edges(), Some(2));
    assert_eq!(heap.unadopt(&a, &b), Ok(()));
    assert_eq!(heap.strong_count(&b), 2);
    assert_eq!(heap.unadopt(&a, &b), Ok(()));
    assert_eq!(heap.strong_count(&b), 1);
    assert_eq!(heap.unadopt(&a, &b), Err(AdoptError::NoSuchEdge));
    assert_eq!(heap.strong_count(&b), 1);
}

#[test]
fn adopt_then_unadopt_restores_counts_and_edges() {
    let mut heap: CactusHeap<u32> = CactusHeap::new();
    let a = heap.create(1);
    let b = heap.create(2);
    let c = heap.create(3);
    heap.adopt(&a, &c);
    let before = (
        heap.strong_count(&a),
        heap.strong_count(&b),
        heap.cell(a.id()).edges().clone(),
        heap.cell(b.id()).edges().clone(),
        heap.adopted_edges(),
    );
    heap.adopt(&a, &b);
    assert_eq!(heap.unadopt(&a, &b), Ok(()));
    let after = (
        heap.strong_count(&a),
        heap.strong_count(&b),
        heap.cell(a.id()).edges().clone(),
        heap.cell(b.id()).edges().clone(),
        heap.adopted_edges(),
    );
    assert_eq!(before, after);
    assert_eq!(heap.live_cells(), 3);
}

#[test]
fn unadopt_without_edge_is_reported() {
    let mut heap: CactusHeap<u8> = CactusHeap::new();
    let a = heap.create(1);
    let b = heap.create(2);
    assert_eq!(heap.unadopt(&a, &b), Err(AdoptError::NoSuchEdge));
    assert_eq!(heap.unadopt_id(&a, b.id()), Err(AdoptError::NoSuchEdge));
    assert_eq!(heap.unadopt_id(&a, 99), Err(AdoptError::NoSuchEdge));
    assert_eq!(heap.strong_count(&b), 1);
    assert_eq!(
        AdoptError::NoSuchEdge.message(),
        "the owner has not adopted the dependent"
    );
}

#[test]
fn self_cycle_is_collected() {
    let mut heap: CactusHeap<u8> = CactusHeap::new();
    let a = heap.create(1);
    heap.adopt(&a, &a);
    assert_eq!(heap.strong_count(&a), 2);
    let id = a.id();
    assert_eq!(heap.release(a), vec![id]);
    assert_eq!(heap.live_cells(), 0);
    assert_eq!(heap.adopted_edges(), Some(0));
}

#[test]
fn doubly_self_adopted_cell_is_collected() {
    let mut heap: CactusHeap<u8> = CactusHeap::new();
    let a = heap.create(1);
    heap.adopt(&a, &a);
    heap.adopt(&a, &a);
    let copy = heap.clone_handle(&a);
    assert_eq!(heap.strong_count(&a), 4);
    assert!(heap.release(copy).is_empty());
    assert_eq!(heap.release(a), vec![0]);
    assert_eq!(heap.live_cells(), 0);
}

#[test]
fn chain_of_ten_closed_into_a_loop_is_collected() {
    let mut heap: CactusHeap<usize> = CactusHeap::new();
    let baseline = heap.live_cells();
    let mut cells: Vec<Handle> = Vec::new();
    for i in 0..10 {
        let c = heap.create(i);
        if i > 0 {
            heap.adopt(&c, &cells[i - 1]);
        }
        cells.push(c);
    }
    heap.adopt(&cells[0], &cells[9]);
    assert_eq!(heap.live_cells(), 10);
    assert_eq!(heap.adopted_edges(), Some(10));
    let ids: Vec<usize> = cells.iter().map(|c| c.id()).collect();
    let mut finalized = Vec::new();
    for c in cells {
        finalized.extend(heap.release(c));
    }
    assert_eq!(sorted(finalized), sorted(ids));
    assert_eq!(heap.live_cells(), baseline);
    assert_eq!(heap.adopted_edges(), Some(0));
}

#[test]
fn repeated_cycles_do_not_grow_the_arena() {
    let mut heap: CactusHeap<usize> = CactusHeap::new();
    for round in 0..2000 {
        let mut cells: Vec<Handle> = Vec::new();
        for i in 0..10 {
            let c = heap.create(round + i);
            if i > 0 {
                heap.adopt(&c, &cells[i - 1]);
            }
            cells.push(c);
        }
        heap.adopt(&cells[0], &cells[9]);
        let mut finalized = 0;
        for c in cells {
            finalized += heap.release(c).len();
        }
        assert_eq!(finalized, 10);
        assert_eq!(heap.live_cells(), 0);
    }
    assert_eq!(heap.slots(), 10);
}

#[test]
fn two_cell_cycle_is_collected_when_both_handles_are_released() {
    let mut heap: CactusHeap<&'static str> = CactusHeap::new();
    let a = heap.create("a");
    let b = heap.create("b");
    heap.adopt(&a, &b);
    heap.adopt(&b, &a);
    assert_eq!(heap.live_cells(), 2);
    let (ida, idb) = (a.id(), b.id());
    assert_eq!(heap.release(a), Vec::<usize>::new());
    assert_eq!(heap.live_cells(), 2);
    assert_eq!(sorted(heap.release(b)), sorted(vec![ida, idb]));
    assert_eq!(heap.live_cells(), 0);
    assert_eq!(heap.adopted_edges(), Some(0));
}

#[test]
fn three_cell_cycle_survives_while_one_handle_is_retained() {
    let mut heap: CactusHeap<char> = CactusHeap::new();
    let a = heap.create('a');
    let b = heap.create('b');
    let c = heap.create('c');
    heap.adopt(&a, &b);
    heap.adopt(&b, &c);
    heap.adopt(&c, &a);
    let ids = vec![a.id(), b.id(), c.id()];
    assert!(heap.release(a).is_empty());
    assert!(heap.release(c).is_empty());
    assert_eq!(heap.live_cells(), 3);
    assert_eq!(heap.strong_count(&b), 2);
    assert_eq!(heap.adopted_edges(), Some(3));
    assert_eq!(*heap.payload(&b), 'b');
    assert_eq!(sorted(heap.release(b)), sorted(ids));
    assert_eq!(heap.live_cells(), 0);
}

#[test]
fn garbage_that_points_at_a_live_cell_gives_its_count_back() {
    let mut heap: CactusHeap<u8> = CactusHeap::new();
    let root = heap.create(0);
    let a = heap.create(1);
    let b = heap.create(2);
    heap.adopt(&a, &b);
    heap.adopt(&b, &a);
    heap.adopt(&a, &root);
    heap.adopt(&b, &root);
    assert_eq!(heap.strong_count(&root), 3);
    let (ida, idb) = (a.id(), b.id());
    assert!(heap.release(a).is_empty());
    assert_eq!(sorted(heap.release(b)), sorted(vec![ida, idb]));
    assert_eq!(heap.strong_count(&root), 1);
    assert_eq!(heap.live_cells(), 1);
    assert_eq!(heap.adopted_edges(), Some(0));
}

#[test]
fn cell_kept_by_an_edge_from_a_rooted_cell_survives() {
    let mut heap: CactusHeap<u8> = CactusHeap::new();
    let owner = heap.create(0);
    let a = heap.create(1);
    let b = heap.create(2);
    heap.adopt(&owner, &a);
    heap.adopt(&a, &b);
    heap.adopt(&b, &a);
    let (ida, idb) = (a.id(), b.id());
    assert!(heap.release(a).is_empty());
    assert!(heap.release(b).is_empty());
    assert_eq!(heap.live_cells(), 3);
    assert!(heap.is_live(ida) && heap.is_live(idb));
    assert_eq!(heap.cell(ida).strong_count(), 2);
    // giving up the edge orphans the cycle
    assert_eq!(heap.unadopt_id(&owner, ida).map(sorted), Ok(sorted(vec![ida, idb])));
    assert_eq!(heap.live_cells(), 1);
    assert_eq!(heap.strong_count(&owner), 1);
}

#[test]
fn releasing_an_owner_collects_what_only_it_kept_alive() {
    let mut heap: CactusHeap<u8> = CactusHeap::new();
    let owner = heap.create(0);
    let kept = heap.create(1);
    let shared = heap.create(2);
    heap.adopt(&owner, &kept);
    heap.adopt(&owner, &shared);
    let (ido, idk) = (owner.id(), kept.id());
    assert!(heap.release(kept).is_empty());
    assert_eq!(sorted(heap.release(owner)), sorted(vec![ido, idk]));
    assert_eq!(heap.strong_count(&shared), 1);
    assert_eq!(heap.live_cells(), 1);
}

#[test]
fn collect_from_a_live_root_finalizes_nothing() {
    let mut heap: CactusHeap<u8> = CactusHeap::new();
    let a = heap.create(1);
    let b = heap.create(2);
    heap.adopt(&a, &b);
    heap.adopt(&b, &a);
    assert!(heap.collect_from(a.id()).is_empty());
    assert!(heap.collect_from(17).is_empty());
    assert_eq!(heap.strong_count(&a), 2);
    assert_eq!(heap.strong_count(&b), 2);
    assert_eq!(heap.live_cells(), 2);
}

#[test]
fn trace_and_restore_report_the_counts_of_a_pass() {
    let mut heap: CactusHeap<u8> = CactusHeap::new();
    let a = heap.create(1);
    let b = heap.create(2);
    let c = heap.create(3);
    heap.adopt(&a, &b);
    heap.adopt(&b, &a);
    heap.adopt(&c, &a);
    let (order, left) = heap.trace(a.id());
    assert_eq!(sorted(order.clone()), sorted(vec![a.id(), b.id()]));
    // a: one handle and the edge from c stay; b: one handle stays
    assert_eq!(left[&a.id()], 2);
    assert_eq!(left[&b.id()], 1);
    let kept = heap.restore(a.id(), &order, &left);
    assert_eq!(kept[&a.id()], 3);
    assert_eq!(kept[&b.id()], 2);
    assert!(heap.sweep(a.id(), &order, &kept).is_empty());
    assert_eq!(heap.strong_count(&a), 3);
}

#[test]
fn finalizers_run_once_for_each_collected_cell() {
    let drops = Rc::new(Cell::new(0));
    let mut heap: CactusHeap<Counted> = CactusHeap::new();
    let a = heap.create(Counted(Rc::clone(&drops)));
    let b = heap.create(Counted(Rc::clone(&drops)));
    heap.adopt(&a, &b);
    heap.adopt(&b, &a);
    heap.release(a);
    assert_eq!(drops.get(), 0);
    heap.release(b);
    assert_eq!(drops.get(), 2);
    drop(heap);
    assert_eq!(drops.get(), 2);
}

#[test]
fn replace_payload_hands_the_old_payload_back() {
    let mut heap: CactusHeap<String> = CactusHeap::new();
    let a = heap.create(String::from("old"));
    assert_eq!(heap.replace_payload(&a, String::from("new")), "old");
    assert_eq!(heap.payload(&a), "new");
    assert_eq!(heap.cell(a.id()).payload(), "new");
}

#[test]
fn freed_slots_are_used_again() {
    let mut heap: CactusHeap<u8> = CactusHeap::new();
    let a = heap.create(1);
    let b = heap.create(2);
    let ida = a.id();
    heap.release(a);
    let c = heap.create(3);
    assert_eq!(c.id(), ida);
    assert_eq!(heap.slots(), 2);
    assert_eq!(*heap.payload(&c), 3);
    assert_eq!(*heap.payload(&b), 2);
}
