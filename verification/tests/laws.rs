use std::cell::Cell;
use std::rc::Rc;

use rust_cc::cc::{Cc, CcHeap};
use rust_cc::{collect_cycles, new_with_collection, trigger_collection};
use rust_cc::lists::{Link, LinkedList};
use rust_cc::state::{allocated_bytes, buffered_objects_count, executions_count, is_tracing};
use rust_cc::trace::{Context, Finalize, Trace};
use rust_cc::weak::Weak;

struct Counted {
    dropped: Rc<Cell<u32>>,
}

impl Finalize for Counted {}

impl Drop for Counted {
    fn drop(&mut self) {
        self.dropped.set(self.dropped.get() + 1);
    }
}

fn counted(dropped: &Rc<Cell<u32>>) -> Counted {
    Counted { dropped: dropped.clone() }
}

#[test]
fn collect_frees_everything_reachable_from_buffered_garbage() {
    let mut heap = CcHeap::new(10);
    let dropped = Rc::new(Cell::new(0));
    // a <-> b, b -> c, c -> d: after dropping the handle to a, everything is garbage.
    let d = Cc::new(&mut heap, counted(&dropped), vec![]);
    let c = Cc::new(&mut heap, counted(&dropped), vec![d]);
    let b = Cc::new(&mut heap, counted(&dropped), vec![c]);
    let a = Cc::new(&mut heap, counted(&dropped), vec![b]);
    let a_copy = a.clone(&mut heap);
    let b_handle = {
        let b_idx = heap.children[a.index()][0];
        let back = a.detach(&mut heap).unwrap();
        assert_eq!(back.index(), b_idx);
        back
    };
    b_handle.adopt(&mut heap, a_copy);
    a.adopt(&mut heap, b_handle);
    assert_eq!(allocated_bytes(&heap).unwrap(), 40);
    a.drop(&mut heap);
    assert_eq!(buffered_objects_count(&heap).unwrap(), 1);
    assert_eq!(dropped.get(), 0);
    collect_cycles(&mut heap);
    assert_eq!(dropped.get(), 4);
    assert_eq!(allocated_bytes(&heap).unwrap(), 0);
    assert_eq!(buffered_objects_count(&heap).unwrap(), 0);
}

#[test]
fn collect_frees_a_garbage_cycle_beside_a_buffered_live_allocation() {
    let mut heap = CcHeap::new(10);
    let dropped = Rc::new(Cell::new(0));
    // x <-> y, y -> z; z keeps a handle and is buffered too, x loses its handle.
    let z = Cc::new(&mut heap, counted(&dropped), vec![]);
    let z_ref = z.clone(&mut heap);
    let y = Cc::new(&mut heap, counted(&dropped), vec![z_ref]);
    let x = Cc::new(&mut heap, counted(&dropped), vec![y]);
    let x_copy = x.clone(&mut heap);
    let y_handle = x.detach(&mut heap).unwrap();
    y_handle.adopt(&mut heap, x_copy);
    x.adopt(&mut heap, y_handle);
    let z_extra = z.clone(&mut heap);
    z_extra.drop(&mut heap);
    x.drop(&mut heap);
    assert_eq!(buffered_objects_count(&heap).unwrap(), 2);
    assert_eq!(allocated_bytes(&heap).unwrap(), 30);
    collect_cycles(&mut heap);
    assert_eq!(dropped.get(), 2);
    assert_eq!(allocated_bytes(&heap).unwrap(), 10);
    assert_eq!(buffered_objects_count(&heap).unwrap(), 0);
    z.drop(&mut heap);
    assert_eq!(dropped.get(), 3);
    assert_eq!(allocated_bytes(&heap).unwrap(), 0);
}

#[test]
fn collect_keeps_what_a_handle_reaches() {
    let mut heap = CcHeap::new(10);
    let dropped = Rc::new(Cell::new(0));
    let leaf = Cc::new(&mut heap, counted(&dropped), vec![]);
    let a = Cc::new(&mut heap, counted(&dropped), vec![leaf]);
    let self_ref = a.clone(&mut heap);
    a.adopt(&mut heap, self_ref);
    let holder = a.clone(&mut heap);
    let root = Cc::new(&mut heap, counted(&dropped), vec![holder]);
    a.drop(&mut heap);
    collect_cycles(&mut heap);
    assert_eq!(dropped.get(), 0);
    assert_eq!(allocated_bytes(&heap).unwrap(), 30);
    root.drop(&mut heap);
    assert_eq!(dropped.get(), 1);
    collect_cycles(&mut heap);
    assert_eq!(dropped.get(), 3);
    assert_eq!(allocated_bytes(&heap).unwrap(), 0);
    assert!(!is_tracing(&heap).unwrap());
}

#[test]
fn dropping_a_handle_keeps_what_other_handles_reach() {
    let mut heap = CcHeap::new(10);
    let dropped = Rc::new(Cell::new(0));
    let leaf = Cc::new(&mut heap, counted(&dropped), vec![]);
    let parent = Cc::new(&mut heap, counted(&dropped), vec![leaf]);
    let other = parent.clone(&mut heap);
    parent.drop(&mut heap);
    assert_eq!(dropped.get(), 0);
    assert_eq!(other.strong_count(&heap), 1);
    assert_eq!(allocated_bytes(&heap).unwrap(), 20);
    other.drop(&mut heap);
    assert_eq!(dropped.get(), 2);
}

#[test]
fn clone_then_drop_restores_counts() {
    let mut heap = CcHeap::new(10);
    let a = Cc::new(&mut heap, 1u32, vec![]);
    let b = Cc::new(&mut heap, 2u32, vec![]);
    let copy_b = b.clone(&mut heap);
    a.adopt(&mut heap, copy_b);
    let before_a = a.strong_count(&heap);
    let before_b = b.strong_count(&heap);
    let clone = b.clone(&mut heap);
    assert_eq!(b.strong_count(&heap), before_b + 1);
    clone.drop(&mut heap);
    assert_eq!(a.strong_count(&heap), before_a);
    assert_eq!(b.strong_count(&heap), before_b);
    assert_eq!(allocated_bytes(&heap).unwrap(), 20);
}

#[test]
fn add_then_remove_restores_list() {
    let mut links = vec![Link::none(), Link::none(), Link::none()];
    let mut list = LinkedList::new();
    list.add(&mut links, 0);
    list.add(&mut links, 1);
    let before = list.iter(&links);
    list.add(&mut links, 2);
    list.remove(&mut links, 2);
    assert_eq!(list.iter(&links), before);
    assert_eq!(links[2], Link::none());
}

#[test]
fn weak_upgrades_while_handle_exists() {
    let mut heap = CcHeap::new(10);
    let cc = Cc::new(&mut heap, 3u32, vec![]);
    let weak = cc.downgrade(&mut heap);
    assert_eq!(weak.strong_count(&heap), cc.strong_count(&heap));
    let up = weak.upgrade(&mut heap).unwrap();
    assert!(Cc::ptr_eq(&up, &cc));
    up.drop(&mut heap);
    cc.drop(&mut heap);
    assert_eq!(weak.strong_count(&heap), 0);
    assert!(weak.upgrade(&mut heap).is_none());
    assert!(Weak::new().upgrade(&mut heap).is_none());
}

#[test]
fn tracing_a_handle_reports_its_allocation() {
    let mut heap = CcHeap::new(10);
    let a = Cc::new(&mut heap, 1u32, vec![]);
    let b = Cc::new(&mut heap, 2u32, vec![]);
    let mut ctx = Context::new();
    let handles = vec![a, b];
    handles.trace(&mut ctx);
    assert_eq!(ctx.traced(), &vec![0, 1]);
    let w = handles[0].downgrade(&mut heap);
    w.trace(&mut ctx);
    assert_eq!(ctx.traced().len(), 2);
    Some(handles[1].clone(&mut heap)).trace(&mut ctx);
    assert_eq!(ctx.traced(), &vec![0, 1, 1]);
}

#[test]
fn allocated_bytes_count_allocations() {
    let mut heap = CcHeap::new(24);
    let a = Cc::new(&mut heap, 1u32, vec![]);
    let b = Cc::new(&mut heap, 2u32, vec![]);
    assert_eq!(allocated_bytes(&heap).unwrap(), 48);
    a.drop(&mut heap);
    assert_eq!(allocated_bytes(&heap).unwrap(), 24);
    b.drop(&mut heap);
    assert_eq!(allocated_bytes(&heap).unwrap(), 0);
}

#[test]
fn dropping_the_last_handle_frees_what_only_it_held() {
    let mut heap = CcHeap::new(8);
    let dropped = Rc::new(Cell::new(0));
    let leaf = Cc::new(&mut heap, counted(&dropped), vec![]);
    let middle = Cc::new(&mut heap, counted(&dropped), vec![leaf]);
    let top = Cc::new(&mut heap, counted(&dropped), vec![middle]);
    assert_eq!(allocated_bytes(&heap).unwrap(), 24);
    top.drop(&mut heap);
    assert_eq!(dropped.get(), 3);
    assert_eq!(allocated_bytes(&heap).unwrap(), 0);
    assert_eq!(buffered_objects_count(&heap).unwrap(), 0);
}

#[test]
fn tracing_a_result_reports_what_it_holds() {
    let mut heap = CcHeap::new(10);
    let a = Cc::new(&mut heap, 1u32, vec![]);
    let b = Cc::new(&mut heap, 2u32, vec![]);
    let mut ctx = Context::new();
    let ok: Result<Vec<Cc>, u32> = Ok(vec![b, a]);
    ok.trace(&mut ctx);
    assert_eq!(ctx.traced(), &vec![1, 0]);
    let err: Result<Cc, Option<u32>> = Err(None);
    err.trace(&mut ctx);
    let none: Option<Cc> = None;
    none.trace(&mut ctx);
    assert_eq!(ctx.traced(), &vec![1, 0]);
}

fn garbage_pair(heap: &mut CcHeap<Counted>, dropped: &Rc<Cell<u32>>) {
    let a = Cc::new(heap, counted(dropped), vec![]);
    let a_copy = a.clone(heap);
    let b = Cc::new(heap, counted(dropped), vec![a_copy]);
    a.adopt(heap, b);
    a.drop(heap);
}

#[test]
fn allocating_starts_a_collection_above_the_threshold() {
    let mut heap = CcHeap::new(10);
    let dropped = Rc::new(Cell::new(0));
    garbage_pair(&mut heap, &dropped);
    assert_eq!(allocated_bytes(&heap).unwrap(), 20);
    // Below the threshold: no collection.
    let c = new_with_collection(&mut heap, counted(&dropped), vec![], true, 20, None);
    assert_eq!(executions_count(&heap).unwrap(), 0);
    assert_eq!(dropped.get(), 0);
    // Above it: one collection before allocating.
    let d = new_with_collection(&mut heap, counted(&dropped), vec![c], true, 20, None);
    assert_eq!(executions_count(&heap).unwrap(), 1);
    assert_eq!(dropped.get(), 2);
    assert_eq!(allocated_bytes(&heap).unwrap(), 20);
    // Never with automatic collection off.
    garbage_pair(&mut heap, &dropped);
    let e = new_with_collection(&mut heap, counted(&dropped), vec![d], false, 0, Some(0));
    assert_eq!(executions_count(&heap).unwrap(), 1);
    assert_eq!(dropped.get(), 2);
    // The buffered-objects threshold also starts one.
    assert!(trigger_collection(&mut heap, true, 1000, Some(0)));
    assert_eq!(executions_count(&heap).unwrap(), 2);
    assert_eq!(dropped.get(), 4);
    assert!(!trigger_collection(&mut heap, true, 1000, Some(0)));
    e.drop(&mut heap);
    assert_eq!(dropped.get(), 7);
    assert_eq!(allocated_bytes(&heap).unwrap(), 0);
}

#[test]
fn dropping_a_shared_handle_buffers_once() {
    let mut heap = CcHeap::new(8);
    let dropped = Rc::new(Cell::new(0));
    let a = Cc::new(&mut heap, counted(&dropped), vec![]);
    let b = a.clone(&mut heap);
    let c = a.clone(&mut heap);
    b.drop(&mut heap);
    assert_eq!(buffered_objects_count(&heap).unwrap(), 1);
    c.drop(&mut heap);
    assert_eq!(buffered_objects_count(&heap).unwrap(), 1);
    assert!(!a.already_finalized(&heap));
    assert_eq!(dropped.get(), 0);
    a.drop(&mut heap);
    assert_eq!(buffered_objects_count(&heap).unwrap(), 0);
    assert_eq!(dropped.get(), 1);
}

#[test]
fn collect_cycles_during_a_collection_does_nothing() {
    let mut heap = CcHeap::new(8);
    let dropped = Rc::new(Cell::new(0));
    garbage_pair(&mut heap, &dropped);
    heap.state.set_collecting(true);
    collect_cycles(&mut heap);
    assert_eq!(executions_count(&heap).unwrap(), 0);
    assert_eq!(buffered_objects_count(&heap).unwrap(), 1);
    heap.state.set_collecting(false);
    collect_cycles(&mut heap);
    assert_eq!(executions_count(&heap).unwrap(), 1);
    assert_eq!(dropped.get(), 2);
}

#[test]
fn collect_keeps_finalized_flags_of_what_handles_reach() {
    let mut heap = CcHeap::new(8);
    let dropped = Rc::new(Cell::new(0));
    let a = Cc::new(&mut heap, counted(&dropped), vec![]);
    let b = Cc::new(&mut heap, counted(&dropped), vec![]);
    let a_ref = a.clone(&mut heap);
    b.adopt(&mut heap, a_ref);
    let a_extra = a.clone(&mut heap);
    a_extra.drop(&mut heap);
    garbage_pair(&mut heap, &dropped);
    collect_cycles(&mut heap);
    assert_eq!(dropped.get(), 2);
    assert!(!a.already_finalized(&heap));
    assert!(!b.already_finalized(&heap));
    assert_eq!(a.strong_count(&heap), 2);
}
