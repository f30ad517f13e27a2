use std::cell::Cell;
use std::rc::Rc;

use rust_cc::cc::{Cc, CcHeap};
use rust_cc::collect_cycles;
use rust_cc::state::{allocated_bytes, buffered_objects_count, executions_count, is_tracing};
use rust_cc::trace::{Context, Finalize, Trace};

struct Droppable {
    id: u32,
    finalized: Rc<Cell<bool>>,
    dropped: Rc<Cell<bool>>,
}

impl Finalize for Droppable {
    fn finalize(&self) {
        self.finalized.set(true);
    }
}

impl Drop for Droppable {
    fn drop(&mut self) {
        self.dropped.set(true);
    }
}

struct DropChecker {
    finalized: Rc<Cell<bool>>,
    dropped: Rc<Cell<bool>>,
}

impl DropChecker {
    fn assert_finalized(&self) {
        assert!(self.finalized.get(), "Expected finalized!");
    }

    fn assert_not_finalized(&self) {
        assert!(!self.finalized.get(), "Expected not finalized!");
    }

    fn assert_dropped(&self) {
        assert!(self.dropped.get(), "Expected dropped!");
    }

    fn assert_not_dropped(&self) {
        assert!(!self.dropped.get(), "Expected not dropped!");
    }
}

fn droppable(id: u32) -> (Droppable, DropChecker) {
    let finalized = Rc::new(Cell::new(false));
    let dropped = Rc::new(Cell::new(false));
    (
        Droppable { id, finalized: finalized.clone(), dropped: dropped.clone() },
        DropChecker { finalized, dropped },
    )
}

fn assert_empty<T>(heap: &CcHeap<T>) {
    assert_eq!(buffered_objects_count(heap).unwrap(), 0);
}

fn assert_state_not_collecting<T>(heap: &CcHeap<T>) {
    assert!(!heap.state.is_collecting());
    assert!(!is_tracing(heap).unwrap());
    assert!(!heap.state.is_finalizing());
    assert!(!heap.state.is_dropping());
}

#[test]
fn test_simple() {
    let mut heap = CcHeap::new(16);

    let (d, checker) = droppable(56);
    let cc = Cc::new(&mut heap, d, vec![]);
    assert_eq!(cc.get(&heap).id, 56);

    checker.assert_not_finalized();
    checker.assert_not_dropped();
    collect_cycles(&mut heap);
    checker.assert_not_finalized();
    checker.assert_not_dropped();
    assert_eq!(cc.strong_count(&heap), 1);
    let cloned = cc.clone(&mut heap);
    assert_eq!(cc.strong_count(&heap), 2);
    cloned.drop(&mut heap);
    assert_eq!(cc.strong_count(&heap), 1);
    cc.drop(&mut heap);
    assert_empty(&heap);
    checker.assert_finalized();
    checker.assert_dropped();
    collect_cycles(&mut heap);
    checker.assert_finalized();
    checker.assert_dropped();
    assert_eq!(allocated_bytes(&heap).unwrap(), 0);
}

fn two_cycle_scenario() {
    let mut heap = CcHeap::new(16);

    let (d1, checker1) = droppable(1);
    let cc1 = Cc::new(&mut heap, d1, vec![]);
    let (d2, checker2) = droppable(2);
    let cc2 = Cc::new(&mut heap, d2, vec![]);

    let c = cc2.clone(&mut heap);
    cc1.adopt(&mut heap, c);
    let c = cc1.clone(&mut heap);
    cc2.adopt(&mut heap, c);

    checker1.assert_not_finalized();
    checker2.assert_not_finalized();
    checker1.assert_not_dropped();
    checker2.assert_not_dropped();
    collect_cycles(&mut heap);
    checker1.assert_not_finalized();
    checker2.assert_not_finalized();
    checker1.assert_not_dropped();
    checker2.assert_not_dropped();
    let cloned = cc1.clone(&mut heap);
    cloned.drop(&mut heap);
    collect_cycles(&mut heap);
    checker1.assert_not_finalized();
    checker2.assert_not_finalized();
    checker1.assert_not_dropped();
    checker2.assert_not_dropped();
    cc1.drop(&mut heap);
    cc2.drop(&mut heap);
    checker1.assert_not_finalized();
    checker2.assert_not_finalized();
    checker1.assert_not_dropped();
    checker2.assert_not_dropped();
    collect_cycles(&mut heap);
    checker1.assert_finalized();
    checker2.assert_finalized();
    checker1.assert_dropped();
    checker2.assert_dropped();
    assert_eq!(allocated_bytes(&heap).unwrap(), 0);
}

#[test]
fn test_less_simple() {
    two_cycle_scenario();
}

#[test]
fn test_cc() {
    two_cycle_scenario();
}

struct MyTraitObject {
    value: u8,
    called: Rc<Cell<bool>>,
    finalized: Rc<Cell<bool>>,
    dropped: Rc<Cell<bool>>,
    traced: Rc<Cell<bool>>,
}

impl Finalize for MyTraitObject {
    fn finalize(&self) {
        self.finalized.set(true);
    }
}

impl Trace for MyTraitObject {
    fn trace(&self, ctx: &mut Context) {
        self.value.trace(ctx);
        self.traced.set(true);
    }
}

impl Drop for MyTraitObject {
    fn drop(&mut self) {
        self.dropped.set(true);
    }
}

trait TestTrait: Trace {
    fn hello(&self);
}

impl TestTrait for MyTraitObject {
    fn hello(&self) {
        self.called.set(true);
    }
}

#[test]
fn test_trait_object() {
    let called = Rc::new(Cell::new(false));
    let finalized = Rc::new(Cell::new(false));
    let dropped = Rc::new(Cell::new(false));
    let traced = Rc::new(Cell::new(false));
    {
        let mut heap = CcHeap::new(16);
        let cc = Cc::new(
            &mut heap,
            MyTraitObject {
                value: 5,
                called: called.clone(),
                finalized: finalized.clone(),
                dropped: dropped.clone(),
                traced: traced.clone(),
            },
            vec![],
        );
        let c = cc.clone(&mut heap);
        cc.adopt(&mut heap, c);

        assert_eq!(cc.strong_count(&heap), 2);

        let cc_cloned = cc.clone(&mut heap);
        assert_eq!(cc_cloned.strong_count(&heap), 3);
        assert_eq!(cc.strong_count(&heap), 3);

        cc_cloned.drop(&mut heap);
        assert_eq!(cc.strong_count(&heap), 2);

        let obj: &MyTraitObject = cc.get(&heap);
        let inner: &dyn TestTrait = obj;
        inner.hello();
        let mut ctx = Context::new();
        inner.trace(&mut ctx);
        assert!(ctx.traced().is_empty());

        cc.drop(&mut heap);
        collect_cycles(&mut heap);
    }

    assert!(called.get(), "<MyTraitObject as TestTrait>::hello hasn't been called");
    assert!(dropped.get(), "MyTraitObject hasn't been dropped");
    assert!(traced.get(), "MyTraitObject hasn't been traced");
    assert!(finalized.get(), "MyTraitObject hasn't been finalized");
}

struct Circular {
    finalizations: Rc<Cell<u32>>,
}

impl Finalize for Circular {
    fn finalize(&self) {
        self.finalizations.set(self.finalizations.get() + 1);
    }
}

#[test]
fn test_cyclic_finalization_aliasing() {
    let mut heap = CcHeap::new(8);
    let finalizations = Rc::new(Cell::new(0));
    {
        let cc = Cc::new(&mut heap, Circular { finalizations: finalizations.clone() }, vec![]);
        let c = cc.clone(&mut heap);
        let other = Cc::new(&mut heap, Circular { finalizations: finalizations.clone() }, vec![c]);
        cc.adopt(&mut heap, other);
        cc.drop(&mut heap);
    }

    collect_cycles(&mut heap);
    assert!(finalizations.get() >= 2);
    assert_eq!(allocated_bytes(&heap).unwrap(), 0);
}

#[test]
fn test_self_loop_finalization_aliasing() {
    let mut heap = CcHeap::new(8);
    let finalizations = Rc::new(Cell::new(0));
    {
        let cc = Cc::new(&mut heap, Circular { finalizations: finalizations.clone() }, vec![]);
        let c = cc.clone(&mut heap);
        cc.adopt(&mut heap, c);
        cc.drop(&mut heap);
    }

    collect_cycles(&mut heap);
    assert!(finalizations.get() >= 1);
    assert_eq!(allocated_bytes(&heap).unwrap(), 0);
}

struct ToFinalize {
    finalizations: Rc<Cell<u32>>,
}

impl Finalize for ToFinalize {
    fn finalize(&self) {
        self.finalizations.set(self.finalizations.get() + 1);
    }
}

#[test]
fn no_cyclic_finalization_ends() {
    let mut heap = CcHeap::new(8);
    let finalizations = Rc::new(Cell::new(0));

    let cc = Cc::new(&mut heap, ToFinalize { finalizations: finalizations.clone() }, vec![]);
    cc.drop(&mut heap);
    assert_eq!(finalizations.get(), 1);

    // An allocation created while finalizing is already finalized.
    heap.state.set_finalizing(true);
    let created = Cc::new(&mut heap, ToFinalize { finalizations: finalizations.clone() }, vec![]);
    heap.state.set_finalizing(false);
    assert!(created.already_finalized(&heap));
    created.drop(&mut heap);
    assert_eq!(finalizations.get(), 1);
    assert_eq!(allocated_bytes(&heap).unwrap(), 0);
}

#[test]
fn cyclic_finalization_ends() {
    let mut heap = CcHeap::new(8);
    let finalizations = Rc::new(Cell::new(0));

    let cc = Cc::new(&mut heap, ToFinalize { finalizations: finalizations.clone() }, vec![]);
    let c = cc.clone(&mut heap);
    cc.adopt(&mut heap, c);
    cc.drop(&mut heap);
    collect_cycles(&mut heap);
    assert_eq!(finalizations.get(), 1);
    assert_eq!(allocated_bytes(&heap).unwrap(), 0);

    // A cyclic allocation created while finalizing is already finalized, and is collected
    // without being finalized again.
    heap.state.set_finalizing(true);
    let created = Cc::new(&mut heap, ToFinalize { finalizations: finalizations.clone() }, vec![]);
    heap.state.set_finalizing(false);
    assert!(created.already_finalized(&heap));
    let c = created.clone(&mut heap);
    created.adopt(&mut heap, c);
    created.drop(&mut heap);
    collect_cycles(&mut heap);
    assert_eq!(finalizations.get(), 1);
    assert_eq!(allocated_bytes(&heap).unwrap(), 0);
}

#[test]
fn buffered_objects_count_test() {
    let mut heap = CcHeap::new(8);

    assert_eq!(0, buffered_objects_count(&heap).unwrap());

    let cc = {
        let cc = Cc::new(&mut heap, 0u32, vec![]);
        let c = cc.clone(&mut heap);
        cc.adopt(&mut heap, c);
        let copy = cc.clone(&mut heap);
        cc.drop(&mut heap);
        copy
    };

    assert_eq!(1, buffered_objects_count(&heap).unwrap());

    cc.mark_alive(&mut heap);

    assert_eq!(0, buffered_objects_count(&heap).unwrap());

    cc.drop(&mut heap);
    collect_cycles(&mut heap);
    assert_eq!(0, buffered_objects_count(&heap).unwrap());
    assert_eq!(allocated_bytes(&heap).unwrap(), 0);
}

struct Panicking {
    trace_counter: Cell<usize>,
    panic_on_trace: Cell<bool>,
}

impl Trace for Panicking {
    fn trace(&self, _: &mut Context) {
        let counter = self.trace_counter.get();
        if self.panic_on_trace.get() {
            if counter == 0 {
                panic!("Test panic on Trace");
            } else {
                self.trace_counter.set(counter - 1);
            }
        }
    }
}

impl Finalize for Panicking {}

fn panicking(trace_counter: usize) -> Panicking {
    Panicking { trace_counter: Cell::new(trace_counter), panic_on_trace: Cell::new(true) }
}

#[test]
fn test_panicking_tracing_drop() {
    let mut heap = CcHeap::new(8);
    {
        let root = Cc::new(&mut heap, panicking(1), vec![]);
        let c = root.clone(&mut heap);
        let other = Cc::new(&mut heap, panicking(1), vec![c]);
        root.adopt(&mut heap, other);
        root.drop(&mut heap);
    }
    collect_cycles(&mut heap);
    assert_state_not_collecting(&heap);
    assert_eq!(allocated_bytes(&heap).unwrap(), 0);
}

#[test]
fn test_panicking_tracing_resurrecting() {
    let mut heap = CcHeap::new(8);
    {
        let inner = Cc::new(&mut heap, panicking(2), vec![]);
        let c = inner.clone(&mut heap);
        let other = Cc::new(&mut heap, panicking(2), vec![c]);
        inner.adopt(&mut heap, other);
        let a = Cc::new(&mut heap, panicking(2), vec![inner]);
        let c = a.clone(&mut heap);
        a.adopt(&mut heap, c);
        a.drop(&mut heap);
    }
    collect_cycles(&mut heap);
    assert_state_not_collecting(&heap);
    assert_eq!(allocated_bytes(&heap).unwrap(), 0);
}

#[test]
fn try_unwrap_test() {
    let mut heap = CcHeap::new(8);

    let cc = Cc::new(&mut heap, 5u32, vec![]);
    let weak = cc.downgrade(&mut heap);

    let unwrapped = cc.try_unwrap(&mut heap);
    assert_eq!(5, unwrapped.ok().unwrap().0);

    assert!(weak.upgrade(&mut heap).is_none());
}

#[test]
fn fail_try_unwrap_test() {
    let mut heap = CcHeap::new(8);

    let cc = Cc::new(&mut heap, 5u32, vec![]);
    let copy = cc.clone(&mut heap);
    let weak = cc.downgrade(&mut heap);

    match cc.try_unwrap(&mut heap) {
        Err(cc) => cc.drop(&mut heap),
        Ok(_) => panic!("try_unwrap succeeded on a shared allocation"),
    }

    let upgraded = weak.upgrade(&mut heap);
    assert!(upgraded.is_some());
    upgraded.unwrap().drop(&mut heap);

    let unwrapped = copy.try_unwrap(&mut heap);
    assert_eq!(5, unwrapped.ok().unwrap().0);

    assert!(weak.upgrade(&mut heap).is_none());
}

#[test]
fn try_unwrap_gives_back_owned_handles() {
    let mut heap = CcHeap::new(8);
    let child = Cc::new(&mut heap, 1u32, vec![]);
    let child_index = child.index();
    let parent = Cc::new(&mut heap, 2u32, vec![child]);
    let (value, handles, weaks) = parent.try_unwrap(&mut heap).ok().unwrap();
    assert!(weaks.is_empty());
    assert_eq!(value, 2);
    assert_eq!(handles.len(), 1);
    assert_eq!(handles[0].index(), child_index);
    assert_eq!(handles[0].strong_count(&heap), 1);
    assert_eq!(allocated_bytes(&heap).unwrap(), 8);
}

#[test]
fn executions_count_increments_once_per_collection() {
    let mut heap: CcHeap<u32> = CcHeap::new(8);
    assert_eq!(executions_count(&heap).unwrap(), 0);
    collect_cycles(&mut heap);
    assert_eq!(executions_count(&heap).unwrap(), 1);
    collect_cycles(&mut heap);
    assert_eq!(executions_count(&heap).unwrap(), 2);
}

#[test]
fn dropping_last_handle_frees_whole_tree() {
    let mut heap = CcHeap::new(4);
    let (d1, c1) = droppable(1);
    let (d2, c2) = droppable(2);
    let (d3, c3) = droppable(3);
    let leaf = Cc::new(&mut heap, d1, vec![]);
    let mid = Cc::new(&mut heap, d2, vec![leaf]);
    let root = Cc::new(&mut heap, d3, vec![mid]);
    assert_eq!(allocated_bytes(&heap).unwrap(), 12);
    root.drop(&mut heap);
    c1.assert_dropped();
    c2.assert_dropped();
    c3.assert_dropped();
    c1.assert_finalized();
    assert_eq!(allocated_bytes(&heap).unwrap(), 0);
    assert_empty(&heap);
}

#[test]
fn collection_keeps_reachable_allocations() {
    let mut heap = CcHeap::new(4);
    let (d1, c1) = droppable(1);
    let (d2, c2) = droppable(2);
    let a = Cc::new(&mut heap, d1, vec![]);
    let b = Cc::new(&mut heap, d2, vec![]);
    let c = b.clone(&mut heap);
    a.adopt(&mut heap, c);
    let c = a.clone(&mut heap);
    b.adopt(&mut heap, c);
    let keep = a.clone(&mut heap);
    a.drop(&mut heap);
    b.drop(&mut heap);
    collect_cycles(&mut heap);
    c1.assert_not_dropped();
    c2.assert_not_dropped();
    assert_eq!(keep.strong_count(&heap), 2);
    assert_eq!(allocated_bytes(&heap).unwrap(), 8);
    keep.drop(&mut heap);
    collect_cycles(&mut heap);
    c1.assert_dropped();
    c2.assert_dropped();
    assert_eq!(allocated_bytes(&heap).unwrap(), 0);
}

#[test]
fn finalize_again_makes_finalizable() {
    let mut heap = CcHeap::new(4);
    let finalizations = Rc::new(Cell::new(0));

    heap.state.set_finalizing(true);
    let skipped = Cc::new(&mut heap, ToFinalize { finalizations: finalizations.clone() }, vec![]);
    let mut again = Cc::new(&mut heap, ToFinalize { finalizations: finalizations.clone() }, vec![]);
    heap.state.set_finalizing(false);

    assert!(skipped.already_finalized(&heap));
    assert!(again.already_finalized(&heap));
    again.finalize_again(&mut heap);
    assert!(!again.already_finalized(&heap));
    assert!(!Cc::ptr_eq(&skipped, &again));

    skipped.drop(&mut heap);
    assert_eq!(finalizations.get(), 0);
    again.drop(&mut heap);
    assert_eq!(finalizations.get(), 1);
    assert_eq!(allocated_bytes(&heap).unwrap(), 0);
}

#[test]
fn detach_gives_back_the_last_adopted_handle() {
    let mut heap = CcHeap::new(4);
    let parent = Cc::new(&mut heap, 1u32, vec![]);
    assert!(parent.detach(&mut heap).is_none());
    let child = Cc::new(&mut heap, 2u32, vec![]);
    let copy = child.clone(&mut heap);
    parent.adopt(&mut heap, child);
    assert_eq!(copy.strong_count(&heap), 2);
    let back = parent.detach(&mut heap).unwrap();
    assert!(Cc::ptr_eq(&back, &copy));
    assert_eq!(*back.get(&heap), 2);
    back.drop(&mut heap);
    assert_eq!(copy.strong_count(&heap), 1);
}

#[test]
fn try_unwrap_refused_while_finalizing() {
    let mut heap: CcHeap<u32> = CcHeap::new(8);
    let cc = Cc::new(&mut heap, 5u32, vec![]);
    heap.state.set_finalizing(true);
    let back = match cc.try_unwrap(&mut heap) {
        Ok(_) => panic!("try_unwrap succeeded while finalizing"),
        Err(c) => c,
    };
    heap.state.set_finalizing(false);
    match back.try_unwrap(&mut heap) {
        Ok((v, handles, weaks)) => {
            assert_eq!(v, 5);
            assert!(handles.is_empty());
            assert!(weaks.is_empty());
        }
        Err(_) => panic!("try_unwrap failed on the only handle"),
    }
    assert_eq!(allocated_bytes(&heap).unwrap(), 0);
}

#[test]
fn try_unwrap_refused_while_collecting_or_dropping() {
    let mut heap: CcHeap<u32> = CcHeap::new(8);
    let cc = Cc::new(&mut heap, 5u32, vec![]);
    heap.state.set_collecting(true);
    let cc = match cc.try_unwrap(&mut heap) {
        Ok(_) => panic!("try_unwrap succeeded during a collection"),
        Err(c) => c,
    };
    heap.state.set_collecting(false);
    heap.state.set_dropping(true);
    let cc = match cc.try_unwrap(&mut heap) {
        Ok(_) => panic!("try_unwrap succeeded while dropping"),
        Err(c) => c,
    };
    heap.state.set_dropping(false);
    assert_eq!(cc.strong_count(&heap), 1);
    assert_eq!(5, cc.try_unwrap(&mut heap).ok().unwrap().0);
}

#[test]
fn finalization_try_unwrap_test() {
    let mut heap: CcHeap<u32> = CcHeap::new(8);
    let other = Cc::new(&mut heap, 5u32, vec![]);
    // As a finalizer would see it: the handle cannot be unwrapped while finalizing.
    heap.state.set_finalizing(true);
    let other = match other.try_unwrap(&mut heap) {
        Err(cc) => {
            assert_eq!(5, *cc.get(&heap));
            cc
        }
        Ok(_) => panic!("try_unwrap returned an Ok(...) value during finalization."),
    };
    heap.state.set_finalizing(false);
    other.drop(&mut heap);
    assert_eq!(allocated_bytes(&heap).unwrap(), 0);
}

#[test]
fn cyclic_finalization_try_unwrap_test() {
    let mut heap: CcHeap<u32> = CcHeap::new(8);
    let other = Cc::new(&mut heap, 5u32, vec![]);
    // As a finalizer run by a collection would see it.
    heap.state.set_collecting(true);
    heap.state.set_finalizing(true);
    let other = match other.try_unwrap(&mut heap) {
        Err(cc) => {
            assert_eq!(5, *cc.get(&heap));
            cc
        }
        Ok(_) => panic!("try_unwrap returned an Ok(...) value during collection."),
    };
    heap.state.set_finalizing(false);
    heap.state.set_collecting(false);
    other.drop(&mut heap);
    assert_eq!(allocated_bytes(&heap).unwrap(), 0);
}
