use rust_cc::cc::{Cc, CcHeap};
use rust_cc::collect_cycles;
use rust_cc::state::allocated_bytes;
use rust_cc::trace::Finalize;
use rust_cc::weak::Weak;

fn has_metadata(heap: &CcHeap<i32>, cc: &Cc) -> bool {
    heap.markers[cc.index()].has_allocated_for_metadata()
}

fn weak_test_common(heap: &mut CcHeap<i32>) -> (Cc, Weak) {
    let cc: Cc = Cc::new(heap, 0i32, vec![]);

    assert!(!has_metadata(heap, &cc));
    assert_eq!(0, cc.weak_count(heap));
    assert_eq!(1, cc.strong_count(heap));

    let cc1 = cc.clone(heap);

    assert!(!has_metadata(heap, &cc));

    let weak = cc.downgrade(heap);

    assert!(has_metadata(heap, &cc));

    assert_eq!(2, cc.strong_count(heap));
    assert_eq!(1, weak.weak_count(heap));
    assert_eq!(cc.strong_count(heap), weak.strong_count(heap));
    assert_eq!(weak.weak_count(heap), cc.weak_count(heap));
    cc1.drop(heap);
    assert_eq!(1, cc.strong_count(heap));
    assert_eq!(1, weak.weak_count(heap));
    collect_cycles(heap);
    assert_eq!(1, cc.strong_count(heap));
    assert_eq!(1, weak.weak_count(heap));
    assert_eq!(cc.strong_count(heap), weak.strong_count(heap));
    assert_eq!(weak.weak_count(heap), cc.weak_count(heap));
    let weak2 = weak.clone(heap);
    assert!(Weak::ptr_eq(&weak, &weak2));
    assert_eq!(1, cc.strong_count(heap));
    assert_eq!(2, weak.weak_count(heap));
    assert_eq!(cc.strong_count(heap), weak.strong_count(heap));
    assert_eq!(weak.weak_count(heap), cc.weak_count(heap));
    let upgraded = weak.upgrade(heap).expect("Couldn't upgrade");
    assert!(Cc::ptr_eq(&cc, &upgraded));
    assert_eq!(2, cc.strong_count(heap));
    assert_eq!(2, weak.weak_count(heap));
    assert_eq!(cc.strong_count(heap), weak.strong_count(heap));
    assert_eq!(weak.weak_count(heap), cc.weak_count(heap));
    weak2.drop(heap);
    assert_eq!(2, cc.strong_count(heap));
    assert_eq!(1, weak.weak_count(heap));
    assert_eq!(cc.strong_count(heap), weak.strong_count(heap));
    assert_eq!(weak.weak_count(heap), cc.weak_count(heap));
    upgraded.drop(heap);
    assert_eq!(1, cc.strong_count(heap));
    assert_eq!(1, weak.weak_count(heap));
    assert_eq!(cc.strong_count(heap), weak.strong_count(heap));
    assert_eq!(weak.weak_count(heap), cc.weak_count(heap));
    (cc, weak)
}

#[test]
fn mod_weak_test() {
    let mut heap = CcHeap::new(8);
    let (cc, weak) = weak_test_common(&mut heap);
    cc.drop(&mut heap);
    assert_eq!(1, weak.weak_count(&heap));
    assert_eq!(0, weak.strong_count(&heap));
    assert!(weak.upgrade(&mut heap).is_none());
    assert_eq!(1, weak.weak_count(&heap));
    assert_eq!(0, weak.strong_count(&heap));
    let weak3 = weak.clone(&mut heap);
    assert!(Weak::ptr_eq(&weak, &weak3));
    assert_eq!(2, weak.weak_count(&heap));
    assert_eq!(0, weak.strong_count(&heap));
    weak3.drop(&mut heap);
    assert_eq!(1, weak.weak_count(&heap));
    assert_eq!(0, weak.strong_count(&heap));
    weak.drop(&mut heap);
    assert!(heap.metadata[0].is_none());
}

#[test]
fn mod_weak_test2() {
    let mut heap = CcHeap::new(8);
    let (cc, weak) = weak_test_common(&mut heap);
    weak.drop(&mut heap);
    assert_eq!(1, cc.strong_count(&heap));
    assert_eq!(0, cc.weak_count(&heap));
    let weak2 = cc.downgrade(&mut heap);
    assert_eq!(1, cc.strong_count(&heap));
    assert_eq!(1, weak2.weak_count(&heap));
    assert_eq!(cc.strong_count(&heap), weak2.strong_count(&heap));
    assert_eq!(weak2.weak_count(&heap), cc.weak_count(&heap));
    weak2.drop(&mut heap);
    cc.drop(&mut heap);
    collect_cycles(&mut heap);
    assert_eq!(allocated_bytes(&heap).unwrap(), 0);
}

struct Cyclic {
    int: i32,
}

impl Finalize for Cyclic {}

#[test]
fn test_new_cyclic() {
    let mut heap: CcHeap<Cyclic> = CcHeap::new(8);
    let before = Weak::new();
    let cyclic = Cc::new_cyclic(
        &mut heap,
        |weak: &Weak| {
            assert!(!Weak::ptr_eq(weak, &before));
            Cyclic { int: 5 }
        },
        vec![],
    );

    assert!(heap.markers[cyclic.index()].has_allocated_for_metadata());

    assert_eq!(1, cyclic.weak_count(&heap));
    assert_eq!(1, cyclic.strong_count(&heap));

    assert_eq!(5, cyclic.get(&heap).int);
    let own = cyclic.detach_weak(&mut heap).unwrap();
    let upgraded = own.upgrade(&mut heap).unwrap();
    assert!(Cc::ptr_eq(&upgraded, &cyclic));
    upgraded.drop(&mut heap);
    cyclic.adopt_weak(&mut heap, own);
    assert_eq!(1, cyclic.weak_count(&heap));
}

#[test]
fn try_upgrade_in_finalize_and_drop() {
    let mut heap: CcHeap<Cyclic> = CcHeap::new(8);
    let weak = {
        let cc = Cc::new_cyclic(&mut heap, |_: &Weak| Cyclic { int: 1 }, vec![]);
        let weak = cc.downgrade(&mut heap);
        assert_eq!(2, weak.weak_count(&heap));
        cc.drop(&mut heap);
        weak
    };
    assert!(weak.upgrade(&mut heap).is_none());
    assert_eq!(0, weak.strong_count(&heap));
    assert_eq!(1, weak.weak_count(&heap));
    weak.drop(&mut heap);
    assert!(heap.metadata[0].is_none());
    assert!(!heap.state.is_finalizing() && !heap.state.is_dropping() && !heap.state.is_collecting());
}

#[test]
fn weak_held_by_a_freed_element_is_released() {
    let mut heap: CcHeap<i32> = CcHeap::new(8);
    let target = Cc::new(&mut heap, 1, vec![]);
    let holder = Cc::new(&mut heap, 2, vec![]);
    let w = target.downgrade(&mut heap);
    holder.adopt_weak(&mut heap, w);
    assert_eq!(1, target.weak_count(&heap));
    holder.drop(&mut heap);
    assert_eq!(0, target.weak_count(&heap));
    target.drop(&mut heap);
    assert!(heap.metadata[0].is_none());
    assert_eq!(allocated_bytes(&heap).unwrap(), 0);
}

#[test]
fn weak_new() {
    let mut heap: CcHeap<u32> = CcHeap::new(8);
    let new: Weak = Weak::new();

    assert_eq!(0, new.weak_count(&heap));
    assert_eq!(0, new.strong_count(&heap));
    assert!(new.upgrade(&mut heap).is_none());

    let other = new.clone(&mut heap);

    assert_eq!(0, other.weak_count(&heap));
    assert_eq!(0, other.strong_count(&heap));
    assert!(other.upgrade(&mut heap).is_none());
}

#[test]
fn weak_new_ptr_eq() {
    let mut heap: CcHeap<u32> = CcHeap::new(8);
    let new: Weak = Weak::new();
    let other_new: Weak = Weak::default();

    let cc = Cc::new(&mut heap, 5u32, vec![]);
    let other_cc = Cc::new(&mut heap, 6u32, vec![]);

    assert_eq!(0, new.weak_count(&heap));
    assert_eq!(0, new.strong_count(&heap));

    assert!(Weak::ptr_eq(&new, &new));
    assert!(Weak::ptr_eq(&new, &other_new));
    assert!(Weak::ptr_eq(&new, &new.clone(&mut heap)));
    assert!(!Weak::ptr_eq(&new, &cc.downgrade(&mut heap)));
    assert!(Weak::ptr_eq(&cc.downgrade(&mut heap), &cc.downgrade(&mut heap)));
    assert!(!Weak::ptr_eq(&cc.downgrade(&mut heap), &other_cc.downgrade(&mut heap)));
}

#[test]
fn drop_zero_weak_counter() {
    let mut heap: CcHeap<u32> = CcHeap::new(8);
    let cc = Cc::new(&mut heap, 5u32, vec![]);
    let weak = cc.downgrade(&mut heap);
    weak.drop(&mut heap);
    assert!(heap.metadata[0].is_some());
    cc.drop(&mut heap);
    assert!(heap.metadata[0].is_none());
    assert_eq!(allocated_bytes(&heap).unwrap(), 0);
}

#[test]
fn cyclic_drop_zero_weak_counter() {
    let mut heap: CcHeap<u32> = CcHeap::new(8);
    let cc = Cc::new(&mut heap, 0u32, vec![]);
    let c = cc.clone(&mut heap);
    cc.adopt(&mut heap, c);

    let weak = cc.downgrade(&mut heap);
    weak.drop(&mut heap);
    cc.drop(&mut heap);
    collect_cycles(&mut heap);
    assert!(heap.metadata[0].is_none());
    assert_eq!(allocated_bytes(&heap).unwrap(), 0);
}

#[test]
fn weak_outlives_cycle() {
    let mut heap: CcHeap<u32> = CcHeap::new(8);
    let cc = Cc::new(&mut heap, 0u32, vec![]);
    let c = cc.clone(&mut heap);
    cc.adopt(&mut heap, c);
    let weak = cc.downgrade(&mut heap);
    cc.drop(&mut heap);
    assert_eq!(1, weak.strong_count(&heap));
    collect_cycles(&mut heap);
    assert_eq!(0, weak.strong_count(&heap));
    assert_eq!(1, weak.weak_count(&heap));
    assert!(weak.upgrade(&mut heap).is_none());
    assert!(heap.metadata[0].is_some());
    weak.drop(&mut heap);
    assert!(heap.metadata[0].is_none());
}
