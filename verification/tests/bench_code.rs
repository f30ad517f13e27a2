use std::cell::RefCell;
use std::rc::Rc;

use rust_cc::cc::{Cc, CcHeap};
use rust_cc::collect_cycles;
use rust_cc::trace::Finalize;

/// A node of the test graph: finalizing it appends its name to the shared log.
struct Node {
    name: char,
    freed: Rc<RefCell<String>>,
}

impl Finalize for Node {
    fn finalize(&self) {
        self.freed.borrow_mut().push(self.name);
    }
}

fn node(name: char, freed: &Rc<RefCell<String>>) -> Node {
    Node { name, freed: freed.clone() }
}

/// A refers to C and B; B refers to E, itself and A; C refers to D and B.
fn build(heap: &mut CcHeap<Node>, freed: &Rc<RefCell<String>>) -> Cc {
    let e = Cc::new(heap, node('E', freed), vec![]);
    let b = Cc::new(heap, node('B', freed), vec![e]);
    let d = Cc::new(heap, node('D', freed), vec![]);
    let b_for_c = b.clone(heap);
    let c = Cc::new(heap, node('C', freed), vec![d, b_for_c]);
    let root1 = Cc::new(heap, node('A', freed), vec![c]);
    root1.adopt(heap, b);
    let b_again = root1.detach(heap).unwrap();
    let b_self = b_again.clone(heap);
    b_again.adopt(heap, b_self);
    let a_for_b = root1.clone(heap);
    b_again.adopt(heap, a_for_b);
    root1.adopt(heap, b_again);
    root1
}

fn one(heap: &mut CcHeap<Node>, freed: &Rc<RefCell<String>>) {
    {
        let root1 = build(heap, freed);
        collect_cycles(heap);
        let root2 = root1.clone(heap);
        collect_cycles(heap);
        // Drop the reference from A to C.
        let b = root1.detach(heap).unwrap();
        let c = root1.detach(heap).unwrap();
        c.drop(heap);
        root1.adopt(heap, b);
        collect_cycles(heap);
        root1.drop(heap);
        root2.drop(heap);
    }
    freed.borrow_mut().push('-');
    collect_cycles(heap);
}

#[test]
fn test() {
    let mut heap = CcHeap::new(32);
    let freed = Rc::new(RefCell::new(String::with_capacity(10)));

    one(&mut heap, &freed);
    let text = freed.borrow().clone();
    let Some((first, second)) = text.split_once('-') else {
        panic!("String doesn't contains a -.");
    };
    assert_eq!(first.len(), 2);
    assert_eq!(second.len(), 3);
    assert!(first.contains('C'));
    assert!(first.contains('D'));
    assert!(second.contains('A'));
    assert!(second.contains('B'));
    assert!(second.contains('E'));
    assert_eq!(heap.state.allocated_bytes(), 0);
}
