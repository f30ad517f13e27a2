use rust_cc::counter_marker::{CounterMarker, Mark};
use rust_cc::lists::{Link, LinkedList, PossibleCycles};

fn new_links(n: usize) -> Vec<Link> {
    let mut links = Vec::new();
    for _ in 0..n {
        links.push(Link::none());
    }
    links
}

fn new_markers(n: usize) -> Vec<CounterMarker> {
    let mut markers = Vec::new();
    for _ in 0..n {
        markers.push(CounterMarker::new_with_counter_to_one(false));
    }
    markers
}

/// The chain of `first` is consistent: each element's `prev` is the element before it.
fn check_chain(first: Option<usize>, links: &[Link]) -> Vec<usize> {
    let mut out = Vec::new();
    let mut prev = None;
    let mut cur = first;
    while let Some(c) = cur {
        assert_eq!(links[c].prev, prev);
        out.push(c);
        prev = Some(c);
        cur = links[c].next;
    }
    out
}

fn assert_contains(found: &[usize], mut elements: Vec<usize>) {
    for e in found {
        let index = elements.iter().position(|i| i == e);
        assert!(index.is_some(), "Couldn't find element {} in list.", e);
        elements.swap_remove(index.unwrap());
    }
    assert!(elements.is_empty(), "List does not contains: {:?}", elements);
}

#[test]
fn list_test_new() {
    let list = LinkedList::new();
    let links = new_links(0);
    assert!(list.first(&links).is_none());
}

#[test]
fn test_add() {
    let mut list = LinkedList::new();
    let mut links = new_links(3);

    assert!(list.first(&links).is_none());
    for i in 0..3 {
        list.add(&mut links, i);
    }
    assert!(list.first(&links).is_some());

    let found = check_chain(list.first, &links);
    assert_eq!(found, list.iter(&links));
    assert_contains(&found, vec![0, 1, 2]);
}

fn remove_at(index: usize) {
    let mut list = LinkedList::new();
    let mut links = new_links(4);
    for i in 0..4 {
        list.add(&mut links, i);
    }
    let mut elements = vec![0, 1, 2, 3];

    list.remove(&mut links, index);
    let removed = elements.swap_remove(index);

    assert!(links[index].next.is_none(), "Removed element has still a next.");
    assert!(links[index].prev.is_none(), "Removed element has still a prev.");
    assert_eq!(removed, index, "Removed wrong element");

    let found = check_chain(list.first, &links);
    assert_contains(&found, elements);
}

#[test]
fn test_remove() {
    remove_at(0);
    remove_at(1);
    remove_at(2);
    remove_at(3);
}

#[test]
fn test_list_moving() {
    let mut list = LinkedList::new();
    let mut links = new_links(1);
    list.add(&mut links, 0);

    let list_moved = list;
    assert_eq!(list_moved.iter(&links), vec![0]);

    let mut pc = PossibleCycles::new();
    let mut links = new_links(1);
    pc.add(&mut links, 0);

    let pc_moved = pc;
    assert_eq!(pc_moved.iter(&links), vec![0]);
}

fn mark_self_and_append_case(self_elements: &[usize], append_elements: &[usize]) {
    let n = self_elements.len() + append_elements.len();
    let mut links = new_links(n);
    let mut markers = new_markers(n);
    let mut list = PossibleCycles::new();
    let mut to_append = LinkedList::new();
    for &e in self_elements {
        list.add(&mut links, e);
        markers[e].mark(Mark::InList);
    }
    for &e in append_elements {
        to_append.add(&mut links, e);
        markers[e].mark(Mark::PossibleCycles);
    }
    let list_size = list.size(&links);
    let to_append_size = to_append.iter(&links).len();

    list.mark_self_and_append(&mut links, &mut markers, Mark::PossibleCycles, to_append, to_append_size);

    assert_eq!(list.size(&links), list_size + to_append_size);
    let found = check_chain(list.first(&links), &links);
    assert_eq!(found, list.iter(&links));
    let mut all = self_elements.to_vec();
    all.extend_from_slice(append_elements);
    assert_contains(&found, all);
    for e in found {
        assert!(markers[e].is_in_possible_cycles());
    }
}

#[test]
fn lists_test_mark_self_and_append() {
    mark_self_and_append_case(&[0, 1, 2], &[3, 4, 5]);
}

#[test]
fn lists_test_mark_self_and_append_empty_list() {
    mark_self_and_append_case(&[0, 1, 2], &[]);
}

#[test]
fn lists_test_mark_empty_self_and_append() {
    mark_self_and_append_case(&[], &[0, 1, 2]);
}

#[test]
fn lists_test_mark_empty_self_and_append_empty_list() {
    let mut links = new_links(0);
    let mut markers = new_markers(0);
    let mut list = PossibleCycles::new();
    list.mark_self_and_append(&mut links, &mut markers, Mark::PossibleCycles, LinkedList::new(), 0);
    assert_eq!(list.size(&links), 0);
    assert!(list.is_empty(&links));
}

#[test]
fn test_swap_list() {
    let mut links = new_links(6);
    let mut list = PossibleCycles::new();
    let mut to_swap = LinkedList::new();
    for e in 0..3 {
        list.add(&mut links, e);
    }
    for e in 3..6 {
        to_swap.add(&mut links, e);
    }

    list.swap_list(&mut to_swap, 3, &links);

    assert_eq!(list.size(&links), 3);
    let found_list = check_chain(list.first(&links), &links);
    let found_swap = check_chain(to_swap.first(&links), &links);
    assert_contains(&found_list, vec![3, 4, 5]);
    assert_contains(&found_swap, vec![0, 1, 2]);
}

#[test]
fn remove_first_unmarks() {
    let mut links = new_links(2);
    let mut markers = new_markers(2);
    let mut list = LinkedList::new();
    list.add(&mut links, 0);
    list.add(&mut links, 1);
    markers[1].mark(Mark::InList);
    assert_eq!(list.remove_first(&mut links, &mut markers), Some(1));
    assert!(markers[1].is_not_marked());
    assert!(!markers[1].is_in_possible_cycles());
    assert_eq!(list.iter(&links), vec![0]);
    assert_eq!(links[1], Link::none());
}
