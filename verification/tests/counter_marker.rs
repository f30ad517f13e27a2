use rust_cc::counter_marker::{CounterMarker, Mark, MAX};

fn assert_not_marked(counter: &CounterMarker) {
    assert!(counter.is_not_marked());
    assert!(!counter.is_in_possible_cycles());
    assert!(!counter.is_in_list());
    assert!(!counter._is_in_queue());
    assert!(!counter.is_in_list_or_queue());
    assert!(!counter.is_in_list_or_queue());
}

fn assert_default_settings(counter: &CounterMarker) {
    assert!(counter.needs_finalization());
    assert!(!counter.has_allocated_for_metadata());
    assert!(!counter.is_dropped());
}

fn check_new(counter: CounterMarker) {
    assert_not_marked(&counter);
    assert_default_settings(&counter);

    assert_eq!(counter.counter(), 1);
    assert_eq!(counter.tracing_counter(), 1);
}

#[test]
fn counter_marker_test_new() {
    check_new(CounterMarker::new_with_counter_to_one(false));
    check_new(CounterMarker::new_with_counter_to_one(false));
}

fn assert_not_marked_fin(counter: &CounterMarker) {
    assert_not_marked(counter);
    assert!(!counter.has_allocated_for_metadata());
    assert!(!counter.is_dropped());
}

fn check_is_to_finalize(already_fin: bool) {
    let counter = CounterMarker::new_with_counter_to_one(already_fin);
    assert_not_marked_fin(&counter);
    assert_eq!(!already_fin, counter.needs_finalization());

    let mut counter = CounterMarker::new_with_counter_to_one(already_fin);
    assert_not_marked_fin(&counter);
    counter.set_finalized(true);
    assert!(!counter.needs_finalization());

    let mut counter = CounterMarker::new_with_counter_to_one(already_fin);
    assert_not_marked_fin(&counter);
    counter.set_finalized(false);
    assert!(counter.needs_finalization());
}

#[test]
fn test_is_to_finalize() {
    check_is_to_finalize(true);
    check_is_to_finalize(false);
}

fn assert_not_marked_weak_ptrs(counter: &CounterMarker, already_fin: bool) {
    assert_not_marked(counter);
    assert!(!counter.is_dropped());
    assert_eq!(!already_fin, counter.needs_finalization());
}

fn check_weak_ptrs_exists(already_fin: bool) {
    let counter = CounterMarker::new_with_counter_to_one(already_fin);
    assert_not_marked_weak_ptrs(&counter, already_fin);
    assert!(!counter.has_allocated_for_metadata());

    let mut counter = CounterMarker::new_with_counter_to_one(already_fin);
    assert_not_marked_weak_ptrs(&counter, already_fin);
    counter.set_allocated_for_metadata(true);
    assert!(counter.has_allocated_for_metadata());

    let mut counter = CounterMarker::new_with_counter_to_one(already_fin);
    assert_not_marked_weak_ptrs(&counter, already_fin);
    counter.set_allocated_for_metadata(false);
    assert!(!counter.has_allocated_for_metadata());
}

#[test]
fn test_weak_ptrs_exists() {
    check_weak_ptrs_exists(true);
    check_weak_ptrs_exists(false);
}

fn assert_not_marked_dropped(counter: &CounterMarker, already_fin: bool) {
    assert_not_marked(counter);
    assert!(!counter.has_allocated_for_metadata());
    assert_eq!(!already_fin, counter.needs_finalization());
}

fn check_dropped(already_fin: bool) {
    let counter = CounterMarker::new_with_counter_to_one(already_fin);
    assert_not_marked_dropped(&counter, already_fin);
    assert!(!counter.is_dropped());

    let mut counter = CounterMarker::new_with_counter_to_one(already_fin);
    assert_not_marked_dropped(&counter, already_fin);
    counter.set_dropped(true);
    assert!(counter.is_dropped());

    let mut counter = CounterMarker::new_with_counter_to_one(already_fin);
    assert_not_marked_dropped(&counter, already_fin);
    counter.set_dropped(false);
    assert!(!counter.is_dropped());
}

#[test]
fn test_dropped() {
    check_dropped(true);
    check_dropped(false);
}

fn check_increment_decrement(mut counter: CounterMarker) {
    assert_not_marked(&counter);
    assert_default_settings(&counter);

    assert_eq!(counter.counter(), 1);

    assert_not_marked(&counter);
    assert_default_settings(&counter);

    assert_eq!(counter.tracing_counter(), 1);

    assert_not_marked(&counter);
    assert_default_settings(&counter);

    assert!(counter.increment_counter().is_ok());

    assert_not_marked(&counter);
    assert_default_settings(&counter);

    assert_eq!(counter.counter(), 2);
    assert_eq!(counter.tracing_counter(), 1);

    assert!(counter.increment_tracing_counter().is_ok());

    assert_not_marked(&counter);
    assert_default_settings(&counter);

    assert_eq!(counter.counter(), 2);
    assert_eq!(counter.tracing_counter(), 2);

    assert!(counter.decrement_counter().is_ok());

    assert_not_marked(&counter);
    assert_default_settings(&counter);

    assert_eq!(counter.counter(), 1);
    assert!(counter._decrement_tracing_counter().is_ok());

    assert_not_marked(&counter);
    assert_default_settings(&counter);

    assert_eq!(counter.counter(), 1);
    assert_eq!(counter.tracing_counter(), 1);

    while counter.counter() < MAX {
        assert!(counter.increment_counter().is_ok());
    }
    assert!(counter.increment_counter().is_err());

    while counter.tracing_counter() < MAX {
        assert!(counter.increment_tracing_counter().is_ok());
    }
    assert!(counter.increment_tracing_counter().is_err());

    while counter.counter() > 0 {
        assert!(counter.decrement_counter().is_ok());
    }
    assert!(counter.decrement_counter().is_err());

    while counter.tracing_counter() > 0 {
        assert!(counter._decrement_tracing_counter().is_ok());
    }
    assert!(counter._decrement_tracing_counter().is_err());

    assert_not_marked(&counter);
    assert_default_settings(&counter);
}

#[test]
fn test_increment_decrement() {
    check_increment_decrement(CounterMarker::new_with_counter_to_one(false));
    check_increment_decrement(CounterMarker::new_with_counter_to_one(false));
}

fn check_marks(mut counter: CounterMarker) {
    assert_not_marked(&counter);
    assert_default_settings(&counter);

    counter.mark(Mark::NonMarked);

    assert_not_marked(&counter);
    assert_default_settings(&counter);

    counter.mark(Mark::PossibleCycles);

    assert!(counter.is_not_marked());
    assert!(counter.is_in_possible_cycles());
    assert!(!counter.is_in_list());
    assert!(!counter._is_in_queue());
    assert!(!counter.is_in_list_or_queue());
    assert_default_settings(&counter);

    counter.mark(Mark::InList);

    assert!(!counter.is_not_marked());
    assert!(!counter.is_in_possible_cycles());
    assert!(counter.is_in_list());
    assert!(!counter._is_in_queue());
    assert!(counter.is_in_list_or_queue());
    assert_default_settings(&counter);

    counter.mark(Mark::InQueue);

    assert!(!counter.is_not_marked());
    assert!(!counter.is_in_possible_cycles());
    assert!(!counter.is_in_list());
    assert!(counter._is_in_queue());
    assert!(counter.is_in_list_or_queue());
    assert_default_settings(&counter);

    counter.mark(Mark::NonMarked);

    assert_not_marked(&counter);
    assert_default_settings(&counter);
}

#[test]
fn test_marks() {
    check_marks(CounterMarker::new_with_counter_to_one(false));
    check_marks(CounterMarker::new_with_counter_to_one(false));
}

fn check_reset_tracing_counter(mut counter: CounterMarker) {
    let _ = counter.increment_tracing_counter();
    let _ = counter.increment_tracing_counter();
    let _ = counter.increment_tracing_counter();
    let _ = counter.increment_tracing_counter();

    assert_ne!(counter.tracing_counter(), 0);
    assert_default_settings(&counter);

    counter.reset_tracing_counter();

    assert_eq!(counter.tracing_counter(), 0);
    assert_default_settings(&counter);
}

#[test]
fn test_reset_tracing_counter() {
    check_reset_tracing_counter(CounterMarker::new_with_counter_to_one(false));
    check_reset_tracing_counter(CounterMarker::new_with_counter_to_one(false));
}

#[test]
fn counter_marker_mark_keeps_counters() {
    let mut counter = CounterMarker::new_with_counter_to_one(true);
    assert!(counter.increment_counter().is_ok());
    counter.mark(Mark::InQueue);
    assert_eq!(counter.counter(), 2);
    assert_eq!(counter.tracing_counter(), 1);
    assert!(!counter.needs_finalization());
    counter.set_allocated_for_metadata(true);
    counter.mark(Mark::PossibleCycles);
    assert!(counter.has_allocated_for_metadata());
    assert!(counter.is_in_possible_cycles());
    assert_eq!(counter.counter(), 2);
}
