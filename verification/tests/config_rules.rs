use rust_cc::config::{
    ConfigAccessError, DEFAULT_BYTES_THRESHOLD, grow_bytes_threshold, should_collect, shrink_step,
};
use rust_cc::state::StateAccessError;

#[test]
fn should_collect_needs_auto_collect() {
    assert!(!should_collect(false, 1000, 100, Some(1), 50));
    assert!(should_collect(true, 1000, 100, None, 0));
}

#[test]
fn should_collect_on_allocated_bytes() {
    assert!(should_collect(true, 101, 100, None, 0));
    assert!(!should_collect(true, 100, 100, None, 0));
}

#[test]
fn should_collect_on_buffered_objects() {
    assert!(should_collect(true, 10, 100, Some(3), 4));
    assert!(!should_collect(true, 10, 100, Some(3), 3));
    assert!(!should_collect(true, 10, 100, None, 1000));
}

#[test]
fn grow_doubles_until_above() {
    assert_eq!(grow_bytes_threshold(100, 100), 200);
    assert_eq!(grow_bytes_threshold(100, 199), 200);
    assert_eq!(grow_bytes_threshold(100, 200), 400);
    assert_eq!(grow_bytes_threshold(100, 1000), 1600);
}

#[test]
fn shrink_step_cases() {
    assert_eq!(shrink_step(1000, 600), (1000, true));
    assert_eq!(shrink_step(1000, 10), (500, false));
    assert_eq!(shrink_step(180, 10), (DEFAULT_BYTES_THRESHOLD, true));
}

#[test]
fn error_messages() {
    assert_eq!(ConfigAccessError::AccessError.message(), "couldn't access the configuration");
    assert_eq!(
        ConfigAccessError::ConcurrentAccessError.message(),
        "the configuration is already being accessed"
    );
    assert_eq!(StateAccessError::AccessError.message(), "couldn't access the state");
}
