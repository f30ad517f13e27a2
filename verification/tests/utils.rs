use std::cell::Cell;

use rust_cc::utils::{AccessError, NoStdLocalKey};

fn new_val() -> NoStdLocalKey<Cell<i32>> {
    NoStdLocalKey::new(Cell::new(3))
}

fn takes_key(_: &NoStdLocalKey<Cell<i32>>) {}

#[test]
fn check_type() {
    let val = new_val();
    takes_key(&val);
}

#[test]
fn test_with() {
    let val = new_val();
    let i = val.with(|i| i.get());
    assert_eq!(3, i);
    let i = val.with(|i| {
        i.set(i.get() + 1);
        i.get()
    });
    assert_eq!(4, i);
}

#[test]
fn test_try_with() {
    let val = new_val();
    let i = val.try_with(|i| i.get()).unwrap();
    assert_eq!(3, i);
    let i = val
        .try_with(|i| {
            i.set(i.get() + 1);
            i.get()
        })
        .unwrap();
    assert_eq!(4, i);
}

#[test]
fn test_with_nested() {
    let val = new_val();
    let i = val.with(|i| {
        i.set(val.with(|ii| ii.get()) + 1);
        i.get()
    });
    assert_eq!(4, i);
}

#[test]
fn test_try_with_nested() {
    let val = new_val();
    let i = val
        .try_with(|i| {
            i.set(val.try_with(|ii| ii.get()).unwrap() + 1);
            i.get()
        })
        .unwrap();
    assert_eq!(4, i);
}

#[test]
fn try_with_never_fails() {
    let val = NoStdLocalKey::new(7u8);
    let r: Result<u8, AccessError> = val.try_with(|v| *v * 2);
    assert_eq!(r, Ok(14));
}
