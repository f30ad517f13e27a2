//! Small helpers shared by the other modules.
use vstd::prelude::*;

verus! {

/// Marks a branch that is rarely taken.
#[inline(always)]
pub fn cold() {
}

/// Returned when a thread-local value cannot be accessed.
#[non_exhaustive]
#[derive(Clone, Copy, Debug, PartialEq, Eq, Structural)]
pub struct AccessError;

/// A thread-local value: the value itself, with the access interface of a thread local.
pub struct NoStdLocalKey<T> {
    value: T,
}

impl<T> View for NoStdLocalKey<T> {
    type V = T;

    closed spec fn view(&self) -> T {
        self.value
    }
}

impl<T> NoStdLocalKey<T> {
    /// A key holding `value`.
    pub fn new(value: T) -> (k: NoStdLocalKey<T>)
        ensures
            k@ == value,
    {
        NoStdLocalKey { value }
    }

    /// Calls `f` with a reference to the value and returns what it returns.
    pub fn with<F, R>(&self, f: F) -> (r: R)
        where
            F: FnOnce(&T) -> R,
        requires
            call_requires(f, (&self@,)),
        ensures
            call_ensures(f, (&self@,), r),
    {
        f(&self.value)
    }

    /// Calls `f` with a reference to the value and returns what it returns; the value is
    /// always accessible, so this never fails.
    pub fn try_with<F, R>(&self, f: F) -> (r: Result<R, AccessError>)
        where
            F: FnOnce(&T) -> R,
        requires
            call_requires(f, (&self@,)),
        ensures
            r matches Ok(v) && call_ensures(f, (&self@,), v),
    {
        Ok(f(&self.value))
    }
}

} // verus!
