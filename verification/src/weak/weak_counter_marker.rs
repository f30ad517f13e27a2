//! The packed weak counter kept in the metadata of an allocation.
//!
//! Internal representation: `| A: 1 bit | B: 15 bits |`, where `A` is set while the
//! allocation is accessible (not deallocated) and `B` is the weak counter.
use vstd::prelude::*;

verus! {

pub const ACCESSIBLE_MASK: u16 = 0x8000;
pub const WEAK_COUNTER_MASK: u16 = 0x7FFF;
pub const WEAK_INITIAL_VALUE: u16 = 0x0000;
pub const WEAK_INITIAL_VALUE_ACCESSIBLE: u16 = 0x8000;

/// The largest value of the weak counter.
pub const WEAK_MAX: u16 = 0x7FFF;

/// Returned when the weak counter would leave its range.
#[derive(Debug)]
pub struct WeakOverflowError;

/// The abstract content of a [`WeakCounterMarker`].
pub ghost struct WeakCounterMarkerView {
    /// The weak counter (15 bits).
    pub counter: u16,
    pub accessible: bool,
}

#[derive(Clone, Copy, Debug)]
pub struct WeakCounterMarker {
    pub weak_counter: u16,
}

impl View for WeakCounterMarker {
    type V = WeakCounterMarkerView;

    open spec fn view(&self) -> WeakCounterMarkerView {
        WeakCounterMarkerView {
            counter: self.weak_counter & WEAK_COUNTER_MASK,
            accessible: self.weak_counter & ACCESSIBLE_MASK != 0,
        }
    }
}

impl WeakCounterMarker {
    /// A marker with a zero weak counter, accessible exactly when `accessible`.
    pub fn new(accessible: bool) -> (wcm: WeakCounterMarker)
        ensures
            wcm@ == (WeakCounterMarkerView { counter: 0, accessible }),
    {
        proof {
            assert(0x8000u16 & 0x7FFFu16 == 0u16 && 0x8000u16 & 0x8000u16 != 0u16) by (bit_vector);
            assert(0u16 & 0x7FFFu16 == 0u16 && 0u16 & 0x8000u16 == 0u16) by (bit_vector);
        }
        WeakCounterMarker {
            weak_counter: if accessible {
                WEAK_INITIAL_VALUE_ACCESSIBLE
            } else {
                WEAK_INITIAL_VALUE
            },
        }
    }

    /// Increments the weak counter, failing (and changing nothing) at [`WEAK_MAX`].
    pub fn increment_counter(&mut self) -> (res: Result<(), WeakOverflowError>)
        ensures
            old(self)@.counter == WEAK_MAX ==> res is Err && *final(self) == *old(self),
            old(self)@.counter != WEAK_MAX ==> res is Ok && final(self)@ == (WeakCounterMarkerView {
                counter: (old(self)@.counter + 1) as u16,
                ..old(self)@
            }),
    {
        if self.counter() == WEAK_MAX {
            crate::utils::cold();
            Err(WeakOverflowError)
        } else {
            let x = self.weak_counter;
            proof {
                assert((x & 0x7FFFu16) != 0x7FFFu16 ==> (x < 0xFFFFu16 && ((x + 1) as u16)
                    & 0x7FFFu16 == (((x & 0x7FFFu16) + 1) as u16) && ((x + 1) as u16) & 0x8000u16
                    == x & 0x8000u16)) by (bit_vector);
            }
            self.weak_counter = self.weak_counter + 1;
            Ok(())
        }
    }

    /// Decrements the weak counter, failing (and changing nothing) at zero.
    pub fn decrement_counter(&mut self) -> (res: Result<(), WeakOverflowError>)
        ensures
            old(self)@.counter == 0 ==> res is Err && *final(self) == *old(self),
            old(self)@.counter != 0 ==> res is Ok && final(self)@ == (WeakCounterMarkerView {
                counter: (old(self)@.counter - 1) as u16,
                ..old(self)@
            }),
    {
        if self.counter() == 0 {
            crate::utils::cold();
            Err(WeakOverflowError)
        } else {
            let x = self.weak_counter;
            proof {
                assert((x & 0x7FFFu16) != 0u16 ==> (x > 0u16 && ((x - 1) as u16) & 0x7FFFu16 == (((x
                    & 0x7FFFu16) - 1) as u16) && ((x - 1) as u16) & 0x8000u16 == x & 0x8000u16))
                    by (bit_vector);
            }
            self.weak_counter = self.weak_counter - 1;
            Ok(())
        }
    }

    /// The weak counter.
    pub fn counter(&self) -> (c: u16)
        ensures
            c == self@.counter,
    {
        self.weak_counter & WEAK_COUNTER_MASK
    }

    /// `true` while the allocation is accessible.
    pub fn is_accessible(&self) -> (b: bool)
        ensures
            b == self@.accessible,
    {
        (self.weak_counter & ACCESSIBLE_MASK) != 0
    }

    /// Sets or clears the accessible flag, keeping the weak counter.
    pub fn set_accessible(&mut self, accessible: bool)
        ensures
            final(self)@ == (WeakCounterMarkerView { accessible, ..old(self)@ }),
    {
        let x = self.weak_counter;
        proof {
            assert((x | 0x8000u16) & 0x7FFFu16 == x & 0x7FFFu16 && (x | 0x8000u16) & 0x8000u16
                != 0u16) by (bit_vector);
            assert((x & !0x8000u16) & 0x7FFFu16 == x & 0x7FFFu16 && (x & !0x8000u16) & 0x8000u16
                == 0u16) by (bit_vector);
        }
        if accessible {
            self.weak_counter = self.weak_counter | ACCESSIBLE_MASK;
        } else {
            self.weak_counter = self.weak_counter & !ACCESSIBLE_MASK;
        }
    }
}

} // verus!
