//! The packed reference counter and marker of every managed allocation.
//!
//! Internal representation:
//! ```text
//! tracing_counter:  | A: 2 bits | B: 14 bits |
//! counter:          | C: 1 bit  | D: 1 bit  | E: 14 bits |
//! ```
//!
//! * `A` is the mark: not marked, in the possible-cycles list, in a list, in the queue.
//! * `B` is the tracing counter. Its all-ones value is reserved and means "dropped".
//! * `C` is set when the metadata (used by weak pointers) has been allocated.
//! * `D` is set when the element has already been finalized.
//! * `E` is the reference counter. Its all-ones value is reserved.
use vstd::prelude::*;

verus! {

pub const NON_MARKED: u16 = 0x0000;
pub const IN_POSSIBLE_CYCLES: u16 = 0x4000;
pub const IN_LIST: u16 = 0x8000;
pub const IN_QUEUE: u16 = 0xC000;

pub const COUNTER_MASK: u16 = 0x3FFF;
pub const FIRST_BIT_MASK: u16 = 0x8000;
pub const FINALIZED_MASK: u16 = 0x4000;
pub const BITS_MASK: u16 = 0xC000;

pub const INITIAL_VALUE: u16 = 0x0001;
pub const INITIAL_VALUE_TRACING_COUNTER: u16 = 0x0001;
pub const INITIAL_VALUE_FINALIZED: u16 = 0x4001;

/// The largest value a counter may take (the all-ones value is reserved).
pub const MAX: u16 = 0x3FFE;

/// The position of an allocation with respect to the collector's lists.
#[derive(Clone, Copy, Debug, PartialEq, Eq, Structural)]
pub enum Mark {
    NonMarked,
    PossibleCycles,
    InList,
    InQueue,
}

/// The mark encoded by the two top bits of a tracing counter.
pub open spec fn mark_of_bits(bits: u16) -> Mark {
    if bits & BITS_MASK == NON_MARKED {
        Mark::NonMarked
    } else if bits & BITS_MASK == IN_POSSIBLE_CYCLES {
        Mark::PossibleCycles
    } else if bits & BITS_MASK == IN_LIST {
        Mark::InList
    } else {
        Mark::InQueue
    }
}

/// The two top bits that encode a mark.
pub open spec fn bits_of_mark(mark: Mark) -> u16 {
    match mark {
        Mark::NonMarked => NON_MARKED,
        Mark::PossibleCycles => IN_POSSIBLE_CYCLES,
        Mark::InList => IN_LIST,
        Mark::InQueue => IN_QUEUE,
    }
}

impl Mark {
    /// The two top bits that encode this mark.
    pub fn bits(self) -> (b: u16)
        ensures
            b == bits_of_mark(self),
    {
        match self {
            Mark::NonMarked => NON_MARKED,
            Mark::PossibleCycles => IN_POSSIBLE_CYCLES,
            Mark::InList => IN_LIST,
            Mark::InQueue => IN_QUEUE,
        }
    }
}

/// Returned when a counter would leave its range.
#[derive(Debug)]
pub struct OverflowError;

/// The abstract content of a [`CounterMarker`].
pub ghost struct CounterMarkerView {
    /// The reference counter (14 bits).
    pub counter: u16,
    /// The tracing counter (14 bits).
    pub tracing_counter: u16,
    pub mark: Mark,
    pub finalized: bool,
    pub allocated_for_metadata: bool,
}

#[derive(Clone, Copy, Debug)]
pub struct CounterMarker {
    pub tracing_counter: u16,
    pub counter: u16,
}

impl View for CounterMarker {
    type V = CounterMarkerView;

    open spec fn view(&self) -> CounterMarkerView {
        CounterMarkerView {
            counter: self.counter & COUNTER_MASK,
            tracing_counter: self.tracing_counter & COUNTER_MASK,
            mark: mark_of_bits(self.tracing_counter),
            finalized: self.counter & FINALIZED_MASK != 0,
            allocated_for_metadata: self.counter & FIRST_BIT_MASK != 0,
        }
    }
}

proof fn lemma_view_parts(x: u16)
    ensures
        x & COUNTER_MASK <= COUNTER_MASK,
        (x & BITS_MASK == NON_MARKED) || (x & BITS_MASK == IN_POSSIBLE_CYCLES) || (x & BITS_MASK
            == IN_LIST) || (x & BITS_MASK == IN_QUEUE),
{
    assert(x & 0x3FFFu16 <= 0x3FFFu16) by (bit_vector);
    assert((x & 0xC000u16 == 0u16) || (x & 0xC000u16 == 0x4000u16) || (x & 0xC000u16 == 0x8000u16)
        || (x & 0xC000u16 == 0xC000u16)) by (bit_vector);
}

/// Adding or removing one in the low 14 bits keeps the top two bits.
proof fn lemma_step_low(x: u16)
    ensures
        (x & 0x3FFFu16) < 0x3FFFu16 ==> ((((x + 1) as u16) & 0x3FFFu16) == (x & 0x3FFFu16) + 1
            && (((x + 1) as u16) & 0xC000u16) == (x & 0xC000u16) && (((x + 1) as u16) & 0x4000u16) == (x
            & 0x4000u16) && (((x + 1) as u16) & 0x8000u16) == (x & 0x8000u16) && x < 0xFFFFu16),
        (x & 0x3FFFu16) > 0u16 ==> ((((x - 1) as u16) & 0x3FFFu16) == (x & 0x3FFFu16) - 1
            && (((x - 1) as u16) & 0xC000u16) == (x & 0xC000u16) && (((x - 1) as u16) & 0x4000u16) == (x
            & 0x4000u16) && (((x - 1) as u16) & 0x8000u16) == (x & 0x8000u16) && x > 0u16),
{
    assert((x & 0x3FFFu16) < 0x3FFFu16 ==> ((((x + 1) as u16) & 0x3FFFu16) == (((x & 0x3FFFu16) + 1) as u16)
        && (((x + 1) as u16) & 0xC000u16) == (x & 0xC000u16) && (((x + 1) as u16) & 0x4000u16) == (x
        & 0x4000u16) && (((x + 1) as u16) & 0x8000u16) == (x & 0x8000u16) && x < 0xFFFFu16))
        by (bit_vector);
    assert((x & 0x3FFFu16) > 0u16 ==> ((((x - 1) as u16) & 0x3FFFu16) == (((x & 0x3FFFu16) - 1) as u16)
        && (((x - 1) as u16) & 0xC000u16) == (x & 0xC000u16) && (((x - 1) as u16) & 0x4000u16) == (x
        & 0x4000u16) && (((x - 1) as u16) & 0x8000u16) == (x & 0x8000u16) && x > 0u16))
        by (bit_vector);
}

impl CounterMarker {
    /// A marker whose reference counter and tracing counter are one, not marked,
    /// finalized exactly when `already_finalized`.
    pub fn new_with_counter_to_one(already_finalized: bool) -> (cm: CounterMarker)
        ensures
            cm@ == (CounterMarkerView {
                counter: 1,
                tracing_counter: 1,
                mark: Mark::NonMarked,
                finalized: already_finalized,
                allocated_for_metadata: false,
            }),
    {
        let cm = CounterMarker {
            tracing_counter: INITIAL_VALUE_TRACING_COUNTER,
            counter: if !already_finalized {
                INITIAL_VALUE
            } else {
                INITIAL_VALUE_FINALIZED
            },
        };
        proof {
            assert(0x0001u16 & 0x3FFFu16 == 1u16 && 0x0001u16 & 0xC000u16 == 0u16 && 0x0001u16
                & 0x4000u16 == 0u16 && 0x0001u16 & 0x8000u16 == 0u16) by (bit_vector);
            assert(0x4001u16 & 0x3FFFu16 == 1u16 && 0x4001u16 & 0x4000u16 != 0u16 && 0x4001u16
                & 0x8000u16 == 0u16) by (bit_vector);
        }
        cm
    }

    /// Increments the reference counter, failing (and changing nothing) at [`MAX`].
    pub fn increment_counter(&mut self) -> (res: Result<(), OverflowError>)
        requires
            old(self)@.counter != COUNTER_MASK,
        ensures
            old(self)@.counter == MAX ==> res is Err && *final(self) == *old(self),
            old(self)@.counter != MAX ==> res is Ok && final(self)@ == (CounterMarkerView {
                counter: (old(self)@.counter + 1) as u16,
                ..old(self)@
            }),
            final(self).tracing_counter == old(self).tracing_counter,
    {
        if self.counter() == MAX {
            crate::utils::cold();
            Err(OverflowError)
        } else {
            proof {
                lemma_step_low(self.counter);
                lemma_view_parts(self.counter);
            }
            self.counter = self.counter + 1;
            Ok(())
        }
    }

    /// Decrements the reference counter, failing (and changing nothing) at zero.
    pub fn decrement_counter(&mut self) -> (res: Result<(), OverflowError>)
        requires
            old(self)@.counter != COUNTER_MASK,
        ensures
            old(self)@.counter == 0 ==> res is Err && *final(self) == *old(self),
            old(self)@.counter != 0 ==> res is Ok && final(self)@ == (CounterMarkerView {
                counter: (old(self)@.counter - 1) as u16,
                ..old(self)@
            }),
            final(self).tracing_counter == old(self).tracing_counter,
    {
        if self.counter() == 0 {
            crate::utils::cold();
            Err(OverflowError)
        } else {
            proof {
                lemma_step_low(self.counter);
            }
            self.counter = self.counter - 1;
            Ok(())
        }
    }

    /// Increments the tracing counter, failing (and changing nothing) at [`MAX`].
    pub fn increment_tracing_counter(&mut self) -> (res: Result<(), OverflowError>)
        requires
            old(self)@.tracing_counter != COUNTER_MASK,
        ensures
            old(self)@.tracing_counter == MAX ==> res is Err && *final(self) == *old(self),
            old(self)@.tracing_counter != MAX ==> res is Ok && final(self)@ == (CounterMarkerView {
                tracing_counter: (old(self)@.tracing_counter + 1) as u16,
                ..old(self)@
            }),
            final(self).counter == old(self).counter,
    {
        if self.tracing_counter() == MAX {
            crate::utils::cold();
            Err(OverflowError)
        } else {
            proof {
                lemma_step_low(self.tracing_counter);
            }
            self.tracing_counter = self.tracing_counter + 1;
            Ok(())
        }
    }

    /// Decrements the tracing counter, failing (and changing nothing) at zero.
    pub fn _decrement_tracing_counter(&mut self) -> (res: Result<(), OverflowError>)
        requires
            old(self)@.tracing_counter != COUNTER_MASK,
        ensures
            old(self)@.tracing_counter == 0 ==> res is Err && *final(self) == *old(self),
            old(self)@.tracing_counter != 0 ==> res is Ok && final(self)@ == (CounterMarkerView {
                tracing_counter: (old(self)@.tracing_counter - 1) as u16,
                ..old(self)@
            }),
            final(self).counter == old(self).counter,
    {
        if self.tracing_counter() == 0 {
            crate::utils::cold();
            Err(OverflowError)
        } else {
            proof {
                lemma_step_low(self.tracing_counter);
            }
            self.tracing_counter = self.tracing_counter - 1;
            Ok(())
        }
    }

    /// The reference counter.
    pub fn counter(&self) -> (rc: u16)
        ensures
            rc == self@.counter,
            rc <= COUNTER_MASK,
    {
        proof {
            lemma_view_parts(self.counter);
        }
        self.counter & COUNTER_MASK
    }

    /// The tracing counter.
    pub fn tracing_counter(&self) -> (tc: u16)
        ensures
            tc == self@.tracing_counter,
            tc <= COUNTER_MASK,
    {
        proof {
            lemma_view_parts(self.tracing_counter);
        }
        self.tracing_counter & COUNTER_MASK
    }

    /// Sets the tracing counter to zero, keeping everything else.
    pub fn reset_tracing_counter(&mut self)
        ensures
            final(self)@ == (CounterMarkerView { tracing_counter: 0, ..old(self)@ }),
            final(self).counter == old(self).counter,
    {
        let x = self.tracing_counter;
        proof {
            assert((x & !0x3FFFu16) & 0x3FFFu16 == 0u16 && (x & !0x3FFFu16) & 0xC000u16 == x
                & 0xC000u16) by (bit_vector);
        }
        self.tracing_counter = self.tracing_counter & !COUNTER_MASK;
    }

    /// `true` when the element has not been finalized yet.
    pub fn needs_finalization(&self) -> (b: bool)
        ensures
            b == !self@.finalized,
    {
        (self.counter & FINALIZED_MASK) == 0u16
    }

    /// Sets or clears the finalized flag, keeping everything else.
    pub fn set_finalized(&mut self, finalized: bool)
        ensures
            final(self)@ == (CounterMarkerView { finalized, ..old(self)@ }),
            final(self).tracing_counter == old(self).tracing_counter,
    {
        let x = self.counter;
        proof {
            assert((x | 0x4000u16) & 0x3FFFu16 == x & 0x3FFFu16 && (x | 0x4000u16) & 0x4000u16
                != 0u16 && (x | 0x4000u16) & 0x8000u16 == x & 0x8000u16) by (bit_vector);
            assert((x & !0x4000u16) & 0x3FFFu16 == x & 0x3FFFu16 && (x & !0x4000u16) & 0x4000u16
                == 0u16 && (x & !0x4000u16) & 0x8000u16 == x & 0x8000u16) by (bit_vector);
        }
        self.counter = Self::set_bits(self.counter, finalized, FINALIZED_MASK);
    }

    /// `true` when the metadata used by weak pointers has been allocated.
    pub fn has_allocated_for_metadata(&self) -> (b: bool)
        ensures
            b == self@.allocated_for_metadata,
    {
        let x = self.counter;
        proof {
            assert((x & 0x8000u16 == 0x8000u16) == (x & 0x8000u16 != 0u16)) by (bit_vector);
        }
        (self.counter & FIRST_BIT_MASK) == FIRST_BIT_MASK
    }

    /// Sets or clears the allocated-for-metadata flag, keeping everything else.
    pub fn set_allocated_for_metadata(&mut self, allocated_for_metadata: bool)
        ensures
            final(self)@ == (CounterMarkerView { allocated_for_metadata, ..old(self)@ }),
            final(self).tracing_counter == old(self).tracing_counter,
    {
        let x = self.counter;
        proof {
            assert((x & 0x8000u16 == 0x8000u16) == (x & 0x8000u16 != 0u16)) by (bit_vector);
            assert((x | 0x8000u16) & 0x3FFFu16 == x & 0x3FFFu16 && (x | 0x8000u16) & 0x8000u16
                != 0u16 && (x | 0x8000u16) & 0x4000u16 == x & 0x4000u16) by (bit_vector);
            assert((x & !0x8000u16) & 0x3FFFu16 == x & 0x3FFFu16 && (x & !0x8000u16) & 0x8000u16
                == 0u16 && (x & !0x8000u16) & 0x4000u16 == x & 0x4000u16) by (bit_vector);
        }
        self.counter = Self::set_bits(self.counter, allocated_for_metadata, FIRST_BIT_MASK);
    }

    /// `true` when the element has been dropped (the tracing counter holds its reserved value).
    pub fn is_dropped(&self) -> (b: bool)
        ensures
            b == (self@.tracing_counter == COUNTER_MASK),
    {
        (self.tracing_counter & COUNTER_MASK) == COUNTER_MASK
    }

    /// Sets the tracing counter to its reserved value (or to zero), keeping the mark.
    pub fn set_dropped(&mut self, dropped: bool)
        ensures
            final(self)@ == (CounterMarkerView {
                tracing_counter: if dropped {
                    COUNTER_MASK
                } else {
                    0
                },
                ..old(self)@
            }),
            final(self).counter == old(self).counter,
    {
        let x = self.tracing_counter;
        proof {
            assert((x | 0x3FFFu16) & 0x3FFFu16 == 0x3FFFu16 && (x | 0x3FFFu16) & 0xC000u16 == x
                & 0xC000u16) by (bit_vector);
            assert((x & !0x3FFFu16) & 0x3FFFu16 == 0u16 && (x & !0x3FFFu16) & 0xC000u16 == x
                & 0xC000u16) by (bit_vector);
        }
        self.tracing_counter = Self::set_bits(self.tracing_counter, dropped, COUNTER_MASK);
    }

    /// `true` when not in a list nor in the queue (possibly in the possible-cycles list).
    pub fn is_not_marked(&self) -> (b: bool)
        ensures
            b == (self@.mark == Mark::NonMarked || self@.mark == Mark::PossibleCycles),
    {
        let x = self.tracing_counter;
        proof {
            assert(((x & 0x8000u16) == 0u16) == ((x & 0xC000u16) == 0u16 || (x & 0xC000u16)
                == 0x4000u16)) by (bit_vector);
            lemma_view_parts(x);
        }
        (self.tracing_counter & FIRST_BIT_MASK) == 0u16
    }

    /// `true` when marked as being in the possible-cycles list.
    pub fn is_in_possible_cycles(&self) -> (b: bool)
        ensures
            b == (self@.mark == Mark::PossibleCycles),
    {
        proof {
            lemma_view_parts(self.tracing_counter);
        }
        (self.tracing_counter & BITS_MASK) == IN_POSSIBLE_CYCLES
    }

    /// `true` when marked as being in a list of the collector.
    pub fn is_in_list(&self) -> (b: bool)
        ensures
            b == (self@.mark == Mark::InList),
    {
        proof {
            lemma_view_parts(self.tracing_counter);
        }
        (self.tracing_counter & BITS_MASK) == IN_LIST
    }

    /// `true` when marked as being in the queue of the collector.
    pub fn _is_in_queue(&self) -> (b: bool)
        ensures
            b == (self@.mark == Mark::InQueue),
    {
        proof {
            lemma_view_parts(self.tracing_counter);
        }
        (self.tracing_counter & BITS_MASK) == IN_QUEUE
    }

    /// `true` when marked as being in a list or in the queue of the collector.
    pub fn is_in_list_or_queue(&self) -> (b: bool)
        ensures
            b == (self@.mark == Mark::InList || self@.mark == Mark::InQueue),
    {
        let x = self.tracing_counter;
        proof {
            assert(((x & 0x8000u16) == 0x8000u16) == ((x & 0xC000u16) == 0x8000u16 || (x
                & 0xC000u16) == 0xC000u16)) by (bit_vector);
            lemma_view_parts(x);
        }
        (self.tracing_counter & FIRST_BIT_MASK) == FIRST_BIT_MASK
    }

    /// Replaces the mark, keeping everything else.
    pub fn mark(&mut self, new_mark: Mark)
        ensures
            final(self)@ == (CounterMarkerView { mark: new_mark, ..old(self)@ }),
            final(self).counter == old(self).counter,
    {
        let x = self.tracing_counter;
        let b = new_mark.bits();
        proof {
            assert(((x & !0xC000u16) | b) & 0x3FFFu16 == x & 0x3FFFu16) by (bit_vector)
                requires
                    b == 0u16 || b == 0x4000u16 || b == 0x8000u16 || b == 0xC000u16,
            ;
            assert(((x & !0xC000u16) | b) & 0xC000u16 == b) by (bit_vector)
                requires
                    b == 0u16 || b == 0x4000u16 || b == 0x8000u16 || b == 0xC000u16,
            ;
        }
        self.tracing_counter = (self.tracing_counter & !BITS_MASK) | b;
    }

    /// `value` with the bits of `mask` set when `set`, cleared otherwise.
    fn set_bits(value: u16, set: bool, mask: u16) -> (r: u16)
        ensures
            r == if set {
                value | mask
            } else {
                value & !mask
            },
    {
        if set {
            value | mask
        } else {
            value & !mask
        }
    }
}

/// Incrementing the reference counter and then decrementing it gives back the same
/// marker; marking it in between changes only its mark.
pub proof fn law_increment_then_decrement(a: CounterMarkerView, b: CounterMarkerView, c: CounterMarkerView)
    requires
        a.counter < MAX,
        b == (CounterMarkerView { counter: (a.counter + 1) as u16, ..a }),
        c == (CounterMarkerView { counter: (b.counter - 1) as u16, ..b }),
    ensures
        c == a,
{
}

/// Marking never changes the counters nor the flags: marking with the former mark gives
/// back the same marker.
pub proof fn law_mark_roundtrip(a: CounterMarkerView, b: CounterMarkerView, c: CounterMarkerView, m: Mark)
    requires
        b == (CounterMarkerView { mark: m, ..a }),
        c == (CounterMarkerView { mark: a.mark, ..b }),
    ensures
        c == a,
        b.counter == a.counter && b.tracing_counter == a.tracing_counter,
        b.finalized == a.finalized && b.allocated_for_metadata == a.allocated_for_metadata,
{
}

} // verus!
