//! Information about the garbage collector state.
use vstd::prelude::*;
use crate::cc::CcHeap;

verus! {

/// An error returned by functions accessing the garbage collector state.
#[non_exhaustive]
#[derive(Debug, PartialEq, Eq, Structural)]
pub enum StateAccessError {
    /// The garbage collector state couldn't be accessed.
    AccessError,
}

impl StateAccessError {
    /// The message describing the error.
    pub fn message(&self) -> (s: &'static str)
        ensures
            s@ == "couldn't access the state"@,
    {
        "couldn't access the state"
    }
}

/// The flags and counters of the collector.
#[derive(Debug)]
pub struct State {
    pub collecting: bool,
    pub finalizing: bool,
    pub dropping: bool,
    pub allocated_bytes: usize,
    pub executions_counter: usize,
}

impl State {
    /// A state with no collection running and all counters at zero.
    pub fn new() -> (s: State)
        ensures
            !s.collecting,
            !s.finalizing,
            !s.dropping,
            s.allocated_bytes == 0,
            s.executions_counter == 0,
    {
        State {
            collecting: false,
            finalizing: false,
            dropping: false,
            allocated_bytes: 0,
            executions_counter: 0,
        }
    }

    /// The number of bytes currently allocated by the collector.
    pub fn allocated_bytes(&self) -> (b: usize)
        ensures
            b == self.allocated_bytes,
    {
        self.allocated_bytes
    }

    /// Records an allocation of `size` bytes.
    pub fn record_allocation(&mut self, size: usize)
        requires
            old(self).allocated_bytes + size <= usize::MAX,
        ensures
            *final(self) == (State {
                allocated_bytes: (old(self).allocated_bytes + size) as usize,
                ..*old(self)
            }),
    {
        self.allocated_bytes = self.allocated_bytes + size;
    }

    /// Records a deallocation of `size` bytes.
    pub fn record_deallocation(&mut self, size: usize)
        requires
            old(self).allocated_bytes >= size,
        ensures
            *final(self) == (State {
                allocated_bytes: (old(self).allocated_bytes - size) as usize,
                ..*old(self)
            }),
    {
        self.allocated_bytes = self.allocated_bytes - size;
    }

    /// The number of collections executed so far.
    pub fn executions_count(&self) -> (c: usize)
        ensures
            c == self.executions_counter,
    {
        self.executions_counter
    }

    /// Counts one more executed collection; the counter wraps around at `usize::MAX`.
    pub fn increment_executions_count(&mut self)
        ensures
            *final(self) == (State {
                executions_counter: if old(self).executions_counter == usize::MAX {
                    0
                } else {
                    (old(self).executions_counter + 1) as usize
                },
                ..*old(self)
            }),
    {
        self.executions_counter = self.executions_counter.wrapping_add(1);
    }

    pub fn is_collecting(&self) -> (b: bool)
        ensures
            b == self.collecting,
    {
        self.collecting
    }

    pub fn set_collecting(&mut self, value: bool)
        ensures
            *final(self) == (State { collecting: value, ..*old(self) }),
    {
        self.collecting = value;
    }

    pub fn is_finalizing(&self) -> (b: bool)
        ensures
            b == self.finalizing,
    {
        self.finalizing
    }

    pub fn set_finalizing(&mut self, value: bool)
        ensures
            *final(self) == (State { finalizing: value, ..*old(self) }),
    {
        self.finalizing = value;
    }

    pub fn is_dropping(&self) -> (b: bool)
        ensures
            b == self.dropping,
    {
        self.dropping
    }

    pub fn set_dropping(&mut self, value: bool)
        ensures
            *final(self) == (State { dropping: value, ..*old(self) }),
    {
        self.dropping = value;
    }

    /// `true` while a collection traces objects: collecting, but neither finalizing nor dropping.
    pub open spec fn is_tracing_spec(&self) -> bool {
        self.collecting && !self.finalizing && !self.dropping
    }

    /// `true` while a collection traces objects: collecting, but neither finalizing nor dropping.
    pub fn is_tracing(&self) -> (b: bool)
        ensures
            b == self.is_tracing_spec(),
    {
        self.collecting && !self.finalizing && !self.dropping
    }
}

/// Returns the number of objects buffered to be processed in the next collection.
///
/// See [`Cc::mark_alive`](crate::cc::Cc::mark_alive) for more details.
pub fn buffered_objects_count<T>(heap: &CcHeap<T>) -> (r: Result<usize, StateAccessError>)
    requires
        heap.inv(Seq::empty()),
    ensures
        r matches Ok(c) && c == heap.possible_cycles.seq().len(),
{
    Ok(heap.possible_cycles.size(&heap.links))
}

/// Returns the number of allocated bytes managed by the garbage collector.
pub fn allocated_bytes<T>(heap: &CcHeap<T>) -> (r: Result<usize, StateAccessError>)
    ensures
        r matches Ok(b) && b == heap.state.allocated_bytes,
{
    Ok(heap.state.allocated_bytes())
}

/// Returns the total number of executed collections.
pub fn executions_count<T>(heap: &CcHeap<T>) -> (r: Result<usize, StateAccessError>)
    ensures
        r matches Ok(c) && c == heap.state.executions_counter,
{
    Ok(heap.state.executions_count())
}

/// Returns `true` if the garbage collector is in a tracing phase, `false` otherwise.
pub fn is_tracing<T>(heap: &CcHeap<T>) -> (r: Result<bool, StateAccessError>)
    ensures
        r matches Ok(b) && b == heap.state.is_tracing_spec(),
{
    Ok(heap.state.is_tracing())
}

} // verus!
