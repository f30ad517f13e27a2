//! The integer rules of the automatic collection trigger.
//!
//! A *threshold* is kept over the number of allocated bytes: a collection is started when
//! the allocated bytes exceed it, or when the number of buffered objects exceeds the
//! buffered-objects threshold (when one is set). After an automatic collection the
//! threshold is doubled until it exceeds the allocated bytes, or halved (never below
//! [`DEFAULT_BYTES_THRESHOLD`]) while the allocated bytes stay under a fraction of it.
use vstd::prelude::*;

verus! {

/// The initial threshold over the allocated bytes, and its lower bound when it is halved.
pub const DEFAULT_BYTES_THRESHOLD: usize = 100;

/// An error returned when the configuration cannot be accessed.
#[non_exhaustive]
#[derive(Debug, PartialEq, Eq, Structural)]
pub enum ConfigAccessError {
    /// The configuration couldn't be accessed.
    AccessError,
    /// The configuration was already being accessed.
    ConcurrentAccessError,
}

impl ConfigAccessError {
    /// The message describing the error.
    pub fn message(&self) -> (s: &'static str)
        ensures
            *self == ConfigAccessError::AccessError ==> s@ == "couldn't access the configuration"@,
            *self == ConfigAccessError::ConcurrentAccessError ==> s@
                == "the configuration is already being accessed"@,
    {
        match self {
            ConfigAccessError::AccessError => "couldn't access the configuration",
            ConfigAccessError::ConcurrentAccessError => "the configuration is already being accessed",
        }
    }
}

/// Whether a collection has to be started automatically.
pub open spec fn spec_should_collect(
    auto_collect: bool,
    allocated_bytes: nat,
    bytes_threshold: nat,
    buffered_threshold: Option<usize>,
    buffered: nat,
) -> bool {
    &&& auto_collect
    &&& (allocated_bytes > bytes_threshold || match buffered_threshold {
        Some(t) => buffered > t,
        None => false,
    })
}

/// Returns `true` when automatic collections are enabled and either the allocated bytes
/// exceed `bytes_threshold` or the `buffered` objects exceed `buffered_threshold` (when set).
pub fn should_collect(
    auto_collect: bool,
    allocated_bytes: usize,
    bytes_threshold: usize,
    buffered_threshold: Option<usize>,
    buffered: usize,
) -> (b: bool)
    ensures
        b == spec_should_collect(auto_collect, allocated_bytes as nat, bytes_threshold as nat, buffered_threshold, buffered as nat),
{
    if !auto_collect {
        return false;
    }
    if allocated_bytes > bytes_threshold {
        return true;
    }
    match buffered_threshold {
        Some(t) => buffered > t,
        None => false,
    }
}

/// How far `t` is from exceeding `allocated`.
pub open spec fn gap(t: nat, allocated: nat) -> nat {
    if t <= allocated {
        (allocated - t + 1) as nat
    } else {
        0
    }
}

/// The first of `t`, `2 t`, `4 t`, ... that exceeds `allocated`.
pub open spec fn first_above(t: nat, allocated: nat) -> nat
    decreases gap(t, allocated),
{
    if t == 0 || allocated < t {
        t
    } else {
        first_above(2 * t, allocated)
    }
}

proof fn lemma_first_above(t: nat, allocated: nat)
    requires
        t > 0,
    ensures
        first_above(t, allocated) > allocated,
        first_above(t, allocated) >= t,
        first_above(t, allocated) <= if allocated < t { t } else { 2 * allocated },
    decreases gap(t, allocated),
{
    if allocated >= t {
        lemma_first_above(2 * t, allocated);
    }
}

/// The threshold raised after a collection that left at least `bytes_threshold` bytes
/// allocated: doubled (at least once) until it exceeds the allocated bytes.
pub fn grow_bytes_threshold(bytes_threshold: usize, allocated_bytes: usize) -> (t: usize)
    requires
        0 < bytes_threshold <= allocated_bytes,
        allocated_bytes <= isize::MAX,
    ensures
        t == first_above(2 * bytes_threshold as nat, allocated_bytes as nat),
        t > allocated_bytes,
{
    let mut t = bytes_threshold;
    loop
        invariant
            0 < t <= allocated_bytes,
            allocated_bytes <= isize::MAX,
            first_above(2 * t as nat, allocated_bytes as nat) == first_above(
                2 * bytes_threshold as nat,
                allocated_bytes as nat,
            ),
        decreases allocated_bytes - t,
    {
        t = t * 2;
        if allocated_bytes < t {
            proof {
                lemma_first_above(t as nat, allocated_bytes as nat);
            }
            return t;
        }
    }
}

/// One step of lowering the threshold: the halved threshold, and whether to stop.
///
/// It stops without change when the halved threshold would not exceed the allocated
/// bytes, and stops at [`DEFAULT_BYTES_THRESHOLD`] when the halved threshold would not
/// exceed it.
pub fn shrink_step(bytes_threshold: usize, allocated_bytes: usize) -> (r: (usize, bool))
    ensures
        allocated_bytes >= bytes_threshold / 2 ==> r == (bytes_threshold, true),
        allocated_bytes < bytes_threshold / 2 && bytes_threshold / 2 <= DEFAULT_BYTES_THRESHOLD ==> r == (
        DEFAULT_BYTES_THRESHOLD, true),
        allocated_bytes < bytes_threshold / 2 && bytes_threshold / 2 > DEFAULT_BYTES_THRESHOLD ==> r == (
        bytes_threshold / 2, false),
{
    let new_threshold = bytes_threshold / 2;
    if allocated_bytes >= new_threshold {
        (bytes_threshold, true)
    } else if new_threshold <= DEFAULT_BYTES_THRESHOLD {
        (DEFAULT_BYTES_THRESHOLD, true)
    } else {
        (new_threshold, false)
    }
}

/// When a collection is started automatically: never with automatic collection off; with it
/// on, whenever the allocated bytes exceed their threshold (whatever the buffered-objects
/// threshold), whenever the buffered allocations exceed a set buffered-objects threshold,
/// and in no other case.
pub proof fn law_should_collect(
    auto_collect: bool,
    allocated_bytes: nat,
    bytes_threshold: nat,
    buffered_threshold: Option<usize>,
    buffered: nat,
)
    ensures
        !auto_collect ==> !spec_should_collect(auto_collect, allocated_bytes, bytes_threshold, buffered_threshold, buffered),
        auto_collect && allocated_bytes > bytes_threshold ==> spec_should_collect(
            auto_collect,
            allocated_bytes,
            bytes_threshold,
            buffered_threshold,
            buffered,
        ),
        forall|t: usize|
            auto_collect && buffered_threshold == Some(t) && buffered > t ==> spec_should_collect(
                auto_collect,
                allocated_bytes,
                bytes_threshold,
                buffered_threshold,
                buffered,
            ),
        allocated_bytes <= bytes_threshold && (buffered_threshold is None || buffered <= buffered_threshold->0)
            ==> !spec_should_collect(auto_collect, allocated_bytes, bytes_threshold, buffered_threshold, buffered),
{
}

} // verus!
