# rust_cc

A garbage collector based on cycle collection, verified with Verus.

A `Cc` (cycle-collected pointer) is an owning handle to an allocation of a `CcHeap`.
It behaves like a reference-counted pointer: when the last reference to an allocation
goes away, the allocation is finalized, its element is dropped, and it is deallocated at
once, together with whatever only it referred to. Allocations that may be part of a
garbage cycle are buffered when one of their references is dropped; `collect_cycles` runs
trial deletion over them: it counts the references found by tracing from the buffered
allocations, traces again from the roots it discovers, finalizes what is left, and
deallocates it (or buffers it again when a finalizer ran, so that the next execution
deallocates it). `trigger_collection` and `new_with_collection` start a collection
automatically when the allocated bytes or the buffered allocations pass a threshold.
`Weak` pointers keep the metadata of an allocation alive without keeping the allocation
itself.

The references between allocations are recorded by the heap: the handles an element owns
are given to `Cc::new` (or moved in and out with `adopt` and `detach`; weak handles with
`adopt_weak` and `detach_weak`), the collector traces that record, and the handles are
released when the element is dropped. `Cc::new_cyclic` gives the element a weak handle to
itself. The `Trace` trait reports the handles a value owns, with a contract
for the library's own implementations. A finalizer receives only its element, not the
heap, so it can neither create nor drop handles: no element is resurrected.

## Layout

- `src/` — the verified library:
  - `cc.rs`: the heap model (`CcHeap`), its invariant, `Cc` and its operations
    (creation, cloning, dropping with the cascade of releases, `try_unwrap`), and laws
    about them.
  - `lib.rs`: the collector (counting phase, root-tracing phase, finalization,
    deallocation) and the laws about `collect_cycles`.
  - `lists.rs`: the intrusive lists and queue used by the collector, over per-allocation links.
  - `counter_marker.rs`, `weak/weak_counter_marker.rs`: the packed counters and flags.
  - `weak/mod.rs`: weak pointers.
  - `graph.rs`: counting references in the reference graph, and reachability.
  - `state.rs`, `config.rs`, `trace.rs`, `utils.rs`: collector state, the integer rules of
    automatic collection, tracing and finalization traits, small helpers.
- `tests/` — tests run against the compiled library.
- `app/` — what the verified library leaves out: the configuration with its
  floating-point adjustment percent and the automatic trigger, error types implementing
  `std::error::Error`, and cleaners (closures run by a destructor).
