//! Cycle-collected allocations and the heap that manages them.
//!
//! Every allocation lives in a slot of a [`CcHeap`]: its intrusive list links, its
//! [`CounterMarker`], its element, and the allocations its element refers to (what
//! tracing the element reports). A [`Cc`] is an owning handle to a slot.
use vstd::prelude::*;
use crate::counter_marker::{CounterMarker, CounterMarkerView, Mark, MAX, COUNTER_MASK};
use crate::graph::{count, indeg, into_from, num_true, total_edges, lemma_num_true_push, lemma_into_push};
use crate::lists::{Link, LinkedList, PossibleCycles, links_frame};
use crate::state::State;
use crate::trace::Finalize;
use crate::weak::weak_counter_marker::{WeakCounterMarker, WeakCounterMarkerView};

verus! {

/// A cycle-collected pointer: an owning handle to an allocation of a [`CcHeap`].
pub struct Cc {
    index: usize,
}

impl View for Cc {
    type V = usize;

    closed spec fn view(&self) -> usize {
        self.index
    }
}

/// The indices of a sequence of handles.
pub open spec fn indices(v: Seq<Cc>) -> Seq<usize> {
    Seq::new(v.len(), |i: int| v[i]@)
}

/// The managed allocations together with the state of the collector.
pub struct CcHeap<T> {
    pub links: Vec<Link>,
    pub markers: Vec<CounterMarker>,
    /// The element of each allocation; `None` once dropped.
    pub elems: Vec<Option<T>>,
    /// The allocations each element refers to (what tracing it reports).
    pub children: Vec<Vec<usize>>,
    /// `false` once the allocation has been deallocated.
    pub allocated: Vec<bool>,
    /// The metadata used by weak pointers, once allocated; it may outlive the allocation.
    pub metadata: Vec<Option<WeakCounterMarker>>,
    /// The size in bytes of one allocation.
    pub box_size: usize,
    pub possible_cycles: PossibleCycles,
    pub state: State,
    /// The number of [`Cc`] handles held outside of the elements, per allocation.
    pub ext: Ghost<Seq<nat>>,
    /// The number of [`Weak`](crate::weak::Weak) handles, per allocation: those held
    /// outside of the elements and those the elements own.
    pub wext: Ghost<Seq<nat>>,
    /// The allocations to which each element owns a weak handle.
    pub weak_children: Vec<Vec<usize>>,
    /// The number of times the finalizer of the element of each slot has been called.
    pub finalizer_calls: Ghost<spec_fn(usize) -> nat>,
    /// The allocations whose element was taken back by [`Cc::try_unwrap`], which deallocates
    /// without finalizing.
    pub taken: Ghost<Set<usize>>,
}

/// The metadata of a slot agrees with its weak handles and its allocation: it exists while
/// the allocation has allocated it or weak handles remain, and its weak counter counts them.
pub open spec fn meta_ok(m: Option<WeakCounterMarker>, weak: nat, allocated: bool, has_metadata: bool) -> bool {
    match m {
        Some(w) => {
            &&& w@.counter == weak
            &&& w@.accessible == allocated
            &&& allocated ==> has_metadata
            &&& !allocated ==> weak > 0
        },
        None => weak == 0 && (allocated ==> !has_metadata),
    }
}

/// The metadata after the allocation it belongs to has been deallocated: freed when no weak
/// handle remains, otherwise kept and made inaccessible.
pub open spec fn meta_dropped(before: Option<WeakCounterMarker>, after: Option<WeakCounterMarker>) -> bool {
    match before {
        Some(w) => if w@.counter == 0 {
            after is None
        } else {
            after is Some && after->0@ == (WeakCounterMarkerView { accessible: false, ..w@ })
        },
        None => after is None,
    }
}

/// The record of finalizer calls after one more call of the finalizer of the element of `x`.
pub open spec fn one_more_call(calls: spec_fn(usize) -> nat, x: usize) -> spec_fn(usize) -> nat {
    |z: usize| if z == x { calls(z) + 1 } else { calls(z) }
}

/// The record of finalizer calls once the slot `x` holds a new element, whose finalizer has
/// not been called yet.
pub open spec fn fresh_slot_calls(calls: spec_fn(usize) -> nat, x: usize) -> spec_fn(usize) -> nat {
    |z: usize| if z == x { 0nat } else { calls(z) }
}

/// The number of calls of the finalizer of the element of `x` in `new`, when going from `old`
/// to `new` has called it exactly once for each allocation that went from live and not
/// finalized to finalized or deallocated, and never otherwise.
pub open spec fn finalizer_calls_after<T>(new: &CcHeap<T>, old: &CcHeap<T>, x: usize) -> nat {
    old.finalizer_calls@(x) + if old.is_live(x) && !old.cm(x).finalized && (!new.is_live(x) || new.cm(x).finalized) {
        1nat
    } else {
        0nat
    }
}

/// When the finalizers called between `old` and `new` are those that
/// [`finalizer_calls_after`] describes, no finalizer has been called twice, none of an
/// allocation that was already finalized or that is still live and not finalized, and the
/// finalizer of each allocation deallocated without having been finalized was called once.
pub proof fn law_finalizer_called_once<T>(new: &CcHeap<T>, old: &CcHeap<T>, x: usize)
    requires
        forall|z: usize| #[trigger] new.finalizer_calls@(z) == finalizer_calls_after(new, old, z),
    ensures
        new.finalizer_calls@(x) <= old.finalizer_calls@(x) + 1,
        old.cm(x).finalized ==> new.finalizer_calls@(x) == old.finalizer_calls@(x),
        !old.is_live(x) ==> new.finalizer_calls@(x) == old.finalizer_calls@(x),
        new.is_live(x) && !new.cm(x).finalized ==> new.finalizer_calls@(x) == old.finalizer_calls@(x),
        old.is_live(x) && !old.cm(x).finalized && !new.is_live(x) ==> new.finalizer_calls@(x)
            == old.finalizer_calls@(x) + 1,
{
    assert(new.finalizer_calls@(x) == finalizer_calls_after(new, old, x));
}

impl<T> CcHeap<T> {
    /// The number of slots.
    pub open spec fn n(&self) -> nat {
        self.links@.len()
    }

    /// The reference graph.
    pub open spec fn g(&self) -> Seq<Seq<usize>> {
        Seq::new(self.children@.len(), |i: int| self.children@[i]@)
    }

    /// The weak references owned by the elements.
    pub open spec fn wg(&self) -> Seq<Seq<usize>> {
        Seq::new(self.weak_children@.len(), |i: int| self.weak_children@[i]@)
    }

    pub open spec fn is_live(&self, x: usize) -> bool {
        x < self.n() && self.allocated@[x as int]
    }

    pub open spec fn cm(&self, x: usize) -> CounterMarkerView {
        self.markers@[x as int]@
    }

    /// The number of allocations that are still allocated.
    pub open spec fn num_allocated(&self) -> nat {
        num_true(self.allocated@, self.n() as int)
    }

    /// The invariant of the heap, with `pending` the references that have been
    /// released but whose counters have not been decremented yet.
    pub open spec fn inv(&self, pending: Seq<usize>) -> bool {
        let n = self.n();
        &&& n <= usize::MAX
        &&& self.markers@.len() == n
        &&& self.elems@.len() == n
        &&& self.children@.len() == n
        &&& self.allocated@.len() == n
        &&& self.metadata@.len() == n
        &&& self.ext@.len() == n
        &&& self.wext@.len() == n
        &&& forall|x: usize|
            x < n ==> meta_ok(
                #[trigger] self.metadata@[x as int],
                self.wext@[x as int],
                self.allocated@[x as int],
                self.markers@[x as int]@.allocated_for_metadata,
            )
        &&& forall|x: usize|
            x < n && !(#[trigger] self.allocated@[x as int]) ==> {
                &&& self.markers@[x as int]@.finalized || self.taken@.contains(x)
                &&& self.links@[x as int] == Link::empty()
                &&& self.children@[x as int]@.len() == 0
                &&& self.ext@[x as int] == 0
                &&& self.elems@[x as int] is None
                &&& count(pending, x) == 0
            }
        &&& forall|x: usize| #[trigger] self.taken@.contains(x) ==> x < n && !self.allocated@[x as int]
        &&& forall|x: usize|
            x < n && (#[trigger] self.elems@[x as int]) is None ==> self.children@[x as int]@.len()
                == 0 && self.weak_children@[x as int]@.len() == 0
        &&& self.weak_children@.len() == n
        &&& forall|x: usize, j: int|
            x < n && 0 <= j < self.weak_children@[x as int]@.len() ==> #[trigger] self.weak_children@[x as int]@[j] < n
        &&& forall|x: usize| x < n ==> indeg(self.wg(), x) <= #[trigger] self.wext@[x as int]
        &&& forall|x: usize, j: int|
            x < n && self.allocated@[x as int] && 0 <= j < self.children@[x as int]@.len()
                ==> #[trigger] self.children@[x as int]@[j] < n
                && self.allocated@[self.children@[x as int]@[j] as int]
        &&& forall|x: usize|
            x < n && self.allocated@[x as int] ==> (#[trigger] self.markers@[x as int])@.counter
                == indeg(self.g(), x) + self.ext@[x as int] + count(pending, x)
        &&& forall|x: usize|
            x < n && self.allocated@[x as int] ==> (#[trigger] self.markers@[x as int])@.counter <= MAX
        &&& forall|x: usize|
            x < n && self.allocated@[x as int] && (#[trigger] self.elems@[x as int]) is Some
                ==> self.markers@[x as int]@.tracing_counter <= MAX
        &&& forall|i: int|
            0 <= i < pending.len() ==> #[trigger] pending[i] < n && self.allocated@[pending[i] as int]
        &&& self.possible_cycles.wf(self.links@)
        &&& forall|x: usize|
            x < n ==> (self.possible_cycles.seq().contains(x) <==> (self.allocated@[x as int]
                && (#[trigger] self.markers@[x as int])@.mark == Mark::PossibleCycles))
        &&& forall|x: usize|
            x < n && self.allocated@[x as int] && (#[trigger] self.markers@[x as int])@.mark
                == Mark::NonMarked ==> self.links@[x as int] == Link::empty()
        &&& self.state.allocated_bytes == self.box_size * self.num_allocated()
    }

    /// Buffered allocations have a zero tracing counter.
    pub open spec fn pc_tc_zero(&self) -> bool {
        forall|x: usize|
            x < self.n() && self.allocated@[x as int] && (#[trigger] self.markers@[x as int])@.mark
                == Mark::PossibleCycles ==> self.markers@[x as int]@.tracing_counter == 0
    }

    /// Every allocation that is in no list of a running collection is referenced: its
    /// reference counter is not zero.
    pub open spec fn referenced(&self) -> bool {
        forall|x: usize|
            x < self.n() && self.allocated@[x as int] && (#[trigger] self.markers@[x as int])@.mark != Mark::InList
                && self.markers@[x as int]@.mark != Mark::InQueue ==> self.markers@[x as int]@.counter >= 1
    }

    /// The invariant of the heap between two operations (no collection running).
    pub open spec fn wf(&self) -> bool {
        &&& self.wf_alloc()
        &&& !self.state.finalizing
    }

    /// The invariant of the heap under which an allocation can be made: that of [`Self::wf`],
    /// but possibly while a finalizer runs.
    pub open spec fn wf_alloc(&self) -> bool {
        &&& self.inv(Seq::empty())
        &&& self.referenced()
        &&& self.pc_tc_zero()
        &&& !self.state.collecting
        &&& !self.state.dropping
        &&& forall|x: usize|
            x < self.n() && self.allocated@[x as int] ==> {
                &&& (#[trigger] self.markers@[x as int])@.mark == Mark::NonMarked
                    || self.markers@[x as int]@.mark == Mark::PossibleCycles
                &&& self.elems@[x as int] is Some
            }
    }

    /// `c` is a live handle of this heap.
    pub open spec fn valid(&self, c: &Cc) -> bool {
        &&& self.is_live(c@)
        &&& self.ext@[c@ as int] >= 1
    }

    /// An empty heap whose allocations take `box_size` bytes each.
    pub fn new(box_size: usize) -> (h: CcHeap<T>)
        ensures
            h.wf(),
            h.n() == 0,
            h.box_size == box_size,
            h.state.executions_counter == 0,
            h.state.allocated_bytes == 0,
            h.taken@ == Set::<usize>::empty(),
            forall|x: usize| #[trigger] h.finalizer_calls@(x) == 0,
    {
        let h = CcHeap {
            links: Vec::new(),
            markers: Vec::new(),
            elems: Vec::new(),
            children: Vec::new(),
            allocated: Vec::new(),
            metadata: Vec::new(),
            box_size,
            possible_cycles: PossibleCycles::new(),
            state: State::new(),
            ext: Ghost(Seq::empty()),
            wext: Ghost(Seq::empty()),
            weak_children: Vec::new(),
            finalizer_calls: Ghost(|z: usize| 0nat),
            taken: Ghost(Set::empty()),
        };
        proof {
            assert(h.possible_cycles.wf(h.links@));
            assert(h.num_allocated() == 0);
        }
        h
    }

    /// `true` while the allocation at `x` has not been deallocated.
    pub fn is_allocated(&self, x: usize) -> (b: bool)
        requires
            self.inv(Seq::empty()),
        ensures
            b == self.is_live(x),
    {
        x < self.allocated.len() && self.allocated[x]
    }
}

impl<T> CcHeap<T> {
    /// The fields that only the bookkeeping of the lists and markers may change.
    pub open spec fn same_contents(&self, other: &CcHeap<T>) -> bool {
        &&& self.same_contents_except_calls(other)
        &&& self.finalizer_calls@ == other.finalizer_calls@
    }

    /// The fields that only the bookkeeping of the lists and markers, and the finalizers,
    /// may change.
    pub open spec fn same_contents_except_calls(&self, other: &CcHeap<T>) -> bool {
        &&& self.elems@ == other.elems@
        &&& self.children@ == other.children@
        &&& self.allocated@ == other.allocated@
        &&& self.metadata@ == other.metadata@
        &&& self.box_size == other.box_size
        &&& self.state == other.state
        &&& self.ext@ == other.ext@
        &&& self.wext@ == other.wext@
        &&& self.taken@ == other.taken@
        &&& self.weak_children@ == other.weak_children@
    }

    /// Takes `x` out of the possible-cycles buffer if it is there.
    pub(crate) fn remove_from_list(&mut self, x: usize, Ghost(p): Ghost<Seq<usize>>)
        requires
            old(self).inv(p),
            old(self).is_live(x),
        ensures
            final(self).inv(p),
            old(self).pc_tc_zero() ==> final(self).pc_tc_zero(),
            final(self).same_contents(old(self)),
            links_frame(old(self).links@, final(self).links@, old(self).possible_cycles.seq()),
            old(self).cm(x).mark == Mark::PossibleCycles ==> {
                &&& final(self).markers@ == old(self).markers@.update(
                    x as int,
                    final(self).markers@[x as int],
                )
                &&& final(self).cm(x) == (CounterMarkerView { mark: Mark::NonMarked, ..old(self).cm(x) })
                &&& final(self).markers@[x as int].counter == old(self).markers@[x as int].counter
                &&& final(self).possible_cycles.seq() == old(self).possible_cycles.seq().remove(
                    old(self).possible_cycles.seq().index_of(x),
                )
            },
            old(self).cm(x).mark != Mark::PossibleCycles ==> {
                &&& final(self).markers@ == old(self).markers@
                &&& final(self).links@ == old(self).links@
                &&& final(self).possible_cycles.seq() == old(self).possible_cycles.seq()
            },
    {
        if self.markers[x].is_in_possible_cycles() {
            self.markers[x].mark(Mark::NonMarked);
            self.possible_cycles.remove(&mut self.links, x);
            proof {
                let ghost s = old(self).possible_cycles.seq();
                let ghost k = s.index_of(x);
                assert forall|z: usize| z < self.n() implies (self.possible_cycles.seq().contains(z) <==> (
                self.allocated@[z as int] && (#[trigger] self.markers@[z as int])@.mark
                    == Mark::PossibleCycles)) by {
                    if z != x {
                        if s.contains(z) {
                            let j = s.index_of(z);
                            assert(s[j] == z);
                            if j < k {
                                assert(self.possible_cycles.seq()[j] == z);
                            } else {
                                assert(self.possible_cycles.seq()[j - 1] == z);
                            }
                        }
                        if self.possible_cycles.seq().contains(z) {
                            let j = self.possible_cycles.seq().index_of(z);
                            if j < k {
                                assert(s[j] == z);
                            } else {
                                assert(s[j + 1] == z);
                            }
                        }
                    } else {
                        assert(!self.possible_cycles.seq().contains(x)) by {
                            if self.possible_cycles.seq().contains(x) {
                                let j = self.possible_cycles.seq().index_of(x);
                                if j < k {
                                    assert(s[j] == x);
                                } else {
                                    assert(s[j + 1] == x);
                                }
                            }
                        }
                    }
                }
                assert forall|z: usize| z < self.n() && !(#[trigger] self.allocated@[z as int]) implies self.links@[
                    z as int] == Link::empty() by {
                    assert(old(self).possible_cycles.seq().contains(z) <==> (old(self).allocated@[z as int]
                        && old(self).markers@[z as int]@.mark == Mark::PossibleCycles));
                    assert(!s.contains(z));
                }
                assert forall|z: usize|
                    z < self.n() && self.allocated@[z as int] && (#[trigger] self.markers@[z as int])@.mark
                        == Mark::NonMarked implies self.links@[z as int] == Link::empty() by {
                    if z != x {
                        assert(self.markers@[z as int] == old(self).markers@[z as int]);
                        assert(!s.contains(z));
                    }
                }
            }
        }
    }

    /// Puts `x` in the possible-cycles buffer with a zero tracing counter, unless it is there.
    pub(crate) fn add_to_list(&mut self, x: usize, Ghost(p): Ghost<Seq<usize>>)
        requires
            old(self).inv(p),
            old(self).is_live(x),
            old(self).cm(x).mark == Mark::NonMarked || old(self).cm(x).mark == Mark::PossibleCycles,
        ensures
            final(self).inv(p),
            old(self).pc_tc_zero() ==> final(self).pc_tc_zero(),
            final(self).same_contents(old(self)),
            links_frame(old(self).links@, final(self).links@, final(self).possible_cycles.seq()),
            final(self).cm(x).mark == Mark::PossibleCycles,
            final(self).markers@[x as int].counter == old(self).markers@[x as int].counter,
            final(self).cm(x).counter == old(self).cm(x).counter,
            final(self).cm(x).finalized == old(self).cm(x).finalized,
            forall|z: int| 0 <= z < final(self).markers@.len() && z != x ==> #[trigger] final(self).markers@[z]
                == old(self).markers@[z],
            final(self).possible_cycles.seq().to_set() == old(self).possible_cycles.seq().to_set().insert(x),
            final(self).possible_cycles.seq().len() == old(self).possible_cycles.seq().len() + (if old(
                self,
            ).possible_cycles.seq().contains(x) {
                0int
            } else {
                1int
            }),
    {
        if !self.markers[x].is_in_possible_cycles() {
            proof {
                assert(!self.possible_cycles.seq().contains(x));
            }
            self.possible_cycles.add(&mut self.links, x);
            self.markers[x].reset_tracing_counter();
            self.markers[x].mark(Mark::PossibleCycles);
            proof {
                let ghost s = old(self).possible_cycles.seq();
                let ghost ns = self.possible_cycles.seq();
                assert(ns.to_set() =~= s.to_set().insert(x)) by {
                    assert forall|z: usize| ns.to_set().contains(z) <==> s.to_set().insert(x).contains(z) by {
                        if ns.contains(z) && z != x {
                            let j = ns.index_of(z);
                            assert(s[j - 1] == z);
                        }
                        if s.contains(z) {
                            let j = s.index_of(z);
                            assert(ns[j + 1] == z);
                        }
                        assert(ns[0] == x);
                    }
                }
                assert forall|z: usize| z < self.n() implies (self.possible_cycles.seq().contains(z) <==> (
                self.allocated@[z as int] && (#[trigger] self.markers@[z as int])@.mark
                    == Mark::PossibleCycles)) by {
                    assert(ns.contains(z) == ns.to_set().contains(z));
                    assert(s.contains(z) == s.to_set().contains(z));
                }
                assert forall|z: usize| z < self.n() && !(#[trigger] self.allocated@[z as int]) implies self.links@[
                    z as int] == Link::empty() by {
                    assert(ns.contains(z) == ns.to_set().contains(z));
                    assert(s.contains(z) == s.to_set().contains(z));
                    assert(old(self).possible_cycles.seq().contains(z) <==> (old(self).allocated@[z as int]
                        && old(self).markers@[z as int]@.mark == Mark::PossibleCycles));
                    assert(z != x);
                    assert(!s.contains(z));
                }
                assert forall|z: usize|
                    z < self.n() && self.allocated@[z as int] && (#[trigger] self.markers@[z as int])@.mark
                        == Mark::NonMarked implies self.links@[z as int] == Link::empty() by {
                    assert(ns.contains(z) == ns.to_set().contains(z));
                }
            }
        } else {
            proof {
                assert(self.possible_cycles.seq().to_set() =~= self.possible_cycles.seq().to_set().insert(x));
                assert(self.possible_cycles.seq().contains(x));
            }
        }
    }
}

impl<T> CcHeap<T> {
    /// Takes the first allocation out of the possible-cycles buffer, marking it not marked.
    pub(crate) fn pc_remove_first(&mut self, Ghost(p): Ghost<Seq<usize>>) -> (r: Option<usize>)
        requires
            old(self).inv(p),
        ensures
            final(self).inv(p),
            final(self).same_contents(old(self)),
            links_frame(old(self).links@, final(self).links@, old(self).possible_cycles.seq()),
            old(self).possible_cycles.seq().len() == 0 ==> r is None && final(self).links@ == old(self).links@
                && final(self).markers@ == old(self).markers@ && final(self).possible_cycles == old(self).possible_cycles,
            old(self).possible_cycles.seq().len() > 0 ==> {
                let x = old(self).possible_cycles.seq()[0];
                &&& r == Some(x)
                &&& final(self).possible_cycles.seq() == old(self).possible_cycles.seq().drop_first()
                &&& final(self).links@[x as int] == Link::empty()
                &&& crate::lists::marks_set(old(self).markers@, final(self).markers@, x, Mark::NonMarked)
                &&& x < old(self).n()
                &&& old(self).allocated@[x as int]
                &&& old(self).cm(x).mark == Mark::PossibleCycles
            },
    {
        let ghost h0 = *self;
        let ghost s0 = self.possible_cycles.seq();
        proof {
            if s0.len() > 0 {
                assert(s0.contains(s0[0]));
                assert(s0[0] < self.n());
            }
            assert forall|i: int| 0 <= i < s0.len() implies #[trigger] s0[i] < self.markers@.len() by {}
        }
        let r = self.possible_cycles.remove_first(&mut self.links, &mut self.markers);
        proof {
            if s0.len() > 0 {
                let x = s0[0];
                let ns = self.possible_cycles.seq();
                assert forall|z: usize| z < self.n() implies (ns.contains(z) <==> (self.allocated@[z as int]
                    && (#[trigger] self.markers@[z as int])@.mark == Mark::PossibleCycles)) by {
                    if z != x {
                        assert(self.markers@[z as int] == h0.markers@[z as int]);
                        if ns.contains(z) {
                            let j = ns.index_of(z);
                            assert(s0[j + 1] == z);
                        }
                        if s0.contains(z) {
                            let j = s0.index_of(z);
                            assert(j != 0);
                            assert(ns[j - 1] == z);
                        }
                    } else {
                        if ns.contains(x) {
                            let j = ns.index_of(x);
                            assert(s0[j + 1] == x);
                        }
                    }
                }
                assert forall|z: usize| z < self.n() && !(#[trigger] self.allocated@[z as int]) implies self.links@[
                    z as int] == Link::empty() by {
                    assert(h0.possible_cycles.seq().contains(z) <==> (h0.allocated@[z as int]
                        && h0.markers@[z as int]@.mark == Mark::PossibleCycles));
                }
                assert forall|z: usize|
                    z < self.n() && self.allocated@[z as int] && (#[trigger] self.markers@[z as int])@.mark
                        == Mark::NonMarked implies self.links@[z as int] == Link::empty() by {
                    if z != x {
                        assert(self.markers@[z as int] == h0.markers@[z as int]);
                        assert(h0.possible_cycles.seq().contains(z) <==> (h0.allocated@[z as int]
                            && h0.markers@[z as int]@.mark == Mark::PossibleCycles));
                    }
                }
                assert forall|z: usize| z < self.n() && self.allocated@[z as int] implies (#[trigger] self.markers@[z as int])@.counter
                    == indeg(self.g(), z) + self.ext@[z as int] + count(p, z) by {
                    assert(h0.markers@[z as int]@.counter == indeg(h0.g(), z) + h0.ext@[z as int] + count(p, z));
                }
                assert forall|z: usize| z < self.n() && self.allocated@[z as int] implies (#[trigger] self.markers@[z as int])@.counter <= MAX by {
                    assert(h0.markers@[z as int]@.counter <= MAX);
                }
                assert forall|z: usize| z < self.n() && self.allocated@[z as int] && (#[trigger] self.elems@[z as int]) is Some
                    implies self.markers@[z as int]@.tracing_counter <= MAX by {
                    assert(h0.markers@[z as int]@.tracing_counter <= MAX);
                }
            }
        }
        r
    }
}

/// The external handle counts after moving the handles `moved` into a new allocation.
pub open spec fn ext_after_new(ext: Seq<nat>, moved: Seq<usize>) -> Seq<nat> {
    Seq::new(
        ext.len() + 1,
        |x: int|
            if x < ext.len() {
                (ext[x] - count(moved, x as usize)) as nat
            } else {
                1nat
            },
    )
}

proof fn lemma_mul_succ(b: usize, m: nat)
    ensures
        b * (m + 1) == b * m + b,
        m >= 1 ==> b * (m - 1) == b * m - b,
        b * m >= 0,
        m >= 1 ==> b * m >= b,
{
    assert(b * (m + 1) == b * m + b) by (nonlinear_arith);
    assert(m >= 1 ==> b * (m - 1) == b * m - b) by (nonlinear_arith);
    assert(b * m >= 0) by (nonlinear_arith);
    assert(m >= 1 ==> b * m >= b) by (nonlinear_arith);
}

impl Cc {
    /// The index of the allocation this handle points to.
    pub fn index(&self) -> (i: usize)
        ensures
            i == self@,
    {
        self.index
    }

    /// The handle to the allocation at `index`.
    pub(crate) fn from_index(index: usize) -> (c: Cc)
        ensures
            c@ == index,
    {
        Cc { index }
    }

    /// Moves the handles out of `children` into their indices, in order.
    fn into_indices(children: Vec<Cc>) -> (v: Vec<usize>)
        ensures
            v@ == indices(children@),
    {
        let mut children = children;
        let ghost orig = children@;
        let mut v: Vec<usize> = Vec::new();
        while children.len() > 0
            invariant
                indices(orig) == indices(children@) + v@,
            decreases children@.len(),
        {
            let ghost before = children@;
            let c = children.pop().unwrap();
            proof {
                assert(before == children@.push(c));
            }
            let ghost v_old = v@;
            v.insert(0, c.index);
            proof {
                assert(indices(before) =~= indices(children@).push(c@));
                assert(v@ =~= seq![c@] + v_old);
                assert(indices(children@).push(c@) + v_old =~= indices(children@) + v@);
            }
        }
        proof {
            assert(indices(children@) + v@ =~= v@);
        }
        v
    }

    /// Creates a new allocation holding `t`, whose element owns the handles `children`.
    ///
    /// The handles an element owns are recorded by the heap: they are given here, or moved
    /// in later with [`Cc::adopt`] (weak ones with [`Cc::adopt_weak`]), and released when the
    /// element is dropped. A handle kept inside `t` itself counts as held outside.
    ///
    /// The new allocation has a reference counter of one, is not buffered, and is already
    /// finalized exactly when it is created during a finalization. Creating it runs no
    /// finalizer: the element's finalizer has not been called yet.
    pub fn new<T>(heap: &mut CcHeap<T>, t: T, children: Vec<Cc>) -> (cc: Cc)
        requires
            old(heap).wf_alloc(),
            forall|i: int| 0 <= i < children@.len() ==> #[trigger] old(heap).is_live(children@[i]@),
            forall|x: usize| x < old(heap).n() ==> count(indices(children@), x) <= #[trigger] old(heap).ext@[x as int],
            old(heap).state.allocated_bytes + old(heap).box_size <= usize::MAX,
            old(heap).n() < usize::MAX,
        ensures
            final(heap).wf_alloc(),
            cc@ == old(heap).n(),
            final(heap).n() == old(heap).n() + 1,
            final(heap).links@ == old(heap).links@.push(Link::empty()),
            final(heap).markers@.subrange(0, old(heap).n() as int) == old(heap).markers@,
            final(heap).elems@ == old(heap).elems@.push(Some(t)),
            final(heap).children@.subrange(0, old(heap).n() as int) == old(heap).children@,
            final(heap).children@[cc@ as int]@ == indices(children@),
            final(heap).allocated@ == old(heap).allocated@.push(true),
            final(heap).metadata@ == old(heap).metadata@.push(None),
            final(heap).cm(cc@) == (CounterMarkerView {
                counter: 1,
                tracing_counter: 1,
                mark: Mark::NonMarked,
                finalized: old(heap).state.finalizing,
                allocated_for_metadata: false,
            }),
            final(heap).ext@ == ext_after_new(old(heap).ext@, indices(children@)),
            final(heap).wext@ == old(heap).wext@.push(0),
            final(heap).wg() == old(heap).wg().push(Seq::empty()),
            final(heap).state == (State {
                allocated_bytes: (old(heap).state.allocated_bytes + old(heap).box_size) as usize,
                ..old(heap).state
            }),
            final(heap).box_size == old(heap).box_size,
            final(heap).possible_cycles == old(heap).possible_cycles,
            final(heap).valid(&cc),
            final(heap).finalizer_calls@(cc@) == 0,
            forall|z: usize| z != cc@ ==> #[trigger] final(heap).finalizer_calls@(z) == old(heap).finalizer_calls@(z),
    {
        let ghost old_g = heap.g();
        let ghost moved = indices(children@);
        let idx = Cc::into_indices(children);
        let n = heap.links.len();
        let already_finalized = heap.state.is_finalizing();
        heap.state.record_allocation(heap.box_size);
        heap.links.push(Link::none());
        heap.markers.push(CounterMarker::new_with_counter_to_one(already_finalized));
        heap.elems.push(Some(t));
        heap.children.push(idx);
        heap.allocated.push(true);
        heap.metadata.push(None);
        heap.weak_children.push(Vec::new());
        heap.ext = Ghost(ext_after_new(heap.ext@, moved));
        heap.wext = Ghost(heap.wext@.push(0));
        heap.finalizer_calls = Ghost(fresh_slot_calls(heap.finalizer_calls@, n));
        proof {
            let wg = heap.wg();
            assert(wg =~= old(heap).wg().push(Seq::empty()));
            assert forall|x: usize| x < heap.n() implies indeg(heap.wg(), x) <= #[trigger] heap.wext@[x as int] by {
                lemma_into_push(old(heap).wg(), Set::full(), n as int, x, Seq::empty());
                assert(count(Seq::<usize>::empty(), x) == 0);
                assert(wg[n as int] == Seq::<usize>::empty());
                assert(indeg(wg, x) == into_from(old(heap).wg(), Set::full(), n as int, x));
                if x == n {
                    assert forall|y: int, j: int| 0 <= y < n && 0 <= j < old(heap).wg()[y].len()
                        implies #[trigger] old(heap).wg()[y][j] < n by {
                        assert(old(heap).weak_children@[y as usize as int]@[j] < n);
                    }
                    lemma_into_zero_fresh(old(heap).wg(), n);
                } else {
                    assert(old(heap).wext@[x as int] == heap.wext@[x as int]);
                }
            }
            let g = heap.g();
            assert(g =~= old_g.push(moved));
            lemma_num_true_push(old(heap).allocated@, n as int, true);
            lemma_mul_succ(heap.box_size, old(heap).num_allocated());
            assert forall|x: usize| x < heap.n() implies indeg(g, x) == into_from(old_g, Set::full(), n as int, x)
                + count(moved, x) by {
                lemma_into_push(old_g, Set::full(), n as int, x, moved);
                assert(g[n as int] == moved);
            }
            assert forall|x: usize| x < n implies #[trigger] heap.markers@[x as int] == old(heap).markers@[x as int]
                by {}
            assert(count(moved, n) == 0) by {
                assert forall|i: int| 0 <= i < moved.len() implies #[trigger] moved[i] < n by {
                    assert(old(heap).is_live(children@[i]@));
                }
                lemma_graph_count_fresh(moved, n);
            }
            assert forall|x: usize, j: int|
                x < heap.n() && heap.allocated@[x as int] && 0 <= j < heap.children@[x as int]@.len()
                implies #[trigger] heap.children@[x as int]@[j] < heap.n() && heap.allocated@[heap.children@[x as int]@[j] as int] by {
                if x == n {
                    assert(heap.children@[x as int]@[j] == children@[j]@);
                    assert(old(heap).is_live(children@[j]@));
                } else {
                    assert(heap.children@[x as int] == old(heap).children@[x as int]);
                }
            }
            assert(heap.possible_cycles.wf(heap.links@)) by {
                let ps = heap.possible_cycles.seq();
                assert forall|i: int| 0 <= i < ps.len() implies (#[trigger] heap.links@[ps[i] as int]) == old(heap).links@[ps[i] as int] by {
                    assert(ps[i] < n);
                }
            }
            assert forall|x: usize| x < heap.n() implies (heap.possible_cycles.seq().contains(x) <==> (
                heap.allocated@[x as int] && (#[trigger] heap.markers@[x as int])@.mark == Mark::PossibleCycles)) by {
                if x == n {
                    if heap.possible_cycles.seq().contains(x) {
                        let k = heap.possible_cycles.seq().index_of(x);
                        assert(heap.possible_cycles.seq()[k] < n);
                    }
                }
            }
            assert forall|x: usize| x < heap.n() && heap.allocated@[x as int] implies (#[trigger] heap.markers@[x as int])@.counter
                == indeg(heap.g(), x) + heap.ext@[x as int] + count(Seq::empty(), x) by {
                if x < n {
                    assert(old(heap).markers@[x as int]@.counter == indeg(old_g, x) + old(heap).ext@[x as int] + count(Seq::empty(), x));
                    assert(count(moved, x) <= old(heap).ext@[x as int]);
                } else {
                    assert(indeg(g, x) == into_from(old_g, Set::full(), n as int, x) + count(moved, x));
                    lemma_into_zero_fresh(old_g, n);
                }
            }
            assert(heap.markers@.subrange(0, n as int) =~= old(heap).markers@);
            assert(heap.children@.subrange(0, n as int) =~= old(heap).children@);
        }
        Cc { index: n }
    }
}

impl Cc {
    /// Returns `true` if the two handles point to the same allocation.
    pub fn ptr_eq(this: &Cc, other: &Cc) -> (b: bool)
        ensures
            b == (this@ == other@),
    {
        this.index == other.index
    }

    /// The number of [`Cc`]s to the allocation: the handles held outside plus the
    /// references held by elements.
    pub fn strong_count<T>(&self, heap: &CcHeap<T>) -> (c: u32)
        requires
            heap.wf(),
            heap.valid(self),
        ensures
            c == heap.cm(self@).counter,
            c == indeg(heap.g(), self@) + heap.ext@[self@ as int],
    {
        heap.markers[self.index].counter() as u32
    }

    /// Returns `true` if the element has already been finalized.
    pub fn already_finalized<T>(&self, heap: &CcHeap<T>) -> (b: bool)
        requires
            heap.wf(),
            heap.valid(self),
        ensures
            b == heap.cm(self@).finalized,
    {
        !heap.markers[self.index].needs_finalization()
    }

    /// Makes the element finalizable again.
    pub fn finalize_again<T>(&mut self, heap: &mut CcHeap<T>)
        requires
            old(heap).wf(),
            old(heap).valid(old(self)),
        ensures
            final(heap).wf(),
            *final(self) == *old(self),
            final(heap).markers@ == old(heap).markers@.update(old(self)@ as int, final(heap).markers@[old(self)@ as int]),
            final(heap).cm(old(self)@) == (CounterMarkerView { finalized: false, ..old(heap).cm(old(self)@) }),
            final(heap).links@ == old(heap).links@,
            final(heap).possible_cycles == old(heap).possible_cycles,
            final(heap).same_contents(old(heap)),
    {
        let x = self.index;
        heap.markers[x].set_finalized(false);
        proof {
            assert forall|z: usize| z < heap.n() implies #[trigger] heap.markers@[z as int]@ == old(heap).markers@[z as int]@
                || z == x by {}
            assert forall|z: usize| z < heap.n() && heap.allocated@[z as int] implies (#[trigger] heap.markers@[z as int])@.counter
                == indeg(heap.g(), z) + heap.ext@[z as int] + count(Seq::empty(), z) by {
                assert(old(heap).markers@[z as int]@.counter == indeg(old(heap).g(), z) + old(heap).ext@[z as int] + count(Seq::empty(), z));
            }
        }
    }

    /// Takes the allocation out of the buffer of the next collection (a no-op when it is not buffered).
    pub fn mark_alive<T>(&self, heap: &mut CcHeap<T>)
        requires
            old(heap).wf(),
            old(heap).valid(self),
        ensures
            final(heap).wf(),
            final(heap).same_contents(old(heap)),
            final(heap).cm(self@) == (CounterMarkerView { mark: Mark::NonMarked, ..old(heap).cm(self@) }),
            final(heap).markers@ == old(heap).markers@.update(self@ as int, final(heap).markers@[self@ as int]),
            !final(heap).possible_cycles.seq().contains(self@),
            final(heap).possible_cycles.seq().to_set() == old(heap).possible_cycles.seq().to_set().remove(self@),
    {
        heap.remove_from_list(self.index, Ghost(Seq::empty()));
        proof {
            lemma_remove_to_set(old(heap).possible_cycles.seq(), heap.possible_cycles.seq(), self@);
        }
    }

    /// The element of the allocation.
    pub fn get<'a, T>(&self, heap: &'a CcHeap<T>) -> (r: &'a T)
        requires
            heap.wf(),
            heap.valid(self),
        ensures
            heap.elems@[self@ as int] == Some(*r),
    {
        heap.elems[self.index].as_ref().unwrap()
    }

    /// Makes another handle to the same allocation, incrementing its reference counter
    /// and taking it out of the buffer of the next collection.
    pub fn clone<T>(&self, heap: &mut CcHeap<T>) -> (c: Cc)
        requires
            old(heap).wf(),
            old(heap).valid(self),
            old(heap).cm(self@).counter < MAX,
        ensures
            final(heap).wf(),
            c@ == self@,
            final(heap).valid(&c),
            final(heap).ext@ == old(heap).ext@.update(self@ as int, old(heap).ext@[self@ as int] + 1),
            final(heap).cm(self@) == (CounterMarkerView {
                counter: (old(heap).cm(self@).counter + 1) as u16,
                mark: Mark::NonMarked,
                ..old(heap).cm(self@)
            }),
            final(heap).markers@ == old(heap).markers@.update(self@ as int, final(heap).markers@[self@ as int]),
            final(heap).elems@ == old(heap).elems@,
            final(heap).children@ == old(heap).children@,
            final(heap).allocated@ == old(heap).allocated@,
            final(heap).state == old(heap).state,
            final(heap).possible_cycles.seq().to_set() == old(heap).possible_cycles.seq().to_set().remove(self@),
            final(heap).wext@ == old(heap).wext@,
            final(heap).metadata@ == old(heap).metadata@,
            final(heap).taken@ == old(heap).taken@,
    {
        let x = self.index;
        let _ = heap.markers[x].increment_counter();
        heap.ext = Ghost(heap.ext@.update(x as int, heap.ext@[x as int] + 1));
        proof {
            assert forall|z: usize| z < heap.n() && heap.allocated@[z as int] implies (#[trigger] heap.markers@[z as int])@.counter
                == indeg(heap.g(), z) + heap.ext@[z as int] + count(Seq::empty(), z) by {
                assert(old(heap).markers@[z as int]@.counter == indeg(old(heap).g(), z) + old(heap).ext@[z as int] + count(Seq::empty(), z));
            }
            assert forall|z: usize| z < heap.n() && heap.allocated@[z as int] && (#[trigger] heap.markers@[z as int])@.mark
                == Mark::PossibleCycles implies heap.markers@[z as int]@.tracing_counter == 0 by {
                assert(old(heap).markers@[z as int]@.mark == heap.markers@[z as int]@.mark);
            }
        }
        heap.remove_from_list(x, Ghost(Seq::empty()));
        proof {
            lemma_remove_to_set(old(heap).possible_cycles.seq(), heap.possible_cycles.seq(), x);
        }
        Cc { index: x }
    }

    /// Moves `child` into the element of this allocation (the element now refers to it).
    #[verifier::spinoff_prover]
    #[verifier::rlimit(40)]
    pub fn adopt<T>(&self, heap: &mut CcHeap<T>, child: Cc)
        requires
            old(heap).wf(),
            old(heap).valid(self),
            old(heap).valid(&child),
            child@ != self@ || old(heap).ext@[self@ as int] >= 2,
        ensures
            final(heap).wf(),
            final(heap).children@[self@ as int]@ == old(heap).children@[self@ as int]@.push(child@),
            final(heap).children@ == old(heap).children@.update(self@ as int, final(heap).children@[self@ as int]),
            final(heap).ext@ == old(heap).ext@.update(child@ as int, (old(heap).ext@[child@ as int] - 1) as nat),
            final(heap).markers@ == old(heap).markers@,
            final(heap).links@ == old(heap).links@,
            final(heap).elems@ == old(heap).elems@,
            final(heap).allocated@ == old(heap).allocated@,
            final(heap).state == old(heap).state,
            final(heap).possible_cycles == old(heap).possible_cycles,
            final(heap).wext@ == old(heap).wext@,
            final(heap).metadata@ == old(heap).metadata@,
            final(heap).taken@ == old(heap).taken@,
    {
        let x = self.index;
        let c = child.index;
        let ghost old_g = heap.g();
        heap.children[x].push(c);
        heap.ext = Ghost(heap.ext@.update(c as int, (heap.ext@[c as int] - 1) as nat));
        proof {
            let g = heap.g();
            let ns = old_g[x as int].push(c);
            assert(g =~= old_g.update(x as int, ns));
            assert forall|z: usize| z < heap.n() && heap.allocated@[z as int] implies (#[trigger] heap.markers@[z as int])@.counter
                == indeg(heap.g(), z) + heap.ext@[z as int] + count(Seq::empty(), z) by {
                assert(old(heap).markers@[z as int]@.counter == indeg(old_g, z) + old(heap).ext@[z as int] + count(Seq::empty(), z));
                crate::graph::lemma_into_update(old_g, Set::full(), heap.n() as int, z, x as int, ns);
                crate::graph::lemma_count_push(old_g[x as int], c, z);
            }
            assert forall|z: usize, j: int|
                z < heap.n() && heap.allocated@[z as int] && 0 <= j < heap.children@[z as int]@.len()
                implies #[trigger] heap.children@[z as int]@[j] < heap.n() && heap.allocated@[heap.children@[z as int]@[j] as int] by {
                if z == x && j == old_g[x as int].len() {
                } else {
                    assert(heap.children@[z as int]@[j] == old(heap).children@[z as int]@[j]);
                }
            }
            lemma_meta_same(old(heap), heap);
            assert forall|z: usize| z < heap.n() && !(#[trigger] heap.allocated@[z as int]) implies heap.ext@[z as int] == 0
                && heap.children@[z as int]@.len() == 0 by {
                assert(z != x);
            }
            assert(heap.inv(Seq::empty()));
        }
    }

    /// Moves the handle most recently moved into the element of this allocation back out.
    #[verifier::spinoff_prover]
    pub fn detach<T>(&self, heap: &mut CcHeap<T>) -> (r: Option<Cc>)
        requires
            old(heap).wf(),
            old(heap).valid(self),
        ensures
            final(heap).wf(),
            old(heap).children@[self@ as int]@.len() == 0 ==> r is None && *final(heap) == *old(heap),
            old(heap).children@[self@ as int]@.len() > 0 ==> {
                let c = old(heap).children@[self@ as int]@.last();
                &&& r is Some && r->0@ == c
                &&& final(heap).children@[self@ as int]@ == old(heap).children@[self@ as int]@.drop_last()
                &&& final(heap).children@ == old(heap).children@.update(self@ as int, final(heap).children@[self@ as int])
                &&& final(heap).ext@ == old(heap).ext@.update(c as int, old(heap).ext@[c as int] + 1)
                &&& final(heap).valid(&r->0)
            },
            final(heap).markers@ == old(heap).markers@,
            final(heap).links@ == old(heap).links@,
            final(heap).elems@ == old(heap).elems@,
            final(heap).allocated@ == old(heap).allocated@,
            final(heap).state == old(heap).state,
            final(heap).possible_cycles == old(heap).possible_cycles,
            final(heap).wext@ == old(heap).wext@,
            final(heap).metadata@ == old(heap).metadata@,
            final(heap).taken@ == old(heap).taken@,
    {
        let x = self.index;
        let ghost old_g = heap.g();
        if heap.children[x].len() == 0 {
            return None;
        }
        let c = heap.children[x].pop().unwrap();
        heap.ext = Ghost(heap.ext@.update(c as int, heap.ext@[c as int] + 1));
        proof {
            let g = heap.g();
            let ns = old_g[x as int].drop_last();
            assert(old_g[x as int] == ns.push(c));
            assert(g =~= old_g.update(x as int, ns));
            assert(c < heap.n() && heap.allocated@[c as int]) by {
                assert(old(heap).children@[x as int]@[old_g[x as int].len() - 1] == c);
            }
            assert forall|z: usize| z < heap.n() && heap.allocated@[z as int] implies (#[trigger] heap.markers@[z as int])@.counter
                == indeg(heap.g(), z) + heap.ext@[z as int] + count(Seq::empty(), z) by {
                assert(old(heap).markers@[z as int]@.counter == indeg(old_g, z) + old(heap).ext@[z as int] + count(Seq::empty(), z));
                crate::graph::lemma_into_update(old_g, Set::full(), heap.n() as int, z, x as int, ns);
                crate::graph::lemma_count_push(ns, c, z);
            }
            assert forall|z: usize, j: int|
                z < heap.n() && heap.allocated@[z as int] && 0 <= j < heap.children@[z as int]@.len()
                implies #[trigger] heap.children@[z as int]@[j] < heap.n() && heap.allocated@[heap.children@[z as int]@[j] as int] by {
                assert(heap.children@[z as int]@[j] == old(heap).children@[z as int]@[j]);
            }
        }
        Some(Cc { index: c })
    }
}

impl<T> CcHeap<T> {
    /// What releasing references may change: counters, the possible-cycles buffer and the
    /// deallocation of allocations that were in no list of a running collection.
    pub open spec fn drop_frame(&self, old: &CcHeap<T>) -> bool {
        &&& self.n() == old.n()
        &&& self.box_size == old.box_size
        &&& self.ext@ == old.ext@
        &&& self.state.collecting == old.state.collecting
        &&& self.state.finalizing == old.state.finalizing
        &&& self.state.dropping == old.state.dropping
        &&& self.state.executions_counter == old.state.executions_counter
        &&& forall|t: usize| t < self.n() ==> #[trigger] self.weak_held(t) == old.weak_held(t)
        &&& self.taken@ == old.taken@
        &&& forall|x: usize| #[trigger] self.finalizer_calls@(x) == finalizer_calls_after(self, old, x)
        &&& forall|x: usize|
            x < self.n() && #[trigger] self.allocated@[x as int] ==> {
                &&& old.allocated@[x as int]
                &&& (self.metadata@[x as int] is Some <==> old.metadata@[x as int] is Some)
                &&& self.elems@[x as int] == old.elems@[x as int]
                &&& self.children@[x as int] == old.children@[x as int]
                &&& self.weak_children@[x as int] == old.weak_children@[x as int]
                &&& self.markers@[x as int]@.finalized == old.markers@[x as int]@.finalized
            }
        &&& forall|x: usize|
            x < self.n() && old.allocated@[x as int] && ((#[trigger] old.markers@[x as int])@.mark
                == Mark::InList || old.markers@[x as int]@.mark == Mark::InQueue) ==> {
                &&& self.allocated@[x as int]
                &&& self.links@[x as int] == old.links@[x as int]
                &&& self.markers@[x as int]@.mark == old.markers@[x as int]@.mark
                &&& self.markers@[x as int]@.tracing_counter == old.markers@[x as int]@.tracing_counter
                &&& self.markers@[x as int]@.finalized == old.markers@[x as int]@.finalized
            }
        &&& forall|x: usize|
            x < self.n() && self.allocated@[x as int] && ((#[trigger] old.markers@[x as int])@.mark
                == Mark::NonMarked || old.markers@[x as int]@.mark == Mark::PossibleCycles) ==> (
            self.markers@[x as int]@.mark == Mark::NonMarked || self.markers@[x as int]@.mark
                == Mark::PossibleCycles)
        &&& forall|x: usize|
            x < self.n() && old.allocated@[x as int] && !(#[trigger] self.allocated@[x as int]) ==> (
            old.markers@[x as int]@.mark == Mark::NonMarked || old.markers@[x as int]@.mark
                == Mark::PossibleCycles)
    }

    /// Allocations whose element has been dropped are in a list of the running collection.
    pub open spec fn dropped_in_list(&self) -> bool {
        forall|x: usize|
            x < self.n() && self.allocated@[x as int] && (#[trigger] self.elems@[x as int]) is None
                ==> self.markers@[x as int]@.mark == Mark::InList
    }
}

/// The metadata of every slot stays consistent when neither it, nor the weak handles, nor
/// the allocated flags, nor the metadata flags of the counters change.
pub proof fn lemma_meta_same<T>(old: &CcHeap<T>, new: &CcHeap<T>)
    requires
        new.n() == old.n(),
        new.metadata@ == old.metadata@,
        new.wext@ == old.wext@,
        new.allocated@ == old.allocated@,
        forall|z: usize| z < old.n() ==> #[trigger] new.markers@[z as int]@.allocated_for_metadata
            == old.markers@[z as int]@.allocated_for_metadata,
        forall|z: usize| z < old.n() ==> meta_ok(
            #[trigger] old.metadata@[z as int],
            old.wext@[z as int],
            old.allocated@[z as int],
            old.markers@[z as int]@.allocated_for_metadata,
        ),
    ensures
        forall|z: usize| z < new.n() ==> meta_ok(
            #[trigger] new.metadata@[z as int],
            new.wext@[z as int],
            new.allocated@[z as int],
            new.markers@[z as int]@.allocated_for_metadata,
        ),
{
    assert forall|z: usize| z < new.n() implies meta_ok(
        #[trigger] new.metadata@[z as int],
        new.wext@[z as int],
        new.allocated@[z as int],
        new.markers@[z as int]@.allocated_for_metadata,
    ) by {
        assert(new.markers@[z as int]@.allocated_for_metadata == old.markers@[z as int]@.allocated_for_metadata);
        assert(meta_ok(
            old.metadata@[z as int],
            old.wext@[z as int],
            old.allocated@[z as int],
            old.markers@[z as int]@.allocated_for_metadata,
        ));
    }
}

/// Taking the weak handles owned by the element of `y` out of the heap keeps its invariant:
/// they become weak handles held outside.
pub proof fn lemma_weak_children_taken<T>(old: &CcHeap<T>, new: &CcHeap<T>, y: usize)
    requires
        old.inv(Seq::empty()),
        y < old.n(),
        *new == (CcHeap { weak_children: new.weak_children, ..*old }),
        new.weak_children@.len() == old.weak_children@.len(),
        new.weak_children@[y as int]@.len() == 0,
        forall|z: int| 0 <= z < old.n() && z != y ==> #[trigger] new.weak_children@[z] == old.weak_children@[z],
    ensures
        new.inv(Seq::empty()),
        old.referenced() ==> new.referenced(),
        old.pc_tc_zero() ==> new.pc_tc_zero(),
        forall|t: usize| t < old.n() ==> #[trigger] new.weak_held(t) == old.weak_held(t) + count(
            old.weak_children@[y as int]@,
            t,
        ),
{
    let n = old.n();
    assert(new.weak_children@[y as int]@ =~= Seq::<usize>::empty());
    assert(new.wg() =~= old.wg().update(y as int, Seq::empty()));
    assert forall|t: usize| t < n implies indeg(old.wg(), t) == indeg(new.wg(), t) + count(old.weak_children@[y as int]@, t) by {
        crate::graph::lemma_into_update(old.wg(), Set::full(), n as int, t, y as int, Seq::empty());
        assert(old.wg()[y as int] == old.weak_children@[y as int]@);
        assert(count(Seq::<usize>::empty(), t) == 0);
    }
    assert forall|t: usize| t < n implies indeg(new.wg(), t) <= #[trigger] new.wext@[t as int] by {
        assert(indeg(old.wg(), t) <= old.wext@[t as int]);
    }
    assert forall|t: usize| t < n implies #[trigger] new.weak_held(t) == old.weak_held(t) + count(old.weak_children@[y as int]@, t) by {}
    assert forall|x: usize, j: int| x < n && 0 <= j < new.weak_children@[x as int]@.len()
        implies #[trigger] new.weak_children@[x as int]@[j] < n by {
        assert(new.weak_children@[x as int] == old.weak_children@[x as int]);
    }
    assert forall|x: usize| x < n && (#[trigger] new.elems@[x as int]) is None implies new.children@[x as int]@.len()
        == 0 && new.weak_children@[x as int]@.len() == 0 by {
        if x != y {
            assert(new.weak_children@[x as int] == old.weak_children@[x as int]);
        }
    }
    assert(new.g() == old.g());
}

/// Every allocation of `s` is allocated and, with the handle counts `ext`, has a handle or
/// is referred to by an allocation of `s`: releasing references one by one never brings
/// the counter of any of them to zero.
pub open spec fn supported<T>(h: &CcHeap<T>, ext: Seq<nat>, s: Set<usize>) -> bool {
    forall|y: usize|
        #[trigger] s.contains(y) ==> y < h.n() && h.allocated@[y as int] && (ext[y as int] > 0 || exists|z: usize|
            z < h.n() && s.contains(z) && #[trigger] h.g()[z as int].contains(y))
}

/// A supported set stays supported while its allocations stay allocated.
proof fn lemma_supported_frame<T>(h0: &CcHeap<T>, h1: &CcHeap<T>, s: Set<usize>)
    requires
        supported(h0, h0.ext@, s),
        h1.drop_frame(h0),
        h0.children@.len() == h0.n(),
        h1.children@.len() == h1.n(),
        forall|y: usize| #[trigger] s.contains(y) ==> h1.allocated@[y as int],
    ensures
        supported(h1, h1.ext@, s),
{
    assert forall|y: usize| #[trigger] s.contains(y) implies y < h1.n() && h1.allocated@[y as int] && (h1.ext@[y as int] > 0
        || exists|z: usize| z < h1.n() && s.contains(z) && #[trigger] h1.g()[z as int].contains(y)) by {
        if h1.ext@[y as int] == 0 {
            let z = choose|z: usize| z < h0.n() && s.contains(z) && #[trigger] h0.g()[z as int].contains(y);
            assert(h1.allocated@[z as int]);
            assert(h1.children@[z as int] == h0.children@[z as int]);
            assert(h1.g()[z as int] == h0.g()[z as int]);
        }
    }
}

/// The allocations of `h` that are allocated and not in `list`.
pub open spec fn outside_list<T>(h: &CcHeap<T>, list: Seq<usize>) -> Set<usize> {
    Set::new(|x: usize| x < h.n() && h.allocated@[x as int] && !list.contains(x))
}

/// A supported set stays supported while its allocations stay allocated with the same
/// references and handles.
proof fn lemma_supported_same<T>(h0: &CcHeap<T>, h1: &CcHeap<T>, s: Set<usize>)
    requires
        supported(h0, h0.ext@, s),
        h1.n() == h0.n(),
        h1.ext@ == h0.ext@,
        h0.children@.len() == h0.n(),
        h1.children@.len() == h1.n(),
        forall|y: usize| #[trigger] s.contains(y) ==> h1.allocated@[y as int] && h1.children@[y as int] == h0.children@[y as int],
    ensures
        supported(h1, h1.ext@, s),
{
    assert forall|y: usize| #[trigger] s.contains(y) implies y < h1.n() && h1.allocated@[y as int] && (h1.ext@[y as int] > 0
        || exists|z: usize| z < h1.n() && s.contains(z) && #[trigger] h1.g()[z as int].contains(y)) by {
        if h1.ext@[y as int] == 0 {
            let z = choose|z: usize| z < h0.n() && s.contains(z) && #[trigger] h0.g()[z as int].contains(y);
            assert(h1.g()[z as int] == h0.g()[z as int]);
        }
    }
}

/// Releasing a reference to `y` deallocates no allocation of a supported set: when `y` is
/// deallocated, nothing refers to it and it has no handle.
proof fn lemma_step_keeps_supported<T>(before: &CcHeap<T>, after: &CcHeap<T>, y: usize, p: Seq<usize>, s: Set<usize>)
    requires
        supported(before, before.ext@, s),
        before.inv(p.push(y)),
        after.allocated@ == before.allocated@ || (after.allocated@ == before.allocated@.update(y as int, false)
            && before.cm(y).counter == 1),
    ensures
        forall|x: usize| #[trigger] s.contains(x) ==> after.allocated@[x as int],
{
    if after.allocated@ != before.allocated@ && s.contains(y) {
        let n = before.n();
        let g = before.g();
        assert(p.push(y)[p.len() as int] == y);
        crate::graph::lemma_count_push(p, y, y);
        assert(before.markers@[y as int]@.counter == indeg(g, y) + before.ext@[y as int] + count(p.push(y), y));
        let z = choose|z: usize| z < before.n() && s.contains(z) && #[trigger] before.g()[z as int].contains(y);
        crate::graph::lemma_into_zero(g, Set::full(), n as int, y, z);
    }
}

pub proof fn lemma_drop_frame_refl<T>(h: &CcHeap<T>)
    ensures
        h.drop_frame(h),
{
}

pub proof fn lemma_drop_frame_trans<T>(a: &CcHeap<T>, b: &CcHeap<T>, c: &CcHeap<T>)
    requires
        b.drop_frame(a),
        c.drop_frame(b),
    ensures
        c.drop_frame(a),
{
    assert forall|x: usize|
        x < c.n() && a.allocated@[x as int] && ((#[trigger] a.markers@[x as int])@.mark == Mark::InList
            || a.markers@[x as int]@.mark == Mark::InQueue) implies {
        &&& c.allocated@[x as int]
        &&& c.links@[x as int] == a.links@[x as int]
        &&& c.markers@[x as int]@.mark == a.markers@[x as int]@.mark
        &&& c.markers@[x as int]@.tracing_counter == a.markers@[x as int]@.tracing_counter
        &&& c.markers@[x as int]@.finalized == a.markers@[x as int]@.finalized
    } by {
        assert(b.markers@[x as int]@.mark == a.markers@[x as int]@.mark);
    }
    assert forall|x: usize|
        x < c.n() && c.allocated@[x as int] && ((#[trigger] a.markers@[x as int])@.mark
            == Mark::NonMarked || a.markers@[x as int]@.mark == Mark::PossibleCycles) implies (
        c.markers@[x as int]@.mark == Mark::NonMarked || c.markers@[x as int]@.mark
            == Mark::PossibleCycles) by {
        assert(b.allocated@[x as int]);
        assert(b.markers@[x as int]@.mark == Mark::NonMarked || b.markers@[x as int]@.mark
            == Mark::PossibleCycles);
    }
    assert forall|x: usize|
        x < c.n() && a.allocated@[x as int] && !(#[trigger] c.allocated@[x as int]) implies (
        a.markers@[x as int]@.mark == Mark::NonMarked || a.markers@[x as int]@.mark
            == Mark::PossibleCycles) by {
        if b.allocated@[x as int] {
            assert(b.markers@[x as int]@.mark == Mark::NonMarked || b.markers@[x as int]@.mark
                == Mark::PossibleCycles);
            if a.markers@[x as int]@.mark == Mark::InList || a.markers@[x as int]@.mark == Mark::InQueue {
                assert(b.markers@[x as int]@.mark == a.markers@[x as int]@.mark);
            }
        }
    }
    assert forall|x: usize| #[trigger] c.finalizer_calls@(x) == finalizer_calls_after(c, a, x) by {
        assert(c.finalizer_calls@(x) == finalizer_calls_after(c, b, x));
        assert(b.finalizer_calls@(x) == finalizer_calls_after(b, a, x));
        if b.is_live(x) {
            assert(a.allocated@[x as int]);
            assert(b.markers@[x as int]@.finalized == a.markers@[x as int]@.finalized);
        }
        if c.is_live(x) {
            assert(b.allocated@[x as int]);
            assert(c.markers@[x as int]@.finalized == b.markers@[x as int]@.finalized);
        }
    }
}

/// Changing the counter of one allocation by the change of its pending count keeps the invariant.
pub proof fn lemma_inv_marker_update<T>(old: &CcHeap<T>, new: &CcHeap<T>, p: Seq<usize>, q: Seq<usize>, y: usize)
    requires
        old.inv(p),
        y < old.n(),
        new.links@ == old.links@,
        new.elems@ == old.elems@,
        new.children@ == old.children@,
        new.allocated@ == old.allocated@,
        new.metadata@ == old.metadata@,
        new.box_size == old.box_size,
        new.state.allocated_bytes == old.state.allocated_bytes,
        new.possible_cycles == old.possible_cycles,
        new.ext@ == old.ext@,
        new.wext@ == old.wext@,
        new.weak_children@ == old.weak_children@,
        new.taken@ == old.taken@,
        new.markers@.len() == old.markers@.len(),
        forall|z: int| 0 <= z < old.n() && z != y ==> #[trigger] new.markers@[z] == old.markers@[z],
        (new.cm(y).mark == Mark::PossibleCycles) == (old.cm(y).mark == Mark::PossibleCycles),
        old.allocated@[y as int] && new.cm(y).mark == Mark::NonMarked ==> old.links@[y as int] == Link::empty(),
        old.allocated@[y as int] && old.elems@[y as int] is Some ==> new.cm(y).tracing_counter <= MAX,
        old.allocated@[y as int] ==> new.cm(y).allocated_for_metadata == old.cm(y).allocated_for_metadata,
        !old.allocated@[y as int] ==> new.cm(y).finalized == old.cm(y).finalized,
        new.cm(y).counter <= MAX,
        old.allocated@[y as int] ==> new.cm(y).counter + count(p, y) == old.cm(y).counter + count(q, y),
        forall|z: usize| z != y ==> #[trigger] count(q, z) == count(p, z),
        !old.allocated@[y as int] ==> count(q, y) == 0,
        forall|i: int| 0 <= i < q.len() ==> #[trigger] q[i] < old.n() && old.allocated@[q[i] as int],
    ensures
        new.inv(q),
        old.pc_tc_zero() && (old.allocated@[y as int] && new.cm(y).mark == Mark::PossibleCycles ==> new.cm(y).tracing_counter
            == 0) ==> new.pc_tc_zero(),
{
    assert(new.wg() =~= old.wg());
    assert(new.g() == old.g());
    assert forall|x: usize| x < new.n() && new.allocated@[x as int] implies (#[trigger] new.markers@[x as int])@.counter
        == indeg(new.g(), x) + new.ext@[x as int] + count(q, x) by {
        assert(old.markers@[x as int]@.counter == indeg(old.g(), x) + old.ext@[x as int] + count(p, x));
    }
    assert forall|x: usize| x < new.n() && new.allocated@[x as int] implies (#[trigger] new.markers@[x as int])@.counter <= MAX by {
        assert(old.markers@[x as int]@.counter <= MAX);
        assert(old.markers@[x as int]@.counter == indeg(old.g(), x) + old.ext@[x as int] + count(p, x));
    }
    assert forall|x: usize| x < new.n() && !(#[trigger] new.allocated@[x as int]) implies count(q, x) == 0 by {
        assert(old.links@[x as int] == Link::empty());
    }
    assert forall|x: usize| x < new.n() implies (new.possible_cycles.seq().contains(x) <==> (
        new.allocated@[x as int] && (#[trigger] new.markers@[x as int])@.mark == Mark::PossibleCycles)) by {
        assert(old.possible_cycles.seq().contains(x) <==> (old.allocated@[x as int] && old.markers@[x as int]@.mark
            == Mark::PossibleCycles));
    }
    if old.pc_tc_zero() && (old.allocated@[y as int] && new.cm(y).mark == Mark::PossibleCycles ==> new.cm(y).tracing_counter == 0) {
        assert forall|x: usize| x < new.n() && new.allocated@[x as int] && (#[trigger] new.markers@[x as int])@.mark
            == Mark::PossibleCycles implies new.markers@[x as int]@.tracing_counter == 0 by {
            if x != y {
                assert(old.markers@[x as int]@.mark == new.markers@[x as int]@.mark);
            }
        }
    }
    assert forall|x: usize| x < new.n() && new.allocated@[x as int] && (#[trigger] new.markers@[x as int])@.mark
        == Mark::NonMarked implies new.links@[x as int] == Link::empty() by {
        if x != y {
            assert(old.markers@[x as int]@.mark == new.markers@[x as int]@.mark);
        }
    }
    assert forall|x: usize| x < new.n() && new.allocated@[x as int] && (#[trigger] new.elems@[x as int]) is Some
        implies new.markers@[x as int]@.tracing_counter <= MAX by {
        if x != y {
            assert(old.markers@[x as int]@.tracing_counter == new.markers@[x as int]@.tracing_counter);
        }
    }
}

/// Changing the links of allocations that are in a list or in the queue keeps the invariant.
pub proof fn lemma_inv_links_update<T>(old: &CcHeap<T>, new: &CcHeap<T>, p: Seq<usize>)
    requires
        old.inv(p),
        new.links@.len() == old.links@.len(),
        forall|z: usize| z < old.n() && #[trigger] new.links@[z as int] != old.links@[z as int] ==> old.allocated@[z as int]
            && (old.markers@[z as int]@.mark == Mark::InList || old.markers@[z as int]@.mark == Mark::InQueue),
        new.markers@ == old.markers@,
        new.elems@ == old.elems@,
        new.children@ == old.children@,
        new.allocated@ == old.allocated@,
        new.metadata@ == old.metadata@,
        new.box_size == old.box_size,
        new.state.allocated_bytes == old.state.allocated_bytes,
        new.possible_cycles == old.possible_cycles,
        new.ext@ == old.ext@,
        new.wext@ == old.wext@,
        new.weak_children@ == old.weak_children@,
        new.taken@ == old.taken@,
    ensures
        new.inv(p),
{
    assert(new.wg() =~= old.wg());
    assert(new.g() == old.g());
    let ps = old.possible_cycles.seq();
    assert forall|i: int| 0 <= i < ps.len() implies new.links@[#[trigger] ps[i] as int] == old.links@[ps[i] as int] by {
        assert(ps.contains(ps[i]));
        assert(old.possible_cycles.seq().contains(ps[i]) <==> (old.allocated@[ps[i] as int]
            && old.markers@[ps[i] as int]@.mark == Mark::PossibleCycles));
    }
    crate::lists::lemma_dl_frame(old.links@, new.links@, old.possible_cycles.first, ps);
    assert forall|x: usize| x < new.n() && !(#[trigger] new.allocated@[x as int]) implies new.links@[x as int] == Link::empty() by {
        assert(old.links@[x as int] == Link::empty());
    }
    assert forall|x: usize| x < new.n() && new.allocated@[x as int] && (#[trigger] new.markers@[x as int])@.mark
        == Mark::NonMarked implies new.links@[x as int] == Link::empty() by {
        assert(old.links@[x as int] == Link::empty());
    }
}

/// Taking an allocation out of a collection's list or queue (its links emptied, marked not
/// marked) keeps the invariant.
pub proof fn lemma_inv_unlink<T>(old: &CcHeap<T>, new: &CcHeap<T>, p: Seq<usize>, y: usize)
    requires
        old.inv(p),
        y < old.n(),
        old.allocated@[y as int],
        old.cm(y).mark == Mark::InList || old.cm(y).mark == Mark::InQueue,
        new.links@.len() == old.links@.len(),
        forall|z: usize| z < old.n() && #[trigger] new.links@[z as int] != old.links@[z as int] ==> old.allocated@[z as int]
            && (old.markers@[z as int]@.mark == Mark::InList || old.markers@[z as int]@.mark == Mark::InQueue),
        new.links@[y as int] == Link::empty(),
        crate::lists::marks_set(old.markers@, new.markers@, y, Mark::NonMarked),
        new.elems@ == old.elems@,
        new.children@ == old.children@,
        new.allocated@ == old.allocated@,
        new.metadata@ == old.metadata@,
        new.box_size == old.box_size,
        new.state.allocated_bytes == old.state.allocated_bytes,
        new.possible_cycles == old.possible_cycles,
        new.ext@ == old.ext@,
        new.wext@ == old.wext@,
        new.weak_children@ == old.weak_children@,
        new.taken@ == old.taken@,
    ensures
        new.inv(p),
        old.pc_tc_zero() ==> new.pc_tc_zero(),
{
    assert(new.wg() =~= old.wg());
    assert(new.g() == old.g());
    let ps = old.possible_cycles.seq();
    assert forall|i: int| 0 <= i < ps.len() implies new.links@[#[trigger] ps[i] as int] == old.links@[ps[i] as int] by {
        assert(ps.contains(ps[i]));
        assert(old.possible_cycles.seq().contains(ps[i]) <==> (old.allocated@[ps[i] as int]
            && old.markers@[ps[i] as int]@.mark == Mark::PossibleCycles));
    }
    crate::lists::lemma_dl_frame(old.links@, new.links@, old.possible_cycles.first, ps);
    assert forall|x: usize| x < new.n() && !(#[trigger] new.allocated@[x as int]) implies new.links@[x as int] == Link::empty() by {
        assert(old.links@[x as int] == Link::empty());
    }
    assert forall|x: usize| x < new.n() && new.allocated@[x as int] && (#[trigger] new.markers@[x as int])@.mark
        == Mark::NonMarked implies new.links@[x as int] == Link::empty() by {
        if x != y {
            assert(old.markers@[x as int] == new.markers@[x as int]);
            assert(old.links@[x as int] == Link::empty());
        }
    }
    assert forall|x: usize| x < new.n() && new.allocated@[x as int] implies (#[trigger] new.markers@[x as int])@.counter
        == indeg(new.g(), x) + new.ext@[x as int] + count(p, x) by {
        assert(old.markers@[x as int]@.counter == indeg(old.g(), x) + old.ext@[x as int] + count(p, x));
    }
    assert forall|x: usize| x < new.n() && new.allocated@[x as int] implies (#[trigger] new.markers@[x as int])@.counter <= MAX by {
        assert(old.markers@[x as int]@.counter <= MAX);
    }
    assert forall|x: usize| x < new.n() && new.allocated@[x as int] && (#[trigger] new.elems@[x as int]) is Some
        implies new.markers@[x as int]@.tracing_counter <= MAX by {
        assert(old.markers@[x as int]@.tracing_counter <= MAX);
    }
    assert forall|x: usize| x < new.n() implies (new.possible_cycles.seq().contains(x) <==> (
        new.allocated@[x as int] && (#[trigger] new.markers@[x as int])@.mark == Mark::PossibleCycles)) by {
        assert(old.possible_cycles.seq().contains(x) <==> (old.allocated@[x as int] && old.markers@[x as int]@.mark
            == Mark::PossibleCycles));
    }
    if old.pc_tc_zero() {
        assert forall|x: usize| x < new.n() && new.allocated@[x as int] && (#[trigger] new.markers@[x as int])@.mark
            == Mark::PossibleCycles implies new.markers@[x as int]@.tracing_counter == 0 by {
            assert(old.markers@[x as int] == new.markers@[x as int]);
        }
    }
}

/// Deallocating an allocation that nothing refers to releases the references of its element.
pub proof fn lemma_free<T>(old: &CcHeap<T>, new: &CcHeap<T>, p: Seq<usize>, y: usize, released: Seq<usize>)
    requires
        old.inv(p),
        y < old.n(),
        old.allocated@[y as int],
        old.cm(y).counter == 0,
        old.cm(y).mark == Mark::NonMarked,
        released == old.children@[y as int]@,
        new.links@ == old.links@,
        new.markers@.len() == old.markers@.len(),
        forall|z: int| 0 <= z < old.n() && z != y ==> #[trigger] new.markers@[z] == old.markers@[z],
        new.elems@ == old.elems@.update(y as int, None),
        new.children@.len() == old.children@.len(),
        forall|z: int| 0 <= z < old.n() && z != y ==> #[trigger] new.children@[z] == old.children@[z],
        new.children@[y as int]@ == Seq::<usize>::empty(),
        new.allocated@ == old.allocated@.update(y as int, false),
        new.metadata@.len() == old.metadata@.len(),
        forall|z: int| 0 <= z < old.n() && z != y ==> #[trigger] new.metadata@[z] == old.metadata@[z],
        meta_dropped(old.metadata@[y as int], new.metadata@[y as int]),
        new.box_size == old.box_size,
        new.state.allocated_bytes == old.state.allocated_bytes - old.box_size,
        new.possible_cycles == old.possible_cycles,
        new.ext@ == old.ext@,
        new.wext@ == old.wext@,
        new.weak_children@ == old.weak_children@,
        old.weak_children@[y as int]@.len() == 0,
        forall|z: usize| z != y ==> (#[trigger] new.taken@.contains(z) == old.taken@.contains(z)),
        new.cm(y).finalized || new.taken@.contains(y),
    ensures
        new.inv(p + released),
        old.pc_tc_zero() ==> new.pc_tc_zero(),
        total_edges(new.g(), new.n() as int) + released.len() == total_edges(old.g(), old.n() as int),
{
    assert(new.wg() =~= old.wg());
    let n = old.n();
    let g = old.g();
    assert forall|x: usize| x < n implies meta_ok(
        #[trigger] new.metadata@[x as int],
        new.wext@[x as int],
        new.allocated@[x as int],
        new.markers@[x as int]@.allocated_for_metadata,
    ) by {
        assert(meta_ok(
            old.metadata@[x as int],
            old.wext@[x as int],
            old.allocated@[x as int],
            old.markers@[x as int]@.allocated_for_metadata,
        ));
    }
    assert(new.g() =~= g.update(y as int, Seq::empty()));
    assert(old.markers@[y as int]@.counter == indeg(g, y) + old.ext@[y as int] + count(p, y));
    crate::graph::lemma_total_update(g, n as int, y as int, Seq::empty());
    crate::graph::lemma_into_pos(g, Set::full(), n as int, y, y);
    crate::graph::lemma_count_contains(released, y);
    crate::graph::lemma_count_contains(p, y);
    crate::graph::lemma_num_true_update(old.allocated@, n as int, y as int, false);
    lemma_mul_succ(old.box_size, (old.num_allocated() - 1) as nat);
    assert(old.num_allocated() >= 1);
    assert forall|z: usize| #[trigger] count(p + released, z) == count(p, z) + count(released, z) by {
        crate::graph::lemma_count_concat(p, released, z);
    }
    assert forall|x: usize| x < n && new.allocated@[x as int] implies (#[trigger] new.markers@[x as int])@.counter
        == indeg(new.g(), x) + new.ext@[x as int] + count(p + released, x) by {
        assert(old.markers@[x as int]@.counter == indeg(g, x) + old.ext@[x as int] + count(p, x));
        crate::graph::lemma_into_update(g, Set::full(), n as int, x, y as int, Seq::empty());
    }
    assert forall|x: usize| x < n && !(#[trigger] new.allocated@[x as int]) implies {
        &&& new.links@[x as int] == Link::empty()
        &&& new.children@[x as int]@.len() == 0
        &&& new.ext@[x as int] == 0
        &&& new.elems@[x as int] is None
        &&& count(p + released, x) == 0
    } by {
        if x != y {
            assert(!old.allocated@[x as int]);
            crate::graph::lemma_count_contains(released, x);
            if released.contains(x) {
                let j = released.index_of(x);
                assert(old.children@[y as int]@[j] == x);
            }
        }
    }
    assert forall|x: usize, j: int|
        x < n && new.allocated@[x as int] && 0 <= j < new.children@[x as int]@.len()
        implies #[trigger] new.children@[x as int]@[j] < n && new.allocated@[new.children@[x as int]@[j] as int] by {
        assert(new.children@[x as int] == old.children@[x as int]);
        crate::graph::lemma_into_zero(g, Set::full(), n as int, y, x);
        assert(g[x as int][j] == old.children@[x as int]@[j]);
    }
    let q = p + released;
    assert forall|i: int| 0 <= i < q.len() implies #[trigger] q[i] < n && new.allocated@[q[i] as int] by {
        if i < p.len() {
            assert(q[i] == p[i]);
            assert(p[i] != y);
        } else {
            assert(q[i] == released[i - p.len()]);
            assert(old.children@[y as int]@[i - p.len()] == released[i - p.len()]);
        }
    }
    assert forall|x: usize| x < n implies (new.possible_cycles.seq().contains(x) <==> (
        new.allocated@[x as int] && (#[trigger] new.markers@[x as int])@.mark == Mark::PossibleCycles)) by {
        assert(old.possible_cycles.seq().contains(x) <==> (old.allocated@[x as int] && old.markers@[x as int]@.mark
            == Mark::PossibleCycles));
    }
    if old.pc_tc_zero() {
        assert forall|x: usize| x < n && new.allocated@[x as int] && (#[trigger] new.markers@[x as int])@.mark
            == Mark::PossibleCycles implies new.markers@[x as int]@.tracing_counter == 0 by {
            assert(old.markers@[x as int]@.mark == new.markers@[x as int]@.mark);
        }
    }
    assert forall|x: usize| x < n && new.allocated@[x as int] && (#[trigger] new.markers@[x as int])@.mark
        == Mark::NonMarked implies new.links@[x as int] == Link::empty() by {
        assert(old.markers@[x as int]@.mark == new.markers@[x as int]@.mark);
    }
    assert forall|x: usize| x < n && new.allocated@[x as int] && (#[trigger] new.elems@[x as int]) is Some
        implies new.markers@[x as int]@.tracing_counter <= MAX by {
        assert(old.elems@[x as int] == new.elems@[x as int]);
    }
    assert forall|x: usize| x < n && new.allocated@[x as int] implies (#[trigger] new.markers@[x as int])@.counter <= MAX by {
        assert(old.markers@[x as int] == new.markers@[x as int]);
    }
    assert forall|x: usize| x < n && (#[trigger] new.elems@[x as int]) is None implies new.children@[x as int]@.len() == 0 by {
        if x != y {
            assert(old.elems@[x as int] == new.elems@[x as int]);
        }
    }
}

impl<T> CcHeap<T> {
    /// Frees the metadata of `y` when no weak handle remains, otherwise makes it inaccessible
    /// (its allocation is about to be deallocated).
    pub(crate) fn drop_metadata(&mut self, y: usize)
        requires
            y < old(self).markers@.len(),
            y < old(self).metadata@.len(),
            old(self).markers@[y as int]@.allocated_for_metadata <==> old(self).metadata@[y as int] is Some,
        ensures
            final(self).metadata@.len() == old(self).metadata@.len(),
            forall|z: int| 0 <= z < old(self).metadata@.len() && z != y ==> #[trigger] final(self).metadata@[z]
                == old(self).metadata@[z],
            meta_dropped(old(self).metadata@[y as int], final(self).metadata@[y as int]),
            final(self).links@ == old(self).links@,
            final(self).markers@ == old(self).markers@,
            final(self).elems@ == old(self).elems@,
            final(self).children@ == old(self).children@,
            final(self).allocated@ == old(self).allocated@,
            final(self).box_size == old(self).box_size,
            final(self).possible_cycles == old(self).possible_cycles,
            final(self).state == old(self).state,
            final(self).ext@ == old(self).ext@,
            final(self).wext@ == old(self).wext@,
            final(self).taken@ == old(self).taken@,
            final(self).weak_children@ == old(self).weak_children@,
            final(self).finalizer_calls@ == old(self).finalizer_calls@,
    {
        if self.markers[y].has_allocated_for_metadata() {
            let w = self.metadata[y].unwrap();
            if w.counter() == 0 {
                self.metadata[y] = None;
            } else {
                let mut w2 = w;
                w2.set_accessible(false);
                self.metadata[y] = Some(w2);
            }
        }
    }
}

impl<T> CcHeap<T> {
    /// The number of weak handles to `x` held outside of the elements.
    pub open spec fn weak_held(&self, x: usize) -> int {
        self.wext@[x as int] - indeg(self.wg(), x)
    }

    /// Releases the weak handles owned by the element of `y`: each weak counter goes down
    /// by the handles released, and the metadata of a deallocated allocation goes with the
    /// last of them.
    pub(crate) fn release_weak_children(&mut self, y: usize, Ghost(p): Ghost<Seq<usize>>)
        requires
            old(self).inv(p),
            y < old(self).n(),
        ensures
            final(self).inv(p),
            old(self).pc_tc_zero() ==> final(self).pc_tc_zero(),
            old(self).referenced() ==> final(self).referenced(),
            final(self).links@ == old(self).links@,
            final(self).markers@ == old(self).markers@,
            final(self).elems@ == old(self).elems@,
            final(self).children@ == old(self).children@,
            final(self).allocated@ == old(self).allocated@,
            final(self).box_size == old(self).box_size,
            final(self).possible_cycles == old(self).possible_cycles,
            final(self).state == old(self).state,
            final(self).ext@ == old(self).ext@,
            final(self).taken@ == old(self).taken@,
            final(self).finalizer_calls@ == old(self).finalizer_calls@,
            final(self).weak_children@.len() == old(self).weak_children@.len(),
            final(self).weak_children@[y as int]@.len() == 0,
            forall|z: int| 0 <= z < old(self).n() && z != y ==> #[trigger] final(self).weak_children@[z]
                == old(self).weak_children@[z],
            final(self).wext@.len() == old(self).wext@.len(),
            forall|t: usize| t < old(self).n() ==> #[trigger] final(self).wext@[t as int] == old(self).wext@[t as int]
                - count(old(self).weak_children@[y as int]@, t),
            forall|t: usize| t < old(self).n() ==> #[trigger] final(self).weak_held(t) == old(self).weak_held(t),
            forall|t: usize| t < old(self).n() && count(old(self).weak_children@[y as int]@, t) == 0
                ==> #[trigger] final(self).metadata@[t as int] == old(self).metadata@[t as int],
            forall|t: usize| t < old(self).n() && old(self).allocated@[t as int] ==> (#[trigger] final(self).metadata@[
                t as int] is Some <==> old(self).metadata@[t as int] is Some),
            final(self).metadata@.len() == old(self).metadata@.len(),
    {
        let ghost h0 = *self;
        let ghost n = self.n();
        let mut v: Vec<usize> = Vec::new();
        std::mem::swap(&mut v, &mut self.weak_children[y]);
        let ghost v0 = v@;
        let ghost h1 = *self;
        proof {
            assert(h1.wg() =~= h0.wg().update(y as int, Seq::empty()));
            assert forall|t: usize| t < n implies indeg(h0.wg(), t) == indeg(h1.wg(), t) + count(v0, t) by {
                crate::graph::lemma_into_update(h0.wg(), Set::full(), n as int, t, y as int, Seq::empty());
                assert(h0.wg()[y as int] == v0);
                assert(count(Seq::<usize>::empty(), t) == 0);
            }
        }
        while v.len() > 0
            invariant
                n == h0.n(),
                h1.wg().len() == n,
                self.links@ == h1.links@,
                self.markers@ == h1.markers@,
                self.elems@ == h1.elems@,
                self.children@ == h1.children@,
                self.allocated@ == h1.allocated@,
                self.box_size == h1.box_size,
                self.possible_cycles == h1.possible_cycles,
                self.state == h1.state,
                self.ext@ == h1.ext@,
                self.taken@ == h1.taken@,
                self.weak_children@ == h1.weak_children@,
                self.finalizer_calls@ == h1.finalizer_calls@,
                self.metadata@.len() == n,
                self.wext@.len() == n,
                forall|i: int| 0 <= i < v@.len() ==> #[trigger] v@[i] < n,
                forall|t: usize| t < n ==> #[trigger] self.wext@[t as int] == h0.wext@[t as int] - (count(v0, t) - count(v@, t)),
                forall|t: usize| t < n ==> count(v@, t) <= #[trigger] count(v0, t),
                forall|t: usize| t < n ==> indeg(h0.wg(), t) == indeg(h1.wg(), t) + #[trigger] count(v0, t),
                forall|t: usize| t < n ==> indeg(h0.wg(), t) <= #[trigger] h0.wext@[t as int],
                forall|t: usize| t < n ==> meta_ok(
                    #[trigger] self.metadata@[t as int],
                    self.wext@[t as int],
                    self.allocated@[t as int],
                    self.markers@[t as int]@.allocated_for_metadata,
                ),
                forall|t: usize| t < n && count(v0, t) == 0 ==> #[trigger] self.metadata@[t as int] == h0.metadata@[t as int],
                forall|t: usize| t < n && h0.allocated@[t as int] ==> (#[trigger] self.metadata@[t as int] is Some
                    <==> h0.metadata@[t as int] is Some),
                h0.allocated@ == h1.allocated@,
                forall|t: usize| t < n ==> meta_ok(
                    #[trigger] h0.metadata@[t as int],
                    h0.wext@[t as int],
                    h0.allocated@[t as int],
                    h0.markers@[t as int]@.allocated_for_metadata,
                ),
            decreases v@.len(),
        {
            let ghost before = v@;
            let ghost hb = *self;
            let t = v.pop().unwrap();
            proof {
                assert(before == v@.push(t));
                assert(before[before.len() - 1] == t);
                assert forall|u: usize| #[trigger] count(before, u) == count(v@, u) + (if t == u { 1nat } else { 0nat }) by {
                    crate::graph::lemma_count_push(v@, t, u);
                }
                assert(t < n);
                assert(count(before, t) >= 1);
                assert(meta_ok(
                    self.metadata@[t as int],
                    self.wext@[t as int],
                    self.allocated@[t as int],
                    self.markers@[t as int]@.allocated_for_metadata,
                ));
            }
            let mut w = self.metadata[t].unwrap();
            let _ = w.decrement_counter();
            if w.counter() == 0 && !w.is_accessible() {
                self.metadata.set(t, None);
            } else {
                self.metadata.set(t, Some(w));
            }
            self.wext = Ghost(self.wext@.update(t as int, (self.wext@[t as int] - 1) as nat));
            proof {
                assert forall|u: usize| u < n implies meta_ok(
                    #[trigger] self.metadata@[u as int],
                    self.wext@[u as int],
                    self.allocated@[u as int],
                    self.markers@[u as int]@.allocated_for_metadata,
                ) by {
                    assert(meta_ok(
                        hb.metadata@[u as int],
                        hb.wext@[u as int],
                        hb.allocated@[u as int],
                        hb.markers@[u as int]@.allocated_for_metadata,
                    ));
                }
            }
        }
        proof {
            assert(v@ =~= Seq::<usize>::empty());
            assert forall|t: usize| t < n implies indeg(self.wg(), t) <= #[trigger] self.wext@[t as int] by {
                assert(count(Seq::<usize>::empty(), t) == 0);
                assert(self.wg() == h1.wg());
            }
            assert forall|t: usize| t < n implies #[trigger] self.weak_held(t) == h0.weak_held(t) by {
                assert(count(Seq::<usize>::empty(), t) == 0);
                assert(self.wg() == h1.wg());
            }
            assert forall|t: usize| t < n implies #[trigger] self.wext@[t as int] == h0.wext@[t as int]
                - count(h0.weak_children@[y as int]@, t) by {
                assert(count(Seq::<usize>::empty(), t) == 0);
            }
            assert forall|x: usize, j: int| x < n && 0 <= j < self.weak_children@[x as int]@.len()
                implies #[trigger] self.weak_children@[x as int]@[j] < n by {
                assert(x != y);
                assert(self.weak_children@[x as int] == h0.weak_children@[x as int]);
            }
            assert forall|x: usize| x < n && (#[trigger] self.elems@[x as int]) is None implies self.children@[x as int]@.len()
                == 0 && self.weak_children@[x as int]@.len() == 0 by {
                if x != y {
                    assert(self.weak_children@[x as int] == h0.weak_children@[x as int]);
                }
            }
            assert forall|x: usize| x < n && !(#[trigger] self.allocated@[x as int]) implies {
                &&& self.markers@[x as int]@.finalized || self.taken@.contains(x)
                &&& self.links@[x as int] == Link::empty()
                &&& self.children@[x as int]@.len() == 0
                &&& self.ext@[x as int] == 0
                &&& self.elems@[x as int] is None
                &&& count(p, x) == 0
            } by {
                assert(!h0.allocated@[x as int]);
            }
        }
    }
}

impl<T: Finalize> CcHeap<T> {
    /// Releases one reference to `y`: decrements its counter and, when it was the last one,
    /// finalizes (if needed), drops and deallocates it, returning the references its element held.
    #[verifier::rlimit(60)]
    #[verifier::spinoff_prover]
    fn drop_step(&mut self, y: usize, Ghost(p): Ghost<Seq<usize>>) -> (released: Vec<usize>)
        requires
            old(self).inv(p.push(y)),
            old(self).dropped_in_list(),
        ensures
            final(self).inv(p + released@),
            old(self).pc_tc_zero() ==> final(self).pc_tc_zero(),
            old(self).referenced() ==> final(self).referenced(),
            final(self).dropped_in_list(),
            final(self).drop_frame(old(self)),
            total_edges(final(self).g(), final(self).n() as int) + released@.len() == total_edges(
                old(self).g(),
                old(self).n() as int,
            ),
            old(self).cm(y).mark != Mark::InList && old(self).cm(y).mark != Mark::InQueue
                && old(self).cm(y).counter == 1 ==> final(self).allocated@ == old(self).allocated@.update(y as int, false),
            old(self).cm(y).mark != Mark::InList && old(self).cm(y).mark != Mark::InQueue
                && old(self).cm(y).counter != 1 ==> final(self).allocated@[y as int]
                && final(self).cm(y).counter == old(self).cm(y).counter - 1
                && final(self).possible_cycles.seq().contains(y),
            old(self).cm(y).mark != Mark::InList && old(self).cm(y).mark != Mark::InQueue
                && old(self).cm(y).counter != 1 ==> {
                &&& final(self).cm(y).finalized == old(self).cm(y).finalized
                &&& forall|z: usize| z < old(self).n() && z != y ==> #[trigger] final(self).markers@[z as int]
                    == old(self).markers@[z as int]
                &&& final(self).possible_cycles.seq().to_set() == old(self).possible_cycles.seq().to_set().insert(y)
                &&& final(self).possible_cycles.seq().len() == old(self).possible_cycles.seq().len() + (if old(
                    self,
                ).possible_cycles.seq().contains(y) {
                    0int
                } else {
                    1int
                })
            },
            old(self).cm(y).counter != 1 || old(self).cm(y).mark == Mark::InList || old(self).cm(y).mark
                == Mark::InQueue ==> released@.len() == 0,
            old(self).cm(y).counter != 1 || old(self).cm(y).mark == Mark::InList || old(self).cm(y).mark
                == Mark::InQueue ==> final(self).allocated@ == old(self).allocated@ && final(self).children@
                == old(self).children@,
    {
        let ghost g0 = self.g();
        let ghost n = self.n();
        proof {
            assert(p.push(y)[p.len() as int] == y);
            assert forall|i: int| 0 <= i < p.len() implies #[trigger] p[i] == p.push(y)[i] by {}
            assert(self.allocated@[y as int]);
            crate::graph::lemma_count_push(p, y, y);
            assert forall|z: usize| #[trigger] count(p.push(y), z) == count(p, z) + (if y == z {
                1nat
            } else {
                0nat
            }) by {
                crate::graph::lemma_count_push(p, y, z);
            }
        }
        if self.markers[y].is_in_list_or_queue() {
            let _ = self.markers[y].decrement_counter();
            proof {
                assert(p + Seq::<usize>::empty() =~= p);
                lemma_inv_marker_update(old(self), self, p.push(y), p, y);
            }
            return Vec::new();
        }
        if self.markers[y].counter() == 1 {
            if self.markers[y].needs_finalization() {
                let old_finalizing = self.state.is_finalizing();
                self.state.set_finalizing(true);
                self.markers[y].set_finalized(true);
                self.call_finalizer(y);
                self.state.set_finalizing(old_finalizing);
                proof {
                    lemma_inv_marker_update(old(self), self, p.push(y), p.push(y), y);
                }
            }
            let ghost h_pre = *self;
            self.release_weak_children(y, Ghost(p.push(y)));
            let ghost h1 = *self;
            let _ = self.markers[y].decrement_counter();
            proof {
                lemma_inv_marker_update(&h1, self, p.push(y), p, y);
            }
            self.remove_from_list(y, Ghost(p));
            let ghost h2 = *self;
            proof {
                crate::graph::lemma_num_true_update(h2.allocated@, h2.n() as int, y as int, false);
                lemma_mul_succ(h2.box_size, h2.num_allocated());
                assert(h2.state.allocated_bytes >= h2.box_size);
            }
            let old_dropping = self.state.is_dropping();
            self.state.set_dropping(true);
            self.markers[y].set_dropped(true);
            let mut released: Vec<usize> = Vec::new();
            std::mem::swap(&mut released, &mut self.children[y]);
            self.elems[y] = None;
            self.drop_metadata(y);
            self.allocated[y] = false;
            self.state.record_deallocation(self.box_size);
            self.state.set_dropping(old_dropping);
            proof {
                lemma_free(&h2, self, p, y, released@);
                assert(self.wg() == h1.wg());
                assert(h_pre.wg() == old(self).wg());
                assert forall|t: usize| t < self.n() implies #[trigger] self.weak_held(t) == old(self).weak_held(t) by {
                    assert(h1.weak_held(t) == h_pre.weak_held(t));
                }
                assert forall|x: usize| x < self.n() && #[trigger] self.allocated@[x as int] implies (self.metadata@[x as int] is Some
                    <==> old(self).metadata@[x as int] is Some) && self.weak_children@[x as int] == old(self).weak_children@[x as int] by {
                    assert(x != y);
                    assert(self.metadata@[x as int] == h1.metadata@[x as int]);
                    assert(h_pre.metadata@[x as int] == old(self).metadata@[x as int]);
                }
            }
            released
        } else {
            let _ = self.markers[y].decrement_counter();
            proof {
                lemma_inv_marker_update(old(self), self, p.push(y), p, y);
            }
            let ghost h1 = *self;
            self.add_to_list(y, Ghost(p));
            proof {
                assert(p + Seq::<usize>::empty() =~= p);
                assert(self.possible_cycles.seq().contains(y)) by {
                    assert(self.possible_cycles.seq().to_set().contains(y));
                }
            }
            Vec::new()
        }
    }
}

impl<T: Finalize> CcHeap<T> {
    /// Releases all the references in `pending`, and those that the deallocations release in turn.
    pub(crate) fn drop_pending(&mut self, pending: Vec<usize>)
        requires
            old(self).inv(pending@),
            old(self).dropped_in_list(),
        ensures
            final(self).inv(Seq::empty()),
            old(self).pc_tc_zero() ==> final(self).pc_tc_zero(),
            old(self).referenced() ==> final(self).referenced(),
            final(self).dropped_in_list(),
            final(self).drop_frame(old(self)),
            forall|s: Set<usize>| #[trigger] supported(old(self), old(self).ext@, s) ==> forall|x: usize|
                #[trigger] s.contains(x) ==> final(self).allocated@[x as int],
    {
        let mut pending = pending;
        let ghost h0 = *self;
        proof {
            lemma_drop_frame_refl(&h0);
        }
        while pending.len() > 0
            invariant
                self.inv(pending@),
                h0.pc_tc_zero() ==> self.pc_tc_zero(),
                h0.referenced() ==> self.referenced(),
                self.dropped_in_list(),
                self.drop_frame(&h0),
                h0.children@.len() == h0.n(),
                forall|s: Set<usize>| #[trigger] supported(&h0, h0.ext@, s) ==> forall|x: usize|
                    #[trigger] s.contains(x) ==> self.allocated@[x as int],
            decreases total_edges(self.g(), self.n() as int) + pending@.len(),
        {
            let ghost before = *self;
            let ghost pend = pending@;
            let y = pending.pop().unwrap();
            proof {
                assert(pend == pending@.push(y));
            }
            let ghost rest = pending@;
            let mut released = self.drop_step(y, Ghost(pending@));
            pending.append(&mut released);
            proof {
                lemma_drop_frame_trans(&h0, &before, self);
                assert forall|s: Set<usize>| #[trigger] supported(&h0, h0.ext@, s) implies forall|x: usize|
                    #[trigger] s.contains(x) ==> self.allocated@[x as int] by {
                    lemma_supported_frame(&h0, &before, s);
                    lemma_step_keeps_supported(&before, self, y, rest, s);
                }
            }
        }
    }
}

/// What dropping the handle to `x` guarantees: the heap is well formed, one handle to `x`
/// fewer, and the allocations that survive are unchanged.
pub open spec fn handle_dropped<T>(new: &CcHeap<T>, old: &CcHeap<T>, x: usize) -> bool {
    &&& new.wf()
    &&& new.ext@ == old.ext@.update(x as int, (old.ext@[x as int] - 1) as nat)
    &&& forall|t: usize| t < old.n() ==> #[trigger] new.weak_held(t) == old.weak_held(t)
    &&& new.taken@ == old.taken@
    &&& survivors_unchanged(new, old)
}

impl Cc {
    /// Drops this handle, decrementing the reference counter of the allocation.
    ///
    /// When it was the last reference, the element is finalized (unless already finalized),
    /// dropped (releasing the references it held) and deallocated; otherwise the allocation
    /// is buffered as a possible member of a garbage cycle.
    pub fn drop<T: Finalize>(self, heap: &mut CcHeap<T>)
        requires
            old(heap).wf(),
            old(heap).valid(&self),
        ensures
            handle_dropped(final(heap), old(heap), self@),
            final(heap).state.executions_counter == old(heap).state.executions_counter,
            old(heap).cm(self@).counter == 1 ==> !final(heap).is_live(self@),
            old(heap).cm(self@).counter != 1 ==> final(heap).is_live(self@) && final(heap).cm(self@).counter
                == old(heap).cm(self@).counter - 1 && final(heap).possible_cycles.seq().contains(self@),
            old(heap).cm(self@).counter != 1 ==> final(heap).allocated@ == old(heap).allocated@
                && final(heap).children@ == old(heap).children@,
            old(heap).cm(self@).counter == 1 ==> final(heap).cm(self@).finalized,
            old(heap).cm(self@).counter == 1 ==> final(heap).finalizer_calls@(self@) == old(heap).finalizer_calls@(self@)
                + if old(heap).cm(self@).finalized {
                0nat
            } else {
                1nat
            },
            forall|z: usize| #[trigger] final(heap).finalizer_calls@(z) == finalizer_calls_after(final(heap), old(heap), z),
            forall|z: usize| #[trigger] final(heap).is_live(z) ==> final(heap).cm(z).finalized == old(heap).cm(z).finalized,
            forall|s: Set<usize>| #[trigger] supported(old(heap), final(heap).ext@, s) ==> forall|y: usize|
                #[trigger] s.contains(y) ==> final(heap).is_live(y),
            old(heap).cm(self@).counter != 1 ==> {
                &&& final(heap).cm(self@).finalized == old(heap).cm(self@).finalized
                &&& forall|z: usize| z < old(heap).n() && z != self@ ==> #[trigger] final(heap).markers@[z as int]
                    == old(heap).markers@[z as int]
                &&& final(heap).possible_cycles.seq().to_set() == old(heap).possible_cycles.seq().to_set().insert(self@)
                &&& final(heap).possible_cycles.seq().len() == old(heap).possible_cycles.seq().len() + (if old(
                    heap,
                ).possible_cycles.seq().contains(self@) {
                    0int
                } else {
                    1int
                })
            },
    {
        let x = self.index;
        heap.ext = Ghost(heap.ext@.update(x as int, (heap.ext@[x as int] - 1) as nat));
        proof {
            let p = Seq::<usize>::empty().push(x);
            crate::graph::lemma_count_single(x, x);
            assert(p =~= seq![x]);
            assert forall|z: usize| #[trigger] count(p, z) == (if z == x { 1nat } else { 0nat }) by {
                crate::graph::lemma_count_single(x, z);
            }
            assert forall|z: usize| z < heap.n() && heap.allocated@[z as int] implies (#[trigger] heap.markers@[z as int])@.counter
                == indeg(heap.g(), z) + heap.ext@[z as int] + count(p, z) by {
                assert(old(heap).markers@[z as int]@.counter == indeg(old(heap).g(), z) + old(heap).ext@[z as int] + count(Seq::empty(), z));
            }
            assert forall|z: usize| z < heap.n() && !(#[trigger] heap.allocated@[z as int]) implies count(p, z) == 0 by {}
            assert(heap.dropped_in_list());
        }
        let ghost he = *heap;
        let mut released = heap.drop_step(x, Ghost(Seq::empty()));
        let ghost mid = *heap;
        proof {
            assert(Seq::<usize>::empty() + released@ =~= released@);
        }
        if released.len() > 0 {
            heap.drop_pending(released);
            proof {
                assert(!mid.allocated@[x as int]);
            }
        }
        proof {
            if released.len() > 0 {
                lemma_drop_frame_trans(&he, &mid, heap);
            }
            assert forall|z: usize| #[trigger] heap.finalizer_calls@(z) == finalizer_calls_after(heap, old(heap), z) by {
                assert(heap.finalizer_calls@(z) == finalizer_calls_after(heap, &he, z));
            }
            assert(he.g() =~= old(heap).g());
            assert forall|s: Set<usize>| #[trigger] supported(old(heap), heap.ext@, s) implies forall|y: usize|
                #[trigger] s.contains(y) ==> heap.is_live(y) by {
                assert(supported(&he, he.ext@, s));
                lemma_step_keeps_supported(&he, &mid, x, Seq::empty(), s);
                if released.len() > 0 {
                    lemma_supported_frame(&he, &mid, s);
                }
            }
        }
        proof {
            if !heap.allocated@[x as int] {
                assert(!old(heap).taken@.contains(x));
                assert(!heap.taken@.contains(x));
            }
        }
    }
}

/// The external handle counts after the handles `returned` have been handed out.
pub open spec fn ext_after_return(ext: Seq<nat>, returned: Seq<usize>) -> Seq<nat> {
    Seq::new(ext.len(), |x: int| ext[x] + count(returned, x as usize))
}

/// Handing the pending references out as handles keeps the invariant.
pub proof fn lemma_pending_to_ext<T>(old: &CcHeap<T>, new: &CcHeap<T>, p: Seq<usize>)
    requires
        old.inv(p),
        new.links@ == old.links@,
        new.markers@ == old.markers@,
        new.elems@ == old.elems@,
        new.children@ == old.children@,
        new.allocated@ == old.allocated@,
        new.metadata@ == old.metadata@,
        new.box_size == old.box_size,
        new.state.allocated_bytes == old.state.allocated_bytes,
        new.possible_cycles == old.possible_cycles,
        new.ext@ == ext_after_return(old.ext@, p),
        new.wext@ == old.wext@,
        new.weak_children@ == old.weak_children@,
        new.taken@ == old.taken@,
    ensures
        new.inv(Seq::empty()),
        old.pc_tc_zero() ==> new.pc_tc_zero(),
{
    assert(new.wg() =~= old.wg());
    assert(new.g() == old.g());
    assert forall|x: usize| x < new.n() && new.allocated@[x as int] implies (#[trigger] new.markers@[x as int])@.counter
        == indeg(new.g(), x) + new.ext@[x as int] + count(Seq::<usize>::empty(), x) by {
        assert(old.markers@[x as int]@.counter == indeg(old.g(), x) + old.ext@[x as int] + count(p, x));
    }
    assert forall|x: usize| x < new.n() && !(#[trigger] new.allocated@[x as int]) implies new.ext@[x as int] == 0 by {
        assert(old.links@[x as int] == Link::empty());
    }
    lemma_meta_same(old, new);
}

impl Cc {
    /// Moves the indices `v` into handles, in order.
    fn from_indices(v: Vec<usize>) -> (r: Vec<Cc>)
        ensures
            indices(r@) == v@,
    {
        let mut r: Vec<Cc> = Vec::new();
        let mut i: usize = 0;
        while i < v.len()
            invariant
                i <= v@.len(),
                r@.len() == i,
                indices(r@) == v@.take(i as int),
            decreases v@.len() - i,
        {
            let ghost r0 = r@;
            let c = Cc::from_index(v[i]);
            r.push(c);
            proof {
                assert(r@ == r0.push(c));
                assert forall|j: int| 0 <= j < i + 1 implies #[trigger] indices(r@)[j] == v@.take(i + 1)[j] by {
                    if j < i {
                        assert(r@[j] == r0[j]);
                        assert(indices(r0)[j] == v@.take(i as int)[j]);
                    }
                }
                assert(indices(r@) =~= v@.take(i + 1));
            }
            i = i + 1;
        }
        proof {
            assert(v@.take(v@.len() as int) =~= v@);
        }
        r
    }

    /// Returns the element, with the handles it owned, if this is the only reference to
    /// the allocation and neither a collection nor a finalizer is running; the allocation is
    /// then deallocated without finalizing or dropping the element. Otherwise gives this
    /// handle back.
    pub fn try_unwrap<T>(self, heap: &mut CcHeap<T>) -> (r: Result<(T, Vec<Cc>, Vec<crate::weak::Weak>), Cc>)
        requires
            old(heap).inv(Seq::empty()),
            old(heap).valid(&self),
            !old(heap).state.collecting && !old(heap).state.dropping ==> old(heap).wf_alloc(),
        ensures
            final(heap).inv(Seq::empty()),
            !old(heap).state.collecting && !old(heap).state.dropping ==> final(heap).wf_alloc(),
            final(heap).state.finalizing == old(heap).state.finalizing,
            final(heap).state.collecting == old(heap).state.collecting,
            final(heap).state.dropping == old(heap).state.dropping,
            final(heap).n() == old(heap).n(),
            old(heap).cm(self@).counter != 1 || old(heap).state.finalizing || old(heap).state.collecting
                || old(heap).state.dropping ==> (r matches Err(c) && c@ == self@ && *final(heap) == *old(heap)),
            old(heap).cm(self@).counter == 1 && !old(heap).state.finalizing && !old(heap).state.collecting
                && !old(heap).state.dropping ==> (r matches Ok((t, handles, weaks)) && {
                &&& old(heap).elems@[self@ as int] == Some(t)
                &&& indices(handles@) == old(heap).children@[self@ as int]@
                &&& weaks@.len() == old(heap).weak_children@[self@ as int]@.len()
                &&& forall|i: int| 0 <= i < weaks@.len() ==> (#[trigger] weaks@[i])@ == Some(
                    old(heap).weak_children@[self@ as int]@[i])
                &&& forall|i: int| 0 <= i < weaks@.len() ==> final(heap).weak_valid(#[trigger] &weaks@[i])
                &&& forall|i: int| 0 <= i < handles@.len() ==> final(heap).valid(#[trigger] &handles@[i])
                &&& !final(heap).is_live(self@)
                &&& final(heap).ext@ == ext_after_return(
                    old(heap).ext@.update(self@ as int, 0),
                    old(heap).children@[self@ as int]@,
                )
                &&& forall|x: usize| x < final(heap).n() && x != self@ ==> {
                    &&& final(heap).allocated@[x as int] == old(heap).allocated@[x as int]
                    &&& #[trigger] final(heap).elems@[x as int] == old(heap).elems@[x as int]
                    &&& final(heap).children@[x as int] == old(heap).children@[x as int]
                    &&& final(heap).cm(x).counter == old(heap).cm(x).counter
                }
                &&& final(heap).state.allocated_bytes == old(heap).state.allocated_bytes - old(heap).box_size
                &&& final(heap).state.executions_counter == old(heap).state.executions_counter
                &&& final(heap).taken@ == old(heap).taken@.insert(self@)
                &&& final(heap).wext@ == old(heap).wext@
                &&& meta_dropped(old(heap).metadata@[self@ as int], final(heap).metadata@[self@ as int])
                &&& forall|x: usize| x < final(heap).n() && x != self@ ==> #[trigger] final(heap).metadata@[x as int]
                    == old(heap).metadata@[x as int]
                &&& forall|x: usize| x < final(heap).n() && x != self@ ==> #[trigger] final(heap).cm(x) == old(heap).cm(x)
                &&& final(heap).possible_cycles.seq().to_set() == old(heap).possible_cycles.seq().to_set().remove(self@)
            }),
    {
        let x = self.index;
        if heap.markers[x].counter() != 1 {
            return Err(self);
        }
        if heap.state.is_collecting() || heap.state.is_dropping() || heap.state.is_finalizing() {
            return Err(self);
        }
        let ghost hw = *heap;
        let mut wv: Vec<usize> = Vec::new();
        std::mem::swap(&mut wv, &mut heap.weak_children[x]);
        proof {
            lemma_weak_children_taken(&hw, heap, x);
        }
        let ghost h0 = *heap;
        proof {
            assert(h0.markers@[x as int]@.counter == indeg(h0.g(), x) + h0.ext@[x as int] + count(Seq::<usize>::empty(), x));
        }
        heap.ext = Ghost(heap.ext@.update(x as int, 0));
        let ghost h1 = *heap;
        proof {
            let p = seq![x];
            assert forall|z: usize| #[trigger] count(p, z) == (if z == x { 1nat } else { 0nat }) by {
                crate::graph::lemma_count_single(x, z);
            }
            assert forall|z: usize| z < heap.n() && heap.allocated@[z as int] implies (#[trigger] heap.markers@[z as int])@.counter
                == indeg(heap.g(), z) + heap.ext@[z as int] + count(p, z) by {
                assert(h0.markers@[z as int]@.counter == indeg(h0.g(), z) + h0.ext@[z as int] + count(Seq::<usize>::empty(), z));
            }
            assert forall|z: usize| z < heap.n() && !(#[trigger] heap.allocated@[z as int]) implies count(p, z) == 0 by {}
            assert forall|z: usize| z < heap.n() implies meta_ok(
                #[trigger] heap.metadata@[z as int],
                heap.wext@[z as int],
                heap.allocated@[z as int],
                heap.markers@[z as int]@.allocated_for_metadata,
            ) by {
                assert(meta_ok(
                    h0.metadata@[z as int],
                    h0.wext@[z as int],
                    h0.allocated@[z as int],
                    h0.markers@[z as int]@.allocated_for_metadata,
                ));
            }
            assert(heap.inv(p));
        }
        let _ = heap.markers[x].decrement_counter();
        proof {
            lemma_inv_marker_update(&h1, heap, seq![x], Seq::empty(), x);
        }
        let ghost h15 = *heap;
        heap.remove_from_list(x, Ghost(Seq::empty()));
        let ghost h2 = *heap;
        proof {
            crate::graph::lemma_num_true_update(h2.allocated@, h2.n() as int, x as int, false);
            lemma_mul_succ(h2.box_size, h2.num_allocated());
            lemma_remove_to_set(h15.possible_cycles.seq(), h2.possible_cycles.seq(), x);
            assert forall|z: usize| z < h2.n() && z != x implies #[trigger] h2.markers@[z as int] == h0.markers@[z as int] by {
                assert(h15.markers@[z as int] == h1.markers@[z as int]);
            }
        }
        let mut released: Vec<usize> = Vec::new();
        std::mem::swap(&mut released, &mut heap.children[x]);
        let t = heap.elems[x].take().unwrap();
        heap.drop_metadata(x);
        heap.allocated[x] = false;
        heap.state.record_deallocation(heap.box_size);
        heap.taken = Ghost(heap.taken@.insert(x));
        proof {
            lemma_free(&h2, heap, Seq::empty(), x, released@);
            assert(Seq::<usize>::empty() + released@ =~= released@);
        }
        let ghost h3 = *heap;
        heap.ext = Ghost(ext_after_return(heap.ext@, released@));
        proof {
            lemma_pending_to_ext(&h3, heap, released@);
            assert forall|i: int| 0 <= i < released@.len() implies heap.ext@[released@[i] as int] >= 1 by {
                assert(h2.children@[x as int]@[i] == released@[i]);
                crate::graph::lemma_count_contains(released@, released@[i]);
                assert(released@.contains(released@[i]));
            }
            assert forall|z: usize| z < heap.n() && z != x implies #[trigger] heap.elems@[z as int] == h0.elems@[z as int] by {}
        }
        let handles = Cc::from_indices(released);
        proof {
            assert forall|i: int| 0 <= i < handles@.len() implies heap.valid(#[trigger] &handles@[i]) by {
                assert(handles@[i]@ == released@[i]);
                assert(h2.children@[x as int]@[i] == released@[i]);
            }
        }
        let mut weaks: Vec<crate::weak::Weak> = Vec::new();
        let mut k: usize = 0;
        while k < wv.len()
            invariant
                k <= wv@.len(),
                weaks@.len() == k,
                forall|i: int| 0 <= i < k ==> (#[trigger] weaks@[i])@ == Some(wv@[i]),
            decreases wv@.len() - k,
        {
            weaks.push(crate::weak::Weak::from_target(wv[k]));
            k = k + 1;
        }
        proof {
            assert forall|i: int| 0 <= i < weaks@.len() implies heap.weak_valid(#[trigger] &weaks@[i]) by {
                let t = wv@[i];
                assert(hw.weak_children@[x as int]@ == wv@);
                assert(wv@.contains(t));
                crate::graph::lemma_count_contains(wv@, t);
                assert(t < heap.n());
                assert(heap.wext@ == h0.wext@);
                assert(heap.weak_children@ == h0.weak_children@);
                assert(heap.wg() == h0.wg());
                assert(indeg(hw.wg(), t) <= hw.wext@[t as int]);
                assert(h0.weak_held(t) == hw.weak_held(t) + count(wv@, t));
            }
        }
        Ok((t, handles, weaks))
    }
}

/// Cloning a handle and then dropping the clone deallocates nothing and leaves every
/// handle count and every reference counter as it was.
pub proof fn law_clone_then_drop<T>(h0: &CcHeap<T>, h1: &CcHeap<T>, h2: &CcHeap<T>, x: usize)
    requires
        h0.wf(),
        h0.is_live(x),
        h0.ext@[x as int] >= 1,
        h1.wf(),
        h1.ext@ == h0.ext@.update(x as int, h0.ext@[x as int] + 1),
        h1.elems@ == h0.elems@,
        h1.children@ == h0.children@,
        h1.allocated@ == h0.allocated@,
        h1.cm(x).counter == h0.cm(x).counter + 1,
        handle_dropped(h2, h1, x),
        h1.cm(x).counter != 1 ==> h2.allocated@ == h1.allocated@ && h2.children@ == h1.children@,
    ensures
        h2.ext@ == h0.ext@,
        h2.allocated@ == h0.allocated@,
        h2.elems@ == h0.elems@,
        forall|y: usize| #[trigger] h2.is_live(y) ==> h2.cm(y).counter == h0.cm(y).counter,
{
    assert(h2.ext@ =~= h0.ext@);
    assert(h2.g() =~= h0.g());
    assert forall|y: usize| #[trigger] h2.is_live(y) implies h2.cm(y).counter == h0.cm(y).counter by {
        assert(h2.markers@[y as int]@.counter == indeg(h2.g(), y) + h2.ext@[y as int] + count(Seq::<usize>::empty(), y));
        assert(h0.markers@[y as int]@.counter == indeg(h0.g(), y) + h0.ext@[y as int] + count(Seq::<usize>::empty(), y));
    }
    assert forall|y: usize| y < h2.n() implies #[trigger] h2.elems@[y as int] == h0.elems@[y as int] by {
        if !h2.allocated@[y as int] {
            assert(!h0.allocated@[y as int]);
        }
    }
    assert(h2.elems@ =~= h0.elems@);
}

/// The allocated bytes recorded by the collector are the bytes of the allocations that
/// are still allocated.
pub proof fn law_allocated_bytes<T>(h: &CcHeap<T>)
    requires
        h.wf(),
    ensures
        h.state.allocated_bytes == h.box_size * h.num_allocated(),
        h.num_allocated() <= h.n(),
{
    crate::graph::lemma_num_true_bound(h.allocated@, h.n() as int);
}

/// A heap whose allocations were all allocated in `old` records no more bytes than `old`.
pub proof fn lemma_num_allocated_le<T>(new: &CcHeap<T>, old: &CcHeap<T>)
    requires
        new.wf(),
        old.wf(),
        new.n() == old.n(),
        new.box_size == old.box_size,
        forall|x: usize| x < new.n() && #[trigger] new.allocated@[x as int] ==> old.allocated@[x as int],
    ensures
        new.state.allocated_bytes <= old.state.allocated_bytes,
{
    assert forall|i: int| 0 <= i < new.n() && #[trigger] new.allocated@[i] implies old.allocated@[i] by {
        assert(new.allocated@[i as usize as int]);
    }
    crate::graph::lemma_num_true_mono(new.allocated@, old.allocated@, new.n() as int);
    let a = new.num_allocated();
    let b = old.num_allocated();
    let s = new.box_size;
    assert(s * a <= s * b) by (nonlinear_arith)
        requires
            a <= b,
    ;
}

/// Every deallocated allocation was finalized first, unless its element was taken back by
/// [`Cc::try_unwrap`].
pub proof fn law_deallocated_were_finalized<T>(h: &CcHeap<T>)
    requires
        h.inv(Seq::empty()),
    ensures
        forall|x: usize| x < h.n() && !h.allocated@[x as int] && !h.taken@.contains(x) ==> #[trigger] h.cm(x).finalized,
{
    assert forall|x: usize| x < h.n() && !h.allocated@[x as int] && !h.taken@.contains(x) implies #[trigger] h.cm(x).finalized by {
        assert(!h.allocated@[x as int]);
    }
}

/// An allocation is deallocated as soon as nothing refers to it any more: between two
/// operations, every allocated allocation is referred to by a handle or by an element.
pub proof fn law_allocated_are_referenced<T>(h: &CcHeap<T>)
    requires
        h.wf(),
    ensures
        forall|x: usize| #[trigger] h.is_live(x) ==> indeg(h.g(), x) + h.ext@[x as int] >= 1,
{
    assert forall|x: usize| #[trigger] h.is_live(x) implies indeg(h.g(), x) + h.ext@[x as int] >= 1 by {
        assert(h.markers@[x as int]@.counter == indeg(h.g(), x) + h.ext@[x as int] + count(Seq::<usize>::empty(), x));
        assert(h.markers@[x as int]@.mark == Mark::NonMarked || h.markers@[x as int]@.mark == Mark::PossibleCycles);
    }
}

/// Dropping the last reference to an allocation also deallocates what only it referred
/// to: an allocation without a handle, which no other allocation refers to, goes with it.
pub proof fn law_drop_frees_what_only_it_held<T>(new: &CcHeap<T>, old: &CcHeap<T>, x: usize, y: usize)
    requires
        old.wf(),
        old.is_live(x),
        handle_dropped(new, old, x),
        !new.is_live(x),
        y < old.n(),
        old.ext@[y as int] == 0,
        forall|z: usize| z < old.n() && z != x ==> !(#[trigger] old.g()[z as int]).contains(y),
    ensures
        !new.is_live(y),
{
    if new.is_live(y) && y != x {
        law_allocated_are_referenced(new);
        assert(new.ext@[y as int] == old.ext@[y as int]);
        let n = new.n();
        let g = new.g();
        assert forall|z: usize| 0 <= z < n && Set::<usize>::full().contains(z) implies !(#[trigger] g[z as int]).contains(y) by {
            if g[z as int].contains(y) {
                if new.allocated@[z as int] {
                    assert(new.children@[z as int] == old.children@[z as int]);
                    assert(old.g()[z as int] == g[z as int]);
                } else {
                    assert(new.children@[z as int]@.len() == 0);
                }
            }
        }
        crate::graph::lemma_into_zero_rev(g, Set::full(), n as int, y);
    }
}

/// Dropping the element of an allocation that stays allocated releases the references it held.
pub proof fn lemma_drop_elem<T>(old: &CcHeap<T>, new: &CcHeap<T>, y: usize, released: Seq<usize>)
    requires
        old.inv(Seq::empty()),
        y < old.n(),
        old.allocated@[y as int],
        old.cm(y).mark == Mark::InList,
        released == old.children@[y as int]@,
        new.links@ == old.links@,
        new.markers@.len() == old.markers@.len(),
        forall|z: int| 0 <= z < old.n() && z != y ==> #[trigger] new.markers@[z] == old.markers@[z],
        new.cm(y).mark == Mark::InList,
        new.cm(y).counter == old.cm(y).counter,
        new.cm(y).allocated_for_metadata == old.cm(y).allocated_for_metadata,
        new.elems@ == old.elems@.update(y as int, None),
        new.children@.len() == old.children@.len(),
        forall|z: int| 0 <= z < old.n() && z != y ==> #[trigger] new.children@[z] == old.children@[z],
        new.children@[y as int]@ == Seq::<usize>::empty(),
        new.allocated@ == old.allocated@,
        new.metadata@ == old.metadata@,
        new.box_size == old.box_size,
        new.state.allocated_bytes == old.state.allocated_bytes,
        new.possible_cycles == old.possible_cycles,
        new.ext@ == old.ext@,
        new.wext@ == old.wext@,
        new.weak_children@ == old.weak_children@,
        old.weak_children@[y as int]@.len() == 0,
        new.taken@ == old.taken@,
    ensures
        new.inv(released),
        old.pc_tc_zero() ==> new.pc_tc_zero(),
{
    assert(new.wg() =~= old.wg());
    let n = old.n();
    let g = old.g();
    assert forall|x: usize| x < n implies meta_ok(
        #[trigger] new.metadata@[x as int],
        new.wext@[x as int],
        new.allocated@[x as int],
        new.markers@[x as int]@.allocated_for_metadata,
    ) by {
        assert(meta_ok(
            old.metadata@[x as int],
            old.wext@[x as int],
            old.allocated@[x as int],
            old.markers@[x as int]@.allocated_for_metadata,
        ));
    }
    assert(new.g() =~= g.update(y as int, Seq::empty()));
    assert(Seq::<usize>::empty() + released =~= released);
    assert forall|x: usize| x < n && new.allocated@[x as int] implies (#[trigger] new.markers@[x as int])@.counter
        == indeg(new.g(), x) + new.ext@[x as int] + count(released, x) by {
        assert(old.markers@[x as int]@.counter == indeg(g, x) + old.ext@[x as int] + count(Seq::<usize>::empty(), x));
        crate::graph::lemma_into_update(g, Set::full(), n as int, x, y as int, Seq::empty());
    }
    assert forall|x: usize| x < n && new.allocated@[x as int] implies (#[trigger] new.markers@[x as int])@.counter <= MAX by {
        assert(old.markers@[x as int]@.counter <= MAX);
    }
    assert forall|x: usize| x < n && !(#[trigger] new.allocated@[x as int]) implies count(released, x) == 0 by {
        crate::graph::lemma_count_contains(released, x);
        if released.contains(x) {
            let j = released.index_of(x);
            assert(old.children@[y as int]@[j] == x);
        }
    }
    assert forall|x: usize, j: int|
        x < n && new.allocated@[x as int] && 0 <= j < new.children@[x as int]@.len()
        implies #[trigger] new.children@[x as int]@[j] < n && new.allocated@[new.children@[x as int]@[j] as int] by {
        assert(new.children@[x as int] == old.children@[x as int]);
    }
    assert forall|i: int| 0 <= i < released.len() implies #[trigger] released[i] < n && new.allocated@[released[i] as int] by {
        assert(old.children@[y as int]@[i] == released[i]);
    }
    assert forall|x: usize| x < n implies (new.possible_cycles.seq().contains(x) <==> (
        new.allocated@[x as int] && (#[trigger] new.markers@[x as int])@.mark == Mark::PossibleCycles)) by {
        assert(old.possible_cycles.seq().contains(x) <==> (old.allocated@[x as int] && old.markers@[x as int]@.mark
            == Mark::PossibleCycles));
    }
    if old.pc_tc_zero() {
        assert forall|x: usize| x < n && new.allocated@[x as int] && (#[trigger] new.markers@[x as int])@.mark
            == Mark::PossibleCycles implies new.markers@[x as int]@.tracing_counter == 0 by {
            assert(old.markers@[x as int]@.mark == new.markers@[x as int]@.mark);
        }
    }
    assert forall|x: usize| x < n && new.allocated@[x as int] && (#[trigger] new.markers@[x as int])@.mark
        == Mark::NonMarked implies new.links@[x as int] == Link::empty() by {
        assert(old.markers@[x as int]@.mark == new.markers@[x as int]@.mark);
    }
    assert forall|x: usize| x < n && new.allocated@[x as int] && (#[trigger] new.elems@[x as int]) is Some
        implies new.markers@[x as int]@.tracing_counter <= MAX by {
        assert(old.elems@[x as int] == new.elems@[x as int]);
    }
    assert forall|x: usize| x < n && (#[trigger] new.elems@[x as int]) is None implies new.children@[x as int]@.len() == 0 by {
        if x != y {
            assert(old.elems@[x as int] == new.elems@[x as int]);
        }
    }
    assert forall|x: usize| x < n && !(#[trigger] new.allocated@[x as int]) implies new.links@[x as int] == Link::empty() by {}
}

/// Deallocating a dropped allocation that nothing refers to keeps the invariant.
#[verifier::spinoff_prover]
#[verifier::rlimit(30)]
pub proof fn lemma_free_dropped<T>(old: &CcHeap<T>, new: &CcHeap<T>, y: usize)
    requires
        old.inv(Seq::empty()),
        y < old.n(),
        old.allocated@[y as int],
        old.cm(y).mark == Mark::InList,
        old.elems@[y as int] is None,
        old.ext@[y as int] == 0,
        forall|z: usize| z < old.n() && old.allocated@[z as int] ==> !(#[trigger] old.g()[z as int]).contains(y),
        new.links@ == old.links@.update(y as int, Link::empty()),
        new.markers@ == old.markers@,
        new.elems@ == old.elems@,
        new.children@ == old.children@,
        new.allocated@ == old.allocated@.update(y as int, false),
        new.metadata@.len() == old.metadata@.len(),
        forall|z: int| 0 <= z < old.n() && z != y ==> #[trigger] new.metadata@[z] == old.metadata@[z],
        meta_dropped(old.metadata@[y as int], new.metadata@[y as int]),
        new.box_size == old.box_size,
        new.state.allocated_bytes == old.state.allocated_bytes - old.box_size,
        new.possible_cycles == old.possible_cycles,
        new.ext@ == old.ext@,
        new.wext@ == old.wext@,
        new.weak_children@ == old.weak_children@,
        new.taken@ == old.taken@,
        old.cm(y).finalized,
    ensures
        new.inv(Seq::empty()),
        old.pc_tc_zero() ==> new.pc_tc_zero(),
{
    assert(new.wg() =~= old.wg());
    let n = old.n();
    let g = old.g();
    assert forall|x: usize| x < n implies meta_ok(
        #[trigger] new.metadata@[x as int],
        new.wext@[x as int],
        new.allocated@[x as int],
        new.markers@[x as int]@.allocated_for_metadata,
    ) by {
        assert(meta_ok(
            old.metadata@[x as int],
            old.wext@[x as int],
            old.allocated@[x as int],
            old.markers@[x as int]@.allocated_for_metadata,
        ));
    }
    assert(new.g() == g);
    crate::graph::lemma_num_true_update(old.allocated@, n as int, y as int, false);
    lemma_mul_succ(old.box_size, (old.num_allocated() - 1) as nat);
    let ps = old.possible_cycles.seq();
    assert(!ps.contains(y)) by {
        assert(old.possible_cycles.seq().contains(y) <==> (old.allocated@[y as int] && old.markers@[y as int]@.mark
            == Mark::PossibleCycles));
    }
    assert forall|i: int| 0 <= i < ps.len() implies new.links@[#[trigger] ps[i] as int] == old.links@[ps[i] as int] by {
        assert(ps.contains(ps[i]));
    }
    crate::lists::lemma_dl_frame(old.links@, new.links@, old.possible_cycles.first, ps);
    assert forall|x: usize| x < n && new.allocated@[x as int] implies (#[trigger] new.markers@[x as int])@.counter
        == indeg(new.g(), x) + new.ext@[x as int] + count(Seq::<usize>::empty(), x) by {
        assert(old.markers@[x as int]@.counter == indeg(g, x) + old.ext@[x as int] + count(Seq::<usize>::empty(), x));
    }
    assert forall|x: usize, j: int|
        x < n && new.allocated@[x as int] && 0 <= j < new.children@[x as int]@.len()
        implies #[trigger] new.children@[x as int]@[j] < n && new.allocated@[new.children@[x as int]@[j] as int] by {
        assert(g[x as int][j] == old.children@[x as int]@[j]);
        assert(!g[x as int].contains(y));
    }
    assert forall|x: usize| x < n && !(#[trigger] new.allocated@[x as int]) implies {
        &&& new.links@[x as int] == Link::empty()
        &&& new.children@[x as int]@.len() == 0
        &&& new.ext@[x as int] == 0
        &&& new.elems@[x as int] is None
        &&& count(Seq::<usize>::empty(), x) == 0
    } by {
        if x != y {
            assert(!old.allocated@[x as int]);
        }
    }
    assert forall|x: usize| x < n implies (new.possible_cycles.seq().contains(x) <==> (
        new.allocated@[x as int] && (#[trigger] new.markers@[x as int])@.mark == Mark::PossibleCycles)) by {
        assert(old.possible_cycles.seq().contains(x) <==> (old.allocated@[x as int] && old.markers@[x as int]@.mark
            == Mark::PossibleCycles));
    }
    assert forall|x: usize| x < n && new.allocated@[x as int] && (#[trigger] new.markers@[x as int])@.mark
        == Mark::NonMarked implies new.links@[x as int] == Link::empty() by {
        assert(x != y);
    }
}

impl<T: Finalize> CcHeap<T> {
    /// Runs the finalizer of the element of `x`, recording the call.
    fn call_finalizer(&mut self, x: usize)
        requires
            x < old(self).elems@.len(),
            old(self).elems@[x as int] is Some,
        ensures
            *final(self) == (CcHeap { finalizer_calls: Ghost(one_more_call(old(self).finalizer_calls@, x)), ..*old(self) }),
    {
        self.elems[x].as_ref().unwrap().finalize();
        self.finalizer_calls = Ghost(one_more_call(self.finalizer_calls@, x));
    }

    /// Finalizes the element of `ptr` unless it has already been finalized, returning
    /// whether it was finalized now.
    pub(crate) fn finalize_inner(&mut self, ptr: usize, Ghost(p): Ghost<Seq<usize>>) -> (b: bool)
        requires
            old(self).inv(p),
            ptr < old(self).n(),
            old(self).allocated@[ptr as int],
            old(self).elems@[ptr as int] is Some,
        ensures
            final(self).inv(p),
            old(self).pc_tc_zero() ==> final(self).pc_tc_zero(),
            b == !old(self).cm(ptr).finalized,
            final(self).cm(ptr) == (CounterMarkerView { finalized: true, ..old(self).cm(ptr) }),
            final(self).markers@[ptr as int].tracing_counter == old(self).markers@[ptr as int].tracing_counter,
            final(self).markers@.len() == old(self).markers@.len(),
            forall|z: int| 0 <= z < old(self).n() && z != ptr ==> #[trigger] final(self).markers@[z] == old(self).markers@[z],
            final(self).links@ == old(self).links@,
            final(self).same_contents_except_calls(old(self)),
            final(self).finalizer_calls@ == if b {
                one_more_call(old(self).finalizer_calls@, ptr)
            } else {
                old(self).finalizer_calls@
            },
            final(self).possible_cycles == old(self).possible_cycles,
    {
        if self.markers[ptr].needs_finalization() {
            let ghost h0 = *self;
            self.markers[ptr].set_finalized(true);
            self.call_finalizer(ptr);
            proof {
                lemma_inv_marker_update(&h0, self, p, p, ptr);
            }
            true
        } else {
            false
        }
    }

    /// Drops the elements of the garbage allocations of `list`, then deallocates them.
    ///
    /// Nothing outside `list` refers to them, so dropping their elements only releases
    /// references to allocations of `list` and to allocations that are still alive.
    pub(crate) fn deallocate_list(&mut self, list: LinkedList)
        requires
            old(self).inv(Seq::empty()),
            old(self).pc_tc_zero(),
            old(self).state.collecting,
            !old(self).state.finalizing,
            !old(self).state.dropping,
            list.wf(old(self).links@),
            forall|x: usize| #[trigger] list.seq().contains(x) ==> x < old(self).n() && old(self).allocated@[x as int]
                && old(self).cm(x).mark == Mark::InList && old(self).elems@[x as int] is Some && old(self).ext@[x as int] == 0
                && old(self).cm(x).finalized,
            forall|x: usize| x < old(self).n() && old(self).allocated@[x as int] && !list.seq().contains(x) ==> {
                &&& ((#[trigger] old(self).markers@[x as int])@.mark == Mark::NonMarked || old(self).markers@[x as int]@.mark
                    == Mark::PossibleCycles)
                &&& old(self).elems@[x as int] is Some
            },
            forall|x: usize, y: usize|
                list.seq().contains(x) && y < old(self).n() && #[trigger] old(self).g()[y as int].contains(x)
                    ==> list.seq().contains(y),
            supported(old(self), old(self).ext@, outside_list(old(self), list.seq())),
        ensures
            forall|x: usize| x < old(self).n() && old(self).allocated@[x as int] && !list.seq().contains(x)
                ==> #[trigger] final(self).allocated@[x as int],
            final(self).inv(Seq::empty()),
            final(self).pc_tc_zero(),
            old(self).referenced() ==> final(self).referenced(),
            final(self).n() == old(self).n(),
            final(self).ext@ == old(self).ext@,
            forall|t: usize| t < old(self).n() ==> #[trigger] final(self).weak_held(t) == old(self).weak_held(t),
            final(self).taken@ == old(self).taken@,
            final(self).box_size == old(self).box_size,
            final(self).state.collecting == old(self).state.collecting,
            final(self).state.finalizing == old(self).state.finalizing,
            final(self).state.dropping == old(self).state.dropping,
            final(self).state.executions_counter == old(self).state.executions_counter,
            final(self).finalizer_calls@ == old(self).finalizer_calls@,
            forall|x: usize| #[trigger] list.seq().contains(x) ==> !final(self).allocated@[x as int],
            forall|x: usize| x < final(self).n() && #[trigger] final(self).allocated@[x as int] ==> {
                &&& old(self).allocated@[x as int]
                &&& !list.seq().contains(x)
                &&& (final(self).metadata@[x as int] is Some <==> old(self).metadata@[x as int] is Some)
                &&& final(self).weak_children@[x as int] == old(self).weak_children@[x as int]
                &&& final(self).elems@[x as int] == old(self).elems@[x as int]
                &&& final(self).children@[x as int] == old(self).children@[x as int]
                &&& (final(self).markers@[x as int]@.mark == Mark::NonMarked || final(self).markers@[x as int]@.mark
                    == Mark::PossibleCycles)
                &&& final(self).markers@[x as int]@.finalized == old(self).markers@[x as int]@.finalized
            },
    {
        let ghost h0 = *self;
        let ghost nl = list.seq();
        let old_dropping = self.state.is_dropping();
        self.state.set_dropping(true);
        let v = list.iter(&self.links);
        proof {
            assert forall|k: int| 0 <= k < nl.len() implies {
                &&& nl[k] < self.n()
                &&& self.allocated@[#[trigger] nl[k] as int]
                &&& self.cm(nl[k]).mark == Mark::InList
                &&& self.cm(nl[k]).finalized
                &&& (k < 0 ==> self.elems@[nl[k] as int] is None)
                &&& (k >= 0 ==> self.elems@[nl[k] as int] is Some)
            } by {
                assert(nl.contains(nl[k]));
            }
            assert(self.dropped_in_list());
        }
        let mut i: usize = 0;
        while i < v.len()
            invariant
                v@ == nl,
                i <= v@.len(),
                self.inv(Seq::empty()),
                self.pc_tc_zero(),
                h0.referenced() ==> self.referenced(),
                self.dropped_in_list(),
                self.n() == h0.n(),
                self.ext@ == h0.ext@,
                forall|t: usize| t < h0.n() ==> #[trigger] self.weak_held(t) == h0.weak_held(t),
                self.taken@ == h0.taken@,
                self.box_size == h0.box_size,
                self.state.collecting == h0.state.collecting,
                !self.state.finalizing,
                self.state.dropping,
                self.state.executions_counter == h0.state.executions_counter,
                self.finalizer_calls@ == h0.finalizer_calls@,
                nl.no_duplicates(),
                forall|k: int| 0 <= k < nl.len() ==> {
                    &&& nl[k] < self.n()
                    &&& self.allocated@[#[trigger] nl[k] as int]
                    &&& self.cm(nl[k]).mark == Mark::InList
                    &&& self.cm(nl[k]).finalized
                    &&& (k < i ==> self.elems@[nl[k] as int] is None)
                    &&& (k >= i ==> self.elems@[nl[k] as int] is Some)
                },
                forall|x: usize| #[trigger] nl.contains(x) ==> h0.ext@[x as int] == 0,
                forall|x: usize| #[trigger] outside_list(&h0, nl).contains(x) ==> self.allocated@[x as int],
                supported(&h0, h0.ext@, outside_list(&h0, nl)),
                h0.children@.len() == h0.n(),
                forall|x: usize| x < self.n() && #[trigger] self.allocated@[x as int] && !nl.contains(x) ==> {
                    &&& h0.allocated@[x as int]
                    &&& (self.metadata@[x as int] is Some <==> h0.metadata@[x as int] is Some)
                    &&& self.weak_children@[x as int] == h0.weak_children@[x as int]
                    &&& self.elems@[x as int] == h0.elems@[x as int]
                    &&& self.children@[x as int] == h0.children@[x as int]
                    &&& (self.markers@[x as int]@.mark == Mark::NonMarked || self.markers@[x as int]@.mark == Mark::PossibleCycles)
                    &&& self.markers@[x as int]@.finalized == h0.markers@[x as int]@.finalized
                },
                forall|x: usize, y: usize|
                    nl.contains(x) && y < self.n() && self.allocated@[y as int] && #[trigger] self.g()[y as int].contains(x)
                        ==> nl.contains(y),
            decreases v@.len() - i,
        {
            let y = v[i];
            proof {
                assert(nl[i as int] == y);
                assert(nl.contains(y));
            }
            let ghost h_pre = *self;
            self.release_weak_children(y, Ghost(Seq::empty()));
            let ghost h1 = *self;
            proof {
                assert forall|t: usize| t < h0.n() implies #[trigger] h1.weak_held(t) == h0.weak_held(t) by {
                    assert(h1.weak_held(t) == h_pre.weak_held(t));
                }
                assert forall|x: usize| x < self.n() && #[trigger] self.allocated@[x as int] && !nl.contains(x) implies
                    (self.metadata@[x as int] is Some <==> h0.metadata@[x as int] is Some)
                    && self.weak_children@[x as int] == h0.weak_children@[x as int] by {
                    assert(h_pre.allocated@[x as int]);
                    assert(x != y);
                }
            }
            self.markers[y].set_dropped(true);
            let mut released: Vec<usize> = Vec::new();
            std::mem::swap(&mut released, &mut self.children[y]);
            self.elems[y] = None;
            proof {
                lemma_drop_elem(&h1, self, y, released@);
                assert forall|x: usize| x < self.n() && self.allocated@[x as int] && (#[trigger] self.elems@[x as int]) is None
                    implies self.markers@[x as int]@.mark == Mark::InList by {
                    if x != y {
                        assert(h1.elems@[x as int] == self.elems@[x as int]);
                        assert(h1.markers@[x as int] == self.markers@[x as int]);
                    }
                }
            }
            let ghost h2 = *self;
            let ghost h3 = *self;
            proof {
                lemma_supported_same(&h0, &h3, outside_list(&h0, nl));
            }
            self.drop_pending(released);
            proof {
                assert forall|x: usize| #[trigger] self.finalizer_calls@(x) == h3.finalizer_calls@(x) by {
                    assert(self.finalizer_calls@(x) == finalizer_calls_after(self, &h3, x));
                    if h3.is_live(x) {
                        if nl.contains(x) {
                            let k = nl.index_of(x);
                            assert(nl[k] == x);
                        } else {
                            assert(outside_list(&h0, nl).contains(x));
                        }
                    }
                }
                assert(self.finalizer_calls@ =~= h3.finalizer_calls@);
                assert(h2.wg() == h1.wg());
                assert forall|t: usize| t < h0.n() implies #[trigger] self.weak_held(t) == h0.weak_held(t) by {
                    assert(h2.weak_held(t) == h1.weak_held(t));
                    assert(self.weak_held(t) == h3.weak_held(t));
                }
                assert forall|k: int| 0 <= k < nl.len() implies {
                    &&& nl[k] < self.n()
                    &&& self.allocated@[#[trigger] nl[k] as int]
                    &&& self.cm(nl[k]).mark == Mark::InList
                    &&& self.cm(nl[k]).finalized
                    &&& (k < i + 1 ==> self.elems@[nl[k] as int] is None)
                    &&& (k >= i + 1 ==> self.elems@[nl[k] as int] is Some)
                } by {
                    assert(h1.allocated@[nl[k] as int]);
                    assert(h2.markers@[nl[k] as int]@.mark == Mark::InList && h2.markers@[nl[k] as int]@.finalized) by {
                        if nl[k] != y {
                            assert(h2.markers@[nl[k] as int] == h1.markers@[nl[k] as int]);
                        }
                    }
                    if k != i {
                        assert(nl[k] != y);
                    }
                }
                assert forall|x: usize| x < self.n() && #[trigger] self.allocated@[x as int] && !nl.contains(x) implies {
                    &&& h0.allocated@[x as int]
                    &&& (self.metadata@[x as int] is Some <==> h0.metadata@[x as int] is Some)
                    &&& self.weak_children@[x as int] == h0.weak_children@[x as int]
                    &&& self.elems@[x as int] == h0.elems@[x as int]
                    &&& self.children@[x as int] == h0.children@[x as int]
                    &&& (self.markers@[x as int]@.mark == Mark::NonMarked || self.markers@[x as int]@.mark == Mark::PossibleCycles)
                    &&& self.markers@[x as int]@.finalized == h0.markers@[x as int]@.finalized
                } by {
                    assert(h2.allocated@[x as int]);
                    assert(x != y);
                    assert(h2.markers@[x as int] == h1.markers@[x as int]);
                }
                assert forall|x: usize, z: usize|
                    nl.contains(x) && z < self.n() && self.allocated@[z as int] && #[trigger] self.g()[z as int].contains(x)
                    implies nl.contains(z) by {
                    assert(h2.allocated@[z as int]);
                    assert(self.children@[z as int] == h2.children@[z as int]);
                    if z != y {
                        assert(h2.children@[z as int] == h1.children@[z as int]);
                        assert(self.g()[z as int] == h1.g()[z as int]);
                    } else {
                        assert(self.g()[z as int].len() == 0);
                    }
                }
            }
            i = i + 1;
        }
        let mut i: usize = 0;
        while i < v.len()
            invariant
                v@ == nl,
                i <= v@.len(),
                self.inv(Seq::empty()),
                self.pc_tc_zero(),
                h0.referenced() ==> self.referenced(),
                self.n() == h0.n(),
                self.ext@ == h0.ext@,
                forall|t: usize| t < h0.n() ==> #[trigger] self.weak_held(t) == h0.weak_held(t),
                self.taken@ == h0.taken@,
                self.box_size == h0.box_size,
                self.state.collecting == h0.state.collecting,
                !self.state.finalizing,
                self.state.dropping,
                self.state.executions_counter == h0.state.executions_counter,
                self.finalizer_calls@ == h0.finalizer_calls@,
                nl.no_duplicates(),
                forall|k: int| 0 <= k < nl.len() ==> {
                    &&& nl[k] < self.n()
                    &&& (k < i ==> !self.allocated@[#[trigger] nl[k] as int])
                    &&& (k >= i ==> self.allocated@[nl[k] as int] && self.cm(nl[k]).mark == Mark::InList && self.elems@[nl[k] as int] is None
                        && self.cm(nl[k]).finalized)
                },
                forall|x: usize| #[trigger] nl.contains(x) ==> h0.ext@[x as int] == 0,
                forall|x: usize| #[trigger] outside_list(&h0, nl).contains(x) ==> self.allocated@[x as int],
                supported(&h0, h0.ext@, outside_list(&h0, nl)),
                h0.children@.len() == h0.n(),
                forall|x: usize| x < self.n() && #[trigger] self.allocated@[x as int] && !nl.contains(x) ==> {
                    &&& h0.allocated@[x as int]
                    &&& (self.metadata@[x as int] is Some <==> h0.metadata@[x as int] is Some)
                    &&& self.weak_children@[x as int] == h0.weak_children@[x as int]
                    &&& self.elems@[x as int] == h0.elems@[x as int]
                    &&& self.children@[x as int] == h0.children@[x as int]
                    &&& (self.markers@[x as int]@.mark == Mark::NonMarked || self.markers@[x as int]@.mark == Mark::PossibleCycles)
                    &&& self.markers@[x as int]@.finalized == h0.markers@[x as int]@.finalized
                },
                forall|x: usize, y: usize|
                    nl.contains(x) && y < self.n() && self.allocated@[y as int] && #[trigger] self.g()[y as int].contains(x)
                        ==> nl.contains(y),
            decreases v@.len() - i,
        {
            let y = v[i];
            proof {
                assert(nl[i as int] == y);
                assert(nl.contains(y));
                assert forall|z: usize| z < self.n() && self.allocated@[z as int] implies !(#[trigger] self.g()[z as int]).contains(y) by {
                    if self.g()[z as int].contains(y) {
                        assert(nl.contains(z));
                        let k = nl.index_of(z);
                        assert(self.elems@[nl[k] as int] is None);
                        assert(self.children@[z as int]@.len() == 0);
                    }
                }
                crate::graph::lemma_num_true_update(self.allocated@, self.n() as int, y as int, false);
                lemma_mul_succ(self.box_size, self.num_allocated());
            }
            let ghost h1 = *self;
            self.links[y] = Link::none();
            self.drop_metadata(y);
            self.allocated[y] = false;
            self.state.record_deallocation(self.box_size);
            proof {
                lemma_free_dropped(&h1, self, y);
                assert(self.wg() == h1.wg());
                assert forall|t: usize| t < h0.n() implies #[trigger] self.weak_held(t) == h0.weak_held(t) by {
                    assert(self.weak_held(t) == h1.weak_held(t));
                }
                assert forall|k: int| 0 <= k < nl.len() implies {
                    &&& nl[k] < self.n()
                    &&& (k < i + 1 ==> !self.allocated@[#[trigger] nl[k] as int])
                    &&& (k >= i + 1 ==> self.allocated@[nl[k] as int] && self.cm(nl[k]).mark == Mark::InList && self.elems@[nl[k] as int] is None
                        && self.cm(nl[k]).finalized)
                } by {
                    if k != i {
                        assert(nl[k] != y);
                    }
                }
            }
            i = i + 1;
        }
        let ghost h9 = *self;
        self.state.set_dropping(old_dropping);
        proof {
            assert(self.wg() == h9.wg());
            assert forall|t: usize| t < h0.n() implies #[trigger] self.weak_held(t) == h0.weak_held(t) by {
                assert(h9.weak_held(t) == h0.weak_held(t));
            }
            assert forall|x: usize| x < h0.n() && h0.allocated@[x as int] && !nl.contains(x)
                implies #[trigger] self.allocated@[x as int] by {
                assert(outside_list(&h0, nl).contains(x));
            }
            assert forall|x: usize| #[trigger] nl.contains(x) implies !self.allocated@[x as int] by {
                let k = nl.index_of(x);
                assert(!self.allocated@[nl[k] as int]);
            }
        }
    }
}

/// The allocations that stay allocated from `old` to `new` keep their element and the
/// references it holds.
pub open spec fn survivors_unchanged<T>(new: &CcHeap<T>, old: &CcHeap<T>) -> bool {
    &&& new.n() == old.n()
    &&& forall|x: usize|
        x < new.n() && #[trigger] new.allocated@[x as int] ==> {
            &&& old.allocated@[x as int]
            &&& new.elems@[x as int] == old.elems@[x as int]
            &&& new.children@[x as int] == old.children@[x as int]
        }
}

/// In a heap whose survivors kept their references, everything that `old` reached along
/// `path` from an allocation that `new` still has a handle to is still allocated, unchanged.
pub proof fn lemma_path_survives<T>(new: &CcHeap<T>, old: &CcHeap<T>, path: Seq<usize>)
    requires
        new.inv(Seq::empty()),
        old.inv(Seq::empty()),
        survivors_unchanged(new, old),
        crate::graph::is_path(old.g(), path),
        path[0] < new.n(),
        new.ext@[path[0] as int] > 0,
    ensures
        forall|i: int| 0 <= i < path.len() ==> {
            &&& new.is_live(#[trigger] path[i])
            &&& new.elems@[path[i] as int] == old.elems@[path[i] as int]
            &&& new.children@[path[i] as int] == old.children@[path[i] as int]
        },
    decreases path.len(),
{
    if path.len() == 1 {
        assert(new.allocated@[path[0] as int]);
    } else {
        let prefix = path.drop_last();
        assert forall|i: int| 0 <= i < prefix.len() - 1 implies #[trigger] old.g()[prefix[i] as int].contains(prefix[i + 1]) by {
            assert(old.g()[path[i] as int].contains(path[i + 1]));
        }
        lemma_path_survives(new, old, prefix);
        let k = path.len() - 2;
        let y = path[k];
        let z = path[k + 1];
        assert(prefix[k] == y);
        assert(new.is_live(y));
        assert(old.g()[y as int].contains(z));
        let j = old.g()[y as int].index_of(z);
        assert(old.g()[y as int] == old.children@[y as int]@);
        assert(new.children@[y as int]@[j] == z);
        assert(new.is_live(z));
        assert forall|i: int| 0 <= i < path.len() implies {
            &&& new.is_live(#[trigger] path[i])
            &&& new.elems@[path[i] as int] == old.elems@[path[i] as int]
            &&& new.children@[path[i] as int] == old.children@[path[i] as int]
        } by {
            if i < path.len() - 1 {
                assert(prefix[i] == path[i]);
            }
        }
    }
}

/// Dropping a handle never deallocates what the remaining handles reach: everything
/// reachable from an allocation that still has a handle after [`Cc::drop`] stays allocated,
/// with the same element and references.
pub proof fn law_drop_keeps_reachable<T>(new: &CcHeap<T>, old: &CcHeap<T>, dropped: usize, path: Seq<usize>)
    requires
        old.wf(),
        handle_dropped(new, old, dropped),
        crate::graph::is_path(old.g(), path),
        path[0] < old.n(),
        new.ext@[path[0] as int] > 0,
    ensures
        forall|i: int| 0 <= i < path.len() ==> {
            &&& new.is_live(#[trigger] path[i])
            &&& new.elems@[path[i] as int] == old.elems@[path[i] as int]
        },
{
    lemma_path_survives(new, old, path);
}

/// Removing `x` from a sequence without duplicates removes it from its set.
pub proof fn lemma_remove_to_set(s: Seq<usize>, ns: Seq<usize>, x: usize)
    requires
        s.no_duplicates(),
        s.contains(x) ==> ns == s.remove(s.index_of(x)),
        !s.contains(x) ==> ns == s,
    ensures
        ns.to_set() == s.to_set().remove(x),
        !ns.contains(x),
{
    if s.contains(x) {
        let k = s.index_of(x);
        assert forall|z: usize| ns.to_set().contains(z) <==> s.to_set().remove(x).contains(z) by {
            if ns.contains(z) {
                let j = ns.index_of(z);
                if j < k {
                    assert(s[j] == z);
                    assert(j != k);
                } else {
                    assert(s[j + 1] == z);
                }
            }
            if s.contains(z) && z != x {
                let j = s.index_of(z);
                if j < k {
                    assert(ns[j] == z);
                } else {
                    assert(j != k);
                    assert(ns[j - 1] == z);
                }
            }
        }
        assert(ns.to_set() =~= s.to_set().remove(x));
        assert(!ns.to_set().contains(x));
    } else {
        assert(ns.to_set() =~= s.to_set().remove(x));
    }
}

/// Nothing refers to a slot that does not exist yet.
proof fn lemma_into_zero_fresh(g: Seq<Seq<usize>>, n: usize)
    requires
        g.len() == n,
        forall|y: int, j: int| 0 <= y < n && 0 <= j < g[y].len() ==> #[trigger] g[y][j] < n,
    ensures
        into_from(g, Set::full(), n as int, n) == 0,
{
    assert forall|k: int| 0 <= k <= n implies into_from(g, Set::full(), k, n) == 0 by {
        lemma_into_zero_fresh_upto(g, n, k);
    }
}

proof fn lemma_into_zero_fresh_upto(g: Seq<Seq<usize>>, n: usize, k: int)
    requires
        g.len() == n,
        0 <= k <= n,
        forall|y: int, j: int| 0 <= y < n && 0 <= j < g[y].len() ==> #[trigger] g[y][j] < n,
    ensures
        into_from(g, Set::full(), k, n) == 0,
    decreases k,
{
    if k > 0 {
        lemma_into_zero_fresh_upto(g, n, k - 1);
        assert forall|i: int| 0 <= i < g[k - 1].len() implies #[trigger] g[k - 1][i] < n by {}
        lemma_graph_count_fresh(g[k - 1], n);
    }
}

/// Every element of `s` is below `n`, so `n` does not occur in it.
proof fn lemma_graph_count_fresh(s: Seq<usize>, n: usize)
    requires
        forall|i: int| 0 <= i < s.len() ==> #[trigger] s[i] < n,
    ensures
        count(s, n) == 0,
{
    crate::graph::lemma_count_contains(s, n);
    if s.contains(n) {
        let k = s.index_of(n);
        assert(s[k] < n);
    }
}

} // verus!
