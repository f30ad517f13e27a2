//! Non-owning [`Weak`] pointers to an allocation.
//!
//! [`Cc::downgrade`] creates a non-owning [`Weak`] pointer to an allocation. A [`Weak`]
//! pointer can be upgraded to a [`Cc`], but this gives [`None`] once the allocation has
//! been deallocated. The weak counter lives in the metadata of the allocation, which
//! outlives the allocation while weak pointers to it remain.
pub mod weak_counter_marker;

use vstd::prelude::*;
use crate::cc::{Cc, CcHeap, ext_after_new, indices, meta_ok, lemma_remove_to_set};
use crate::counter_marker::{CounterMarkerView, Mark, MAX};
use crate::graph::{count, indeg, into_from};
use crate::state::State;
use crate::weak::weak_counter_marker::{WeakCounterMarker, WeakCounterMarkerView, WEAK_MAX};

verus! {

/// A non-owning pointer to an allocation of a [`CcHeap`].
pub struct Weak {
    /// `None` when created with [`Weak::new`].
    target: Option<usize>,
}

impl View for Weak {
    type V = Option<usize>;

    closed spec fn view(&self) -> Option<usize> {
        self.target
    }
}

impl<T> CcHeap<T> {
    /// `w` is a live weak handle of this heap.
    pub open spec fn weak_valid(&self, w: &Weak) -> bool {
        match w@ {
            Some(x) => x < self.n() && self.weak_held(x) > 0,
            None => true,
        }
    }

    /// The number of [`Cc`]s to the allocation that `w` points to, as seen through `w`.
    pub open spec fn weak_strong_count(&self, w: &Weak) -> nat {
        match w@ {
            Some(x) => if self.is_live(x) {
                self.cm(x).counter as nat
            } else {
                0
            },
            None => 0,
        }
    }
}

impl Weak {
    /// A weak pointer that points to no allocation: upgrading it always gives [`None`].
    pub fn new() -> (w: Weak)
        ensures
            w@ is None,
    {
        Weak { target: None }
    }

    /// Returns `true` if the two weak pointers point to the same allocation, or if both
    /// point to no allocation.
    pub fn ptr_eq(this: &Weak, other: &Weak) -> (b: bool)
        ensures
            b == (this@ == other@),
    {
        match (this.target, other.target) {
            (None, None) => true,
            (Some(a), Some(b)) => a == b,
            _ => false,
        }
    }

    /// The number of [`Weak`]s to the allocation (0 for a weak pointer made by [`Weak::new`]).
    pub fn weak_count<T>(&self, heap: &CcHeap<T>) -> (c: u32)
        requires
            heap.wf(),
            heap.weak_valid(self),
        ensures
            c == match self@ {
                Some(x) => heap.wext@[x as int],
                None => 0,
            },
    {
        match self.target {
            Some(x) => {
                proof {
                    assert(meta_ok(
                        heap.metadata@[x as int],
                        heap.wext@[x as int],
                        heap.allocated@[x as int],
                        heap.markers@[x as int]@.allocated_for_metadata,
                    ));
                }
                heap.metadata[x].unwrap().counter() as u32
            },
            None => 0,
        }
    }

    /// The number of [`Cc`]s to the allocation: 0 once it has been deallocated, and for a
    /// weak pointer made by [`Weak::new`].
    pub fn strong_count<T>(&self, heap: &CcHeap<T>) -> (c: u32)
        requires
            heap.wf(),
            heap.weak_valid(self),
        ensures
            c == heap.weak_strong_count(self),
    {
        match self.target {
            Some(x) => {
                proof {
                    assert(meta_ok(
                        heap.metadata@[x as int],
                        heap.wext@[x as int],
                        heap.allocated@[x as int],
                        heap.markers@[x as int]@.allocated_for_metadata,
                    ));
                }
                if heap.metadata[x].unwrap().is_accessible() {
                    let cm = &heap.markers[x];
                    let counter = cm.counter();
                    if counter == 0 || cm.is_dropped() || (cm.is_in_list_or_queue()
                        && heap.state.is_dropping()) {
                        0
                    } else {
                        counter as u32
                    }
                } else {
                    0
                }
            },
            None => 0,
        }
    }

    /// Tries to make a [`Cc`] to the allocation, incrementing its reference counter and
    /// taking it out of the buffer of the next collection; gives [`None`] once the
    /// allocation has been deallocated.
    pub fn upgrade<T>(&self, heap: &mut CcHeap<T>) -> (r: Option<Cc>)
        requires
            old(heap).wf(),
            old(heap).weak_valid(self),
            old(heap).weak_strong_count(self) < MAX,
        ensures
            final(heap).wf(),
            old(heap).weak_strong_count(self) == 0 ==> r is None && *final(heap) == *old(heap),
            old(heap).weak_strong_count(self) != 0 ==> {
                let x = self@->0;
                &&& r is Some
                &&& r->0@ == x
                &&& final(heap).valid(&r->0)
                &&& final(heap).ext@ == old(heap).ext@.update(x as int, old(heap).ext@[x as int] + 1)
                &&& final(heap).cm(x) == (CounterMarkerView {
                    counter: (old(heap).cm(x).counter + 1) as u16,
                    mark: Mark::NonMarked,
                    ..old(heap).cm(x)
                })
                &&& final(heap).markers@ == old(heap).markers@.update(x as int, final(heap).markers@[x as int])
                &&& final(heap).possible_cycles.seq().to_set() == old(heap).possible_cycles.seq().to_set().remove(x)
            },
            final(heap).elems@ == old(heap).elems@,
            final(heap).children@ == old(heap).children@,
            final(heap).allocated@ == old(heap).allocated@,
            final(heap).metadata@ == old(heap).metadata@,
            final(heap).wext@ == old(heap).wext@,
            final(heap).state == old(heap).state,
    {
        if self.strong_count(heap) == 0 {
            return None;
        }
        let x = self.target.unwrap();
        let _ = heap.markers[x].increment_counter();
        heap.ext = Ghost(heap.ext@.update(x as int, heap.ext@[x as int] + 1));
        proof {
            assert forall|z: usize| z < heap.n() && heap.allocated@[z as int] implies (#[trigger] heap.markers@[z as int])@.counter
                == indeg(heap.g(), z) + heap.ext@[z as int] + count(Seq::empty(), z) by {
                assert(old(heap).markers@[z as int]@.counter == indeg(old(heap).g(), z) + old(heap).ext@[z as int] + count(Seq::empty(), z));
            }
            assert forall|z: usize| z < heap.n() && heap.allocated@[z as int] && (#[trigger] heap.markers@[z as int])@.mark
                == Mark::PossibleCycles implies heap.markers@[z as int]@.tracing_counter == 0 by {
                assert(old(heap).markers@[z as int]@.mark == heap.markers@[z as int]@.mark);
            }
            assert forall|z: usize| z < heap.n() implies meta_ok(
                #[trigger] heap.metadata@[z as int],
                heap.wext@[z as int],
                heap.allocated@[z as int],
                heap.markers@[z as int]@.allocated_for_metadata,
            ) by {
                assert(meta_ok(
                    old(heap).metadata@[z as int],
                    old(heap).wext@[z as int],
                    old(heap).allocated@[z as int],
                    old(heap).markers@[z as int]@.allocated_for_metadata,
                ));
            }
        }
        heap.remove_from_list(x, Ghost(Seq::empty()));
        proof {
            lemma_remove_to_set(old(heap).possible_cycles.seq(), heap.possible_cycles.seq(), x);
        }
        Some(Cc::from_index(x))
    }

    /// Makes another weak pointer to the same allocation, incrementing the weak counter.
    pub fn clone<T>(&self, heap: &mut CcHeap<T>) -> (w: Weak)
        requires
            old(heap).wf(),
            old(heap).weak_valid(self),
            self@ is Some ==> old(heap).wext@[self@->0 as int] < WEAK_MAX,
        ensures
            final(heap).wf(),
            w@ == self@,
            final(heap).weak_valid(&w),
            self@ is None ==> *final(heap) == *old(heap),
            self@ is Some ==> final(heap).wext@ == old(heap).wext@.update(
                self@->0 as int,
                old(heap).wext@[self@->0 as int] + 1,
            ),
            final(heap).links@ == old(heap).links@,
            final(heap).markers@ == old(heap).markers@,
            final(heap).elems@ == old(heap).elems@,
            final(heap).children@ == old(heap).children@,
            final(heap).allocated@ == old(heap).allocated@,
            final(heap).ext@ == old(heap).ext@,
            final(heap).state == old(heap).state,
            final(heap).possible_cycles == old(heap).possible_cycles,
    {
        if let Some(x) = self.target {
            proof {
                assert(meta_ok(
                    heap.metadata@[x as int],
                    heap.wext@[x as int],
                    heap.allocated@[x as int],
                    heap.markers@[x as int]@.allocated_for_metadata,
                ));
            }
            let mut w = heap.metadata[x].unwrap();
            let _ = w.increment_counter();
            heap.metadata[x] = Some(w);
            heap.wext = Ghost(heap.wext@.update(x as int, heap.wext@[x as int] + 1));
            proof {
                assert forall|z: usize| z < heap.n() implies meta_ok(
                    #[trigger] heap.metadata@[z as int],
                    heap.wext@[z as int],
                    heap.allocated@[z as int],
                    heap.markers@[z as int]@.allocated_for_metadata,
                ) by {
                    assert(meta_ok(
                        old(heap).metadata@[z as int],
                        old(heap).wext@[z as int],
                        old(heap).allocated@[z as int],
                        old(heap).markers@[z as int]@.allocated_for_metadata,
                    ));
                }
                assert(heap.g() == old(heap).g());
            }
        }
        Weak { target: self.target }
    }

    /// Drops this weak pointer, decrementing the weak counter; the metadata is freed with
    /// the last weak pointer once the allocation has been deallocated.
    pub fn drop<T>(self, heap: &mut CcHeap<T>)
        requires
            old(heap).wf(),
            old(heap).weak_valid(&self),
        ensures
            final(heap).wf(),
            self@ is None ==> *final(heap) == *old(heap),
            self@ is Some ==> final(heap).wext@ == old(heap).wext@.update(
                self@->0 as int,
                (old(heap).wext@[self@->0 as int] - 1) as nat,
            ),
            self@ is Some && old(heap).wext@[self@->0 as int] == 1 && !old(heap).is_live(self@->0)
                ==> final(heap).metadata@[self@->0 as int] is None,
            forall|z: int| 0 <= z < old(heap).n() && Some(z as usize) != self@ ==> #[trigger] final(heap).metadata@[z]
                == old(heap).metadata@[z],
            final(heap).links@ == old(heap).links@,
            final(heap).markers@ == old(heap).markers@,
            final(heap).elems@ == old(heap).elems@,
            final(heap).children@ == old(heap).children@,
            final(heap).allocated@ == old(heap).allocated@,
            final(heap).ext@ == old(heap).ext@,
            final(heap).state == old(heap).state,
            final(heap).possible_cycles == old(heap).possible_cycles,
    {
        if let Some(x) = self.target {
            proof {
                assert(meta_ok(
                    heap.metadata@[x as int],
                    heap.wext@[x as int],
                    heap.allocated@[x as int],
                    heap.markers@[x as int]@.allocated_for_metadata,
                ));
            }
            let mut w = heap.metadata[x].unwrap();
            let _ = w.decrement_counter();
            if w.counter() == 0 && !w.is_accessible() {
                heap.metadata[x] = None;
            } else {
                heap.metadata[x] = Some(w);
            }
            heap.wext = Ghost(heap.wext@.update(x as int, (heap.wext@[x as int] - 1) as nat));
            proof {
                assert forall|z: usize| z < heap.n() implies meta_ok(
                    #[trigger] heap.metadata@[z as int],
                    heap.wext@[z as int],
                    heap.allocated@[z as int],
                    heap.markers@[z as int]@.allocated_for_metadata,
                ) by {
                    assert(meta_ok(
                        old(heap).metadata@[z as int],
                        old(heap).wext@[z as int],
                        old(heap).allocated@[z as int],
                        old(heap).markers@[z as int]@.allocated_for_metadata,
                    ));
                }
                assert(heap.g() == old(heap).g());
            }
        }
    }
}

impl Weak {
    /// A weak handle to the allocation at `t`.
    pub(crate) fn from_target(t: usize) -> (w: Weak)
        ensures
            w@ == Some(t),
    {
        Weak { target: Some(t) }
    }
}

impl Default for Weak {
    /// The same as [`Weak::new`].
    fn default() -> (w: Weak)
        ensures
            w@ is None,
    {
        Weak::new()
    }
}

impl Cc {
    /// Makes a weak pointer to the allocation, allocating its metadata if needed,
    /// incrementing the weak counter and taking the allocation out of the buffer of the
    /// next collection.
    pub fn downgrade<T>(&self, heap: &mut CcHeap<T>) -> (w: Weak)
        requires
            old(heap).wf(),
            old(heap).valid(self),
            old(heap).wext@[self@ as int] < WEAK_MAX,
        ensures
            final(heap).wf(),
            w@ == Some(self@),
            final(heap).weak_valid(&w),
            final(heap).wext@ == old(heap).wext@.update(self@ as int, old(heap).wext@[self@ as int] + 1),
            final(heap).cm(self@) == (CounterMarkerView {
                mark: Mark::NonMarked,
                allocated_for_metadata: true,
                ..old(heap).cm(self@)
            }),
            final(heap).markers@ == old(heap).markers@.update(self@ as int, final(heap).markers@[self@ as int]),
            final(heap).metadata@[self@ as int] is Some,
            final(heap).metadata@[self@ as int]->0@ == (WeakCounterMarkerView {
                counter: (old(heap).wext@[self@ as int] + 1) as u16,
                accessible: true,
            }),
            forall|z: int| 0 <= z < old(heap).n() && z != self@ ==> #[trigger] final(heap).metadata@[z]
                == old(heap).metadata@[z],
            final(heap).elems@ == old(heap).elems@,
            final(heap).children@ == old(heap).children@,
            final(heap).allocated@ == old(heap).allocated@,
            final(heap).ext@ == old(heap).ext@,
            final(heap).state == old(heap).state,
            final(heap).possible_cycles.seq().to_set() == old(heap).possible_cycles.seq().to_set().remove(self@),
    {
        let x = self.index();
        proof {
            assert(meta_ok(
                heap.metadata@[x as int],
                heap.wext@[x as int],
                heap.allocated@[x as int],
                heap.markers@[x as int]@.allocated_for_metadata,
            ));
        }
        let mut w = if heap.markers[x].has_allocated_for_metadata() {
            heap.metadata[x].unwrap()
        } else {
            heap.markers[x].set_allocated_for_metadata(true);
            WeakCounterMarker::new(true)
        };
        let _ = w.increment_counter();
        heap.metadata[x] = Some(w);
        heap.wext = Ghost(heap.wext@.update(x as int, heap.wext@[x as int] + 1));
        proof {
            assert forall|z: usize| z < heap.n() implies meta_ok(
                #[trigger] heap.metadata@[z as int],
                heap.wext@[z as int],
                heap.allocated@[z as int],
                heap.markers@[z as int]@.allocated_for_metadata,
            ) by {
                assert(meta_ok(
                    old(heap).metadata@[z as int],
                    old(heap).wext@[z as int],
                    old(heap).allocated@[z as int],
                    old(heap).markers@[z as int]@.allocated_for_metadata,
                ));
            }
            assert(heap.g() == old(heap).g());
            assert forall|z: usize| z < heap.n() && heap.allocated@[z as int] implies (#[trigger] heap.markers@[z as int])@.counter
                == indeg(heap.g(), z) + heap.ext@[z as int] + count(Seq::empty(), z) by {
                assert(old(heap).markers@[z as int]@.counter == indeg(old(heap).g(), z) + old(heap).ext@[z as int] + count(Seq::empty(), z));
            }
            assert forall|z: usize| z < heap.n() && heap.allocated@[z as int] && (#[trigger] heap.markers@[z as int])@.mark
                == Mark::PossibleCycles implies heap.markers@[z as int]@.tracing_counter == 0 by {
                assert(old(heap).markers@[z as int]@.mark == heap.markers@[z as int]@.mark);
            }
        }
        heap.remove_from_list(x, Ghost(Seq::empty()));
        proof {
            lemma_remove_to_set(old(heap).possible_cycles.seq(), heap.possible_cycles.seq(), x);
        }
        Weak { target: Some(x) }
    }

    /// Creates a new allocation whose element is made by `f`, which is given a weak pointer
    /// to the allocation being created (so that the element can point to itself); the
    /// element owns the handles `children`.
    ///
    /// The element owns a weak handle to itself (see [`Cc::detach_weak`]): the metadata of
    /// the new allocation starts with a weak counter of one, and that handle is released when
    /// the element is dropped. Creating it runs no finalizer: the element's finalizer has
    /// not been called yet.
    pub fn new_cyclic<T, F: FnOnce(&Weak) -> T>(heap: &mut CcHeap<T>, f: F, children: Vec<Cc>) -> (cc: Cc)
        requires
            old(heap).wf(),
            forall|w: &Weak| w@ == Some(old(heap).n() as usize) ==> #[trigger] call_requires(f, (w,)),
            forall|i: int| 0 <= i < children@.len() ==> #[trigger] old(heap).is_live(children@[i]@),
            forall|x: usize| x < old(heap).n() ==> count(indices(children@), x) <= #[trigger] old(heap).ext@[x as int],
            old(heap).state.allocated_bytes + old(heap).box_size <= usize::MAX,
            old(heap).n() < usize::MAX,
        ensures
            final(heap).wf(),
            cc@ == old(heap).n(),
            final(heap).valid(&cc),
            final(heap).n() == old(heap).n() + 1,
            exists|w: &Weak| w@ == Some(cc@) && call_ensures(f, (w,), final(heap).elems@[cc@ as int]->0),
            final(heap).elems@.subrange(0, old(heap).n() as int) == old(heap).elems@,
            final(heap).elems@[cc@ as int] is Some,
            final(heap).children@.subrange(0, old(heap).n() as int) == old(heap).children@,
            final(heap).children@[cc@ as int]@ == indices(children@),
            final(heap).allocated@ == old(heap).allocated@.push(true),
            final(heap).markers@.subrange(0, old(heap).n() as int) == old(heap).markers@,
            final(heap).cm(cc@) == (CounterMarkerView {
                counter: 1,
                tracing_counter: 1,
                mark: Mark::NonMarked,
                finalized: old(heap).state.finalizing,
                allocated_for_metadata: true,
            }),
            final(heap).metadata@.subrange(0, old(heap).n() as int) == old(heap).metadata@,
            final(heap).metadata@[cc@ as int] is Some,
            final(heap).metadata@[cc@ as int]->0@ == (WeakCounterMarkerView { counter: 1, accessible: true }),
            final(heap).ext@ == ext_after_new(old(heap).ext@, indices(children@)),
            final(heap).wext@ == old(heap).wext@.push(1),
            final(heap).wg() == old(heap).wg().push(seq![cc@]),
            final(heap).weak_held(cc@) == 0,
            final(heap).state == (State {
                allocated_bytes: (old(heap).state.allocated_bytes + old(heap).box_size) as usize,
                ..old(heap).state
            }),
            final(heap).box_size == old(heap).box_size,
            final(heap).possible_cycles == old(heap).possible_cycles,
            final(heap).finalizer_calls@(cc@) == 0,
            forall|z: usize| z != cc@ ==> #[trigger] final(heap).finalizer_calls@(z) == old(heap).finalizer_calls@(z),
    {
        let n = heap.links.len();
        let weak = Weak { target: Some(n) };
        proof {
            assert(call_requires(f, (&weak,)));
        }
        let ghost w_given = weak;
        let t = f(&weak);
        let cc = Cc::new(heap, t, children);
        let ghost h1 = *heap;
        heap.markers[n].set_allocated_for_metadata(true);
        let mut wcm = WeakCounterMarker::new(true);
        let _ = wcm.increment_counter();
        heap.metadata[n] = Some(wcm);
        heap.wext = Ghost(heap.wext@.update(n as int, 1));
        heap.weak_children.set(n, vec![n]);
        proof {
            assert(h1.wg() == old(heap).wg().push(Seq::empty()));
            assert(heap.weak_children@[n as int]@ =~= seq![n]);
            assert forall|z: int| 0 <= z < n implies #[trigger] heap.wg()[z] == old(heap).wg()[z] by {
                assert(h1.wg()[z] == old(heap).wg()[z]);
            }
            assert(heap.wg() =~= old(heap).wg().push(seq![n]));
            assert forall|x: usize| x < heap.n() implies indeg(heap.wg(), x) <= #[trigger] heap.wext@[x as int] by {
                crate::graph::lemma_into_push(old(heap).wg(), Set::full(), n as int, x, seq![n]);
                crate::graph::lemma_into_push(old(heap).wg(), Set::full(), n as int, x, Seq::empty());
                crate::graph::lemma_count_single(n, x);
                assert(seq![n] =~= Seq::<usize>::empty().push(n));
                assert(indeg(heap.wg(), x) == into_from(old(heap).wg(), Set::full(), n as int, x) + count(seq![n], x));
                assert(indeg(h1.wg(), x) == into_from(old(heap).wg(), Set::full(), n as int, x) + count(Seq::<usize>::empty(), x));
                assert(indeg(h1.wg(), x) <= h1.wext@[x as int]);
            }
            assert forall|x: usize, j: int| x < heap.n() && 0 <= j < heap.weak_children@[x as int]@.len()
                implies #[trigger] heap.weak_children@[x as int]@[j] < heap.n() by {
                if x != n {
                    assert(heap.weak_children@[x as int] == h1.weak_children@[x as int]);
                }
            }
            assert forall|x: usize| x < heap.n() && (#[trigger] heap.elems@[x as int]) is None implies heap.children@[x as int]@.len()
                == 0 && heap.weak_children@[x as int]@.len() == 0 by {
                if x != n {
                    assert(heap.weak_children@[x as int] == h1.weak_children@[x as int]);
                }
            }
            assert forall|z: usize| z < heap.n() implies meta_ok(
                #[trigger] heap.metadata@[z as int],
                heap.wext@[z as int],
                heap.allocated@[z as int],
                heap.markers@[z as int]@.allocated_for_metadata,
            ) by {
                assert(meta_ok(
                    h1.metadata@[z as int],
                    h1.wext@[z as int],
                    h1.allocated@[z as int],
                    h1.markers@[z as int]@.allocated_for_metadata,
                ));
            }
            assert(heap.g() == h1.g());
            assert forall|z: usize| z < heap.n() && heap.allocated@[z as int] implies (#[trigger] heap.markers@[z as int])@.counter
                == indeg(heap.g(), z) + heap.ext@[z as int] + count(Seq::empty(), z) by {
                assert(h1.markers@[z as int]@.counter == indeg(h1.g(), z) + h1.ext@[z as int] + count(Seq::empty(), z));
            }
            assert forall|z: usize| z < heap.n() && heap.allocated@[z as int] && (#[trigger] heap.markers@[z as int])@.mark
                == Mark::PossibleCycles implies heap.markers@[z as int]@.tracing_counter == 0 by {
                assert(h1.markers@[z as int]@.mark == heap.markers@[z as int]@.mark);
            }
            assert(heap.markers@.subrange(0, n as int) =~= h1.markers@.subrange(0, n as int));
            assert(heap.metadata@.subrange(0, n as int) =~= old(heap).metadata@);
            assert(h1.elems@.subrange(0, n as int) =~= old(heap).elems@);
            assert(heap.elems@[n as int] == Some(t));
            assert(w_given@ == Some(n));
            assert(heap.wext@ =~= old(heap).wext@.push(1));
        }
        cc
    }

    /// Moves the weak handle `w` into the element of this allocation: the element now owns
    /// it, and it is released when the element is dropped.
    pub fn adopt_weak<T>(&self, heap: &mut CcHeap<T>, w: Weak)
        requires
            old(heap).wf(),
            old(heap).valid(self),
            old(heap).weak_valid(&w),
            w@ is Some,
        ensures
            final(heap).wf(),
            final(heap).weak_children@[self@ as int]@ == old(heap).weak_children@[self@ as int]@.push(w@->0),
            final(heap).wg() == old(heap).wg().update(self@ as int, final(heap).weak_children@[self@ as int]@),
            final(heap).wext@ == old(heap).wext@,
            forall|t: usize| t < old(heap).n() ==> #[trigger] final(heap).weak_held(t) == old(heap).weak_held(t) - (if t
                == w@->0 {
                1int
            } else {
                0int
            }),
            final(heap).metadata@ == old(heap).metadata@,
            final(heap).links@ == old(heap).links@,
            final(heap).markers@ == old(heap).markers@,
            final(heap).elems@ == old(heap).elems@,
            final(heap).children@ == old(heap).children@,
            final(heap).allocated@ == old(heap).allocated@,
            final(heap).ext@ == old(heap).ext@,
            final(heap).state == old(heap).state,
            final(heap).possible_cycles == old(heap).possible_cycles,
            final(heap).taken@ == old(heap).taken@,
    {
        let x = self.index();
        let t = w.target.unwrap();
        let ghost ow = old(heap).wg();
        let ghost ns = ow[x as int].push(t);
        heap.weak_children[x].push(t);
        proof {
            let n = heap.n();
            assert(heap.wg() =~= ow.update(x as int, ns));
            assert forall|z: usize| z < n implies #[trigger] heap.weak_held(z) == old(heap).weak_held(z) - (if z == t {
                1int
            } else {
                0int
            }) by {
                crate::graph::lemma_into_update(ow, Set::full(), n as int, z, x as int, ns);
                crate::graph::lemma_count_push(ow[x as int], t, z);
            }
            assert forall|z: usize| z < n implies indeg(heap.wg(), z) <= #[trigger] heap.wext@[z as int] by {
                assert(heap.weak_held(z) == old(heap).weak_held(z) - (if z == t { 1int } else { 0int }));
                assert(indeg(ow, z) <= old(heap).wext@[z as int]);
            }
            assert forall|z: usize, j: int| z < n && 0 <= j < heap.weak_children@[z as int]@.len()
                implies #[trigger] heap.weak_children@[z as int]@[j] < n by {
                if z == x && j == ow[x as int].len() {
                } else {
                    assert(heap.weak_children@[z as int]@[j] == old(heap).weak_children@[z as int]@[j]);
                }
            }
            assert forall|z: usize| z < n && (#[trigger] heap.elems@[z as int]) is None implies heap.children@[z as int]@.len()
                == 0 && heap.weak_children@[z as int]@.len() == 0 by {
                assert(z != x);
            }
            assert(heap.g() == old(heap).g());
        }
    }

    /// Moves the weak handle most recently moved into the element of this allocation back
    /// out.
    pub fn detach_weak<T>(&self, heap: &mut CcHeap<T>) -> (r: Option<Weak>)
        requires
            old(heap).wf(),
            old(heap).valid(self),
        ensures
            final(heap).wf(),
            old(heap).weak_children@[self@ as int]@.len() == 0 ==> r is None && *final(heap) == *old(heap),
            old(heap).weak_children@[self@ as int]@.len() > 0 ==> {
                let t = old(heap).weak_children@[self@ as int]@.last();
                &&& r matches Some(w) && w@ == Some(t)
                &&& final(heap).weak_valid(&r->0)
                &&& final(heap).weak_children@[self@ as int]@ == old(heap).weak_children@[self@ as int]@.drop_last()
                &&& forall|z: usize| z < old(heap).n() ==> #[trigger] final(heap).weak_held(z) == old(heap).weak_held(z) + (
                if z == t {
                    1int
                } else {
                    0int
                })
            },
            final(heap).wext@ == old(heap).wext@,
            final(heap).metadata@ == old(heap).metadata@,
            final(heap).links@ == old(heap).links@,
            final(heap).markers@ == old(heap).markers@,
            final(heap).elems@ == old(heap).elems@,
            final(heap).children@ == old(heap).children@,
            final(heap).allocated@ == old(heap).allocated@,
            final(heap).ext@ == old(heap).ext@,
            final(heap).state == old(heap).state,
            final(heap).possible_cycles == old(heap).possible_cycles,
            final(heap).taken@ == old(heap).taken@,
    {
        let x = self.index();
        if heap.weak_children[x].len() == 0 {
            return None;
        }
        let ghost ow = old(heap).wg();
        let ghost ns = ow[x as int].drop_last();
        let t = heap.weak_children[x].pop().unwrap();
        proof {
            let n = heap.n();
            assert(ow[x as int] == ns.push(t));
            assert(heap.wg() =~= ow.update(x as int, ns));
            assert(t < n) by {
                assert(old(heap).weak_children@[x as int]@[ow[x as int].len() - 1] == t);
            }
            assert forall|z: usize| z < n implies #[trigger] heap.weak_held(z) == old(heap).weak_held(z) + (if z == t {
                1int
            } else {
                0int
            }) by {
                crate::graph::lemma_into_update(ow, Set::full(), n as int, z, x as int, ns);
                crate::graph::lemma_count_push(ns, t, z);
            }
            assert forall|z: usize| z < n implies indeg(heap.wg(), z) <= #[trigger] heap.wext@[z as int] by {
                assert(heap.weak_held(z) == old(heap).weak_held(z) + (if z == t { 1int } else { 0int }));
                assert(indeg(ow, z) <= old(heap).wext@[z as int]);
            }
            assert forall|z: usize, j: int| z < n && 0 <= j < heap.weak_children@[z as int]@.len()
                implies #[trigger] heap.weak_children@[z as int]@[j] < n by {
                assert(heap.weak_children@[z as int]@[j] == old(heap).weak_children@[z as int]@[j]);
            }
            assert(heap.g() == old(heap).g());
            assert(indeg(ow, t) <= old(heap).wext@[t as int]);
        }
        Some(Weak { target: Some(t) })
    }

    /// The number of [`Weak`]s to the allocation.
    pub fn weak_count<T>(&self, heap: &CcHeap<T>) -> (c: u32)
        requires
            heap.wf(),
            heap.valid(self),
        ensures
            c == heap.wext@[self@ as int],
    {
        let x = self.index();
        proof {
            assert(meta_ok(
                heap.metadata@[x as int],
                heap.wext@[x as int],
                heap.allocated@[x as int],
                heap.markers@[x as int]@.allocated_for_metadata,
            ));
        }
        if heap.markers[x].has_allocated_for_metadata() {
            heap.metadata[x].unwrap().counter() as u32
        } else {
            0
        }
    }
}

/// While a handle to an allocation exists, every weak pointer to it sees its reference
/// counter, which is not zero: upgrading such a weak pointer gives a handle to it.
pub proof fn law_weak_upgrades_while_handle_exists<T>(h: &CcHeap<T>, w: &Weak, x: usize)
    requires
        h.wf(),
        w@ == Some(x),
        h.is_live(x),
        h.ext@[x as int] >= 1,
    ensures
        h.weak_strong_count(w) == h.cm(x).counter,
        h.weak_strong_count(w) >= 1,
{
    assert(h.markers@[x as int]@.counter == indeg(h.g(), x) + h.ext@[x as int] + count(Seq::<usize>::empty(), x));
}

/// Once an allocation has been deallocated, no weak pointer to it upgrades.
pub proof fn law_weak_after_deallocation<T>(h: &CcHeap<T>, w: &Weak, x: usize)
    requires
        w@ == Some(x),
        !h.is_live(x),
    ensures
        h.weak_strong_count(w) == 0,
{
}

} // verus!
