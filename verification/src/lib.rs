//! A garbage collector based on cycle collection.
//!
//! A [`Cc`] (cycle-collected pointer) behaves like a reference-counted pointer: when the
//! last reference to an allocation is dropped, the allocation is finalized, dropped and
//! deallocated. References that form cycles are reclaimed by [`collect_cycles`], which runs
//! trial deletion over the allocations buffered when a reference to them was dropped.
pub mod counter_marker;
pub mod utils;
pub mod state;
pub mod lists;
pub mod weak;
pub mod graph;
pub mod trace;
pub mod cc;
pub mod config;

use vstd::prelude::*;
use crate::cc::{CcHeap, meta_ok, supported, outside_list, lemma_inv_marker_update, lemma_inv_links_update, lemma_inv_unlink};
use crate::counter_marker::{Mark, MAX};
use crate::graph::{count, indeg, into_from, closed_under_edges, reachable_from, ancestor, lemma_reachable_base, lemma_reachable_step};
use crate::lists::{Link, LinkedList, LinkedQueue, below};
use crate::trace::Finalize;
use crate::config::{should_collect, spec_should_collect};
use crate::cc::{indices, ext_after_new, finalizer_calls_after};

pub use crate::cc::Cc;

verus! {

/// The invariant of the counting phase of a collection.
///
/// `done` is the set of allocations already traced (in `root_list` or `non_root_list`);
/// `cur` is the allocation being traced, of which the references `extra` have been traced.
/// Every buffered, listed or queued allocation has as tracing counter the number of
/// references to it from the traced allocations.
pub open spec fn counting_inv<T>(
    h: &CcHeap<T>,
    root_list: &LinkedList,
    non_root_list: &LinkedList,
    queue: &LinkedQueue,
    done: Set<usize>,
    cur: Option<usize>,
    extra: Seq<usize>,
) -> bool {
    let n = h.n();
    let g = h.g();
    &&& h.inv(Seq::empty())
    &&& h.state.collecting && !h.state.finalizing && !h.state.dropping
    &&& forall|x: usize| x < n && h.allocated@[x as int] ==> (#[trigger] h.elems@[x as int]) is Some
    &&& root_list.wf(h.links@)
    &&& non_root_list.wf(h.links@)
    &&& queue.wf(h.links@)
    &&& forall|x: usize|
        #[trigger] done.contains(x) <==> (root_list.seq().contains(x) || non_root_list.seq().contains(x))
    &&& forall|x: usize|
        root_list.seq().contains(x) ==> x < n && h.allocated@[x as int] && !non_root_list.seq().contains(x)
            && h.cm(x).counter != h.cm(x).tracing_counter
    &&& forall|x: usize|
        non_root_list.seq().contains(x) ==> x < n && h.allocated@[x as int] && h.cm(x).counter == h.cm(
            x,
        ).tracing_counter
    &&& forall|x: usize| queue.seq().contains(x) ==> x < n && h.allocated@[x as int]
    &&& forall|x: usize|
        x < n && h.allocated@[x as int] ==> ((#[trigger] h.markers@[x as int])@.mark == Mark::InList
            <==> done.contains(x))
    &&& forall|x: usize|
        x < n && h.allocated@[x as int] && (#[trigger] h.markers@[x as int])@.mark == Mark::InQueue
            ==> (queue.seq().contains(x) || cur == Some(x))
    &&& forall|x: usize| queue.seq().contains(x) ==> h.cm(x).mark == Mark::InQueue
    &&& forall|x: usize|
        x < n && h.allocated@[x as int] && ((#[trigger] h.markers@[x as int])@.mark != Mark::NonMarked
            || cur == Some(x)) ==> h.cm(x).tracing_counter == into_from(g, done, n as int, x) + count(
            extra,
            x,
        )
    &&& forall|y: usize, j: int|
        done.contains(y) && 0 <= j < g[y as int].len() ==> h.cm(#[trigger] g[y as int][j]).mark
            != Mark::NonMarked || cur == Some(g[y as int][j])
    &&& forall|j: int|
        0 <= j < extra.len() ==> h.cm(#[trigger] extra[j]).mark != Mark::NonMarked || cur == Some(
            extra[j],
        )
    &&& match cur {
        Some(c) => {
            &&& h.cm(c).mark == Mark::InQueue || h.cm(c).mark == Mark::NonMarked
            &&& c < n
            &&& h.allocated@[c as int]
            &&& !done.contains(c)
            &&& !queue.seq().contains(c)
            &&& h.links@[c as int] == Link::empty()
            &&& extra.len() <= g[c as int].len()
            &&& extra == g[c as int].take(extra.len() as int)
        },
        None => extra.len() == 0,
    }
}

/// Between two tracing steps of the counting phase, the tracing counter of every marked
/// allocation is at most its reference counter: it counts only the references from the
/// traced allocations.
pub proof fn law_tracing_counter_bounded<T>(
    h: &CcHeap<T>,
    root_list: &LinkedList,
    non_root_list: &LinkedList,
    queue: &LinkedQueue,
    done: Set<usize>,
)
    requires
        counting_inv(h, root_list, non_root_list, queue, done, None, Seq::empty()),
    ensures
        forall|x: usize|
            x < h.n() && h.allocated@[x as int] && (#[trigger] h.markers@[x as int])@.mark != Mark::NonMarked
                ==> h.cm(x).tracing_counter <= h.cm(x).counter,
{
    let n = h.n();
    let g = h.g();
    assert forall|x: usize|
        x < h.n() && h.allocated@[x as int] && (#[trigger] h.markers@[x as int])@.mark != Mark::NonMarked
        implies h.cm(x).tracing_counter <= h.cm(x).counter by {
        let others = Set::new(|y: usize| !done.contains(y));
        crate::graph::lemma_into_union(g, done, others, n as int, x);
        crate::graph::lemma_into_ext(g, done.union(others), Set::full(), n as int, x);
        assert(count(Seq::<usize>::empty(), x) == 0);
        assert(h.markers@[x as int]@.counter == indeg(g, x) + h.ext@[x as int] + count(Seq::<usize>::empty(), x));
    }
}

/// The traced allocations keep their contents during tracing.
pub open spec fn same_contents_tracing<T>(a: &CcHeap<T>, b: &CcHeap<T>) -> bool {
    &&& a.elems@ == b.elems@
    &&& a.children@ == b.children@
    &&& a.allocated@ == b.allocated@
    &&& a.metadata@ == b.metadata@
    &&& a.box_size == b.box_size
    &&& a.state == b.state
    &&& a.ext@ == b.ext@
    &&& a.wext@ == b.wext@
    &&& a.taken@ == b.taken@
    &&& a.weak_children@ == b.weak_children@
    &&& a.finalizer_calls@ == b.finalizer_calls@
    &&& a.possible_cycles == b.possible_cycles
    &&& a.links@.len() == b.links@.len()
    &&& a.markers@.len() == b.markers@.len()
    &&& forall|x: usize| x < a.n() ==> #[trigger] a.markers@[x as int]@.finalized == b.markers@[x as int]@.finalized
}

/// Counting tracing of the reference to `c` held by the allocation `cur` being traced.
///
/// A listed or queued allocation gets its tracing counter incremented, and moves from the
/// root list to the non-root list when all its references have been found; a buffered one
/// gets its tracing counter incremented; any other gets queued with a tracing counter of one.
fn trace_counting_child<T>(
    heap: &mut CcHeap<T>,
    c: usize,
    root_list: &mut LinkedList,
    non_root_list: &mut LinkedList,
    queue: &mut LinkedQueue,
    Ghost(done): Ghost<Set<usize>>,
    Ghost(cur): Ghost<usize>,
    Ghost(extra): Ghost<Seq<usize>>,
)
    requires
        counting_inv(old(heap), old(root_list), old(non_root_list), old(queue), done, Some(cur), extra),
        extra.len() < old(heap).g()[cur as int].len(),
        c == old(heap).g()[cur as int][extra.len() as int],
        old(heap).cm(cur).mark == Mark::InQueue,
    ensures
        counting_inv(final(heap), final(root_list), final(non_root_list), final(queue), done, Some(cur), extra.push(c)),
        same_contents_tracing(final(heap), old(heap)),
        final(heap).cm(cur).mark == Mark::InQueue,
        forall|x: usize| #[trigger] final(queue).seq().contains(x) ==> old(queue).seq().contains(x) || x == c,
{
    if heap.markers[c].is_in_list_or_queue() {
        count_listed(heap, c, root_list, non_root_list, queue, Ghost(done), Ghost(cur), Ghost(extra));
    } else if heap.markers[c].is_in_possible_cycles() {
        count_buffered(heap, c, root_list, non_root_list, queue, Ghost(done), Ghost(cur), Ghost(extra));
    } else {
        count_unmarked(heap, c, root_list, non_root_list, queue, Ghost(done), Ghost(cur), Ghost(extra));
    }
}

#[verifier::spinoff_prover]
#[verifier::rlimit(40)]
fn count_listed<T>(
    heap: &mut CcHeap<T>,
    c: usize,
    root_list: &mut LinkedList,
    non_root_list: &mut LinkedList,
    queue: &mut LinkedQueue,
    Ghost(done): Ghost<Set<usize>>,
    Ghost(cur): Ghost<usize>,
    Ghost(extra): Ghost<Seq<usize>>,
)
    requires
        counting_inv(old(heap), old(root_list), old(non_root_list), old(queue), done, Some(cur), extra),
        extra.len() < old(heap).g()[cur as int].len(),
        c == old(heap).g()[cur as int][extra.len() as int],
        old(heap).cm(cur).mark == Mark::InQueue,
        old(heap).cm(c).mark == Mark::InList || old(heap).cm(c).mark == Mark::InQueue,
    ensures
        counting_inv(final(heap), final(root_list), final(non_root_list), final(queue), done, Some(cur), extra.push(c)),
        same_contents_tracing(final(heap), old(heap)),
        final(heap).cm(cur).mark == Mark::InQueue,
        *final(queue) == *old(queue),
{
    let ghost h0 = *heap;
    let ghost g = heap.g();
    let ghost n = heap.n();
    let ghost nextra = extra.push(c);
    proof {
        assert(c < n && heap.allocated@[c as int]) by {
            assert(heap.children@[cur as int]@[extra.len() as int] == c);
        }
        assert(nextra =~= g[cur as int].take(extra.len() + 1int));
        crate::graph::lemma_count_prefix(g[cur as int], extra.len() + 1int, c);
        crate::graph::lemma_into_bound(g, done, cur, c);
        crate::graph::lemma_count_push(extra, c, c);
        assert forall|x: usize| x != c implies #[trigger] count(nextra, x) == count(extra, x) by {
            crate::graph::lemma_count_push(extra, c, x);
        }
        assert(h0.markers@[c as int]@.counter == indeg(g, c) + h0.ext@[c as int] + count(Seq::empty(), c));
    }
    let _ = heap.markers[c].increment_tracing_counter();
    let ghost h1 = *heap;
    proof {
        lemma_inv_marker_update(&h0, heap, Seq::empty(), Seq::empty(), c);
        assert(h1.cm(c).tracing_counter == into_from(g, done, n as int, c) + count(nextra, c));
        assert(h1.cm(c).tracing_counter <= h1.cm(c).counter);
        assert forall|x: usize| x < n && h1.allocated@[x as int] && (#[trigger] h1.markers@[x as int])@.mark
            != Mark::NonMarked implies h1.cm(x).tracing_counter == into_from(g, done, n as int, x) + count(nextra, x) by {
            if x != c {
                assert(h1.markers@[x as int] == h0.markers@[x as int]);
            }
        }
        assert forall|y: usize, j: int| done.contains(y) && 0 <= j < g[y as int].len() implies h1.cm(
            #[trigger] g[y as int][j]).mark != Mark::NonMarked by {
            assert(h0.cm(g[y as int][j]).mark != Mark::NonMarked);
        }
        assert forall|j: int| 0 <= j < nextra.len() implies h1.cm(#[trigger] nextra[j]).mark != Mark::NonMarked by {
            if j < extra.len() {
                assert(nextra[j] == extra[j]);
                assert(h0.cm(extra[j]).mark != Mark::NonMarked);
            }
        }
        assert forall|x: usize| x < n && h1.allocated@[x as int] implies ((#[trigger] h1.markers@[x as int])@.mark
            == Mark::InList <==> done.contains(x)) by {
            assert(h0.markers@[x as int]@.mark == h1.markers@[x as int]@.mark);
        }
        assert forall|x: usize| x < n && h1.allocated@[x as int] implies ((#[trigger] h1.markers@[x as int])@.mark
            == Mark::InQueue <==> (queue.seq().contains(x) || Some(cur) == Some(x))) by {
            assert(h0.markers@[x as int]@.mark == h1.markers@[x as int]@.mark);
        }
        assert(!non_root_list.seq().contains(c)) by {
            if non_root_list.seq().contains(c) {
                assert(h0.cm(c).counter == h0.cm(c).tracing_counter);
            }
        }
        assert forall|x: usize| non_root_list.seq().contains(x) implies x < n && h1.allocated@[x as int]
            && h1.cm(x).counter == h1.cm(x).tracing_counter by {
            assert(x != c);
            assert(h1.markers@[x as int] == h0.markers@[x as int]);
        }
    }
    if heap.markers[c].is_in_list() && heap.markers[c].counter() == heap.markers[c].tracing_counter() {
        proof {
            assert(done.contains(c));
            assert(root_list.seq().contains(c));
        }
        let ghost r0 = root_list.seq();
        let ghost nr0 = non_root_list.seq();
        root_list.remove(&mut heap.links, c);
        let ghost l1 = heap.links@;
        non_root_list.add(&mut heap.links, c);
        proof {
            let r1 = root_list.seq();
            let nr1 = non_root_list.seq();
            let k = r0.index_of(c);
            assert forall|x: usize| #[trigger] r1.contains(x) <==> (r0.contains(x) && x != c) by {
                if r1.contains(x) {
                    let j = r1.index_of(x);
                    if j < k {
                        assert(r0[j] == x);
                    } else {
                        assert(r0[j + 1] == x);
                    }
                    assert(x != c) by {
                        assert(r0.no_duplicates());
                        if j < k {
                            assert(r0[j] == x);
                        } else {
                            assert(r0[j + 1] == x);
                        }
                    }
                }
                if r0.contains(x) && x != c {
                    let j = r0.index_of(x);
                    if j < k {
                        assert(r1[j] == x);
                    } else {
                        assert(r1[j - 1] == x);
                    }
                }
            }
            assert forall|x: usize| #[trigger] nr1.contains(x) <==> (nr0.contains(x) || x == c) by {
                if nr1.contains(x) && x != c {
                    let j = nr1.index_of(x);
                    assert(nr0[j - 1] == x);
                }
                if nr0.contains(x) {
                    let j = nr0.index_of(x);
                    assert(nr1[j + 1] == x);
                }
                assert(nr1[0] == c);
            }
            assert forall|z: usize| z < n && #[trigger] heap.links@[z as int] != h1.links@[z as int] implies h1.allocated@[z as int]
                && (h1.markers@[z as int]@.mark == Mark::InList || h1.markers@[z as int]@.mark == Mark::InQueue) by {
                if r0.contains(z) || nr1.contains(z) {
                    assert(done.contains(z));
                } else {
                    assert(l1[z as int] == h1.links@[z as int]);
                }
            }
            lemma_inv_links_update(&h1, heap, Seq::empty());
            assert forall|i: int| 0 <= i < queue.seq().len() implies heap.links@[#[trigger] queue.seq()[i] as int]
                == h1.links@[queue.seq()[i] as int] by {
                let z = queue.seq()[i];
                assert(queue.seq().contains(z));
                assert(!done.contains(z)) by {
                    assert(h1.markers@[z as int]@.mark == Mark::InQueue);
                }
                assert(!r0.contains(z) && !nr1.contains(z));
                assert(l1[z as int] == h1.links@[z as int]);
            }
            crate::lists::lemma_q_frame(h1.links@, heap.links@, queue.first, queue.last, queue.seq());
            assert(!done.contains(cur));
            assert(!r0.contains(cur) && !nr1.contains(cur));
            assert(l1[cur as int] == h1.links@[cur as int]);
            assert forall|x: usize| #[trigger] done.contains(x) <==> (r1.contains(x) || nr1.contains(x)) by {}
            assert forall|x: usize| r1.contains(x) implies x < n && heap.allocated@[x as int]
                && !nr1.contains(x) && heap.cm(x).counter != heap.cm(x).tracing_counter by {
                assert(r0.contains(x));
                assert(heap.markers@[x as int] == h0.markers@[x as int]);
            }
            assert forall|x: usize| nr1.contains(x) implies x < n && heap.allocated@[x as int]
                && heap.cm(x).counter == heap.cm(x).tracing_counter by {
                if x != c {
                    assert(nr0.contains(x));
                }
            }
        }
    }
}

fn count_buffered<T>(
    heap: &mut CcHeap<T>,
    c: usize,
    root_list: &mut LinkedList,
    non_root_list: &mut LinkedList,
    queue: &mut LinkedQueue,
    Ghost(done): Ghost<Set<usize>>,
    Ghost(cur): Ghost<usize>,
    Ghost(extra): Ghost<Seq<usize>>,
)
    requires
        counting_inv(old(heap), old(root_list), old(non_root_list), old(queue), done, Some(cur), extra),
        extra.len() < old(heap).g()[cur as int].len(),
        c == old(heap).g()[cur as int][extra.len() as int],
        old(heap).cm(cur).mark == Mark::InQueue,
        old(heap).cm(c).mark == Mark::PossibleCycles,
    ensures
        counting_inv(final(heap), final(root_list), final(non_root_list), final(queue), done, Some(cur), extra.push(c)),
        same_contents_tracing(final(heap), old(heap)),
        final(heap).cm(cur).mark == Mark::InQueue,
        *final(queue) == *old(queue),
{
    let ghost h0 = *heap;
    let ghost g = heap.g();
    let ghost n = heap.n();
    let ghost nextra = extra.push(c);
    proof {
        assert(c < n && heap.allocated@[c as int]) by {
            assert(heap.children@[cur as int]@[extra.len() as int] == c);
        }
        assert(nextra =~= g[cur as int].take(extra.len() + 1int));
        crate::graph::lemma_count_prefix(g[cur as int], extra.len() + 1int, c);
        crate::graph::lemma_into_bound(g, done, cur, c);
        crate::graph::lemma_count_push(extra, c, c);
        assert forall|x: usize| x != c implies #[trigger] count(nextra, x) == count(extra, x) by {
            crate::graph::lemma_count_push(extra, c, x);
        }
        assert(h0.markers@[c as int]@.counter == indeg(g, c) + h0.ext@[c as int] + count(Seq::empty(), c));
    }
    let _ = heap.markers[c].increment_tracing_counter();
    proof {
        lemma_inv_marker_update(&h0, heap, Seq::empty(), Seq::empty(), c);
    }
}

#[verifier::spinoff_prover]
fn count_unmarked<T>(
    heap: &mut CcHeap<T>,
    c: usize,
    root_list: &mut LinkedList,
    non_root_list: &mut LinkedList,
    queue: &mut LinkedQueue,
    Ghost(done): Ghost<Set<usize>>,
    Ghost(cur): Ghost<usize>,
    Ghost(extra): Ghost<Seq<usize>>,
)
    requires
        counting_inv(old(heap), old(root_list), old(non_root_list), old(queue), done, Some(cur), extra),
        extra.len() < old(heap).g()[cur as int].len(),
        c == old(heap).g()[cur as int][extra.len() as int],
        old(heap).cm(cur).mark == Mark::InQueue,
        old(heap).cm(c).mark == Mark::NonMarked,
    ensures
        counting_inv(final(heap), final(root_list), final(non_root_list), final(queue), done, Some(cur), extra.push(c)),
        same_contents_tracing(final(heap), old(heap)),
        final(heap).cm(cur).mark == Mark::InQueue,
        forall|x: usize| #[trigger] final(queue).seq().contains(x) ==> old(queue).seq().contains(x) || x == c,
{
    let ghost h0 = *heap;
    let ghost g = heap.g();
    let ghost n = heap.n();
    let ghost nextra = extra.push(c);
    proof {
        assert(c < n && heap.allocated@[c as int]) by {
            assert(heap.children@[cur as int]@[extra.len() as int] == c);
        }
        assert(nextra =~= g[cur as int].take(extra.len() + 1int));
        crate::graph::lemma_count_prefix(g[cur as int], extra.len() + 1int, c);
        crate::graph::lemma_into_bound(g, done, cur, c);
        crate::graph::lemma_count_push(extra, c, c);
        assert forall|x: usize| x != c implies #[trigger] count(nextra, x) == count(extra, x) by {
            crate::graph::lemma_count_push(extra, c, x);
        }
        assert(h0.markers@[c as int]@.counter == indeg(g, c) + h0.ext@[c as int] + count(Seq::empty(), c));
    }
    proof {
        assert forall|y: usize| 0 <= y < n && done.contains(y) implies !(#[trigger] g[y as int]).contains(c) by {
            if g[y as int].contains(c) {
                let j = g[y as int].index_of(c);
                assert(h0.cm(g[y as int][j]).mark != Mark::NonMarked);
            }
        }
        crate::graph::lemma_into_zero_rev(g, done, n as int, c);
        crate::graph::lemma_count_contains(extra, c);
        if extra.contains(c) {
            let j = extra.index_of(c);
            assert(h0.cm(extra[j]).mark != Mark::NonMarked);
        }
        assert(!queue.seq().contains(c));
    }
    heap.markers[c].reset_tracing_counter();
    let _ = heap.markers[c].increment_tracing_counter();
    heap.markers[c].mark(Mark::InQueue);
    let ghost h1 = *heap;
    proof {
        lemma_inv_marker_update(&h0, &h1, Seq::empty(), Seq::empty(), c);
    }
    let ghost q0 = queue.seq();
    queue.add(&mut heap.links, c);
    proof {
        assert forall|z: usize| z < n && #[trigger] heap.links@[z as int] != h1.links@[z as int] implies h1.allocated@[z as int]
            && (h1.markers@[z as int]@.mark == Mark::InList || h1.markers@[z as int]@.mark == Mark::InQueue) by {
            assert(queue.seq().contains(z));
            if z != c {
                let k = queue.seq().index_of(z);
                assert(q0[k] == z);
                assert(q0.contains(z));
            }
        }
        lemma_inv_links_update(&h1, heap, Seq::empty());
        assert forall|i: int| 0 <= i < root_list.seq().len() implies heap.links@[#[trigger] root_list.seq()[i] as int]
            == h1.links@[root_list.seq()[i] as int] by {
            let z = root_list.seq()[i];
            assert(root_list.seq().contains(z));
            assert(done.contains(z));
            assert(!queue.seq().contains(z)) by {
                if queue.seq().contains(z) {
                    if z != c {
                        let k = queue.seq().index_of(z);
                        assert(q0[k] == z);
                        assert(q0.contains(z));
                    }
                    assert(h1.markers@[z as int]@.mark == Mark::InList);
                }
            }
        }
        crate::lists::lemma_dl_frame(h1.links@, heap.links@, root_list.first, root_list.seq());
        assert forall|i: int| 0 <= i < non_root_list.seq().len() implies heap.links@[#[trigger] non_root_list.seq()[i] as int]
            == h1.links@[non_root_list.seq()[i] as int] by {
            let z = non_root_list.seq()[i];
            assert(non_root_list.seq().contains(z));
            assert(done.contains(z));
            assert(!queue.seq().contains(z)) by {
                if queue.seq().contains(z) {
                    if z != c {
                        let k = queue.seq().index_of(z);
                        assert(q0[k] == z);
                        assert(q0.contains(z));
                    }
                    assert(h1.markers@[z as int]@.mark == Mark::InList);
                }
            }
        }
        crate::lists::lemma_dl_frame(h1.links@, heap.links@, non_root_list.first, non_root_list.seq());
        assert forall|x: usize| queue.seq().contains(x) implies x < n && heap.allocated@[x as int] by {
            if x != c {
                let k = queue.seq().index_of(x);
                assert(q0[k] == x);
                assert(q0.contains(x));
            }
        }
        assert forall|x: usize| x < n && heap.allocated@[x as int] implies ((#[trigger] heap.markers@[x as int])@.mark
            == Mark::InQueue <==> (queue.seq().contains(x) || Some(cur) == Some(x))) by {
            if x != c {
                assert(heap.markers@[x as int] == h0.markers@[x as int]);
                if queue.seq().contains(x) {
                    let k = queue.seq().index_of(x);
                    assert(q0[k] == x);
                    assert(q0.contains(x));
                }
                if q0.contains(x) {
                    let k = q0.index_of(x);
                    assert(queue.seq()[k] == x);
                }
            }
            assert(queue.seq()[queue.seq().len() - 1] == c);
        }
        assert forall|x: usize| x < n && heap.allocated@[x as int] implies ((#[trigger] heap.markers@[x as int])@.mark
            == Mark::InList <==> done.contains(x)) by {
            if x != c {
                assert(heap.markers@[x as int] == h0.markers@[x as int]);
            }
        }
        assert forall|x: usize| x < n && heap.allocated@[x as int] && (#[trigger] heap.markers@[x as int])@.mark
            != Mark::NonMarked implies heap.cm(x).tracing_counter == into_from(g, done, n as int, x) + count(nextra, x) by {
            if x != c {
                assert(heap.markers@[x as int] == h0.markers@[x as int]);
            }
        }
        assert forall|y: usize, j: int| done.contains(y) && 0 <= j < g[y as int].len() implies heap.cm(
            #[trigger] g[y as int][j]).mark != Mark::NonMarked by {
            assert(h0.cm(g[y as int][j]).mark != Mark::NonMarked);
        }
        assert forall|j: int| 0 <= j < nextra.len() implies heap.cm(#[trigger] nextra[j]).mark != Mark::NonMarked by {
            if j < extra.len() {
                assert(nextra[j] == extra[j]);
                assert(h0.cm(extra[j]).mark != Mark::NonMarked);
            }
        }
        assert forall|x: usize| root_list.seq().contains(x) implies x < n && heap.allocated@[x as int]
            && !non_root_list.seq().contains(x) && heap.cm(x).counter != heap.cm(x).tracing_counter by {
            assert(done.contains(x));
            assert(x != c);
        }
        assert forall|x: usize| non_root_list.seq().contains(x) implies x < n && heap.allocated@[x as int]
            && heap.cm(x).counter == heap.cm(x).tracing_counter by {
            assert(done.contains(x));
            assert(x != c);
        }
        assert(heap.links@[cur as int] == h1.links@[cur as int]) by {
            assert(!queue.seq().contains(cur)) by {
                if queue.seq().contains(cur) {
                    let k = queue.seq().index_of(cur);
                    if k < q0.len() {
                        assert(q0[k] == cur);
                    }
                }
            }
        }
    }
}

/// Traces `ptr` in counting mode, then puts it in the non-root list when all its
/// references come from traced allocations, in the root list otherwise.
#[verifier::spinoff_prover]
fn trace_counting_one<T>(
    heap: &mut CcHeap<T>,
    ptr: usize,
    root_list: &mut LinkedList,
    non_root_list: &mut LinkedList,
    queue: &mut LinkedQueue,
    Ghost(done): Ghost<Set<usize>>,
)
    requires
        counting_inv(old(heap), old(root_list), old(non_root_list), old(queue), done, Some(ptr), Seq::empty()),
    ensures
        counting_inv(final(heap), final(root_list), final(non_root_list), final(queue), done.insert(ptr), None, Seq::empty()),
        same_contents_tracing(final(heap), old(heap)),
        forall|x: usize| #[trigger] final(queue).seq().contains(x) ==> old(queue).seq().contains(x) || old(heap).g()[ptr as int].contains(x),
{
    let ghost h0 = *heap;
    let ghost g = heap.g();
    let ghost n = heap.n();
    let ghost q_init = queue.seq();
    heap.markers[ptr].mark(Mark::InQueue);
    proof {
        lemma_inv_marker_update(&h0, heap, Seq::empty(), Seq::empty(), ptr);
        assert forall|x: usize| x < n && heap.allocated@[x as int] && (#[trigger] heap.markers@[x as int])@.mark
            == Mark::InQueue implies (queue.seq().contains(x) || Some(ptr) == Some(x)) by {
            if x != ptr {
                assert(heap.markers@[x as int] == h0.markers@[x as int]);
            }
        }
        assert forall|x: usize| queue.seq().contains(x) implies heap.cm(x).mark == Mark::InQueue by {
            assert(x != ptr);
            assert(heap.markers@[x as int] == h0.markers@[x as int]);
        }
        assert forall|x: usize| x < n && heap.allocated@[x as int] implies ((#[trigger] heap.markers@[x as int])@.mark
            == Mark::InList <==> done.contains(x)) by {
            if x != ptr {
                assert(heap.markers@[x as int] == h0.markers@[x as int]);
            }
        }
        assert forall|x: usize| x < n && heap.allocated@[x as int] && ((#[trigger] heap.markers@[x as int])@.mark
            != Mark::NonMarked || Some(ptr) == Some(x)) implies heap.cm(x).tracing_counter == into_from(g, done, n as int, x)
            + count(Seq::<usize>::empty(), x) by {
            if x != ptr {
                assert(heap.markers@[x as int] == h0.markers@[x as int]);
            }
        }
        assert forall|y: usize, j: int| done.contains(y) && 0 <= j < g[y as int].len() implies heap.cm(
            #[trigger] g[y as int][j]).mark != Mark::NonMarked || Some(ptr) == Some(g[y as int][j]) by {
            assert(h0.cm(g[y as int][j]).mark != Mark::NonMarked || Some(ptr) == Some(g[y as int][j]));
        }
        assert forall|x: usize| root_list.seq().contains(x) implies x < n && heap.allocated@[x as int]
            && !non_root_list.seq().contains(x) && heap.cm(x).counter != heap.cm(x).tracing_counter by {
            assert(done.contains(x));
        }
        assert forall|x: usize| non_root_list.seq().contains(x) implies x < n && heap.allocated@[x as int]
            && heap.cm(x).counter == heap.cm(x).tracing_counter by {
            assert(done.contains(x));
        }
        assert(g[ptr as int].take(0) =~= Seq::<usize>::empty());
    }
    let ghost h1 = *heap;
    let len = heap.children[ptr].len();
    let mut j: usize = 0;
    while j < len
        invariant
            j <= len,
            len == g[ptr as int].len(),
            g == heap.g(),
            n == heap.n(),
            counting_inv(heap, root_list, non_root_list, queue, done, Some(ptr), g[ptr as int].take(j as int)),
            same_contents_tracing(heap, &h1),
            heap.cm(ptr).mark == Mark::InQueue,
            forall|x: usize| #[trigger] queue.seq().contains(x) ==> q_init.contains(x) || g[ptr as int].contains(x),
        decreases len - j,
    {
        let c = heap.children[ptr][j];
        proof {
            assert(heap.children@[ptr as int]@[j as int] == g[ptr as int][j as int]);
        }
        let ghost q_before = queue.seq();
        trace_counting_child(heap, c, root_list, non_root_list, queue, Ghost(done), Ghost(ptr), Ghost(g[ptr as int].take(j as int)));
        proof {
            assert forall|x: usize| #[trigger] queue.seq().contains(x) implies q_init.contains(x) || g[ptr as int].contains(x) by {
                if x == c {
                    assert(g[ptr as int][j as int] == c);
                } else {
                    assert(q_before.contains(x));
                }
            }
            assert(g[ptr as int].take(j as int).push(c) =~= g[ptr as int].take(j + 1));
            assert(heap.g() =~= g);
        }
        j = j + 1;
    }
    proof {
        assert(g[ptr as int].take(len as int) =~= g[ptr as int]);
        assert(heap.g() =~= g);
    }
    finish_counting_one(heap, ptr, root_list, non_root_list, queue, Ghost(done));
}

/// Puts the traced `ptr` in the non-root list when its tracing counter reached its
/// reference counter, in the root list otherwise.
#[verifier::spinoff_prover]
#[verifier::rlimit(30)]
fn finish_counting_one<T>(
    heap: &mut CcHeap<T>,
    ptr: usize,
    root_list: &mut LinkedList,
    non_root_list: &mut LinkedList,
    queue: &mut LinkedQueue,
    Ghost(done): Ghost<Set<usize>>,
)
    requires
        counting_inv(old(heap), old(root_list), old(non_root_list), old(queue), done, Some(ptr), old(heap).g()[ptr as int]),
        old(heap).cm(ptr).mark == Mark::InQueue,
    ensures
        counting_inv(final(heap), final(root_list), final(non_root_list), final(queue), done.insert(ptr), None, Seq::empty()),
        same_contents_tracing(final(heap), old(heap)),
        *final(queue) == *old(queue),
{
    let ghost g = heap.g();
    let ghost n = heap.n();
    let ghost len = g[ptr as int].len();
    let ghost h2 = *heap;
    let ghost nd = done.insert(ptr);
    proof {
        assert forall|x: usize| #[trigger] into_from(g, nd, n as int, x) == into_from(g, done, n as int, x) + count(g[ptr as int], x) by {
            crate::graph::lemma_into_insert(g, done, n as int, x, ptr);
        }
        assert(!root_list.seq().contains(ptr) && !non_root_list.seq().contains(ptr));
    }
    let ghost r0 = root_list.seq();
    let ghost nr0 = non_root_list.seq();
    if heap.markers[ptr].counter() == heap.markers[ptr].tracing_counter() {
        non_root_list.add(&mut heap.links, ptr);
    } else {
        root_list.add(&mut heap.links, ptr);
    }
    let ghost h3 = *heap;
    proof {
        let r1 = root_list.seq();
        let nr1 = non_root_list.seq();
        assert forall|x: usize| #[trigger] r1.contains(x) <==> (r0.contains(x) || (x == ptr && r1 != r0)) by {
            if r1 != r0 {
                if r1.contains(x) && x != ptr {
                    let k = r1.index_of(x);
                    assert(r0[k - 1] == x);
                }
                if r0.contains(x) {
                    let k = r0.index_of(x);
                    assert(r1[k + 1] == x);
                }
                assert(r1[0] == ptr);
            }
        }
        assert forall|x: usize| #[trigger] nr1.contains(x) <==> (nr0.contains(x) || (x == ptr && nr1 != nr0)) by {
            if nr1 != nr0 {
                if nr1.contains(x) && x != ptr {
                    let k = nr1.index_of(x);
                    assert(nr0[k - 1] == x);
                }
                if nr0.contains(x) {
                    let k = nr0.index_of(x);
                    assert(nr1[k + 1] == x);
                }
                assert(nr1[0] == ptr);
            }
        }
        assert(r1 != r0 || nr1 != nr0);
        assert(r1 == r0 || nr1 == nr0);
        assert forall|z: usize| z < n && #[trigger] h3.links@[z as int] != h2.links@[z as int] implies h2.allocated@[z as int]
            && (h2.markers@[z as int]@.mark == Mark::InList || h2.markers@[z as int]@.mark == Mark::InQueue) by {
            if z != ptr {
                assert(r0.contains(z) || nr0.contains(z));
                assert(done.contains(z));
            }
        }
        lemma_inv_links_update(&h2, &h3, Seq::empty());
        assert forall|i: int| 0 <= i < queue.seq().len() implies h3.links@[#[trigger] queue.seq()[i] as int]
            == h2.links@[queue.seq()[i] as int] by {
            let z = queue.seq()[i];
            assert(queue.seq().contains(z));
            assert(z != ptr);
            assert(!done.contains(z));
        }
        crate::lists::lemma_q_frame(h2.links@, h3.links@, queue.first, queue.last, queue.seq());
        if r1 == r0 {
            assert forall|i: int| 0 <= i < r0.len() implies h3.links@[#[trigger] r0[i] as int] == h2.links@[r0[i] as int] by {
                assert(r0.contains(r0[i]));
            }
            crate::lists::lemma_dl_frame(h2.links@, h3.links@, root_list.first, r0);
        } else {
            assert forall|i: int| 0 <= i < nr0.len() implies h3.links@[#[trigger] nr0[i] as int] == h2.links@[nr0[i] as int] by {
                assert(nr0.contains(nr0[i]));
            }
            crate::lists::lemma_dl_frame(h2.links@, h3.links@, non_root_list.first, nr0);
        }
    }
    heap.markers[ptr].mark(Mark::InList);
    proof {
        lemma_inv_marker_update(&h3, heap, Seq::empty(), Seq::empty(), ptr);
        let r1 = root_list.seq();
        let nr1 = non_root_list.seq();
        assert forall|x: usize| x < n && heap.allocated@[x as int] implies ((#[trigger] heap.markers@[x as int])@.mark
            == Mark::InList <==> nd.contains(x)) by {
            if x != ptr {
                assert(heap.markers@[x as int] == h2.markers@[x as int]);
            }
        }
        assert forall|x: usize| x < n && heap.allocated@[x as int] && (#[trigger] heap.markers@[x as int])@.mark
            == Mark::InQueue implies (queue.seq().contains(x) || None::<usize> == Some(x)) by {
            if x != ptr {
                assert(heap.markers@[x as int] == h2.markers@[x as int]);
            }
        }
        assert forall|x: usize| queue.seq().contains(x) implies heap.cm(x).mark == Mark::InQueue by {
            assert(x != ptr);
            assert(heap.markers@[x as int] == h2.markers@[x as int]);
        }
        assert forall|x: usize| x < n && heap.allocated@[x as int] && ((#[trigger] heap.markers@[x as int])@.mark
            != Mark::NonMarked || None::<usize> == Some(x)) implies heap.cm(x).tracing_counter == into_from(g, nd, n as int, x)
            + count(Seq::<usize>::empty(), x) by {
            if x != ptr {
                assert(heap.markers@[x as int] == h2.markers@[x as int]);
            }
        }
        assert forall|y: usize, j: int| nd.contains(y) && 0 <= j < g[y as int].len() implies heap.cm(
            #[trigger] g[y as int][j]).mark != Mark::NonMarked || None::<usize> == Some(g[y as int][j]) by {
            if y == ptr {
                assert(g[ptr as int][j] == g[ptr as int][j]);
                assert(h2.cm(g[ptr as int][j]).mark != Mark::NonMarked || Some(ptr) == Some(g[ptr as int][j]));
            } else {
                assert(h2.cm(g[y as int][j]).mark != Mark::NonMarked || Some(ptr) == Some(g[y as int][j]));
            }
        }
        assert forall|x: usize| #[trigger] nd.contains(x) <==> (r1.contains(x) || nr1.contains(x)) by {}
        assert forall|x: usize| r1.contains(x) implies x < n && heap.allocated@[x as int]
            && !nr1.contains(x) && heap.cm(x).counter != heap.cm(x).tracing_counter by {
            if x != ptr {
                assert(r0.contains(x));
                assert(heap.markers@[x as int] == h2.markers@[x as int]);
            }
        }
        assert forall|x: usize| nr1.contains(x) implies x < n && heap.allocated@[x as int]
            && heap.cm(x).counter == heap.cm(x).tracing_counter by {
            if x != ptr {
                assert(nr0.contains(x));
                assert(heap.markers@[x as int] == h2.markers@[x as int]);
            }
        }
    }
}

/// Tracing changes neither the elements nor the graph nor the state.
pub open spec fn same_graph<T>(a: &CcHeap<T>, b: &CcHeap<T>) -> bool {
    &&& a.elems@ == b.elems@
    &&& a.children@ == b.children@
    &&& a.allocated@ == b.allocated@
    &&& a.metadata@ == b.metadata@
    &&& a.box_size == b.box_size
    &&& a.state == b.state
    &&& a.ext@ == b.ext@
    &&& a.wext@ == b.wext@
    &&& a.taken@ == b.taken@
    &&& a.weak_children@ == b.weak_children@
    &&& a.finalizer_calls@ == b.finalizer_calls@
    &&& a.links@.len() == b.links@.len()
    &&& a.markers@.len() == b.markers@.len()
    &&& forall|x: usize| x < a.n() ==> #[trigger] a.markers@[x as int]@.finalized == b.markers@[x as int]@.finalized
}

/// Takes the next buffered allocation to trace in counting mode.
fn take_buffered<T>(
    heap: &mut CcHeap<T>,
    root_list: &LinkedList,
    non_root_list: &LinkedList,
    queue: &LinkedQueue,
    Ghost(done): Ghost<Set<usize>>,
) -> (r: Option<usize>)
    requires
        counting_inv(old(heap), root_list, non_root_list, queue, done, None, Seq::empty()),
    ensures
        same_graph(final(heap), old(heap)),
        old(heap).possible_cycles.seq().len() == 0 ==> r is None && final(heap).links@ == old(heap).links@
            && final(heap).markers@ == old(heap).markers@ && final(heap).possible_cycles == old(heap).possible_cycles,
        old(heap).possible_cycles.seq().len() > 0 ==> {
            &&& r == Some(old(heap).possible_cycles.seq()[0])
            &&& final(heap).possible_cycles.seq() == old(heap).possible_cycles.seq().drop_first()
            &&& counting_inv(final(heap), root_list, non_root_list, queue, done, r, Seq::empty())
        },
{
    let ghost h0 = *heap;
    let r = heap.pc_remove_first(Ghost(Seq::empty()));
    proof {
        if let Some(x) = r {
            let s0 = h0.possible_cycles.seq();
            assert(x == s0[0]);
            assert forall|i: int| 0 <= i < root_list.seq().len() implies heap.links@[#[trigger] root_list.seq()[i] as int]
                == h0.links@[root_list.seq()[i] as int] by {
                let z = root_list.seq()[i];
                assert(root_list.seq().contains(z));
                assert(done.contains(z));
                assert(!s0.contains(z)) by {
                    assert(h0.markers@[z as int]@.mark == Mark::InList);
                }
            }
            crate::lists::lemma_dl_frame(h0.links@, heap.links@, root_list.first, root_list.seq());
            assert forall|i: int| 0 <= i < non_root_list.seq().len() implies heap.links@[#[trigger] non_root_list.seq()[i] as int]
                == h0.links@[non_root_list.seq()[i] as int] by {
                let z = non_root_list.seq()[i];
                assert(non_root_list.seq().contains(z));
                assert(done.contains(z));
                assert(!s0.contains(z)) by {
                    assert(h0.markers@[z as int]@.mark == Mark::InList);
                }
            }
            crate::lists::lemma_dl_frame(h0.links@, heap.links@, non_root_list.first, non_root_list.seq());
            assert forall|i: int| 0 <= i < queue.seq().len() implies heap.links@[#[trigger] queue.seq()[i] as int]
                == h0.links@[queue.seq()[i] as int] by {
                let z = queue.seq()[i];
                assert(queue.seq().contains(z));
                assert(!s0.contains(z)) by {
                    assert(h0.cm(z).mark == Mark::InQueue);
                }
            }
            crate::lists::lemma_q_frame(h0.links@, heap.links@, queue.first, queue.last, queue.seq());
            let n = heap.n();
            let g = heap.g();
            assert(!done.contains(x)) by {
                assert(h0.markers@[x as int]@.mark == Mark::PossibleCycles);
            }
            assert(!queue.seq().contains(x)) by {
                if queue.seq().contains(x) {
                    assert(h0.cm(x).mark == Mark::InQueue);
                }
            }
            assert forall|z: usize| z < n && heap.allocated@[z as int] implies ((#[trigger] heap.markers@[z as int])@.mark
                == Mark::InList <==> done.contains(z)) by {
                if z != x {
                    assert(heap.markers@[z as int] == h0.markers@[z as int]);
                }
            }
            assert forall|z: usize| z < n && heap.allocated@[z as int] && (#[trigger] heap.markers@[z as int])@.mark
                == Mark::InQueue implies (queue.seq().contains(z) || r == Some(z)) by {
                if z != x {
                    assert(heap.markers@[z as int] == h0.markers@[z as int]);
                }
            }
            assert forall|z: usize| queue.seq().contains(z) implies heap.cm(z).mark == Mark::InQueue by {
                assert(z != x);
                assert(heap.markers@[z as int] == h0.markers@[z as int]);
            }
            assert forall|z: usize| z < n && heap.allocated@[z as int] && ((#[trigger] heap.markers@[z as int])@.mark
                != Mark::NonMarked || r == Some(z)) implies heap.cm(z).tracing_counter == into_from(g, done, n as int, z)
                + count(Seq::<usize>::empty(), z) by {
                if z != x {
                    assert(heap.markers@[z as int] == h0.markers@[z as int]);
                }
            }
            assert forall|y: usize, j: int| done.contains(y) && 0 <= j < g[y as int].len() implies heap.cm(
                #[trigger] g[y as int][j]).mark != Mark::NonMarked || r == Some(g[y as int][j]) by {
                assert(h0.cm(g[y as int][j]).mark != Mark::NonMarked);
            }
            assert forall|z: usize| root_list.seq().contains(z) implies z < n && heap.allocated@[z as int]
                && !non_root_list.seq().contains(z) && heap.cm(z).counter != heap.cm(z).tracing_counter by {
                assert(done.contains(z));
                assert(z != x);
            }
            assert forall|z: usize| non_root_list.seq().contains(z) implies z < n && heap.allocated@[z as int]
                && heap.cm(z).counter == heap.cm(z).tracing_counter by {
                assert(done.contains(z));
                assert(z != x);
            }
            assert(g[x as int].take(0) =~= Seq::<usize>::empty());
        }
        assert forall|z: usize| z < heap.n() implies #[trigger] heap.markers@[z as int]@.finalized == h0.markers@[z as int]@.finalized by {}
    }
    r
}

/// Takes the next queued allocation to trace in counting mode.
fn poll_counting<T>(
    heap: &mut CcHeap<T>,
    root_list: &LinkedList,
    non_root_list: &LinkedList,
    queue: &mut LinkedQueue,
    Ghost(done): Ghost<Set<usize>>,
) -> (r: Option<usize>)
    requires
        counting_inv(old(heap), root_list, non_root_list, old(queue), done, None, Seq::empty()),
    ensures
        same_graph(final(heap), old(heap)),
        final(heap).possible_cycles == old(heap).possible_cycles,
        old(queue).seq().len() == 0 ==> r is None && final(heap).links@ == old(heap).links@
            && final(heap).markers@ == old(heap).markers@ && *final(queue) == *old(queue),
        old(queue).seq().len() > 0 ==> {
            &&& r == Some(old(queue).seq()[0])
            &&& final(queue).seq() == old(queue).seq().drop_first()
            &&& counting_inv(final(heap), root_list, non_root_list, final(queue), done, r, Seq::empty())
        },
{
    let ghost h0 = *heap;
    let ghost q0 = queue.seq();
    proof {
        assert forall|i: int| 0 <= i < q0.len() implies #[trigger] q0[i] < heap.markers@.len() by {
            assert(q0.contains(q0[i]));
        }
    }
    let r = queue.poll(&mut heap.links, &mut heap.markers);
    proof {
        if let Some(x) = r {
            let n = heap.n();
            let g = heap.g();
            let qs = queue.seq();
            assert(q0.contains(x));
            assert forall|z: usize| #[trigger] qs.contains(z) <==> (q0.contains(z) && z != x) by {
                if qs.contains(z) {
                    let j = qs.index_of(z);
                    assert(q0[j + 1] == z);
                }
                if q0.contains(z) && z != x {
                    let j = q0.index_of(z);
                    assert(j != 0);
                    assert(qs[j - 1] == z);
                }
            }
            assert forall|z: usize| z < n && #[trigger] heap.links@[z as int] != h0.links@[z as int] implies h0.allocated@[z as int]
                && (h0.markers@[z as int]@.mark == Mark::InList || h0.markers@[z as int]@.mark == Mark::InQueue) by {
                assert(q0.contains(z));
            }
            lemma_inv_unlink(&h0, heap, Seq::empty(), x);
            assert forall|i: int| 0 <= i < root_list.seq().len() implies heap.links@[#[trigger] root_list.seq()[i] as int]
                == h0.links@[root_list.seq()[i] as int] by {
                let z = root_list.seq()[i];
                assert(root_list.seq().contains(z));
                assert(done.contains(z));
                assert(!q0.contains(z)) by {
                    if q0.contains(z) {
                        assert(h0.cm(z).mark == Mark::InQueue);
                    }
                }
            }
            crate::lists::lemma_dl_frame(h0.links@, heap.links@, root_list.first, root_list.seq());
            assert forall|i: int| 0 <= i < non_root_list.seq().len() implies heap.links@[#[trigger] non_root_list.seq()[i] as int]
                == h0.links@[non_root_list.seq()[i] as int] by {
                let z = non_root_list.seq()[i];
                assert(non_root_list.seq().contains(z));
                assert(done.contains(z));
                assert(!q0.contains(z)) by {
                    if q0.contains(z) {
                        assert(h0.cm(z).mark == Mark::InQueue);
                    }
                }
            }
            crate::lists::lemma_dl_frame(h0.links@, heap.links@, non_root_list.first, non_root_list.seq());
            assert(!done.contains(x)) by {
                assert(h0.cm(x).mark == Mark::InQueue);
            }
            assert forall|z: usize| z < n && heap.allocated@[z as int] implies ((#[trigger] heap.markers@[z as int])@.mark
                == Mark::InList <==> done.contains(z)) by {
                if z != x {
                    assert(heap.markers@[z as int] == h0.markers@[z as int]);
                }
            }
            assert forall|z: usize| z < n && heap.allocated@[z as int] && (#[trigger] heap.markers@[z as int])@.mark
                == Mark::InQueue implies (qs.contains(z) || r == Some(z)) by {
                if z != x {
                    assert(heap.markers@[z as int] == h0.markers@[z as int]);
                }
            }
            assert forall|z: usize| qs.contains(z) implies heap.cm(z).mark == Mark::InQueue by {
                assert(z != x);
                assert(heap.markers@[z as int] == h0.markers@[z as int]);
            }
            assert forall|z: usize| qs.contains(z) implies z < n && heap.allocated@[z as int] by {}
            assert forall|z: usize| z < n && heap.allocated@[z as int] && ((#[trigger] heap.markers@[z as int])@.mark
                != Mark::NonMarked || r == Some(z)) implies heap.cm(z).tracing_counter == into_from(g, done, n as int, z)
                + count(Seq::<usize>::empty(), z) by {
                if z != x {
                    assert(heap.markers@[z as int] == h0.markers@[z as int]);
                }
            }
            assert forall|y: usize, j: int| done.contains(y) && 0 <= j < g[y as int].len() implies heap.cm(
                #[trigger] g[y as int][j]).mark != Mark::NonMarked || r == Some(g[y as int][j]) by {
                assert(h0.cm(g[y as int][j]).mark != Mark::NonMarked);
            }
            assert forall|z: usize| root_list.seq().contains(z) implies z < n && heap.allocated@[z as int]
                && !non_root_list.seq().contains(z) && heap.cm(z).counter != heap.cm(z).tracing_counter by {
                assert(done.contains(z));
                assert(z != x);
            }
            assert forall|z: usize| non_root_list.seq().contains(z) implies z < n && heap.allocated@[z as int]
                && heap.cm(z).counter == heap.cm(z).tracing_counter by {
                assert(done.contains(z));
                assert(z != x);
            }
            assert(g[x as int].take(0) =~= Seq::<usize>::empty());
        }
        assert forall|z: usize| z < heap.n() implies #[trigger] heap.markers@[z as int]@.finalized == h0.markers@[z as int]@.finalized by {}
    }
    r
}

/// A subset of the indices below `n` has at most `n` elements.
proof fn lemma_subset_below(s: Set<usize>, n: nat)
    requires
        s.subset_of(below(n)),
        n <= usize::MAX,
    ensures
        s.finite(),
        s.len() <= n,
{
    crate::lists::lemma_below(n);
    vstd::set_lib::lemma_len_subset(s, below(n));
}

/// The counting phase: traces every buffered allocation and, transitively, every
/// allocation they refer to, counting in each tracing counter the references found.
fn trace_counting<T>(
    heap: &mut CcHeap<T>,
    root_list: &mut LinkedList,
    non_root_list: &mut LinkedList,
    queue: &mut LinkedQueue,
) -> (done: Ghost<Set<usize>>)
    requires
        counting_inv(old(heap), old(root_list), old(non_root_list), old(queue), Set::empty(), None, Seq::empty()),
        old(queue).seq().len() == 0,
    ensures
        counting_inv(final(heap), final(root_list), final(non_root_list), final(queue), done@, None, Seq::empty()),
        same_graph(final(heap), old(heap)),
        final(heap).possible_cycles.seq().len() == 0,
        final(queue).seq().len() == 0,
        done@.subset_of(below(final(heap).n())),
        forall|x: usize| old(heap).possible_cycles.seq().contains(x) ==> #[trigger] done@.contains(x),
        forall|x: usize| #[trigger] done@.contains(x) ==> reachable_from(old(heap).g(), old(heap).possible_cycles.seq().to_set(), x),
        closed_under_edges(old(heap).g(), done@),
{
    let ghost h0 = *heap;
    let ghost n = heap.n();
    let ghost g0 = heap.g();
    let ghost bset = h0.possible_cycles.seq().to_set();
    let ghost mut done: Set<usize> = Set::empty();
    loop
        invariant
            counting_inv(heap, root_list, non_root_list, queue, done, None, Seq::empty()),
            same_graph(heap, &h0),
            n == h0.n(),
            done.subset_of(below(n)),
            forall|x: usize| h0.possible_cycles.seq().contains(x) ==> #[trigger] done.contains(x) || heap.possible_cycles.seq().contains(x),
            forall|x: usize| #[trigger] heap.possible_cycles.seq().contains(x) ==> h0.possible_cycles.seq().contains(x),
            g0 == h0.g(),
            bset == h0.possible_cycles.seq().to_set(),
            forall|x: usize| #[trigger] done.contains(x) ==> reachable_from(g0, bset, x),
            forall|x: usize| #[trigger] queue.seq().contains(x) ==> reachable_from(g0, bset, x),
        ensures
            counting_inv(heap, root_list, non_root_list, queue, done, None, Seq::empty()),
            same_graph(heap, &h0),
            n == h0.n(),
            done.subset_of(below(n)),
            forall|x: usize| h0.possible_cycles.seq().contains(x) ==> #[trigger] done.contains(x),
            heap.possible_cycles.seq().len() == 0,
            g0 == h0.g(),
            bset == h0.possible_cycles.seq().to_set(),
            forall|x: usize| #[trigger] done.contains(x) ==> reachable_from(g0, bset, x),
            forall|x: usize| #[trigger] queue.seq().contains(x) ==> reachable_from(g0, bset, x),
        decreases heap.possible_cycles.seq().len(),
    {
        let ghost pc0 = heap.possible_cycles.seq();
        let r = take_buffered(heap, root_list, non_root_list, queue, Ghost(done));
        match r {
            Some(ptr) => {
                let ghost pc1 = heap.possible_cycles.seq();
                proof {
                    assert(ptr < heap.n());
                    assert(below(n).contains(ptr));
                    assert(pc0.contains(ptr));
                    assert(h0.possible_cycles.seq().contains(ptr));
                    assert(bset.contains(ptr));
                    lemma_reachable_base(g0, bset, ptr);
                }
                let ghost q_before = queue.seq();
                trace_counting_one(heap, ptr, root_list, non_root_list, queue, Ghost(done));
                proof {
                    assert(heap.children@ == h0.children@);
                    assert(heap.g() =~= g0);
                    assert forall|x: usize| #[trigger] queue.seq().contains(x) implies reachable_from(g0, bset, x) by {
                        if !q_before.contains(x) {
                            lemma_reachable_step(g0, bset, ptr, x);
                        }
                    }
                    assert forall|x: usize| #[trigger] heap.possible_cycles.seq().contains(x) implies h0.possible_cycles.seq().contains(x) by {
                        assert(heap.possible_cycles.seq() == pc1);
                        let j = pc1.index_of(x);
                        assert(pc0[j + 1] == x);
                        assert(pc0.contains(x));
                    }
                    assert forall|x: usize| h0.possible_cycles.seq().contains(x) implies #[trigger] done.insert(ptr).contains(x)
                        || heap.possible_cycles.seq().contains(x) by {
                        if pc0.contains(x) && x != ptr {
                            let j = pc0.index_of(x);
                            assert(j != 0);
                            assert(pc1[j - 1] == x);
                        }
                    }
                    done = done.insert(ptr);
                }
            },
            None => {
                break ;
            },
        }
    }
    loop
        invariant
            counting_inv(heap, root_list, non_root_list, queue, done, None, Seq::empty()),
            same_graph(heap, &h0),
            n == h0.n(),
            done.subset_of(below(n)),
            forall|x: usize| h0.possible_cycles.seq().contains(x) ==> #[trigger] done.contains(x),
            heap.possible_cycles.seq().len() == 0,
            g0 == h0.g(),
            bset == h0.possible_cycles.seq().to_set(),
            forall|x: usize| #[trigger] done.contains(x) ==> reachable_from(g0, bset, x),
            forall|x: usize| #[trigger] queue.seq().contains(x) ==> reachable_from(g0, bset, x),
        ensures
            counting_inv(heap, root_list, non_root_list, queue, done, None, Seq::empty()),
            same_graph(heap, &h0),
            n == h0.n(),
            done.subset_of(below(n)),
            forall|x: usize| h0.possible_cycles.seq().contains(x) ==> #[trigger] done.contains(x),
            heap.possible_cycles.seq().len() == 0,
            queue.seq().len() == 0,
            g0 == h0.g(),
            bset == h0.possible_cycles.seq().to_set(),
            forall|x: usize| #[trigger] done.contains(x) ==> reachable_from(g0, bset, x),
        decreases n - done.len(),
    {
        proof {
            assert(heap.n() == n);
            lemma_subset_below(done, n);
        }
        let ghost q_poll = queue.seq();
        let r = poll_counting(heap, root_list, non_root_list, queue, Ghost(done));
        match r {
            Some(ptr) => {
                proof {
                    assert(ptr < heap.n());
                    assert(below(n).contains(ptr));
                    assert(q_poll.contains(ptr));
                    assert forall|x: usize| #[trigger] queue.seq().contains(x) implies reachable_from(g0, bset, x) by {
                        let j = queue.seq().index_of(x);
                        assert(q_poll[j + 1] == x);
                        assert(q_poll.contains(x));
                    }
                }
                let ghost q_before = queue.seq();
                trace_counting_one(heap, ptr, root_list, non_root_list, queue, Ghost(done));
                proof {
                    assert(heap.children@ == h0.children@);
                    assert(heap.g() =~= g0);
                    assert forall|x: usize| #[trigger] queue.seq().contains(x) implies reachable_from(g0, bset, x) by {
                        if !q_before.contains(x) {
                            lemma_reachable_step(g0, bset, ptr, x);
                        }
                    }
                    assert(!done.contains(ptr));
                    done = done.insert(ptr);
                    lemma_subset_below(done, n);
                }
            },
            None => {
                break ;
            },
        }
    }
    proof {
        assert(heap.g() =~= g0);
        assert forall|y: usize, j: int| done.contains(y) && y < g0.len() && 0 <= j < g0[y as int].len()
            implies done.contains(#[trigger] g0[y as int][j]) by {
            let x = g0[y as int][j];
            assert(heap.cm(x).mark != Mark::NonMarked);
            assert(root_list.seq().contains(y) || non_root_list.seq().contains(y));
            assert(heap.allocated@[y as int]);
            assert(heap.children@[y as int]@[j] == x);
            assert(x < n && heap.allocated@[x as int]);
            assert(heap.possible_cycles.seq().contains(x) <==> (heap.allocated@[x as int]
                && heap.markers@[x as int]@.mark == Mark::PossibleCycles));
            if heap.markers@[x as int]@.mark == Mark::InQueue {
                assert(queue.seq().contains(x));
            }
            if heap.markers@[x as int]@.mark == Mark::PossibleCycles {
                assert(heap.possible_cycles.seq().contains(x));
            }
            assert(heap.markers@[x as int]@.mark == Mark::InList);
        }
    }
    Ghost(done)
}

/// The invariant of the root-tracing phase of a collection.
///
/// `cands` is the set of allocations traced during the counting phase; `done` is the set of
/// those traced during this phase; `cur` is the allocation being traced, of which the
/// references `traced` have been traced. No traced allocation refers to a non-root one.
pub open spec fn roots_inv<T>(
    h: &CcHeap<T>,
    root_list: &LinkedList,
    non_root_list: &LinkedList,
    queue: &LinkedQueue,
    cands: Set<usize>,
    done: Set<usize>,
    cur: Option<usize>,
    traced: Seq<usize>,
) -> bool {
    let n = h.n();
    let g = h.g();
    &&& h.inv(Seq::empty())
    &&& h.state.collecting && !h.state.finalizing && !h.state.dropping
    &&& forall|x: usize| x < n && h.allocated@[x as int] ==> (#[trigger] h.elems@[x as int]) is Some
    &&& root_list.wf(h.links@)
    &&& non_root_list.wf(h.links@)
    &&& queue.wf(h.links@)
    &&& h.possible_cycles.seq().len() == 0
    &&& cands.subset_of(below(n))
    &&& forall|x: usize|
        #[trigger] cands.contains(x) <==> (root_list.seq().contains(x) || non_root_list.seq().contains(x)
            || queue.seq().contains(x) || done.contains(x) || cur == Some(x))
    &&& forall|x: usize|
        root_list.seq().contains(x) ==> x < n && h.allocated@[x as int] && h.cm(x).mark == Mark::InList
            && !non_root_list.seq().contains(x) && h.cm(x).counter != h.cm(x).tracing_counter
    &&& forall|x: usize|
        non_root_list.seq().contains(x) ==> x < n && h.allocated@[x as int] && h.cm(x).mark == Mark::InList
            && h.cm(x).counter == h.cm(x).tracing_counter
    &&& forall|x: usize| queue.seq().contains(x) ==> x < n && h.allocated@[x as int] && h.cm(x).mark == Mark::InQueue
    &&& forall|x: usize|
        (done.contains(x) || cur == Some(x)) ==> x < n && h.allocated@[x as int] && h.cm(x).mark == Mark::NonMarked
    &&& forall|x: usize|
        x < n && h.allocated@[x as int] && !cands.contains(x) ==> (#[trigger] h.markers@[x as int])@.mark
            == Mark::NonMarked
    &&& forall|x: usize| #[trigger] cands.contains(x) ==> h.cm(x).tracing_counter == into_from(g, cands, n as int, x)
    &&& forall|y: usize, j: int|
        done.contains(y) && 0 <= j < g[y as int].len() ==> !non_root_list.seq().contains(#[trigger] g[y as int][j])
    &&& forall|j: int| 0 <= j < traced.len() ==> !non_root_list.seq().contains(#[trigger] traced[j])
    &&& match cur {
        Some(c) => {
            &&& !done.contains(c)
            &&& traced.len() <= g[c as int].len()
            &&& traced == g[c as int].take(traced.len() as int)
        },
        None => traced.len() == 0,
    }
}

/// Root tracing of the reference to `c` held by the allocation `cur` being traced: a
/// non-root allocation is reachable from a root, so it moves from the non-root list to the queue.
#[verifier::spinoff_prover]
#[verifier::rlimit(30)]
fn trace_roots_child<T>(
    heap: &mut CcHeap<T>,
    c: usize,
    root_list: &LinkedList,
    non_root_list: &mut LinkedList,
    queue: &mut LinkedQueue,
    Ghost(cands): Ghost<Set<usize>>,
    Ghost(done): Ghost<Set<usize>>,
    Ghost(cur): Ghost<usize>,
    Ghost(traced): Ghost<Seq<usize>>,
)
    requires
        roots_inv(old(heap), root_list, old(non_root_list), old(queue), cands, done, Some(cur), traced),
        traced.len() < old(heap).g()[cur as int].len(),
        c == old(heap).g()[cur as int][traced.len() as int],
    ensures
        roots_inv(final(heap), root_list, final(non_root_list), final(queue), cands, done, Some(cur), traced.push(c)),
        same_graph(final(heap), old(heap)),
        final(heap).possible_cycles == old(heap).possible_cycles,
        final(non_root_list).seq().len() + final(queue).seq().len() <= old(non_root_list).seq().len() + old(queue).seq().len(),
        final(non_root_list).seq().len() <= old(non_root_list).seq().len(),
        final(queue).seq().len() <= old(queue).seq().len() + (old(non_root_list).seq().len() - final(non_root_list).seq().len()),
        forall|x: usize| #[trigger] final(queue).seq().contains(x) ==> old(queue).seq().contains(x) || x == c,
{
    let ghost h0 = *heap;
    let ghost g = heap.g();
    let ghost n = heap.n();
    let ghost ntr = traced.push(c);
    proof {
        assert(c < n && heap.allocated@[c as int]) by {
            assert(heap.children@[cur as int]@[traced.len() as int] == c);
        }
        assert(ntr =~= g[cur as int].take(traced.len() + 1int));
    }
    if heap.markers[c].is_in_list() && heap.markers[c].counter() == heap.markers[c].tracing_counter() {
        proof {
            assert(non_root_list.seq().contains(c)) by {
                assert(cands.contains(c));
                if !non_root_list.seq().contains(c) {
                    if root_list.seq().contains(c) {
                    } else if queue.seq().contains(c) {
                    } else {
                        assert(done.contains(c) || cur == c);
                    }
                }
            }
        }
        let ghost nr0 = non_root_list.seq();
        let ghost q0 = queue.seq();
        proof {
            assert(!q0.contains(c)) by {
                if q0.contains(c) {
                    assert(h0.cm(c).mark == Mark::InQueue);
                }
            }
        }
        non_root_list.remove(&mut heap.links, c);
        let ghost l1 = heap.links@;
        proof {
            assert forall|i: int| 0 <= i < q0.len() implies l1[#[trigger] q0[i] as int] == h0.links@[q0[i] as int] by {
                let z = q0[i];
                assert(q0.contains(z));
                assert(!nr0.contains(z)) by {
                    if nr0.contains(z) {
                        assert(h0.cm(z).mark == Mark::InList);
                    }
                }
            }
            crate::lists::lemma_q_frame(h0.links@, l1, queue.first, queue.last, q0);
        }
        queue.add(&mut heap.links, c);
        let ghost h1 = *heap;
        proof {
            let nr1 = non_root_list.seq();
            let q1 = queue.seq();
            let k = nr0.index_of(c);
            assert forall|x: usize| #[trigger] nr1.contains(x) <==> (nr0.contains(x) && x != c) by {
                if nr1.contains(x) {
                    let j = nr1.index_of(x);
                    if j < k {
                        assert(nr0[j] == x);
                    } else {
                        assert(nr0[j + 1] == x);
                    }
                }
                if nr0.contains(x) && x != c {
                    let j = nr0.index_of(x);
                    if j < k {
                        assert(nr1[j] == x);
                    } else {
                        assert(j != k);
                        assert(nr1[j - 1] == x);
                    }
                }
            }
            assert forall|x: usize| #[trigger] q1.contains(x) <==> (q0.contains(x) || x == c) by {
                if q1.contains(x) && x != c {
                    let j = q1.index_of(x);
                    assert(q0[j] == x);
                }
                if q0.contains(x) {
                    let j = q0.index_of(x);
                    assert(q1[j] == x);
                }
                assert(q1[q1.len() - 1] == c);
            }
            assert forall|z: usize| z < n && #[trigger] h1.links@[z as int] != h0.links@[z as int] implies h0.allocated@[z as int]
                && (h0.markers@[z as int]@.mark == Mark::InList || h0.markers@[z as int]@.mark == Mark::InQueue) by {
                if !nr0.contains(z) {
                    assert(l1[z as int] == h0.links@[z as int]);
                    assert(q1.contains(z));
                }
            }
            lemma_inv_links_update(&h0, &h1, Seq::empty());
            assert forall|i: int| 0 <= i < root_list.seq().len() implies h1.links@[#[trigger] root_list.seq()[i] as int]
                == h0.links@[root_list.seq()[i] as int] by {
                let z = root_list.seq()[i];
                assert(root_list.seq().contains(z));
                assert(!nr0.contains(z));
                assert(!q1.contains(z));
            }
            crate::lists::lemma_dl_frame(h0.links@, h1.links@, root_list.first, root_list.seq());
        }
        heap.markers[c].mark(Mark::InQueue);
        proof {
            lemma_inv_marker_update(&h1, heap, Seq::empty(), Seq::empty(), c);
            let nr1 = non_root_list.seq();
            let q1 = queue.seq();
            assert forall|x: usize| #[trigger] cands.contains(x) <==> (root_list.seq().contains(x) || nr1.contains(x)
                || q1.contains(x) || done.contains(x) || Some(cur) == Some(x)) by {}
            assert forall|x: usize| root_list.seq().contains(x) implies x < n && heap.allocated@[x as int] && heap.cm(x).mark == Mark::InList
                && !nr1.contains(x) && heap.cm(x).counter != heap.cm(x).tracing_counter by {
                assert(x != c);
                assert(heap.markers@[x as int] == h0.markers@[x as int]);
            }
            assert forall|x: usize| nr1.contains(x) implies x < n && heap.allocated@[x as int] && heap.cm(x).mark == Mark::InList
                && heap.cm(x).counter == heap.cm(x).tracing_counter by {
                assert(x != c);
                assert(heap.markers@[x as int] == h0.markers@[x as int]);
            }
            assert forall|x: usize| q1.contains(x) implies x < n && heap.allocated@[x as int] && heap.cm(x).mark == Mark::InQueue by {
                if x != c {
                    assert(heap.markers@[x as int] == h0.markers@[x as int]);
                }
            }
            assert forall|x: usize| (done.contains(x) || Some(cur) == Some(x)) implies x < n && heap.allocated@[x as int]
                && heap.cm(x).mark == Mark::NonMarked by {
                assert(x != c);
                assert(heap.markers@[x as int] == h0.markers@[x as int]);
            }
            assert forall|x: usize| x < n && heap.allocated@[x as int] && !cands.contains(x) implies (#[trigger] heap.markers@[
                x as int])@.mark == Mark::NonMarked by {
                assert(x != c);
                assert(heap.markers@[x as int] == h0.markers@[x as int]);
            }
            assert forall|x: usize| #[trigger] cands.contains(x) implies heap.cm(x).tracing_counter == into_from(g, cands, n as int, x) by {
                if x != c {
                    assert(heap.markers@[x as int] == h0.markers@[x as int]);
                }
            }
            assert forall|j: int| 0 <= j < ntr.len() implies !nr1.contains(#[trigger] ntr[j]) by {
                if j < traced.len() {
                    assert(ntr[j] == traced[j]);
                }
            }
            assert(heap.possible_cycles.seq().len() == 0);
            assert forall|x: usize| x < heap.n() implies #[trigger] heap.markers@[x as int]@.finalized == h0.markers@[x as int]@.finalized by {}
        }
    } else {
        proof {
            assert(!non_root_list.seq().contains(c)) by {
                if non_root_list.seq().contains(c) {
                    assert(heap.cm(c).mark == Mark::InList);
                }
            }
            assert forall|j: int| 0 <= j < ntr.len() implies !non_root_list.seq().contains(#[trigger] ntr[j]) by {
                if j < traced.len() {
                    assert(ntr[j] == traced[j]);
                }
            }
        }
    }
}

/// Traces `ptr` in root-tracing mode: every non-root allocation it refers to is queued.
#[verifier::spinoff_prover]
fn trace_roots_one<T>(
    heap: &mut CcHeap<T>,
    ptr: usize,
    root_list: &LinkedList,
    non_root_list: &mut LinkedList,
    queue: &mut LinkedQueue,
    Ghost(cands): Ghost<Set<usize>>,
    Ghost(done): Ghost<Set<usize>>,
)
    requires
        roots_inv(old(heap), root_list, old(non_root_list), old(queue), cands, done, Some(ptr), Seq::empty()),
    ensures
        roots_inv(final(heap), root_list, final(non_root_list), final(queue), cands, done.insert(ptr), None, Seq::empty()),
        same_graph(final(heap), old(heap)),
        final(heap).possible_cycles == old(heap).possible_cycles,
        2 * final(non_root_list).seq().len() + final(queue).seq().len() <= 2 * old(non_root_list).seq().len() + old(queue).seq().len(),
        forall|x: usize| #[trigger] final(queue).seq().contains(x) ==> old(queue).seq().contains(x)
            || old(heap).g()[ptr as int].contains(x),
{
    let ghost h0 = *heap;
    let ghost g = heap.g();
    let ghost n = heap.n();
    let ghost nr_len0 = non_root_list.seq().len();
    let ghost q_len0 = queue.seq().len();
    let ghost q_init = queue.seq();
    let len = heap.children[ptr].len();
    let mut j: usize = 0;
    proof {
        assert(g[ptr as int].take(0) =~= Seq::<usize>::empty());
    }
    while j < len
        invariant
            j <= len,
            len == g[ptr as int].len(),
            g == heap.g(),
            n == heap.n(),
            roots_inv(heap, root_list, non_root_list, queue, cands, done, Some(ptr), g[ptr as int].take(j as int)),
            same_graph(heap, &h0),
            heap.possible_cycles == h0.possible_cycles,
            2 * non_root_list.seq().len() + queue.seq().len() <= 2 * nr_len0 + q_len0,
            forall|x: usize| #[trigger] queue.seq().contains(x) ==> q_init.contains(x) || g[ptr as int].contains(x),
        decreases len - j,
    {
        let c = heap.children[ptr][j];
        proof {
            assert(heap.children@[ptr as int]@[j as int] == g[ptr as int][j as int]);
            assert(g[ptr as int].contains(c));
        }
        trace_roots_child(heap, c, root_list, non_root_list, queue, Ghost(cands), Ghost(done), Ghost(ptr), Ghost(g[ptr as int].take(j as int)));
        proof {
            assert(g[ptr as int].take(j as int).push(c) =~= g[ptr as int].take(j + 1));
            assert(heap.g() =~= g);
        }
        j = j + 1;
    }
    proof {
        let nd = done.insert(ptr);
        assert(g[ptr as int].take(len as int) =~= g[ptr as int]);
        assert forall|y: usize, k: int| nd.contains(y) && 0 <= k < g[y as int].len() implies !non_root_list.seq().contains(
            #[trigger] g[y as int][k]) by {
            if y == ptr {
                assert(g[ptr as int][k] == g[ptr as int].take(len as int)[k]);
            }
        }
        assert forall|x: usize| #[trigger] cands.contains(x) <==> (root_list.seq().contains(x) || non_root_list.seq().contains(x)
            || queue.seq().contains(x) || nd.contains(x) || None::<usize> == Some(x)) by {}
    }
}

/// Takes the next root to trace in root-tracing mode.
fn take_root<T>(
    heap: &mut CcHeap<T>,
    root_list: &mut LinkedList,
    non_root_list: &LinkedList,
    queue: &LinkedQueue,
    Ghost(cands): Ghost<Set<usize>>,
    Ghost(done): Ghost<Set<usize>>,
) -> (r: Option<usize>)
    requires
        roots_inv(old(heap), old(root_list), non_root_list, queue, cands, done, None, Seq::empty()),
    ensures
        same_graph(final(heap), old(heap)),
        final(heap).possible_cycles == old(heap).possible_cycles,
        old(root_list).seq().len() == 0 ==> r is None && final(heap).links@ == old(heap).links@
            && final(heap).markers@ == old(heap).markers@ && *final(root_list) == *old(root_list),
        old(root_list).seq().len() > 0 ==> {
            &&& r == Some(old(root_list).seq()[0])
            &&& final(root_list).seq() == old(root_list).seq().drop_first()
            &&& roots_inv(final(heap), final(root_list), non_root_list, queue, cands, done, r, Seq::empty())
        },
{
    let ghost h0 = *heap;
    let ghost r0 = root_list.seq();
    proof {
        assert forall|i: int| 0 <= i < r0.len() implies #[trigger] r0[i] < heap.markers@.len() by {
            assert(r0.contains(r0[i]));
        }
    }
    let r = root_list.remove_first(&mut heap.links, &mut heap.markers);
    proof {
        if let Some(x) = r {
            let n = heap.n();
            let g = heap.g();
            let r1 = root_list.seq();
            assert(r0.contains(x));
            assert forall|z: usize| #[trigger] r1.contains(z) <==> (r0.contains(z) && z != x) by {
                if r1.contains(z) {
                    let j = r1.index_of(z);
                    assert(r0[j + 1] == z);
                }
                if r0.contains(z) && z != x {
                    let j = r0.index_of(z);
                    assert(j != 0);
                    assert(r1[j - 1] == z);
                }
            }
            assert forall|z: usize| z < n && #[trigger] heap.links@[z as int] != h0.links@[z as int] implies h0.allocated@[z as int]
                && (h0.markers@[z as int]@.mark == Mark::InList || h0.markers@[z as int]@.mark == Mark::InQueue) by {
                assert(r0.contains(z));
            }
            lemma_inv_unlink(&h0, heap, Seq::empty(), x);
            assert forall|i: int| 0 <= i < non_root_list.seq().len() implies heap.links@[#[trigger] non_root_list.seq()[i] as int]
                == h0.links@[non_root_list.seq()[i] as int] by {
                let z = non_root_list.seq()[i];
                assert(non_root_list.seq().contains(z));
                assert(!r0.contains(z));
            }
            crate::lists::lemma_dl_frame(h0.links@, heap.links@, non_root_list.first, non_root_list.seq());
            assert forall|i: int| 0 <= i < queue.seq().len() implies heap.links@[#[trigger] queue.seq()[i] as int]
                == h0.links@[queue.seq()[i] as int] by {
                let z = queue.seq()[i];
                assert(queue.seq().contains(z));
                assert(!r0.contains(z)) by {
                    if r0.contains(z) {
                        assert(h0.cm(z).mark == Mark::InList);
                    }
                }
            }
            crate::lists::lemma_q_frame(h0.links@, heap.links@, queue.first, queue.last, queue.seq());
            assert forall|z: usize| #[trigger] cands.contains(z) <==> (r1.contains(z) || non_root_list.seq().contains(z)
                || queue.seq().contains(z) || done.contains(z) || r == Some(z)) by {}
            assert forall|z: usize| r1.contains(z) implies z < n && heap.allocated@[z as int] && heap.cm(z).mark == Mark::InList
                && !non_root_list.seq().contains(z) && heap.cm(z).counter != heap.cm(z).tracing_counter by {
                assert(heap.markers@[z as int] == h0.markers@[z as int]);
            }
            assert forall|z: usize| non_root_list.seq().contains(z) implies z < n && heap.allocated@[z as int] && heap.cm(z).mark == Mark::InList
                && heap.cm(z).counter == heap.cm(z).tracing_counter by {
                assert(z != x);
                assert(heap.markers@[z as int] == h0.markers@[z as int]);
            }
            assert forall|z: usize| queue.seq().contains(z) implies z < n && heap.allocated@[z as int] && heap.cm(z).mark == Mark::InQueue by {
                assert(z != x);
                assert(heap.markers@[z as int] == h0.markers@[z as int]);
            }
            assert forall|z: usize| (done.contains(z) || r == Some(z)) implies z < n && heap.allocated@[z as int]
                && heap.cm(z).mark == Mark::NonMarked by {
                if z != x {
                    assert(heap.markers@[z as int] == h0.markers@[z as int]);
                }
            }
            assert forall|z: usize| z < n && heap.allocated@[z as int] && !cands.contains(z) implies (#[trigger] heap.markers@[
                z as int])@.mark == Mark::NonMarked by {
                assert(z != x);
                assert(heap.markers@[z as int] == h0.markers@[z as int]);
            }
            assert forall|z: usize| #[trigger] cands.contains(z) implies heap.cm(z).tracing_counter == into_from(g, cands, n as int, z) by {
                assert(heap.markers@[z as int]@.tracing_counter == h0.markers@[z as int]@.tracing_counter);
            }
            assert(!done.contains(x));
            assert(g[x as int].take(0) =~= Seq::<usize>::empty());
        }
        assert forall|z: usize| z < heap.n() implies #[trigger] heap.markers@[z as int]@.finalized == h0.markers@[z as int]@.finalized by {}
    }
    r
}

/// Takes the next queued allocation to trace in root-tracing mode.
fn poll_roots<T>(
    heap: &mut CcHeap<T>,
    root_list: &LinkedList,
    non_root_list: &LinkedList,
    queue: &mut LinkedQueue,
    Ghost(cands): Ghost<Set<usize>>,
    Ghost(done): Ghost<Set<usize>>,
) -> (r: Option<usize>)
    requires
        roots_inv(old(heap), root_list, non_root_list, old(queue), cands, done, None, Seq::empty()),
    ensures
        same_graph(final(heap), old(heap)),
        final(heap).possible_cycles == old(heap).possible_cycles,
        old(queue).seq().len() == 0 ==> r is None && final(heap).links@ == old(heap).links@
            && final(heap).markers@ == old(heap).markers@ && *final(queue) == *old(queue),
        old(queue).seq().len() > 0 ==> {
            &&& r == Some(old(queue).seq()[0])
            &&& final(queue).seq() == old(queue).seq().drop_first()
            &&& roots_inv(final(heap), root_list, non_root_list, final(queue), cands, done, r, Seq::empty())
        },
{
    let ghost h0 = *heap;
    let ghost q0 = queue.seq();
    proof {
        assert forall|i: int| 0 <= i < q0.len() implies #[trigger] q0[i] < heap.markers@.len() by {
            assert(q0.contains(q0[i]));
        }
    }
    let r = queue.poll(&mut heap.links, &mut heap.markers);
    proof {
        if let Some(x) = r {
            let n = heap.n();
            let g = heap.g();
            let q1 = queue.seq();
            assert(q0.contains(x));
            assert forall|z: usize| #[trigger] q1.contains(z) <==> (q0.contains(z) && z != x) by {
                if q1.contains(z) {
                    let j = q1.index_of(z);
                    assert(q0[j + 1] == z);
                }
                if q0.contains(z) && z != x {
                    let j = q0.index_of(z);
                    assert(j != 0);
                    assert(q1[j - 1] == z);
                }
            }
            assert forall|z: usize| z < n && #[trigger] heap.links@[z as int] != h0.links@[z as int] implies h0.allocated@[z as int]
                && (h0.markers@[z as int]@.mark == Mark::InList || h0.markers@[z as int]@.mark == Mark::InQueue) by {
                assert(q0.contains(z));
            }
            lemma_inv_unlink(&h0, heap, Seq::empty(), x);
            assert forall|i: int| 0 <= i < non_root_list.seq().len() implies heap.links@[#[trigger] non_root_list.seq()[i] as int]
                == h0.links@[non_root_list.seq()[i] as int] by {
                let z = non_root_list.seq()[i];
                assert(non_root_list.seq().contains(z));
                assert(!q0.contains(z));
            }
            crate::lists::lemma_dl_frame(h0.links@, heap.links@, non_root_list.first, non_root_list.seq());
            assert forall|i: int| 0 <= i < root_list.seq().len() implies heap.links@[#[trigger] root_list.seq()[i] as int]
                == h0.links@[root_list.seq()[i] as int] by {
                let z = root_list.seq()[i];
                assert(root_list.seq().contains(z));
                assert(!q0.contains(z));
            }
            crate::lists::lemma_dl_frame(h0.links@, heap.links@, root_list.first, root_list.seq());
            assert forall|z: usize| #[trigger] cands.contains(z) <==> (root_list.seq().contains(z) || non_root_list.seq().contains(z)
                || q1.contains(z) || done.contains(z) || r == Some(z)) by {}
            assert forall|z: usize| root_list.seq().contains(z) implies z < n && heap.allocated@[z as int] && heap.cm(z).mark == Mark::InList
                && !non_root_list.seq().contains(z) && heap.cm(z).counter != heap.cm(z).tracing_counter by {
                assert(z != x);
                assert(heap.markers@[z as int] == h0.markers@[z as int]);
            }
            assert forall|z: usize| non_root_list.seq().contains(z) implies z < n && heap.allocated@[z as int] && heap.cm(z).mark == Mark::InList
                && heap.cm(z).counter == heap.cm(z).tracing_counter by {
                assert(z != x);
                assert(heap.markers@[z as int] == h0.markers@[z as int]);
            }
            assert forall|z: usize| q1.contains(z) implies z < n && heap.allocated@[z as int] && heap.cm(z).mark == Mark::InQueue by {
                assert(heap.markers@[z as int] == h0.markers@[z as int]);
            }
            assert forall|z: usize| (done.contains(z) || r == Some(z)) implies z < n && heap.allocated@[z as int]
                && heap.cm(z).mark == Mark::NonMarked by {
                if z != x {
                    assert(heap.markers@[z as int] == h0.markers@[z as int]);
                }
            }
            assert forall|z: usize| z < n && heap.allocated@[z as int] && !cands.contains(z) implies (#[trigger] heap.markers@[
                z as int])@.mark == Mark::NonMarked by {
                assert(z != x);
                assert(heap.markers@[z as int] == h0.markers@[z as int]);
            }
            assert forall|z: usize| #[trigger] cands.contains(z) implies heap.cm(z).tracing_counter == into_from(g, cands, n as int, z) by {
                assert(heap.markers@[z as int]@.tracing_counter == h0.markers@[z as int]@.tracing_counter);
            }
            assert(!done.contains(x));
            assert(g[x as int].take(0) =~= Seq::<usize>::empty());
        }
        assert forall|z: usize| z < heap.n() implies #[trigger] heap.markers@[z as int]@.finalized == h0.markers@[z as int]@.finalized by {}
    }
    r
}

/// The root-tracing phase: traces the roots and, transitively, every non-root allocation
/// they refer to; what stays in the non-root list is garbage.
fn trace_roots<T>(
    heap: &mut CcHeap<T>,
    root_list: &mut LinkedList,
    non_root_list: &mut LinkedList,
    queue: &mut LinkedQueue,
    Ghost(cands): Ghost<Set<usize>>,
    Ghost(reach): Ghost<Set<usize>>,
) -> (done: Ghost<Set<usize>>)
    requires
        roots_inv(old(heap), old(root_list), old(non_root_list), old(queue), cands, Set::empty(), None, Seq::empty()),
        closed_under_edges(old(heap).g(), reach),
        forall|x: usize| #[trigger] old(root_list).seq().contains(x) ==> reach.contains(x),
        forall|x: usize| #[trigger] old(queue).seq().contains(x) ==> reach.contains(x),
    ensures
        roots_inv(final(heap), final(root_list), final(non_root_list), final(queue), cands, done@, None, Seq::empty()),
        same_graph(final(heap), old(heap)),
        final(heap).possible_cycles == old(heap).possible_cycles,
        final(root_list).seq().len() == 0,
        final(queue).seq().len() == 0,
        old(root_list).seq().len() == 0 && old(queue).seq().len() == 0 ==> final(non_root_list).seq()
            == old(non_root_list).seq(),
        forall|x: usize| #[trigger] done@.contains(x) ==> reach.contains(x),
{
    let ghost h0 = *heap;
    let ghost mut done: Set<usize> = Set::empty();
    let ghost init_empty = root_list.seq().len() == 0 && queue.seq().len() == 0;
    let ghost nr0 = non_root_list.seq();
    loop
        invariant
            roots_inv(heap, root_list, non_root_list, queue, cands, done, None, Seq::empty()),
            same_graph(heap, &h0),
            heap.possible_cycles == h0.possible_cycles,
            init_empty ==> root_list.seq().len() == 0 && queue.seq().len() == 0 && non_root_list.seq() == nr0,
            closed_under_edges(h0.g(), reach),
            forall|x: usize| #[trigger] root_list.seq().contains(x) ==> reach.contains(x),
            forall|x: usize| #[trigger] queue.seq().contains(x) ==> reach.contains(x),
            forall|x: usize| #[trigger] done.contains(x) ==> reach.contains(x),
        ensures
            roots_inv(heap, root_list, non_root_list, queue, cands, done, None, Seq::empty()),
            same_graph(heap, &h0),
            heap.possible_cycles == h0.possible_cycles,
            root_list.seq().len() == 0,
            init_empty ==> queue.seq().len() == 0 && non_root_list.seq() == nr0,
            forall|x: usize| #[trigger] queue.seq().contains(x) ==> reach.contains(x),
            forall|x: usize| #[trigger] done.contains(x) ==> reach.contains(x),
        decreases 2 * non_root_list.seq().len() + root_list.seq().len() + queue.seq().len(),
    {
        let ghost r_old = root_list.seq();
        let r = take_root(heap, root_list, non_root_list, queue, Ghost(cands), Ghost(done));
        match r {
            Some(ptr) => {
                proof {
                    assert(r_old.contains(r_old[0]));
                    assert forall|x: usize| #[trigger] root_list.seq().contains(x) implies reach.contains(x) by {
                        let k = root_list.seq().index_of(x);
                        assert(r_old[k + 1] == x);
                        assert(r_old.contains(x));
                    }
                }
                let ghost q_old = queue.seq();
                let ghost h_old = *heap;
                trace_roots_one(heap, ptr, root_list, non_root_list, queue, Ghost(cands), Ghost(done));
                proof {
                    lemma_queued_children_reached(h_old.g(), h0.g(), reach, ptr, q_old, queue.seq());
                    done = done.insert(ptr);
                }
            },
            None => {
                break ;
            },
        }
    }
    loop
        invariant
            roots_inv(heap, root_list, non_root_list, queue, cands, done, None, Seq::empty()),
            same_graph(heap, &h0),
            heap.possible_cycles == h0.possible_cycles,
            root_list.seq().len() == 0,
            init_empty ==> queue.seq().len() == 0 && non_root_list.seq() == nr0,
            closed_under_edges(h0.g(), reach),
            forall|x: usize| #[trigger] queue.seq().contains(x) ==> reach.contains(x),
            forall|x: usize| #[trigger] done.contains(x) ==> reach.contains(x),
        ensures
            roots_inv(heap, root_list, non_root_list, queue, cands, done, None, Seq::empty()),
            same_graph(heap, &h0),
            heap.possible_cycles == h0.possible_cycles,
            root_list.seq().len() == 0,
            queue.seq().len() == 0,
            init_empty ==> non_root_list.seq() == nr0,
            forall|x: usize| #[trigger] done.contains(x) ==> reach.contains(x),
        decreases 2 * non_root_list.seq().len() + queue.seq().len(),
    {
        let ghost q_prev = queue.seq();
        let r = poll_roots(heap, root_list, non_root_list, queue, Ghost(cands), Ghost(done));
        match r {
            Some(ptr) => {
                proof {
                    assert(q_prev.contains(q_prev[0]));
                    assert forall|x: usize| #[trigger] queue.seq().contains(x) implies reach.contains(x) by {
                        let k = queue.seq().index_of(x);
                        assert(q_prev[k + 1] == x);
                        assert(q_prev.contains(x));
                    }
                }
                let ghost q_old = queue.seq();
                let ghost h_old = *heap;
                trace_roots_one(heap, ptr, root_list, non_root_list, queue, Ghost(cands), Ghost(done));
                proof {
                    lemma_queued_children_reached(h_old.g(), h0.g(), reach, ptr, q_old, queue.seq());
                    done = done.insert(ptr);
                }
            },
            None => {
                break ;
            },
        }
    }
    Ghost(done)
}

/// What is queued while tracing an allocation of a set closed under the edges is in the set.
proof fn lemma_queued_children_reached(
    g: Seq<Seq<usize>>,
    g0: Seq<Seq<usize>>,
    reach: Set<usize>,
    ptr: usize,
    q_old: Seq<usize>,
    q_new: Seq<usize>,
)
    requires
        g == g0,
        ptr < g.len(),
        closed_under_edges(g0, reach),
        reach.contains(ptr),
        forall|x: usize| #[trigger] q_old.contains(x) ==> reach.contains(x),
        forall|x: usize| #[trigger] q_new.contains(x) ==> q_old.contains(x) || g[ptr as int].contains(x),
    ensures
        forall|x: usize| #[trigger] q_new.contains(x) ==> reach.contains(x),
{
    assert forall|x: usize| #[trigger] q_new.contains(x) implies reach.contains(x) by {
        if !q_old.contains(x) {
            let k = g[ptr as int].index_of(x);
            assert(g0[ptr as int][k] == x);
        }
    }
}

/// The end of the counting phase is the start of the root-tracing phase.
proof fn lemma_counting_to_roots<T>(
    h: &CcHeap<T>,
    root_list: &LinkedList,
    non_root_list: &LinkedList,
    queue: &LinkedQueue,
    cands: Set<usize>,
)
    requires
        counting_inv(h, root_list, non_root_list, queue, cands, None, Seq::empty()),
        h.possible_cycles.seq().len() == 0,
        queue.seq().len() == 0,
        cands.subset_of(below(h.n())),
    ensures
        roots_inv(h, root_list, non_root_list, queue, cands, Set::empty(), None, Seq::empty()),
{
    let n = h.n();
    let g = h.g();
    assert forall|x: usize| root_list.seq().contains(x) implies x < n && h.allocated@[x as int] && h.cm(x).mark == Mark::InList
        && !non_root_list.seq().contains(x) && h.cm(x).counter != h.cm(x).tracing_counter by {
        assert(cands.contains(x));
        assert(h.markers@[x as int]@.mark == Mark::InList);
    }
    assert forall|x: usize| non_root_list.seq().contains(x) implies x < n && h.allocated@[x as int] && h.cm(x).mark == Mark::InList
        && h.cm(x).counter == h.cm(x).tracing_counter by {
        assert(cands.contains(x));
        assert(h.markers@[x as int]@.mark == Mark::InList);
    }
    assert forall|x: usize| x < n && h.allocated@[x as int] && !cands.contains(x) implies (#[trigger] h.markers@[x as int])@.mark
        == Mark::NonMarked by {
        assert(h.possible_cycles.seq().contains(x) <==> (h.allocated@[x as int] && h.markers@[x as int]@.mark == Mark::PossibleCycles));
        assert(!h.possible_cycles.seq().contains(x));
        assert(!queue.seq().contains(x));
    }
    assert forall|x: usize| #[trigger] cands.contains(x) implies h.cm(x).tracing_counter == into_from(g, cands, n as int, x) by {
        assert(root_list.seq().contains(x) || non_root_list.seq().contains(x));
        assert(h.markers@[x as int]@.mark == Mark::InList);
        assert(count(Seq::<usize>::empty(), x) == 0);
    }
    assert forall|x: usize| #[trigger] cands.contains(x) <==> (root_list.seq().contains(x) || non_root_list.seq().contains(x)
        || queue.seq().contains(x) || Set::<usize>::empty().contains(x) || None::<usize> == Some(x)) by {
        if queue.seq().contains(x) {
            assert(queue.seq().len() > 0);
        }
    }
}

/// What stays in the non-root list at the end of root tracing is garbage: no handle refers
/// to it and only allocations of the non-root list refer to it.
proof fn lemma_non_roots_garbage<T>(
    h: &CcHeap<T>,
    root_list: &LinkedList,
    non_root_list: &LinkedList,
    queue: &LinkedQueue,
    cands: Set<usize>,
    done: Set<usize>,
)
    requires
        roots_inv(h, root_list, non_root_list, queue, cands, done, None, Seq::empty()),
        root_list.seq().len() == 0,
        queue.seq().len() == 0,
    ensures
        forall|x: usize| #[trigger] non_root_list.seq().contains(x) ==> h.ext@[x as int] == 0,
        forall|x: usize, y: usize|
            non_root_list.seq().contains(x) && y < h.n() && #[trigger] h.g()[y as int].contains(x)
                ==> non_root_list.seq().contains(y),
{
    let n = h.n();
    let g = h.g();
    let others = Set::new(|y: usize| !cands.contains(y));
    assert forall|x: usize| #[trigger] non_root_list.seq().contains(x) implies h.ext@[x as int] == 0 && into_from(g, others, n as int, x) == 0 by {
        assert(cands.contains(x));
        assert(h.markers@[x as int]@.counter == indeg(g, x) + h.ext@[x as int] + count(Seq::<usize>::empty(), x));
        crate::graph::lemma_into_union(g, cands, others, n as int, x);
        crate::graph::lemma_into_ext(g, cands.union(others), Set::full(), n as int, x);
    }
    assert forall|x: usize, y: usize|
        non_root_list.seq().contains(x) && y < n && #[trigger] g[y as int].contains(x) implies non_root_list.seq().contains(y) by {
        if !cands.contains(y) {
            crate::graph::lemma_into_zero(g, others, n as int, x, y);
        } else if done.contains(y) {
            let j = g[y as int].index_of(x);
            assert(!non_root_list.seq().contains(g[y as int][j]));
        } else {
            if root_list.seq().contains(y) {
                assert(root_list.seq().len() > 0);
            }
            if queue.seq().contains(y) {
                assert(queue.seq().len() > 0);
            }
        }
    }
}

/// The allocations buffered for the next collection.
pub open spec fn buffered<T>(h: &CcHeap<T>) -> Set<usize> {
    h.possible_cycles.seq().to_set()
}

/// `x` is reachable from a buffered allocation.
pub open spec fn reach_buffered<T>(h: &CcHeap<T>, x: usize) -> bool {
    x < h.n() && reachable_from(h.g(), buffered(h), x)
}

/// The roots of the region reachable from the buffered allocations: its allocations that a
/// handle refers to, or that an allocation outside the region refers to.
pub open spec fn region_roots<T>(h: &CcHeap<T>) -> Set<usize> {
    Set::new(
        |x: usize|
            reach_buffered(h, x) && (h.ext@[x as int] > 0 || exists|y: usize|
                y < h.n() && !reach_buffered(h, y) && #[trigger] h.g()[y as int].contains(x)),
    )
}

/// The garbage of the region reachable from the buffered allocations: what no root of the
/// region reaches.
pub open spec fn garbage_set<T>(h: &CcHeap<T>) -> Set<usize> {
    Set::new(|x: usize| reach_buffered(h, x) && !reachable_from(h.g(), region_roots(h), x))
}

/// `x` is reachable from a buffered allocation, and so is every allocation that reaches
/// it, none of which has a handle.
pub open spec fn unreachable_buffered<T>(h: &CcHeap<T>, x: usize) -> bool {
    &&& reach_buffered(h, x)
    &&& forall|y: usize|
        y < h.n() && #[trigger] ancestor(h.g(), y, x) ==> reach_buffered(h, y) && h.ext@[y as int] == 0
}

/// No handle refers to an allocation of the garbage, and only the garbage refers to it.
proof fn lemma_garbage_closed_in<T>(h: &CcHeap<T>)
    requires
        h.g().len() == h.n(),
    ensures
        forall|x: usize| #[trigger] garbage_set(h).contains(x) ==> h.ext@[x as int] == 0,
        forall|x: usize, y: usize|
            garbage_set(h).contains(x) && y < h.n() && #[trigger] h.g()[y as int].contains(x)
                ==> garbage_set(h).contains(y),
{
    let g = h.g();
    let r = region_roots(h);
    assert forall|x: usize| #[trigger] garbage_set(h).contains(x) implies h.ext@[x as int] == 0 by {
        if h.ext@[x as int] > 0 {
            assert(r.contains(x));
            lemma_reachable_base(g, r, x);
        }
    }
    assert forall|x: usize, y: usize|
        garbage_set(h).contains(x) && y < h.n() && #[trigger] h.g()[y as int].contains(x) implies garbage_set(h).contains(y) by {
        if !reach_buffered(h, y) {
            assert(r.contains(x));
            lemma_reachable_base(g, r, x);
        }
        if reachable_from(g, r, y) {
            lemma_reachable_step(g, r, y, x);
        }
    }
}

/// An allocation that only unhandled allocations of the buffered region reach is garbage.
proof fn lemma_unreachable_buffered_is_garbage<T>(h: &CcHeap<T>, x: usize)
    requires
        h.g().len() == h.n(),
        unreachable_buffered(h, x),
    ensures
        garbage_set(h).contains(x),
{
    let g = h.g();
    let r = region_roots(h);
    assert forall|y: usize| #[trigger] r.contains(y) implies !ancestor(g, y, x) by {
        if ancestor(g, y, x) {
            assert(reach_buffered(h, y) && h.ext@[y as int] == 0);
            let z = choose|z: usize| z < h.n() && !reach_buffered(h, z) && #[trigger] h.g()[z as int].contains(y);
            crate::graph::lemma_ancestor_step(g, z, y, x);
        }
    }
    crate::graph::lemma_unreachable_without_ancestors(g, r, x);
}

/// Outside the garbage, every allocation has a handle or is referred to by another
/// allocation outside the garbage: deallocating the garbage deallocates nothing else.
proof fn lemma_survivors_supported<T>(h: &CcHeap<T>, h0: &CcHeap<T>, nl: Seq<usize>)
    requires
        h.inv(Seq::empty()),
        h.g() == h0.g(),
        h.n() == h0.n(),
        h.ext@ == h0.ext@,
        forall|x: usize| #[trigger] nl.contains(x) <==> garbage_set(h0).contains(x),
        forall|x: usize| #[trigger] outside_list(h, nl).contains(x) ==> h.cm(x).counter >= 1,
    ensures
        supported(h, h.ext@, outside_list(h, nl)),
{
    let g = h.g();
    let n = h.n();
    let p = outside_list(h, nl);
    let r0 = region_roots(h0);
    assert forall|x: usize| #[trigger] p.contains(x) implies x < h.n() && h.allocated@[x as int] && (h.ext@[x as int] > 0
        || exists|z: usize| z < h.n() && p.contains(z) && #[trigger] h.g()[z as int].contains(x)) by {
        if h.ext@[x as int] == 0 {
            if reach_buffered(h0, x) {
                assert(!garbage_set(h0).contains(x));
                assert(reachable_from(g, r0, x));
                if r0.contains(x) {
                    let y = choose|y: usize| y < h0.n() && !reach_buffered(h0, y) && #[trigger] h0.g()[y as int].contains(x);
                    assert(!garbage_set(h0).contains(y));
                    if !h.allocated@[y as int] {
                        assert(h.children@[y as int]@.len() == 0);
                    }
                    assert(p.contains(y));
                } else {
                    crate::graph::lemma_reachable_pred(g, r0, x);
                    let y = choose|y: usize| y < g.len() && reachable_from(g, r0, y) && #[trigger] g[y as int].contains(x);
                    assert(!garbage_set(h0).contains(y));
                    if !h.allocated@[y as int] {
                        assert(h.children@[y as int]@.len() == 0);
                    }
                    assert(p.contains(y));
                }
            } else {
                assert(h.markers@[x as int]@.counter == indeg(g, x) + h.ext@[x as int] + count(Seq::<usize>::empty(), x));
                if forall|z: usize| 0 <= z < n && Set::<usize>::full().contains(z) ==> !(#[trigger] g[z as int]).contains(x) {
                    crate::graph::lemma_into_zero_rev(g, Set::full(), n as int, x);
                    assert(false);
                }
                let y = choose|z: usize| 0 <= z < n && Set::<usize>::full().contains(z) && (#[trigger] g[z as int]).contains(x);
                if nl.contains(y) {
                    assert(garbage_set(h0).contains(y));
                    lemma_reachable_step(g, buffered(h0), y, x);
                }
                if !h.allocated@[y as int] {
                    assert(h.children@[y as int]@.len() == 0);
                }
                assert(p.contains(y));
            }
        }
    }
}

/// The allocations that a handle points to.
pub open spec fn handles<T>(h: &CcHeap<T>) -> Set<usize> {
    Set::new(|y: usize| y < h.n() && h.ext@[y as int] > 0)
}

/// `x` is reachable from an allocation that a handle points to.
pub open spec fn rooted<T>(h: &CcHeap<T>, x: usize) -> bool {
    x < h.n() && reachable_from(h.g(), handles(h), x)
}

/// What a handle reaches is allocated.
proof fn lemma_rooted_allocated<T>(h: &CcHeap<T>, x: usize)
    requires
        h.inv(Seq::empty()),
        rooted(h, x),
    ensures
        h.allocated@[x as int],
{
    let a = Set::new(|y: usize| y < h.n() && h.allocated@[y as int]);
    assert(closed_under_edges(h.g(), a)) by {
        assert forall|y: usize, j: int| a.contains(y) && y < h.g().len() && 0 <= j < h.g()[y as int].len()
            implies a.contains(#[trigger] h.g()[y as int][j]) by {
            assert(h.children@[y as int]@[j] == h.g()[y as int][j]);
        }
    }
    assert(handles(h).subset_of(a));
    assert(a.contains(x));
}

/// What a buffered allocation reaches is allocated.
proof fn lemma_reach_buffered_allocated<T>(h: &CcHeap<T>, x: usize)
    requires
        h.inv(Seq::empty()),
        reach_buffered(h, x),
    ensures
        h.allocated@[x as int],
{
    let a = Set::new(|y: usize| y < h.n() && h.allocated@[y as int]);
    assert(closed_under_edges(h.g(), a)) by {
        assert forall|y: usize, j: int| a.contains(y) && y < h.g().len() && 0 <= j < h.g()[y as int].len()
            implies a.contains(#[trigger] h.g()[y as int][j]) by {
            assert(h.children@[y as int]@[j] == h.g()[y as int][j]);
        }
    }
    assert(buffered(h).subset_of(a)) by {
        assert forall|y: usize| buffered(h).contains(y) implies a.contains(y) by {
            let k = h.possible_cycles.seq().index_of(y);
            assert(h.possible_cycles.seq()[k] < h.n());
        }
    }
    assert(a.contains(x));
}

/// What a handle reaches is not garbage.
proof fn lemma_rooted_not_garbage<T>(h: &CcHeap<T>, x: usize)
    requires
        h.g().len() == h.n(),
        rooted(h, x),
    ensures
        !garbage_set(h).contains(x),
{
    let gs = garbage_set(h);
    lemma_garbage_closed_in(h);
    let t = Set::new(|y: usize| !gs.contains(y));
    assert(closed_under_edges(h.g(), t)) by {
        assert forall|y: usize, j: int| t.contains(y) && y < h.g().len() && 0 <= j < h.g()[y as int].len()
            implies t.contains(#[trigger] h.g()[y as int][j]) by {
            assert(h.g()[y as int].contains(h.g()[y as int][j]));
        }
    }
    assert(handles(h).subset_of(t));
    assert(t.contains(x));
}

/// When everything a handle reaches stays allocated with the same references, and the
/// handles stay, it is still reached.
proof fn lemma_rooted_kept<T>(before: &CcHeap<T>, after: &CcHeap<T>)
    requires
        before.inv(Seq::empty()),
        after.inv(Seq::empty()),
        collect_frame(after, before),
        forall|y: usize| #[trigger] rooted(before, y) ==> after.allocated@[y as int],
    ensures
        forall|x: usize| #[trigger] rooted(before, x) ==> rooted(after, x),
{
    let w = Set::new(|y: usize| rooted(before, y) && rooted(after, y));
    assert(handles(after) == handles(before)) by {
        assert(handles(after) =~= handles(before));
    }
    assert(closed_under_edges(before.g(), w)) by {
        assert forall|y: usize, j: int| w.contains(y) && y < before.g().len() && 0 <= j < before.g()[y as int].len()
            implies w.contains(#[trigger] before.g()[y as int][j]) by {
            let z = before.g()[y as int][j];
            assert(before.g()[y as int].contains(z));
            lemma_reachable_step(before.g(), handles(before), y, z);
            lemma_rooted_allocated(before, y);
            assert(z < before.n()) by {
                assert(before.children@[y as int]@[j] == z);
            }
            assert(after.allocated@[y as int]);
            assert(after.children@[y as int] == before.children@[y as int]);
            assert(after.g()[y as int] == before.g()[y as int]);
            lemma_reachable_step(after.g(), handles(after), y, z);
        }
    }
    assert forall|y: usize| handles(before).contains(y) implies w.contains(y) by {
        lemma_reachable_base(before.g(), handles(before), y);
        lemma_reachable_base(after.g(), handles(after), y);
    }
    assert forall|x: usize| #[trigger] rooted(before, x) implies rooted(after, x) by {
        assert(w.contains(x));
    }
}

/// An execution of the collector deallocates nothing a handle reaches, changes no finalized
/// flag there, and leaves it reached.
proof fn lemma_collect_step_rooted<T>(before: &CcHeap<T>, after: &CcHeap<T>)
    requires
        collecting_wf(before),
        collecting_wf(after),
        collect_frame(after, before),
        (forall|x: usize| #[trigger] garbage_set(before).contains(x) ==> before.cm(x).finalized)
            ==> forall|x: usize| x < before.n() ==> #[trigger] after.allocated@[x as int] == (
            before.allocated@[x as int] && !garbage_set(before).contains(x)),
        (exists|x: usize| #[trigger] garbage_set(before).contains(x) && !before.cm(x).finalized)
            ==> after.allocated@ == before.allocated@,
        forall|x: usize| x < before.n() && #[trigger] after.allocated@[x as int] && !garbage_set(before).contains(x)
            ==> after.cm(x).finalized == before.cm(x).finalized,
    ensures
        forall|x: usize| #[trigger] rooted(before, x) ==> {
            &&& rooted(after, x)
            &&& after.allocated@[x as int]
            &&& after.cm(x).finalized == before.cm(x).finalized
        },
{
    assert forall|y: usize| #[trigger] rooted(before, y) implies after.allocated@[y as int] by {
        lemma_rooted_not_garbage(before, y);
        lemma_rooted_allocated(before, y);
        if forall|x: usize| #[trigger] garbage_set(before).contains(x) ==> before.cm(x).finalized {
            assert(after.allocated@[y as int] == (before.allocated@[y as int] && !garbage_set(before).contains(y)));
        }
    }
    lemma_rooted_kept(before, after);
    assert forall|x: usize| #[trigger] rooted(before, x) implies after.cm(x).finalized == before.cm(x).finalized by {
        lemma_rooted_not_garbage(before, x);
    }
}

/// Buffering exactly the garbage of the region leaves the garbage as it is: what it reaches
/// besides itself is reached from the roots of the new region.
proof fn lemma_garbage_stable<T>(old: &CcHeap<T>, new: &CcHeap<T>)
    requires
        old.g().len() == old.n(),
        new.n() == old.n(),
        new.g() == old.g(),
        new.ext@ == old.ext@,
        buffered(new) == garbage_set(old),
    ensures
        garbage_set(new) == garbage_set(old),
{
    let g = old.g();
    let n = old.n();
    let b = buffered(old);
    let gs = garbage_set(old);
    let r0 = region_roots(old);
    let r1 = region_roots(new);
    lemma_garbage_closed_in(old);
    assert forall|x: usize| #[trigger] reach_buffered(new, x) implies reach_buffered(old, x) by {
        crate::graph::lemma_reachable_trans(g, b, gs, x);
    }
    assert forall|x: usize| gs.contains(x) implies #[trigger] garbage_set(new).contains(x) by {
        lemma_reachable_base(g, gs, x);
        let t = Set::new(|y: usize| !gs.contains(y));
        assert(closed_under_edges(g, t)) by {
            assert forall|y: usize, j: int| t.contains(y) && y < g.len() && 0 <= j < g[y as int].len() implies t.contains(
                #[trigger] g[y as int][j]) by {
                let z = g[y as int][j];
                if gs.contains(z) {
                    assert(g[y as int].contains(z));
                }
            }
        }
        assert(r1.subset_of(t)) by {
            assert forall|y: usize| r1.contains(y) implies t.contains(y) by {
                if gs.contains(y) {
                    let z = choose|z: usize| z < new.n() && !reach_buffered(new, z) && #[trigger] new.g()[z as int].contains(y);
                    assert(gs.contains(z));
                    lemma_reachable_base(g, gs, z);
                }
            }
        }
        assert(!t.contains(x));
    }
    assert forall|x: usize| #[trigger] garbage_set(new).contains(x) implies gs.contains(x) by {
        assert(reach_buffered(old, x));
        if reachable_from(g, r0, x) {
            let t = Set::new(|y: usize| reachable_from(g, r1, y) || !reach_buffered(new, y));
            assert(closed_under_edges(g, t)) by {
                assert forall|y: usize, j: int| t.contains(y) && y < g.len() && 0 <= j < g[y as int].len() implies t.contains(
                    #[trigger] g[y as int][j]) by {
                    let z = g[y as int][j];
                    assert(g[y as int].contains(z));
                    if reach_buffered(new, z) {
                        if reachable_from(g, r1, y) {
                            lemma_reachable_step(g, r1, y, z);
                        } else {
                            assert(r1.contains(z));
                            lemma_reachable_base(g, r1, z);
                        }
                    }
                }
            }
            assert(r0.subset_of(t)) by {
                assert forall|y: usize| r0.contains(y) implies t.contains(y) by {
                    if reach_buffered(new, y) {
                        if new.ext@[y as int] == 0 {
                            let z = choose|z: usize| z < old.n() && !reach_buffered(old, z) && #[trigger] old.g()[z as int].contains(y);
                            assert(!reach_buffered(new, z));
                        }
                        assert(r1.contains(y));
                        lemma_reachable_base(g, r1, y);
                    }
                }
            }
            assert(t.contains(x));
        }
    }
    assert(garbage_set(new) =~= gs);
}

/// The counting phase traces exactly the region reachable from the buffered allocations,
/// and each allocation it lists as a root is a root of that region.
proof fn lemma_counted_region<T>(
    h: &CcHeap<T>,
    h0: &CcHeap<T>,
    root_list: &LinkedList,
    non_root_list: &LinkedList,
    queue: &LinkedQueue,
    cands: Set<usize>,
)
    requires
        counting_inv(h, root_list, non_root_list, queue, cands, None, Seq::empty()),
        same_graph(h, h0),
        forall|x: usize| #[trigger] cands.contains(x) ==> reachable_from(h0.g(), buffered(h0), x),
        closed_under_edges(h0.g(), cands),
        forall|x: usize| h0.possible_cycles.seq().contains(x) ==> #[trigger] cands.contains(x),
        cands.subset_of(below(h.n())),
    ensures
        forall|x: usize| #[trigger] cands.contains(x) <==> reach_buffered(h0, x),
        forall|x: usize| root_list.seq().contains(x) ==> #[trigger] region_roots(h0).contains(x),
{
    let n = h.n();
    let g = h.g();
    assert(g =~= h0.g());
    assert(buffered(h0).subset_of(cands));
    assert forall|x: usize| #[trigger] cands.contains(x) <==> reach_buffered(h0, x) by {
        if cands.contains(x) {
            assert(below(n).contains(x));
        }
    }
    assert forall|x: usize| root_list.seq().contains(x) implies #[trigger] region_roots(h0).contains(x) by {
        assert(cands.contains(x));
        if !region_roots(h0).contains(x) {
            let others = Set::new(|y: usize| !cands.contains(y));
            assert forall|y: usize| 0 <= y < n && others.contains(y) implies !(#[trigger] g[y as int]).contains(x) by {
                if g[y as int].contains(x) {
                    assert(h0.g()[y as int].contains(x));
                    assert(!reach_buffered(h0, y));
                }
            }
            crate::graph::lemma_into_zero_rev(g, others, n as int, x);
            crate::graph::lemma_into_union(g, cands, others, n as int, x);
            crate::graph::lemma_into_ext(g, cands.union(others), Set::full(), n as int, x);
            assert(h.markers@[x as int]@.counter == indeg(g, x) + h.ext@[x as int] + count(Seq::<usize>::empty(), x));
            assert(h.markers@[x as int]@.mark == Mark::InList);
            assert(h.cm(x).tracing_counter == into_from(g, cands, n as int, x) + count(Seq::<usize>::empty(), x));
            assert(false);
        }
    }
}

/// The invariant of the heap while a collection runs, between its executions.
pub open spec fn collecting_wf<T>(h: &CcHeap<T>) -> bool {
    &&& h.inv(Seq::empty())
    &&& h.referenced()
    &&& h.pc_tc_zero()
    &&& h.state.collecting
    &&& !h.state.finalizing
    &&& !h.state.dropping
    &&& forall|x: usize|
        x < h.n() && h.allocated@[x as int] ==> {
            &&& (#[trigger] h.markers@[x as int])@.mark == Mark::NonMarked || h.markers@[x as int]@.mark
                == Mark::PossibleCycles
            &&& h.elems@[x as int] is Some
        }
}

/// What an execution of the collector may change.
pub open spec fn collect_frame<T>(new: &CcHeap<T>, old: &CcHeap<T>) -> bool {
    &&& new.n() == old.n()
    &&& new.ext@ == old.ext@
    &&& forall|t: usize| t < old.n() ==> #[trigger] new.weak_held(t) == old.weak_held(t)
    &&& new.taken@ == old.taken@
    &&& new.box_size == old.box_size
    &&& new.state.executions_counter == old.state.executions_counter
    &&& forall|x: usize|
        x < new.n() && #[trigger] new.allocated@[x as int] ==> {
            &&& old.allocated@[x as int]
            &&& (new.metadata@[x as int] is Some <==> old.metadata@[x as int] is Some)
            &&& new.weak_children@[x as int] == old.weak_children@[x as int]
            &&& new.elems@[x as int] == old.elems@[x as int]
            &&& new.children@[x as int] == old.children@[x as int]
        }
}

/// One execution of the collector: finds the garbage among the buffered allocations and
/// what they refer to, finalizes it, and deallocates it unless a finalizer ran (in which
/// case it is buffered again, and the next execution deallocates it).
#[verifier::spinoff_prover]
#[verifier::rlimit(100)]
fn __collect<T: Finalize>(heap: &mut CcHeap<T>)
    requires
        collecting_wf(old(heap)),
    ensures
        collecting_wf(final(heap)),
        collect_frame(final(heap), old(heap)),
        forall|x: usize| #[trigger] final(heap).finalizer_calls@(x) == finalizer_calls_after(final(heap), old(heap), x),
        (forall|x: usize| #[trigger] garbage_set(old(heap)).contains(x) ==> old(heap).cm(x).finalized)
            ==> forall|x: usize| x < old(heap).n() ==> #[trigger] final(heap).allocated@[x as int] == (
            old(heap).allocated@[x as int] && !garbage_set(old(heap)).contains(x)),
        forall|x: usize| x < old(heap).n() && #[trigger] final(heap).allocated@[x as int] && !garbage_set(old(heap)).contains(x)
            ==> final(heap).cm(x).finalized == old(heap).cm(x).finalized,
        (exists|x: usize| #[trigger] garbage_set(old(heap)).contains(x) && !old(heap).cm(x).finalized) ==> {
            &&& buffered(final(heap)) == garbage_set(old(heap))
            &&& final(heap).allocated@ == old(heap).allocated@
            &&& final(heap).children@ == old(heap).children@
            &&& forall|x: usize| #[trigger] garbage_set(old(heap)).contains(x) ==> final(heap).cm(x).finalized
        },
{
    let ghost h0 = *heap;
    let mut non_root_list = LinkedList::new();
    let mut root_list = LinkedList::new();
    let mut queue = LinkedQueue::new();
    proof {
        let n = heap.n();
        let g = heap.g();
        assert forall|x: usize| x < n && heap.allocated@[x as int] && ((#[trigger] heap.markers@[x as int])@.mark
            != Mark::NonMarked || None::<usize> == Some(x)) implies heap.cm(x).tracing_counter == into_from(g, Set::empty(), n as int, x)
            + count(Seq::<usize>::empty(), x) by {
            crate::graph::lemma_into_zero_rev(g, Set::empty(), n as int, x);
        }
        assert(collecting_wf(&h0));
        assert forall|x: usize| x < n && heap.allocated@[x as int] implies (#[trigger] heap.elems@[x as int]) is Some by {
            assert(h0.markers@[x as int]@.mark == h0.markers@[x as int]@.mark);
            assert(x < h0.n() && h0.allocated@[x as int]);
            assert(h0.elems@[x as int] is Some);
        }
    }
    let Ghost(cands) = trace_counting(heap, &mut root_list, &mut non_root_list, &mut queue);
    let ghost reach = Set::new(|x: usize| reachable_from(h0.g(), region_roots(&h0), x));
    proof {
        lemma_counting_to_roots(heap, &root_list, &non_root_list, &queue, cands);
        lemma_counted_region(heap, &h0, &root_list, &non_root_list, &queue, cands);
        assert(heap.g() =~= h0.g());
        assert(closed_under_edges(heap.g(), reach)) by {
            assert forall|y: usize, j: int| reach.contains(y) && y < h0.g().len() && 0 <= j < h0.g()[y as int].len()
                implies reach.contains(#[trigger] h0.g()[y as int][j]) by {
                lemma_reachable_step(h0.g(), region_roots(&h0), y, h0.g()[y as int][j]);
            }
        }
        assert forall|x: usize| #[trigger] root_list.seq().contains(x) implies reach.contains(x) by {
            assert(region_roots(&h0).contains(x));
            lemma_reachable_base(h0.g(), region_roots(&h0), x);
        }
        assert forall|x: usize| #[trigger] queue.seq().contains(x) implies reach.contains(x) by {
            assert(queue.seq().len() > 0);
        }
    }
    let Ghost(done) = trace_roots(heap, &mut root_list, &mut non_root_list, &mut queue, Ghost(cands), Ghost(reach));
    proof {
        lemma_non_roots_garbage(heap, &root_list, &non_root_list, &queue, cands, done);
    }
    let ghost h1 = *heap;
    let ghost nl = non_root_list.seq();
    proof {
        assert(nl.no_duplicates());
        assert(h1.g() =~= h0.g());
        lemma_non_roots_are_the_garbage(&h1, &h0, &root_list, &non_root_list, &queue, cands, done, reach);
    }
    proof {
        let n = heap.n();
        assert forall|x: usize| #[trigger] nl.contains(x) implies x < n && heap.allocated@[x as int]
            && heap.cm(x).mark == Mark::InList && heap.elems@[x as int] is Some && heap.ext@[x as int] == 0 by {}
        assert forall|x: usize| x < n && heap.allocated@[x as int] && !nl.contains(x) implies {
            &&& ((#[trigger] heap.markers@[x as int])@.mark == Mark::NonMarked || heap.markers@[x as int]@.mark
                == Mark::PossibleCycles)
            &&& heap.elems@[x as int] is Some
        } by {
            if cands.contains(x) {
                assert(done.contains(x));
            }
        }
        assert(heap.pc_tc_zero()) by {
            assert forall|x: usize| x < n && heap.allocated@[x as int] && (#[trigger] heap.markers@[x as int])@.mark
                == Mark::PossibleCycles implies heap.markers@[x as int]@.tracing_counter == 0 by {
                assert(heap.possible_cycles.seq().contains(x) <==> (heap.allocated@[x as int]
                    && heap.markers@[x as int]@.mark == Mark::PossibleCycles));
            }
        }
    }
    if !non_root_list.is_empty(&heap.links) {
        let (has_finalized, size) = finalize_non_roots(heap, &non_root_list);
        let ghost h2 = *heap;
        proof {
            assert(heap.g() =~= h1.g());
            assert forall|x: usize| #[trigger] nl.contains(x) implies x < heap.n() && heap.allocated@[x as int]
                && heap.cm(x).mark == Mark::InList && heap.elems@[x as int] is Some && heap.ext@[x as int] == 0
                && heap.cm(x).finalized by {}
            assert forall|x: usize| x < heap.n() && heap.allocated@[x as int] && !nl.contains(x) implies {
                &&& ((#[trigger] heap.markers@[x as int])@.mark == Mark::NonMarked || heap.markers@[x as int]@.mark
                    == Mark::PossibleCycles)
                &&& heap.elems@[x as int] is Some
            } by {
                assert(h1.markers@[x as int]@.mark == heap.markers@[x as int]@.mark);
            }
        }
        proof {
            assert(heap.g() =~= h0.g());
            assert forall|x: usize| x < heap.n() && heap.allocated@[x as int] implies #[trigger] heap.markers@[x as int]@.counter
                == h0.markers@[x as int]@.counter by {
                assert(heap.markers@[x as int]@.counter == indeg(heap.g(), x) + heap.ext@[x as int] + count(Seq::<usize>::empty(), x));
                assert(h0.markers@[x as int]@.counter == indeg(h0.g(), x) + h0.ext@[x as int] + count(Seq::<usize>::empty(), x));
            }
            assert(heap.referenced());
            assert forall|x: usize| #[trigger] nl.contains(x) implies heap.cm(x).counter >= 1 by {
                assert(heap.markers@[x as int]@.counter == h0.markers@[x as int]@.counter);
            }
        }
        proof {
            assert forall|x: usize| #[trigger] outside_list(heap, nl).contains(x) implies heap.cm(x).counter >= 1 by {
                assert(heap.markers@[x as int]@.mark == Mark::NonMarked || heap.markers@[x as int]@.mark == Mark::PossibleCycles);
            }
            lemma_survivors_supported(heap, &h0, nl);
        }
        let ghost h3 = *heap;
        free_or_rebuffer(heap, non_root_list, has_finalized, size);
        proof {
            assert(h3.wg() == h0.wg());
            assert forall|t: usize| t < h0.n() implies #[trigger] heap.weak_held(t) == h0.weak_held(t) by {
                assert(h3.weak_held(t) == h0.weak_held(t));
            }
            let gs = garbage_set(&h0);
            assert forall|x: usize| x < h0.n() && #[trigger] heap.allocated@[x as int] && !gs.contains(x)
                implies heap.cm(x).finalized == h0.cm(x).finalized by {
                assert(!nl.contains(x));
                assert(h3.markers@[x as int]@.finalized == h1.markers@[x as int]@.finalized);
                assert(h1.markers@[x as int]@.finalized == h0.markers@[x as int]@.finalized);
            }
            if !has_finalized {
                assert forall|x: usize| x < h0.n() implies #[trigger] heap.allocated@[x as int] == (
                    h0.allocated@[x as int] && !gs.contains(x)) by {
                    assert(nl.contains(x) == gs.contains(x));
                    if heap.allocated@[x as int] {
                        assert(h3.allocated@[x as int]);
                    }
                }
            }
            if has_finalized {
                assert(buffered(heap) =~= gs) by {
                    assert forall|x: usize| buffered(heap).contains(x) <==> gs.contains(x) by {
                        assert(nl.contains(x) <==> gs.contains(x));
                    }
                }
                assert forall|x: usize| #[trigger] gs.contains(x) implies heap.cm(x).finalized by {
                    assert(nl.contains(x));
                }
            } else {
                assert forall|x: usize| #[trigger] gs.contains(x) implies !heap.allocated@[x as int] by {
                    assert(nl.contains(x));
                }
            }
            if forall|x: usize| #[trigger] gs.contains(x) ==> h0.cm(x).finalized {
                if has_finalized {
                    let x = choose|x: usize| #[trigger] nl.contains(x) && !h1.cm(x).finalized;
                    assert(gs.contains(x));
                    assert(h1.markers@[x as int]@.finalized == h0.markers@[x as int]@.finalized);
                }
            }
            if exists|x: usize| #[trigger] gs.contains(x) && !h0.cm(x).finalized {
                let x = choose|x: usize| #[trigger] gs.contains(x) && !h0.cm(x).finalized;
                assert(nl.contains(x));
                assert(h1.markers@[x as int]@.finalized == h0.markers@[x as int]@.finalized);
                assert(has_finalized);
            }
        }
        proof {
            assert forall|x: usize| #[trigger] heap.finalizer_calls@(x) == finalizer_calls_after(heap, &h0, x) by {
                assert(heap.finalizer_calls@(x) == h2.finalizer_calls@(x));
                assert(h1.finalizer_calls@(x) == h0.finalizer_calls@(x));
                if h0.is_live(x) {
                    assert(h1.markers@[x as int]@.finalized == h0.markers@[x as int]@.finalized);
                    if nl.contains(x) {
                        assert(h1.allocated@[x as int]);
                    } else {
                        assert(heap.allocated@[x as int]);
                        assert(h3.markers@[x as int]@.finalized == h1.markers@[x as int]@.finalized);
                    }
                }
            }
        }
    } else {
        proof {
            assert forall|x: usize| #[trigger] garbage_set(&h0).contains(x) implies false by {
                assert(nl.contains(x));
                assert(nl.len() > 0);
            }
            assert forall|x: usize| x < h0.n() implies #[trigger] heap.allocated@[x as int] == (
                h0.allocated@[x as int] && !garbage_set(&h0).contains(x)) by {}
            assert forall|x: usize| #[trigger] heap.finalizer_calls@(x) == finalizer_calls_after(heap, &h0, x) by {
                if h0.is_live(x) {
                    assert(h1.markers@[x as int]@.finalized == h0.markers@[x as int]@.finalized);
                }
            }
        }
    }
}

/// Finalizer calls compose: when each of two steps calls the finalizers of the allocations
/// it finalizes or deallocates, and allocations never come back nor lose their finalized
/// flag, the two steps together do the same.
proof fn lemma_calls_after_trans<T>(a: &CcHeap<T>, b: &CcHeap<T>, c: &CcHeap<T>)
    requires
        a.n() == b.n(),
        b.n() == c.n(),
        forall|x: usize| #[trigger] b.finalizer_calls@(x) == finalizer_calls_after(b, a, x),
        forall|x: usize| #[trigger] c.finalizer_calls@(x) == finalizer_calls_after(c, b, x),
        forall|x: usize| #[trigger] b.is_live(x) ==> a.is_live(x) && (a.cm(x).finalized ==> b.cm(x).finalized),
        forall|x: usize| #[trigger] c.is_live(x) ==> b.is_live(x) && (b.cm(x).finalized ==> c.cm(x).finalized),
    ensures
        forall|x: usize| #[trigger] c.finalizer_calls@(x) == finalizer_calls_after(c, a, x),
{
    assert forall|x: usize| #[trigger] c.finalizer_calls@(x) == finalizer_calls_after(c, a, x) by {
        assert(c.finalizer_calls@(x) == finalizer_calls_after(c, b, x));
        assert(b.finalizer_calls@(x) == finalizer_calls_after(b, a, x));
        if c.is_live(x) {
            assert(b.is_live(x));
        }
        if b.is_live(x) {
            assert(a.is_live(x));
        }
    }
}

/// At the end of root tracing, the non-root list holds exactly the garbage of the region
/// reachable from the buffered allocations.
proof fn lemma_non_roots_are_the_garbage<T>(
    h: &CcHeap<T>,
    h0: &CcHeap<T>,
    root_list: &LinkedList,
    non_root_list: &LinkedList,
    queue: &LinkedQueue,
    cands: Set<usize>,
    done: Set<usize>,
    reach: Set<usize>,
)
    requires
        roots_inv(h, root_list, non_root_list, queue, cands, done, None, Seq::empty()),
        root_list.seq().len() == 0,
        queue.seq().len() == 0,
        h.g() == h0.g(),
        h.n() == h0.n(),
        h.ext@ == h0.ext@,
        forall|x: usize| #[trigger] cands.contains(x) <==> reach_buffered(h0, x),
        reach == Set::new(|x: usize| reachable_from(h0.g(), region_roots(h0), x)),
        forall|x: usize| #[trigger] done.contains(x) ==> reach.contains(x),
        forall|x: usize| #[trigger] non_root_list.seq().contains(x) ==> h.ext@[x as int] == 0,
        forall|x: usize, y: usize|
            non_root_list.seq().contains(x) && y < h.n() && #[trigger] h.g()[y as int].contains(x)
                ==> non_root_list.seq().contains(y),
    ensures
        forall|x: usize| #[trigger] non_root_list.seq().contains(x) <==> garbage_set(h0).contains(x),
{
    let g = h0.g();
    let nl = non_root_list.seq();
    let r0 = region_roots(h0);
    let t = Set::new(|y: usize| !nl.contains(y));
    assert(closed_under_edges(g, t)) by {
        assert forall|y: usize, j: int| t.contains(y) && y < g.len() && 0 <= j < g[y as int].len() implies t.contains(
            #[trigger] g[y as int][j]) by {
            assert(g[y as int].contains(g[y as int][j]));
        }
    }
    assert(r0.subset_of(t)) by {
        assert forall|y: usize| r0.contains(y) implies t.contains(y) by {
            if nl.contains(y) {
                let z = choose|z: usize| z < h0.n() && !reach_buffered(h0, z) && #[trigger] h0.g()[z as int].contains(y);
                assert(nl.contains(z));
                assert(cands.contains(z));
            }
        }
    }
    assert forall|x: usize| #[trigger] nl.contains(x) <==> garbage_set(h0).contains(x) by {
        if nl.contains(x) {
            assert(cands.contains(x));
            assert(!t.contains(x));
        }
        if garbage_set(h0).contains(x) {
            assert(cands.contains(x));
            if !nl.contains(x) {
                if root_list.seq().contains(x) {
                    assert(root_list.seq().len() > 0);
                }
                if queue.seq().contains(x) {
                    assert(queue.seq().len() > 0);
                }
                assert(done.contains(x));
            }
        }
    }
}

/// Finalizes the elements of the non-root list that need it, returning whether one was
/// finalized now, and the size of the list.
fn finalize_non_roots<T: Finalize>(heap: &mut CcHeap<T>, non_root_list: &LinkedList) -> (r: (bool, usize))
    requires
        old(heap).inv(Seq::empty()),
        !old(heap).state.finalizing,
        non_root_list.wf(old(heap).links@),
        forall|x: usize| #[trigger] non_root_list.seq().contains(x) ==> x < old(heap).n()
            && old(heap).allocated@[x as int] && old(heap).elems@[x as int] is Some,
    ensures
        final(heap).inv(Seq::empty()),
        old(heap).pc_tc_zero() ==> final(heap).pc_tc_zero(),
        r.1 == non_root_list.seq().len(),
        r.0 == exists|x: usize| #[trigger] non_root_list.seq().contains(x) && !old(heap).cm(x).finalized,
        final(heap).links@ == old(heap).links@,
        final(heap).elems@ == old(heap).elems@,
        final(heap).children@ == old(heap).children@,
        final(heap).allocated@ == old(heap).allocated@,
        final(heap).ext@ == old(heap).ext@,
        final(heap).wext@ == old(heap).wext@,
        final(heap).taken@ == old(heap).taken@,
        final(heap).metadata@ == old(heap).metadata@,
        final(heap).weak_children@ == old(heap).weak_children@,
        final(heap).box_size == old(heap).box_size,
        final(heap).possible_cycles == old(heap).possible_cycles,
        final(heap).state == old(heap).state,
        final(heap).markers@.len() == old(heap).markers@.len(),
        forall|x: usize| #[trigger] final(heap).finalizer_calls@(x) == old(heap).finalizer_calls@(x) + if non_root_list.seq().contains(x)
            && !old(heap).cm(x).finalized {
            1nat
        } else {
            0nat
        },
        forall|x: usize| x < final(heap).n() ==> {
            &&& (#[trigger] final(heap).markers@[x as int])@.mark == old(heap).markers@[x as int]@.mark
            &&& final(heap).markers@[x as int]@.tracing_counter == old(heap).markers@[x as int]@.tracing_counter
            &&& final(heap).markers@[x as int]@.counter == old(heap).markers@[x as int]@.counter
            &&& final(heap).markers@[x as int]@.finalized == (non_root_list.seq().contains(x)
                || old(heap).markers@[x as int]@.finalized)
        },
{
    let ghost h1 = *heap;
    let ghost nl = non_root_list.seq();
    let old_finalizing = heap.state.is_finalizing();
    heap.state.set_finalizing(true);
    let v = non_root_list.iter(&heap.links);
    let mut has_finalized = false;
    let mut non_root_list_size: usize = 0;
    let mut i: usize = 0;
    proof {
        assert forall|k: int| 0 <= k < nl.len() implies #[trigger] nl[k] < heap.n() && heap.allocated@[nl[k] as int]
            && heap.elems@[nl[k] as int] is Some by {
            assert(nl.contains(nl[k]));
        }
    }
    while i < v.len()
        invariant
            v@ == nl,
            i <= v@.len(),
            non_root_list_size == i,
            heap.inv(Seq::empty()),
            h1.pc_tc_zero() ==> heap.pc_tc_zero(),
            heap.links@ == h1.links@,
            heap.elems@ == h1.elems@,
            heap.children@ == h1.children@,
            heap.allocated@ == h1.allocated@,
            heap.ext@ == h1.ext@,
            heap.wext@ == h1.wext@,
            heap.taken@ == h1.taken@,
            heap.metadata@ == h1.metadata@,
            heap.weak_children@ == h1.weak_children@,
            heap.box_size == h1.box_size,
            heap.possible_cycles == h1.possible_cycles,
            heap.state == (crate::state::State { finalizing: true, ..h1.state }),
            heap.markers@.len() == h1.markers@.len(),
            forall|x: usize| #[trigger] heap.finalizer_calls@(x) == h1.finalizer_calls@(x) + if nl.take(i as int).contains(x)
                && !h1.cm(x).finalized {
                1nat
            } else {
                0nat
            },
            forall|x: usize| x < heap.n() ==> {
                &&& (#[trigger] heap.markers@[x as int])@.mark == h1.markers@[x as int]@.mark
                &&& heap.markers@[x as int]@.tracing_counter == h1.markers@[x as int]@.tracing_counter
                &&& heap.markers@[x as int]@.counter == h1.markers@[x as int]@.counter
                &&& heap.markers@[x as int]@.finalized == (nl.take(i as int).contains(x)
                    || h1.markers@[x as int]@.finalized)
            },
            forall|k: int| 0 <= k < nl.len() ==> #[trigger] nl[k] < heap.n() && heap.allocated@[nl[k] as int]
                && heap.elems@[nl[k] as int] is Some,
            nl.no_duplicates(),
            has_finalized == (exists|x: usize| #[trigger] nl.take(i as int).contains(x) && !h1.cm(x).finalized),
        decreases v@.len() - i,
    {
        let ptr = v[i];
        non_root_list_size = non_root_list_size + 1;
        let ghost before = *heap;
        let f = heap.finalize_inner(ptr, Ghost(Seq::empty()));
        proof {
            let t0 = nl.take(i as int);
            let t1 = nl.take(i + 1);
            assert(ptr == nl[i as int]);
            assert(t1 =~= t0.push(ptr));
            assert(!t0.contains(ptr)) by {
                if t0.contains(ptr) {
                    let k = t0.index_of(ptr);
                    assert(nl[k] == nl[i as int]);
                }
            }
            assert forall|x: usize| #[trigger] t1.contains(x) <==> (t0.contains(x) || x == ptr) by {
                if t1.contains(x) && x != ptr {
                    let k = t1.index_of(x);
                    assert(t0[k] == x);
                }
                if t0.contains(x) {
                    let k = t0.index_of(x);
                    assert(t1[k] == x);
                }
                assert(t1[i as int] == ptr);
            }
            assert(before.markers@[ptr as int]@.finalized == h1.markers@[ptr as int]@.finalized);
            assert forall|x: usize| #[trigger] heap.finalizer_calls@(x) == h1.finalizer_calls@(x) + if t1.contains(x)
                && !h1.cm(x).finalized {
                1nat
            } else {
                0nat
            } by {
                assert(before.finalizer_calls@(x) == h1.finalizer_calls@(x) + if t0.contains(x) && !h1.cm(x).finalized {
                    1nat
                } else {
                    0nat
                });
            }
            assert forall|x: usize| x < heap.n() implies {
                &&& (#[trigger] heap.markers@[x as int])@.mark == h1.markers@[x as int]@.mark
                &&& heap.markers@[x as int]@.tracing_counter == h1.markers@[x as int]@.tracing_counter
                &&& heap.markers@[x as int]@.counter == h1.markers@[x as int]@.counter
                &&& heap.markers@[x as int]@.finalized == (t1.contains(x) || h1.markers@[x as int]@.finalized)
            } by {
                if x != ptr {
                    assert(heap.markers@[x as int] == before.markers@[x as int]);
                }
            }
            if f || has_finalized {
                if f {
                    assert(t1.contains(ptr) && !h1.cm(ptr).finalized);
                } else {
                    let x = choose|x: usize| #[trigger] t0.contains(x) && !h1.cm(x).finalized;
                    assert(t1.contains(x));
                }
            }
            if exists|x: usize| #[trigger] t1.contains(x) && !h1.cm(x).finalized {
                let x = choose|x: usize| #[trigger] t1.contains(x) && !h1.cm(x).finalized;
                if x != ptr {
                    assert(t0.contains(x));
                }
            }
        }
        has_finalized = f || has_finalized;
        i = i + 1;
    }
    heap.state.set_finalizing(old_finalizing);
    proof {
        assert(nl.take(nl.len() as int) =~= nl);
    }
    (has_finalized, non_root_list_size)
}

/// Deallocates the garbage of the non-root list when no finalizer ran; otherwise buffers
/// it again, for the next execution to deallocate.
fn free_or_rebuffer<T: Finalize>(heap: &mut CcHeap<T>, non_root_list: LinkedList, has_finalized: bool, size: usize)
    requires
        old(heap).inv(Seq::empty()),
        old(heap).referenced(),
        forall|x: usize| #[trigger] non_root_list.seq().contains(x) ==> old(heap).cm(x).counter >= 1,
        old(heap).pc_tc_zero(),
        old(heap).state.collecting,
        !old(heap).state.finalizing,
        !old(heap).state.dropping,
        old(heap).possible_cycles.seq().len() == 0,
        non_root_list.wf(old(heap).links@),
        size == non_root_list.seq().len(),
        forall|x: usize| #[trigger] non_root_list.seq().contains(x) ==> x < old(heap).n() && old(heap).allocated@[x as int]
            && old(heap).cm(x).mark == Mark::InList && old(heap).elems@[x as int] is Some && old(heap).ext@[x as int] == 0
            && old(heap).cm(x).finalized,
        forall|x: usize| x < old(heap).n() && old(heap).allocated@[x as int] && !non_root_list.seq().contains(x) ==> {
            &&& ((#[trigger] old(heap).markers@[x as int])@.mark == Mark::NonMarked || old(heap).markers@[x as int]@.mark
                == Mark::PossibleCycles)
            &&& old(heap).elems@[x as int] is Some
        },
        forall|x: usize, y: usize|
            non_root_list.seq().contains(x) && y < old(heap).n() && #[trigger] old(heap).g()[y as int].contains(x)
                ==> non_root_list.seq().contains(y),
        supported(old(heap), old(heap).ext@, outside_list(old(heap), non_root_list.seq())),
    ensures
        collecting_wf(final(heap)),
        collect_frame(final(heap), old(heap)),
        final(heap).finalizer_calls@ == old(heap).finalizer_calls@,
        !has_finalized ==> forall|x: usize| #[trigger] non_root_list.seq().contains(x) ==> !final(heap).allocated@[x as int],
        !has_finalized ==> forall|x: usize| x < old(heap).n() && old(heap).allocated@[x as int]
            && !non_root_list.seq().contains(x) ==> #[trigger] final(heap).allocated@[x as int],
        forall|x: usize| x < old(heap).n() && #[trigger] final(heap).allocated@[x as int] && !non_root_list.seq().contains(x)
            ==> final(heap).cm(x).finalized == old(heap).cm(x).finalized,
        has_finalized ==> {
            &&& buffered(final(heap)) == non_root_list.seq().to_set()
            &&& final(heap).allocated@ == old(heap).allocated@
            &&& final(heap).children@ == old(heap).children@
            &&& forall|x: usize| #[trigger] non_root_list.seq().contains(x) ==> final(heap).cm(x).finalized
        },
{
    let ghost h2 = *heap;
    let ghost nl = non_root_list.seq();
    let mut non_root_list = non_root_list;
    if !has_finalized {
        heap.deallocate_list(non_root_list);
    } else {
        let old_size = heap.possible_cycles.size(&heap.links);
        heap.possible_cycles.swap_list(&mut non_root_list, size, &heap.links);
        heap.possible_cycles.mark_self_and_append(
            &mut heap.links,
            &mut heap.markers,
            Mark::PossibleCycles,
            non_root_list,
            old_size,
        );
        proof {
            let n = heap.n();
            let ps = heap.possible_cycles.seq();
            assert(ps =~= nl);
            assert forall|x: usize| x < n implies (ps.contains(x) <==> (heap.allocated@[x as int]
                && (#[trigger] heap.markers@[x as int])@.mark == Mark::PossibleCycles)) by {
                if !nl.contains(x) {
                    assert(heap.markers@[x as int] == h2.markers@[x as int]);
                    assert(h2.possible_cycles.seq().contains(x) <==> (h2.allocated@[x as int]
                        && h2.markers@[x as int]@.mark == Mark::PossibleCycles));
                }
            }
            assert forall|x: usize| x < n && !(#[trigger] heap.allocated@[x as int]) implies heap.links@[x as int] == Link::empty() by {
                assert(!nl.contains(x));
            }
            assert forall|x: usize| x < n && heap.allocated@[x as int] && (#[trigger] heap.markers@[x as int])@.mark
                == Mark::NonMarked implies heap.links@[x as int] == Link::empty() by {
                assert(!nl.contains(x));
                assert(heap.markers@[x as int] == h2.markers@[x as int]);
            }
            assert forall|x: usize| x < n && heap.allocated@[x as int] implies (#[trigger] heap.markers@[x as int])@.counter
                == indeg(heap.g(), x) + heap.ext@[x as int] + count(Seq::<usize>::empty(), x) by {
                assert(h2.markers@[x as int]@.counter == indeg(h2.g(), x) + h2.ext@[x as int] + count(Seq::<usize>::empty(), x));
            }
            assert forall|x: usize| x < n && heap.allocated@[x as int] implies (#[trigger] heap.markers@[x as int])@.counter <= MAX by {
                assert(h2.markers@[x as int]@.counter <= MAX);
            }
            assert forall|x: usize| x < n && heap.allocated@[x as int] && (#[trigger] heap.elems@[x as int]) is Some
                implies heap.markers@[x as int]@.tracing_counter <= MAX by {
                assert(h2.markers@[x as int]@.tracing_counter <= MAX);
            }
            assert forall|x: usize| x < n implies meta_ok(
                #[trigger] heap.metadata@[x as int],
                heap.wext@[x as int],
                heap.allocated@[x as int],
                heap.markers@[x as int]@.allocated_for_metadata,
            ) by {
                assert(meta_ok(
                    h2.metadata@[x as int],
                    h2.wext@[x as int],
                    h2.allocated@[x as int],
                    h2.markers@[x as int]@.allocated_for_metadata,
                ));
            }
            assert forall|x: usize| x < n && heap.allocated@[x as int] implies {
                &&& (#[trigger] heap.markers@[x as int])@.mark == Mark::NonMarked || heap.markers@[x as int]@.mark
                    == Mark::PossibleCycles
                &&& heap.elems@[x as int] is Some
            } by {
                if !nl.contains(x) {
                    assert(heap.markers@[x as int] == h2.markers@[x as int]);
                }
            }
            assert(heap.pc_tc_zero()) by {
                assert forall|x: usize| x < n && heap.allocated@[x as int] && (#[trigger] heap.markers@[x as int])@.mark
                    == Mark::PossibleCycles implies heap.markers@[x as int]@.tracing_counter == 0 by {
                    assert(ps.contains(x));
                }
            }
            assert(buffered(heap) =~= nl.to_set());
        }
    }
}

/// The executions counter after one more execution (it wraps around).
pub open spec fn next_count(c: usize) -> usize {
    if c == usize::MAX {
        0
    } else {
        (c + 1) as usize
    }
}

/// What a collection guarantees: the heap is well formed again, no handle was invalidated,
/// and the allocations that survive are unchanged.
pub open spec fn collected<T>(new: &CcHeap<T>, old: &CcHeap<T>) -> bool {
    &&& new.wf()
    &&& new.n() == old.n()
    &&& new.ext@ == old.ext@
    &&& forall|t: usize| t < old.n() ==> #[trigger] new.weak_held(t) == old.weak_held(t)
    &&& new.taken@ == old.taken@
    &&& new.box_size == old.box_size
    &&& forall|x: usize|
        x < new.n() && #[trigger] new.allocated@[x as int] ==> {
            &&& old.allocated@[x as int]
            &&& (new.metadata@[x as int] is Some <==> old.metadata@[x as int] is Some)
            &&& new.weak_children@[x as int] == old.weak_children@[x as int]
            &&& new.elems@[x as int] == old.elems@[x as int]
            &&& new.children@[x as int] == old.children@[x as int]
        }
}

/// How far a collection that started at `h1` has come with its garbage `gs` after `i`
/// executions: nothing done yet (before the first), the garbage finalized and buffered
/// again (after the first only), or the garbage deallocated.
spec fn collect_progress<T>(heap: &CcHeap<T>, h1: &CcHeap<T>, gs: Set<usize>, i: int) -> bool {
    ||| (i == 0 && *heap == *h1)
    ||| (i == 1 && rebuffered(heap, h1, gs))
    ||| forall|x: usize| #[trigger] gs.contains(x) ==> !heap.allocated@[x as int]
}

/// The garbage `gs` found at `h1` has been finalized and is all that is buffered, and
/// nothing was deallocated since.
#[verifier::opaque]
spec fn rebuffered<T>(heap: &CcHeap<T>, h1: &CcHeap<T>, gs: Set<usize>) -> bool {
    &&& buffered(heap) == gs
    &&& heap.allocated@ == h1.allocated@
    &&& heap.children@ == h1.children@
    &&& garbage_set(heap) == gs
    &&& forall|x: usize| #[trigger] gs.contains(x) ==> heap.cm(x).finalized
}

/// With nothing buffered, the garbage found at the start of the collection is deallocated.
proof fn lemma_progress_nothing_buffered<T>(heap: &CcHeap<T>, h1: &CcHeap<T>, gs: Set<usize>, i: int)
    requires
        collect_progress(heap, h1, gs, i),
        gs == garbage_set(h1),
        heap.possible_cycles.seq().len() == 0,
    ensures
        forall|x: usize| #[trigger] gs.contains(x) ==> !heap.allocated@[x as int],
{
    let empty = Set::<usize>::empty();
    assert(buffered(heap) =~= empty);
    assert(closed_under_edges(heap.g(), empty));
    if i == 0 && *heap == *h1 {
        assert forall|x: usize| #[trigger] gs.contains(x) implies !heap.allocated@[x as int] by {
            assert(reachable_from(heap.g(), buffered(heap), x));
        }
    } else if i == 1 && rebuffered(heap, h1, gs) {
        reveal(rebuffered);
        assert forall|x: usize| #[trigger] gs.contains(x) implies !heap.allocated@[x as int] by {
            assert(buffered(heap).contains(x));
        }
    } else {
        assert(forall|x: usize| #[trigger] gs.contains(x) ==> !heap.allocated@[x as int]);
    }
}

/// An execution of the collector moves the collection on: from the start to the garbage
/// finalized and buffered again, and from there to the garbage deallocated.
proof fn lemma_progress_step<T>(before: &CcHeap<T>, after: &CcHeap<T>, h1: &CcHeap<T>, gs: Set<usize>, i: int)
    requires
        collect_progress(before, h1, gs, i),
        gs == garbage_set(h1),
        h1.inv(Seq::empty()),
        collect_frame(before, h1),
        collect_frame(after, before),
        (forall|x: usize| #[trigger] garbage_set(before).contains(x) ==> before.cm(x).finalized)
            ==> forall|x: usize| x < before.n() ==> #[trigger] after.allocated@[x as int] == (
            before.allocated@[x as int] && !garbage_set(before).contains(x)),
        (exists|x: usize| #[trigger] garbage_set(before).contains(x) && !before.cm(x).finalized) ==> {
            &&& buffered(after) == garbage_set(before)
            &&& after.allocated@ == before.allocated@
            &&& after.children@ == before.children@
            &&& forall|x: usize| #[trigger] garbage_set(before).contains(x) ==> after.cm(x).finalized
        },
    ensures
        collect_progress(after, h1, gs, i + 1),
{
    reveal(rebuffered);
    if i == 0 && *before == *h1 {
        if exists|x: usize| #[trigger] garbage_set(before).contains(x) && !before.cm(x).finalized {
            assert(after.g() =~= h1.g());
            lemma_garbage_stable(h1, after);
        } else {
            assert forall|x: usize| #[trigger] gs.contains(x) implies !after.allocated@[x as int] by {
                assert(garbage_set(before).contains(x));
            }
        }
    } else if i == 1 && rebuffered(before, h1, gs) {
        assert forall|x: usize| #[trigger] gs.contains(x) implies !after.allocated@[x as int] by {
            assert(garbage_set(before).contains(x));
        }
    } else {
        assert forall|x: usize| #[trigger] gs.contains(x) implies !after.allocated@[x as int] by {
            assert(!before.allocated@[x as int]);
            if after.allocated@[x as int] {
                assert(x < after.n());
            }
        }
    }
}

/// Runs the collector: at most ten executions, stopping as soon as nothing is buffered.
fn collect<T: Finalize>(heap: &mut CcHeap<T>)
    requires
        old(heap).wf(),
    ensures
        collected(final(heap), old(heap)),
        final(heap).state.executions_counter == next_count(old(heap).state.executions_counter),
        forall|x: usize| #[trigger] garbage_set(old(heap)).contains(x) ==> !final(heap).is_live(x),
        forall|x: usize| #[trigger] final(heap).is_live(x) && old(heap).cm(x).finalized ==> final(heap).cm(x).finalized,
        forall|x: usize| #[trigger] rooted(old(heap), x) ==> final(heap).is_live(x) && final(heap).cm(x).finalized
            == old(heap).cm(x).finalized,
        forall|x: usize| #[trigger] final(heap).finalizer_calls@(x) == finalizer_calls_after(final(heap), old(heap), x),
{
    let ghost h0 = *heap;
    heap.state.set_collecting(true);
    heap.state.increment_executions_count();
    let ghost h1 = *heap;
    let ghost gs = garbage_set(&h1);
    proof {
        assert forall|x: usize| x < heap.n() && heap.allocated@[x as int] implies {
            &&& (#[trigger] heap.markers@[x as int])@.mark == Mark::NonMarked || heap.markers@[x as int]@.mark
                == Mark::PossibleCycles
            &&& heap.elems@[x as int] is Some
        } by {
            assert(h0.markers@[x as int]@.mark == heap.markers@[x as int]@.mark);
        }
    }
    let mut i: usize = 0;
    proof {
        assert forall|x: usize| #[trigger] rooted(&h1, x) implies heap.allocated@[x as int] by {
            lemma_rooted_allocated(&h1, x);
        }
    }
    while i < 10
        invariant
            collecting_wf(heap),
            collect_frame(heap, &h1),
            h1.inv(Seq::empty()),
            gs == garbage_set(&h1),
            collect_progress(heap, &h1, gs, i as int),
            forall|x: usize| x < h1.n() && #[trigger] heap.allocated@[x as int] && h1.cm(x).finalized ==> heap.cm(x).finalized,
            forall|x: usize| #[trigger] rooted(&h1, x) ==> rooted(heap, x) && heap.allocated@[x as int]
                && heap.cm(x).finalized == h1.cm(x).finalized,
            forall|x: usize| #[trigger] heap.finalizer_calls@(x) == finalizer_calls_after(heap, &h1, x),
        ensures
            collecting_wf(heap),
            collect_frame(heap, &h1),
            forall|x: usize| #[trigger] gs.contains(x) ==> !heap.allocated@[x as int],
            forall|x: usize| x < h1.n() && #[trigger] heap.allocated@[x as int] && h1.cm(x).finalized ==> heap.cm(x).finalized,
            forall|x: usize| #[trigger] rooted(&h1, x) ==> rooted(heap, x) && heap.allocated@[x as int]
                && heap.cm(x).finalized == h1.cm(x).finalized,
            forall|x: usize| #[trigger] heap.finalizer_calls@(x) == finalizer_calls_after(heap, &h1, x),
        decreases 10 - i,
    {
        if heap.possible_cycles.is_empty(&heap.links) {
            proof {
                lemma_progress_nothing_buffered(heap, &h1, gs, i as int);
            }
            break;
        }
        let ghost before = *heap;
        __collect(heap);
        proof {
            lemma_progress_step(&before, heap, &h1, gs, i as int);
            lemma_collect_step_rooted(&before, heap);
            assert forall|x: usize| x < h1.n() && #[trigger] heap.allocated@[x as int] && h1.cm(x).finalized
                implies heap.cm(x).finalized by {
                assert(before.allocated@[x as int]);
                if garbage_set(&before).contains(x) {
                    if forall|y: usize| #[trigger] garbage_set(&before).contains(y) ==> before.cm(y).finalized {
                        assert(!heap.allocated@[x as int]);
                    }
                }
            }
            assert forall|x: usize| #[trigger] heap.is_live(x) implies before.is_live(x) && (before.cm(x).finalized
                ==> heap.cm(x).finalized) by {
                if garbage_set(&before).contains(x) {
                    if forall|y: usize| #[trigger] garbage_set(&before).contains(y) ==> before.cm(y).finalized {
                        assert(!heap.allocated@[x as int]);
                    }
                }
            }
            assert forall|x: usize| #[trigger] before.is_live(x) implies h1.is_live(x) && (h1.cm(x).finalized
                ==> before.cm(x).finalized) by {}
            lemma_calls_after_trans(&h1, &before, heap);
        }
        i = i + 1;
    }
    let ghost hz = *heap;
    heap.state.set_collecting(false);
    proof {
        assert forall|x: usize| x < heap.n() && heap.allocated@[x as int] implies {
            &&& (#[trigger] heap.markers@[x as int])@.mark == Mark::NonMarked || heap.markers@[x as int]@.mark
                == Mark::PossibleCycles
            &&& heap.elems@[x as int] is Some
        } by {}
        assert(h1.g() =~= h0.g());
        assert(h1.wg() == h0.wg());
        assert(heap.wg() == hz.wg());
        assert forall|t: usize| t < h0.n() implies #[trigger] heap.weak_held(t) == h0.weak_held(t) by {
            assert(hz.weak_held(t) == h1.weak_held(t));
            assert(h1.weak_held(t) == h0.weak_held(t));
        }
        assert(buffered(&h1) == buffered(&h0));
        assert(handles(&h1) =~= handles(&h0));
        assert forall|x: usize| #[trigger] rooted(&h0, x) implies heap.is_live(x) && heap.cm(x).finalized
            == h0.cm(x).finalized by {
            assert(rooted(&h1, x));
        }
        assert forall|x: usize| #[trigger] reach_buffered(&h0, x) == reach_buffered(&h1, x) by {}
        assert(region_roots(&h1) =~= region_roots(&h0));
        assert(garbage_set(&h1) =~= garbage_set(&h0));
        assert forall|x: usize| #[trigger] heap.finalizer_calls@(x) == finalizer_calls_after(heap, &h0, x) by {
            assert(hz.finalizer_calls@(x) == finalizer_calls_after(&hz, &h1, x));
        }
    }
}

/// Immediately executes the cycle collection algorithm and collects garbage cycles.
///
/// Calling this function during a collection won't start a new collection: the heap is
/// left as it is.
pub fn collect_cycles<T: Finalize>(heap: &mut CcHeap<T>)
    requires
        old(heap).state.collecting || old(heap).wf(),
    ensures
        old(heap).state.collecting ==> *final(heap) == *old(heap),
        !old(heap).state.collecting ==> {
            &&& collected(final(heap), old(heap))
            &&& final(heap).state.executions_counter == next_count(old(heap).state.executions_counter)
            &&& forall|x: usize| #[trigger] garbage_set(old(heap)).contains(x) ==> !final(heap).is_live(x)
            &&& forall|x: usize| #[trigger] unreachable_buffered(old(heap), x) ==> !final(heap).is_live(x)
            &&& forall|x: usize| #[trigger] final(heap).is_live(x) && old(heap).cm(x).finalized
                ==> final(heap).cm(x).finalized
            &&& forall|x: usize| #[trigger] rooted(old(heap), x) ==> final(heap).is_live(x) && final(heap).cm(x).finalized
                == old(heap).cm(x).finalized && final(heap).elems@[x as int] == old(heap).elems@[x as int]
            &&& forall|x: usize| #[trigger] final(heap).finalizer_calls@(x) == finalizer_calls_after(final(heap), old(heap), x)
            &&& forall|x: usize| #[trigger] garbage_set(old(heap)).contains(x) ==> final(heap).finalizer_calls@(x)
                == old(heap).finalizer_calls@(x) + if old(heap).cm(x).finalized {
                0nat
            } else {
                1nat
            }
        },
{
    if heap.state.is_collecting() {
        return;
    }
    collect(heap);
    proof {
        assert forall|x: usize| #[trigger] garbage_set(old(heap)).contains(x) implies heap.finalizer_calls@(x)
            == old(heap).finalizer_calls@(x) + if old(heap).cm(x).finalized {
            0nat
        } else {
            1nat
        } by {
            lemma_reach_buffered_allocated(old(heap), x);
            assert(heap.finalizer_calls@(x) == finalizer_calls_after(heap, old(heap), x));
        }
        assert forall|x: usize| #[trigger] unreachable_buffered(old(heap), x) implies !heap.is_live(x) by {
            lemma_unreachable_buffered_is_garbage(old(heap), x);
        }
    }
}

/// Starts a collection when the rule of automatic collection asks for one: `auto_collect`
/// is set, and the allocated bytes exceed `bytes_threshold` or the buffered allocations
/// exceed `buffered_threshold`. Returns whether a collection ran.
pub fn trigger_collection<T: Finalize>(
    heap: &mut CcHeap<T>,
    auto_collect: bool,
    bytes_threshold: usize,
    buffered_threshold: Option<usize>,
) -> (ran: bool)
    requires
        old(heap).wf(),
    ensures
        ran == spec_should_collect(
            auto_collect,
            old(heap).state.allocated_bytes as nat,
            bytes_threshold as nat,
            buffered_threshold,
            old(heap).possible_cycles.seq().len(),
        ),
        ran ==> {
            &&& collected(final(heap), old(heap))
            &&& final(heap).state.executions_counter == next_count(old(heap).state.executions_counter)
            &&& forall|x: usize| #[trigger] garbage_set(old(heap)).contains(x) ==> !final(heap).is_live(x)
            &&& forall|x: usize| #[trigger] final(heap).finalizer_calls@(x) == finalizer_calls_after(final(heap), old(heap), x)
        },
        !ran ==> *final(heap) == *old(heap),
{
    let buffered = heap.possible_cycles.size(&heap.links);
    if should_collect(auto_collect, heap.state.allocated_bytes(), bytes_threshold, buffered_threshold, buffered) {
        collect_cycles(heap);
        true
    } else {
        false
    }
}

/// Creates a new allocation holding `t`, whose element owns the handles `children`, after
/// starting a collection if the rule of automatic collection asks for one (see
/// [`trigger_collection`]); the handles in `children` are not affected by it.
pub fn new_with_collection<T: Finalize>(
    heap: &mut CcHeap<T>,
    t: T,
    children: Vec<Cc>,
    auto_collect: bool,
    bytes_threshold: usize,
    buffered_threshold: Option<usize>,
) -> (cc: Cc)
    requires
        old(heap).wf(),
        forall|i: int| 0 <= i < children@.len() ==> #[trigger] old(heap).is_live(children@[i]@),
        forall|x: usize| x < old(heap).n() ==> count(indices(children@), x) <= #[trigger] old(heap).ext@[x as int],
        old(heap).state.allocated_bytes + old(heap).box_size <= usize::MAX,
        old(heap).n() < usize::MAX,
    ensures
        final(heap).wf(),
        final(heap).valid(&cc),
        cc@ == old(heap).n(),
        final(heap).n() == old(heap).n() + 1,
        final(heap).elems@[cc@ as int] == Some(t),
        final(heap).children@[cc@ as int]@ == indices(children@),
        final(heap).cm(cc@).counter == 1,
        !final(heap).cm(cc@).finalized,
        final(heap).finalizer_calls@(cc@) == 0,
        final(heap).state.executions_counter == if spec_should_collect(
            auto_collect,
            old(heap).state.allocated_bytes as nat,
            bytes_threshold as nat,
            buffered_threshold,
            old(heap).possible_cycles.seq().len(),
        ) {
            next_count(old(heap).state.executions_counter)
        } else {
            old(heap).state.executions_counter
        },
        forall|x: usize| #[trigger] garbage_set(old(heap)).contains(x) && spec_should_collect(
            auto_collect,
            old(heap).state.allocated_bytes as nat,
            bytes_threshold as nat,
            buffered_threshold,
            old(heap).possible_cycles.seq().len(),
        ) ==> !final(heap).is_live(x),
{
    let ghost h0 = *heap;
    let ran = trigger_collection(heap, auto_collect, bytes_threshold, buffered_threshold);
    proof {
        if ran {
            assert forall|i: int| 0 <= i < children@.len() implies #[trigger] heap.is_live(children@[i]@) by {
                let c = children@[i]@;
                crate::graph::lemma_count_contains(indices(children@), c);
                assert(indices(children@)[i] == c);
                assert(indices(children@).contains(c));
                assert(h0.is_live(c));
                let path = seq![c];
                assert(path[0] == c);
                assert(h0.ext@[c as int] >= count(indices(children@), c));
                assert(crate::graph::is_path(h0.g(), path));
                law_collect_keeps_reachable(heap, &h0, path);
                assert(heap.is_live(path[0]));
            }
            crate::cc::law_allocated_bytes(&h0);
            crate::cc::law_allocated_bytes(heap);
            crate::cc::lemma_num_allocated_le(heap, &h0);
        }
    }
    Cc::new(heap, t, children)
}

/// The buffered-objects count is the number of allocations buffered for the next
/// collection: those allocated and marked as possible members of a garbage cycle.
pub proof fn law_buffered_count<T>(h: &CcHeap<T>)
    requires
        h.wf(),
    ensures
        h.possible_cycles.seq().len() == Set::new(
            |x: usize| x < h.n() && h.allocated@[x as int] && h.cm(x).mark == Mark::PossibleCycles,
        ).len(),
{
    let s = h.possible_cycles.seq();
    let b = Set::new(|x: usize| x < h.n() && h.allocated@[x as int] && h.cm(x).mark == Mark::PossibleCycles);
    assert(s.no_duplicates());
    s.unique_seq_to_set();
    assert forall|x: usize| s.to_set().contains(x) <==> b.contains(x) by {
        if s.contains(x) {
            let k = s.index_of(x);
            assert(s[k] < h.n());
        }
    }
    assert(s.to_set() =~= b);
}

/// Between two states of a heap, the recorded bytes change by the size of an allocation
/// for each allocation made or deallocated.
pub proof fn law_allocated_bytes_change<T>(old: &CcHeap<T>, new: &CcHeap<T>)
    requires
        old.wf(),
        new.wf(),
        new.box_size == old.box_size,
    ensures
        new.state.allocated_bytes - old.state.allocated_bytes == old.box_size * (new.num_allocated()
            - old.num_allocated()),
{
    crate::cc::law_allocated_bytes(old);
    crate::cc::law_allocated_bytes(new);
    let a = new.num_allocated() as int;
    let b = old.num_allocated() as int;
    let z = old.box_size as int;
    assert(z * a - z * b == z * (a - b)) by (nonlinear_arith);
}

/// A collection never deallocates what a handle reaches: everything reachable from an
/// allocation that has a handle stays allocated, with the same element and references.
pub proof fn law_collect_keeps_reachable<T>(new: &CcHeap<T>, old: &CcHeap<T>, path: Seq<usize>)
    requires
        old.wf(),
        collected(new, old),
        crate::graph::is_path(old.g(), path),
        path[0] < old.n(),
        old.ext@[path[0] as int] > 0,
    ensures
        forall|i: int| 0 <= i < path.len() ==> {
            &&& new.is_live(#[trigger] path[i])
            &&& new.elems@[path[i] as int] == old.elems@[path[i] as int]
        },
{
    assert(crate::cc::survivors_unchanged(new, old));
    crate::cc::lemma_path_survives(new, old, path);
}

} // verus!
