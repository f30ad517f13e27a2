//! Intrusive lists of allocations.
//!
//! Every allocation owns one [`Link`] (its `next` and `prev` pointers, as indices into
//! the arena of links). A list only stores its first (and, for the queue, last) element;
//! the chain itself lives in the links of its elements. An allocation is in at most one
//! list at a time, and an allocation in no list has both pointers empty.
use vstd::prelude::*;
use crate::counter_marker::{CounterMarker, CounterMarkerView, Mark};

verus! {

/// The intrusive pointers of one allocation.
#[derive(Clone, Copy, Debug, PartialEq, Eq, Structural)]
pub struct Link {
    pub next: Option<usize>,
    pub prev: Option<usize>,
}

impl Link {
    /// A link belonging to no list.
    pub fn none() -> (l: Link)
        ensures
            l == Link::empty(),
    {
        Link { next: None, prev: None }
    }

    pub open spec fn empty() -> Link {
        Link { next: None, prev: None }
    }
}

/// `s` is the sequence of elements of the doubly linked chain that starts at `first`.
pub open spec fn dl_wf(links: Seq<Link>, first: Option<usize>, s: Seq<usize>) -> bool {
    &&& s.no_duplicates()
    &&& forall|i: int| 0 <= i < s.len() ==> #[trigger] s[i] < links.len()
    &&& first == (if s.len() == 0 {
        None::<usize>
    } else {
        Some(s[0])
    })
    &&& forall|i: int|
        0 <= i < s.len() ==> (#[trigger] links[s[i] as int]).next == (if i + 1 < s.len() {
            Some(s[i + 1])
        } else {
            None::<usize>
        })
    &&& forall|i: int|
        0 <= i < s.len() ==> (#[trigger] links[s[i] as int]).prev == (if i > 0 {
            Some(s[i - 1])
        } else {
            None::<usize>
        })
}

/// `s` is the sequence of elements of the singly linked chain from `first` to `last`.
pub open spec fn q_wf(links: Seq<Link>, first: Option<usize>, last: Option<usize>, s: Seq<usize>) -> bool {
    &&& s.no_duplicates()
    &&& forall|i: int| 0 <= i < s.len() ==> #[trigger] s[i] < links.len()
    &&& first == (if s.len() == 0 {
        None::<usize>
    } else {
        Some(s[0])
    })
    &&& last == (if s.len() == 0 {
        None::<usize>
    } else {
        Some(s[s.len() - 1])
    })
    &&& forall|i: int|
        0 <= i < s.len() ==> (#[trigger] links[s[i] as int]).next == (if i + 1 < s.len() {
            Some(s[i + 1])
        } else {
            None::<usize>
        })
    &&& forall|i: int| 0 <= i < s.len() ==> (#[trigger] links[s[i] as int]).prev is None
}

/// Links outside `s` (and other than `extra`) are the same in `a` and `b`.
pub open spec fn links_frame(a: Seq<Link>, b: Seq<Link>, s: Seq<usize>) -> bool {
    &&& a.len() == b.len()
    &&& forall|z: usize| z < a.len() && !s.contains(z) ==> #[trigger] b[z as int] == a[z as int]
}

/// Only the mark of `x` may differ between `a` and `b`, and it becomes `mark`.
pub open spec fn marks_set(a: Seq<CounterMarker>, b: Seq<CounterMarker>, x: usize, mark: Mark) -> bool {
    &&& a.len() == b.len()
    &&& x < a.len()
    &&& b[x as int]@ == (CounterMarkerView { mark, ..a[x as int]@ })
    &&& b[x as int].counter == a[x as int].counter
    &&& forall|z: int| 0 <= z < a.len() && z != x ==> #[trigger] b[z] == a[z]
}

/// Puts `ptr` in front of the chain.
fn dl_push_front(first: &mut Option<usize>, links: &mut Vec<Link>, ptr: usize, Ghost(s): Ghost<Seq<usize>>)
    requires
        dl_wf(old(links)@, *old(first), s),
        ptr < old(links)@.len(),
        !s.contains(ptr),
        old(links)@[ptr as int] == Link::empty(),
    ensures
        dl_wf(final(links)@, *final(first), seq![ptr] + s),
        links_frame(old(links)@, final(links)@, seq![ptr] + s),
{
    let ghost ns = seq![ptr] + s;
    if let Some(f) = *first {
        assert(s[0] == f);
        links[f] = Link { next: links[f].next, prev: Some(ptr) };
        links[ptr] = Link { next: Some(f), prev: None };
    }
    *first = Some(ptr);
    proof {
        assert forall|i: int| 0 <= i < ns.len() implies #[trigger] ns[i] < links@.len() by {
            if i > 0 {
                assert(ns[i] == s[i - 1]);
            }
        }
        assert forall|i: int| 0 <= i < ns.len() implies (#[trigger] links@[ns[i] as int]).next == (
        if i + 1 < ns.len() {
            Some(ns[i + 1])
        } else {
            None::<usize>
        }) by {
            if i > 0 {
                assert(ns[i] == s[i - 1]);
                assert(ns[i] != ptr);
            }
        }
        assert forall|i: int| 0 <= i < ns.len() implies (#[trigger] links@[ns[i] as int]).prev == (
        if i > 0 {
            Some(ns[i - 1])
        } else {
            None::<usize>
        }) by {
            if i > 0 {
                assert(ns[i] == s[i - 1]);
                assert(ns[i] != ptr);
                if i > 1 {
                    assert(s[i - 1] != s[0]);
                }
            }
        }
        assert forall|z: usize| z < old(links)@.len() && !ns.contains(z) implies #[trigger] links@[z as int]
            == old(links)@[z as int] by {
            if s.len() > 0 {
                assert(ns[1] == s[0]);
            }
            assert(ns[0] == ptr);
        }
        assert forall|a: int, b: int| 0 <= a < b < ns.len() implies ns[a] != ns[b] by {
            if a > 0 {
                assert(ns[a] == s[a - 1]);
            }
            assert(ns[b] == s[b - 1]);
        }
    }
}

/// Removes `ptr` from the chain.
fn dl_unlink(first: &mut Option<usize>, links: &mut Vec<Link>, ptr: usize, Ghost(s): Ghost<Seq<usize>>)
    requires
        dl_wf(old(links)@, *old(first), s),
        s.contains(ptr),
    ensures
        dl_wf(final(links)@, *final(first), s.remove(s.index_of(ptr))),
        final(links)@[ptr as int] == Link::empty(),
        links_frame(old(links)@, final(links)@, s),
{
    let ghost k = s.index_of(ptr);
    let ghost ns = s.remove(k);
    proof {
        assert(s[k] == ptr);
    }
    let l = links[ptr];
    match (l.next, l.prev) {
        (Some(next), Some(prev)) => {
            assert(s[k + 1] == next && s[k - 1] == prev);
            links[next] = Link { next: links[next].next, prev: Some(prev) };
            links[prev] = Link { next: Some(next), prev: links[prev].prev };
            links[ptr] = Link::none();
        },
        (Some(next), None) => {
            assert(k == 0 && s[1] == next);
            links[next] = Link { next: links[next].next, prev: None };
            *first = Some(next);
            links[ptr] = Link::none();
        },
        (None, Some(prev)) => {
            assert(k == s.len() - 1 && s[k - 1] == prev);
            links[prev] = Link { next: None, prev: links[prev].prev };
            links[ptr] = Link::none();
        },
        (None, None) => {
            assert(k == 0 && s.len() == 1);
            *first = None;
        },
    }
    proof {
        assert forall|i: int| 0 <= i < ns.len() implies (#[trigger] links@[ns[i] as int]).next == (
        if i + 1 < ns.len() {
            Some(ns[i + 1])
        } else {
            None::<usize>
        }) by {
            if i < k {
                assert(ns[i] == s[i]);
                if i + 1 < k {
                    assert(ns[i + 1] == s[i + 1]);
                } else {
                    assert(i + 1 < ns.len() ==> ns[i + 1] == s[i + 2]);
                }
            } else {
                assert(ns[i] == s[i + 1]);
                assert(i + 1 < ns.len() ==> ns[i + 1] == s[i + 2]);
            }
        }
        assert forall|i: int| 0 <= i < ns.len() implies (#[trigger] links@[ns[i] as int]).prev == (
        if i > 0 {
            Some(ns[i - 1])
        } else {
            None::<usize>
        }) by {
            if i < k {
                assert(ns[i] == s[i]);
                if i > 0 {
                    assert(ns[i - 1] == s[i - 1]);
                }
            } else {
                assert(ns[i] == s[i + 1]);
                if i > k {
                    assert(ns[i - 1] == s[i]);
                } else if i > 0 {
                    assert(ns[i - 1] == s[i - 1]);
                }
            }
        }
        assert forall|i: int| 0 <= i < ns.len() implies #[trigger] ns[i] < links@.len() by {
            if i < k {
                assert(ns[i] == s[i]);
            } else {
                assert(ns[i] == s[i + 1]);
            }
        }
        if ns.len() > 0 {
            if k == 0 {
                assert(ns[0] == s[1]);
            } else {
                assert(ns[0] == s[0]);
            }
        }
        assert(ns.no_duplicates()) by {
            assert forall|a: int, b: int| 0 <= a < b < ns.len() implies ns[a] != ns[b] by {
                let a2 = if a < k {
                    a
                } else {
                    a + 1
                };
                let b2 = if b < k {
                    b
                } else {
                    b + 1
                };
                assert(ns[a] == s[a2] && ns[b] == s[b2]);
            }
        }
        assert forall|z: usize| z < old(links)@.len() && !s.contains(z) implies #[trigger] links@[z as int]
            == old(links)@[z as int] by {
            if k + 1 < s.len() {
                assert(s[k + 1] != z);
            }
            if k > 0 {
                assert(s[k - 1] != z);
            }
        }
    }
}

/// Removes the first element of the chain.
fn dl_unlink_first(first: &mut Option<usize>, links: &mut Vec<Link>, Ghost(s): Ghost<Seq<usize>>) -> (r:
    Option<usize>)
    requires
        dl_wf(old(links)@, *old(first), s),
    ensures
        s.len() == 0 ==> r is None && *final(first) == *old(first) && final(links)@ == old(links)@,
        s.len() > 0 ==> r == Some(s[0]) && dl_wf(final(links)@, *final(first), s.drop_first())
            && final(links)@[s[0] as int] == Link::empty(),
        links_frame(old(links)@, final(links)@, s),
{
    match *first {
        Some(f) => {
            proof {
                assert(s.contains(f));
                assert(s.index_of(f) == 0) by {
                    assert(s[0] == f);
                }
                assert(s.remove(0) =~= s.drop_first());
            }
            dl_unlink(first, links, f, Ghost(s));
            Some(f)
        },
        None => None,
    }
}

/// Collects the elements of the chain by following the `next` pointers.
fn dl_collect(first: Option<usize>, links: &Vec<Link>, Ghost(s): Ghost<Seq<usize>>) -> (v: Vec<usize>)
    requires
        dl_wf(links@, first, s),
    ensures
        v@ == s,
{
    let mut v: Vec<usize> = Vec::new();
    let mut cur = first;
    while cur.is_some()
        invariant
            dl_wf(links@, first, s),
            v@.len() <= s.len(),
            v@ == s.take(v@.len() as int),
            cur == (if v@.len() < s.len() {
                Some(s[v@.len() as int])
            } else {
                None::<usize>
            }),
        decreases s.len() - v@.len(),
    {
        let c = cur.unwrap();
        let ghost i = v@.len() as int;
        assert(links@[s[i] as int].next == (if i + 1 < s.len() {
            Some(s[i + 1])
        } else {
            None::<usize>
        }));
        v.push(c);
        cur = links[c].next;
        assert(v@ =~= s.take(v@.len() as int));
    }
    assert(v@ =~= s);
    v
}

/// A list of allocations.
pub struct LinkedList {
    pub first: Option<usize>,
    pub elems: Ghost<Seq<usize>>,
}

impl LinkedList {
    /// The elements of the list, from the first.
    pub open spec fn seq(&self) -> Seq<usize> {
        self.elems@
    }

    pub open spec fn wf(&self, links: Seq<Link>) -> bool {
        dl_wf(links, self.first, self.elems@)
    }

    /// An empty list.
    pub fn new() -> (l: LinkedList)
        ensures
            l.seq() == Seq::<usize>::empty(),
            forall|links: Seq<Link>| l.wf(links),
    {
        LinkedList { first: None, elems: Ghost(Seq::empty()) }
    }

    /// The first element, if any.
    pub fn first(&self, links: &Vec<Link>) -> (r: Option<usize>)
        requires
            self.wf(links@),
        ensures
            r == (if self.seq().len() == 0 {
                None::<usize>
            } else {
                Some(self.seq()[0])
            }),
    {
        self.first
    }

    /// Puts `ptr` in front of the list.
    pub fn add(&mut self, links: &mut Vec<Link>, ptr: usize)
        requires
            old(self).wf(old(links)@),
            ptr < old(links)@.len(),
            !old(self).seq().contains(ptr),
            old(links)@[ptr as int] == Link::empty(),
        ensures
            final(self).wf(final(links)@),
            final(self).seq() == seq![ptr] + old(self).seq(),
            links_frame(old(links)@, final(links)@, final(self).seq()),
    {
        dl_push_front(&mut self.first, links, ptr, self.elems);
        self.elems = Ghost(seq![ptr] + self.elems@);
    }

    /// Removes `ptr`, which must be in the list.
    pub fn remove(&mut self, links: &mut Vec<Link>, ptr: usize)
        requires
            old(self).wf(old(links)@),
            old(self).seq().contains(ptr),
        ensures
            final(self).wf(final(links)@),
            final(self).seq() == old(self).seq().remove(old(self).seq().index_of(ptr)),
            final(links)@[ptr as int] == Link::empty(),
            links_frame(old(links)@, final(links)@, old(self).seq()),
    {
        dl_unlink(&mut self.first, links, ptr, self.elems);
        self.elems = Ghost(self.elems@.remove(self.elems@.index_of(ptr)));
    }

    /// Removes the first element and marks it as not marked.
    pub fn remove_first(&mut self, links: &mut Vec<Link>, markers: &mut Vec<CounterMarker>) -> (r: Option<
        usize,
    >)
        requires
            old(self).wf(old(links)@),
            forall|i: int| 0 <= i < old(self).seq().len() ==> #[trigger] old(self).seq()[i] < old(
                markers,
            )@.len(),
        ensures
            final(self).wf(final(links)@),
            links_frame(old(links)@, final(links)@, old(self).seq()),
            old(self).seq().len() == 0 ==> r is None && *final(self) == *old(self)
                && final(markers)@ == old(markers)@ && final(links)@ == old(links)@,
            old(self).seq().len() > 0 ==> r == Some(old(self).seq()[0]) && final(self).seq() == old(
                self,
            ).seq().drop_first() && final(links)@[old(self).seq()[0] as int] == Link::empty()
                && marks_set(old(markers)@, final(markers)@, old(self).seq()[0], Mark::NonMarked),
    {
        let r = dl_unlink_first(&mut self.first, links, self.elems);
        if let Some(f) = r {
            self.elems = Ghost(self.elems@.drop_first());
            markers[f].mark(Mark::NonMarked);
        }
        r
    }

    /// `true` when the list has no element.
    pub fn is_empty(&self, links: &Vec<Link>) -> (b: bool)
        requires
            self.wf(links@),
        ensures
            b == (self.seq().len() == 0),
    {
        self.first.is_none()
    }

    /// The elements of the list, from the first.
    pub fn iter(&self, links: &Vec<Link>) -> (v: Vec<usize>)
        requires
            self.wf(links@),
        ensures
            v@ == self.seq(),
    {
        dl_collect(self.first, links, self.elems)
    }
}

/// The list of allocations buffered for the next collection, with its size.
pub struct PossibleCycles {
    pub first: Option<usize>,
    pub size: usize,
    pub elems: Ghost<Seq<usize>>,
}

impl PossibleCycles {
    pub open spec fn seq(&self) -> Seq<usize> {
        self.elems@
    }

    pub open spec fn wf(&self, links: Seq<Link>) -> bool {
        &&& dl_wf(links, self.first, self.elems@)
        &&& self.size == self.elems@.len()
    }

    /// An empty list.
    pub fn new() -> (l: PossibleCycles)
        ensures
            l.seq() == Seq::<usize>::empty(),
            forall|links: Seq<Link>| l.wf(links),
    {
        PossibleCycles { first: None, size: 0, elems: Ghost(Seq::empty()) }
    }

    /// Empties the list without touching the links of its elements.
    pub fn reset(&mut self)
        ensures
            final(self).seq() == Seq::<usize>::empty(),
            forall|links: Seq<Link>| final(self).wf(links),
    {
        self.first = None;
        self.size = 0;
        self.elems = Ghost(Seq::empty());
    }

    /// The number of elements.
    pub fn size(&self, links: &Vec<Link>) -> (n: usize)
        requires
            self.wf(links@),
        ensures
            n == self.seq().len(),
    {
        self.size
    }

    /// The first element, if any.
    pub fn first(&self, links: &Vec<Link>) -> (r: Option<usize>)
        requires
            self.wf(links@),
        ensures
            r == (if self.seq().len() == 0 {
                None::<usize>
            } else {
                Some(self.seq()[0])
            }),
    {
        self.first
    }

    /// Puts `ptr` in front of the list.
    pub fn add(&mut self, links: &mut Vec<Link>, ptr: usize)
        requires
            old(self).wf(old(links)@),
            ptr < old(links)@.len(),
            !old(self).seq().contains(ptr),
            old(links)@[ptr as int] == Link::empty(),
        ensures
            final(self).wf(final(links)@),
            final(self).seq() == seq![ptr] + old(self).seq(),
            links_frame(old(links)@, final(links)@, final(self).seq()),
    {
        let n = links.len();
        proof {
            lemma_no_dup_len_bound(self.elems@, n as nat, ptr);
        }
        self.size = self.size + 1;
        dl_push_front(&mut self.first, links, ptr, self.elems);
        self.elems = Ghost(seq![ptr] + self.elems@);
    }

    /// Removes `ptr`, which must be in the list.
    pub fn remove(&mut self, links: &mut Vec<Link>, ptr: usize)
        requires
            old(self).wf(old(links)@),
            old(self).seq().contains(ptr),
        ensures
            final(self).wf(final(links)@),
            final(self).seq() == old(self).seq().remove(old(self).seq().index_of(ptr)),
            final(links)@[ptr as int] == Link::empty(),
            links_frame(old(links)@, final(links)@, old(self).seq()),
    {
        self.size = self.size - 1;
        dl_unlink(&mut self.first, links, ptr, self.elems);
        self.elems = Ghost(self.elems@.remove(self.elems@.index_of(ptr)));
    }

    /// Removes the first element and marks it as not marked.
    pub fn remove_first(&mut self, links: &mut Vec<Link>, markers: &mut Vec<CounterMarker>) -> (r: Option<
        usize,
    >)
        requires
            old(self).wf(old(links)@),
            forall|i: int| 0 <= i < old(self).seq().len() ==> #[trigger] old(self).seq()[i] < old(
                markers,
            )@.len(),
        ensures
            final(self).wf(final(links)@),
            links_frame(old(links)@, final(links)@, old(self).seq()),
            old(self).seq().len() == 0 ==> r is None && *final(self) == *old(self)
                && final(markers)@ == old(markers)@ && final(links)@ == old(links)@,
            old(self).seq().len() > 0 ==> r == Some(old(self).seq()[0]) && final(self).seq() == old(
                self,
            ).seq().drop_first() && final(links)@[old(self).seq()[0] as int] == Link::empty()
                && marks_set(old(markers)@, final(markers)@, old(self).seq()[0], Mark::NonMarked),
    {
        let r = dl_unlink_first(&mut self.first, links, self.elems);
        if let Some(f) = r {
            self.size = self.size - 1;
            self.elems = Ghost(self.elems@.drop_first());
            markers[f].mark(Mark::NonMarked);
        }
        r
    }

    /// `true` when the list has no element.
    pub fn is_empty(&self, links: &Vec<Link>) -> (b: bool)
        requires
            self.wf(links@),
        ensures
            b == (self.seq().len() == 0),
    {
        self.first.is_none()
    }

    /// The elements of the list, from the first.
    pub fn iter(&self, links: &Vec<Link>) -> (v: Vec<usize>)
        requires
            self.wf(links@),
        ensures
            v@ == self.seq(),
    {
        dl_collect(self.first, links, self.elems)
    }
}

impl PossibleCycles {
    /// Exchanges the elements of this list with those of `to_swap`, whose size is `to_swap_size`.
    pub fn swap_list(&mut self, to_swap: &mut LinkedList, to_swap_size: usize, links: &Vec<Link>)
        requires
            old(self).wf(links@),
            old(to_swap).wf(links@),
            to_swap_size == old(to_swap).seq().len(),
        ensures
            final(self).wf(links@),
            final(to_swap).wf(links@),
            final(self).seq() == old(to_swap).seq(),
            final(to_swap).seq() == old(self).seq(),
    {
        self.size = to_swap_size;
        let f = self.first;
        self.first = to_swap.first;
        to_swap.first = f;
        let e = self.elems;
        self.elems = to_swap.elems;
        to_swap.elems = e;
    }

    /// Marks every element of this list with `mark` (resetting its tracing counter), then
    /// appends the elements of `to_append`, whose size is `to_append_size`.
    pub fn mark_self_and_append(
        &mut self,
        links: &mut Vec<Link>,
        markers: &mut Vec<CounterMarker>,
        mark: Mark,
        to_append: LinkedList,
        to_append_size: usize,
    )
        requires
            old(self).wf(old(links)@),
            to_append.wf(old(links)@),
            to_append_size == to_append.seq().len(),
            old(self).seq().len() + to_append_size <= usize::MAX,
            forall|x: usize| old(self).seq().contains(x) ==> !to_append.seq().contains(x),
            old(markers)@.len() == old(links)@.len(),
        ensures
            final(self).wf(final(links)@),
            final(self).seq() == old(self).seq() + to_append.seq(),
            links_frame(old(links)@, final(links)@, final(self).seq()),
            final(markers)@.len() == old(markers)@.len(),
            forall|x: usize| x < old(markers)@.len() && old(self).seq().contains(x) ==> {
                &&& (#[trigger] final(markers)@[x as int])@ == (CounterMarkerView {
                    mark,
                    tracing_counter: 0,
                    ..old(markers)@[x as int]@
                })
                &&& final(markers)@[x as int].counter == old(markers)@[x as int].counter
            },
            forall|x: usize| x < old(markers)@.len() && !old(self).seq().contains(x) ==> #[trigger] final(markers)@[x as int]
                == old(markers)@[x as int],
    {
        let ghost s1 = self.elems@;
        let ghost s2 = to_append.elems@;
        let ghost m0 = markers@;
        if let Some(first) = self.first {
            let mut prev = first;
            let mut cur = Some(first);
            let ghost mut i: int = 0;
            while cur.is_some()
                invariant
                    dl_wf(links@, self.first, s1),
                    s1.len() > 0,
                    0 <= i <= s1.len(),
                    cur == (if i < s1.len() {
                        Some(s1[i])
                    } else {
                        None::<usize>
                    }),
                    prev == (if i == 0 {
                        s1[0]
                    } else {
                        s1[i - 1]
                    }),
                    markers@.len() == m0.len(),
                    forall|x: usize| x < m0.len() && s1.take(i).contains(x) ==> {
                        &&& (#[trigger] markers@[x as int])@ == (CounterMarkerView {
                            mark,
                            tracing_counter: 0,
                            ..m0[x as int]@
                        })
                        &&& markers@[x as int].counter == m0[x as int].counter
                    },
                    forall|x: usize| x < m0.len() && !s1.take(i).contains(x) ==> #[trigger] markers@[x as int] == m0[x as int],
                    forall|k: int| 0 <= k < s1.len() ==> #[trigger] s1[k] < m0.len(),
                decreases s1.len() - i,
            {
                let elem = cur.unwrap();
                assert(links@[s1[i] as int].next == (if i + 1 < s1.len() {
                    Some(s1[i + 1])
                } else {
                    None::<usize>
                }));
                let ghost before = markers@;
                markers[elem].reset_tracing_counter();
                markers[elem].mark(mark);
                proof {
                    assert(s1.take(i + 1) == s1.take(i).push(elem));
                    assert forall|x: usize| x < m0.len() && s1.take(i + 1).contains(x) implies {
                        &&& (#[trigger] markers@[x as int])@ == (CounterMarkerView {
                            mark,
                            tracing_counter: 0,
                            ..m0[x as int]@
                        })
                        &&& markers@[x as int].counter == m0[x as int].counter
                    } by {
                        if x != elem {
                            assert(s1.take(i).contains(x)) by {
                                let j = s1.take(i + 1).index_of(x);
                                assert(s1.take(i)[j] == x);
                            }
                        } else {
                            if s1.take(i).contains(x) {
                                let j = s1.take(i).index_of(x);
                                assert(s1[j] == s1[i]);
                            }
                        }
                    }
                    assert forall|x: usize| x < m0.len() && !s1.take(i + 1).contains(x) implies #[trigger] markers@[x as int]
                        == m0[x as int] by {
                        assert(x != elem) by {
                            assert(s1.take(i + 1)[i] == elem);
                        }
                        if s1.take(i).contains(x) {
                            let j = s1.take(i).index_of(x);
                            assert(s1.take(i + 1)[j] == x);
                        }
                    }
                }
                prev = elem;
                cur = links[elem].next;
                proof {
                    i = i + 1;
                }
            }
            proof {
                assert(s1.take(s1.len() as int) =~= s1);
                assert(prev == s1[s1.len() - 1]);
            }
            let ghost l0 = links@;
            if let Some(ptr) = to_append.first {
                proof {
                    assert(s2[0] == ptr);
                    assert(s1.contains(prev));
                    assert(!s2.contains(prev));
                    assert(s2.contains(ptr));
                }
                links[prev] = Link { next: to_append.first, prev: links[prev].prev };
                links[ptr] = Link { next: links[ptr].next, prev: Some(prev) };
            }
            proof {
                let ns = s1 + s2;
                assert forall|k: int| 0 <= k < ns.len() implies #[trigger] ns[k] < links@.len() by {
                    if k < s1.len() {
                        assert(ns[k] == s1[k]);
                    } else {
                        assert(ns[k] == s2[k - s1.len()]);
                    }
                }
                assert forall|k: int| 0 <= k < ns.len() implies (#[trigger] links@[ns[k] as int]).next == (if k + 1 < ns.len() {
                    Some(ns[k + 1])
                } else {
                    None::<usize>
                }) by {
                    if k < s1.len() {
                        assert(ns[k] == s1[k]);
                        if k + 1 < s1.len() {
                            assert(ns[k + 1] == s1[k + 1]);
                            assert(s1[k] != prev);
                            if s2.len() > 0 {
                                assert(s1[k] != s2[0]) by {
                                    assert(s2.contains(s2[0]));
                                }
                            }
                        } else if s2.len() > 0 {
                            assert(ns[k + 1] == s2[0]);
                        }
                    } else {
                        let k2 = k - s1.len();
                        assert(ns[k] == s2[k2]);
                        if k + 1 < ns.len() {
                            assert(ns[k + 1] == s2[k2 + 1]);
                        }
                        assert(s2[k2] != prev) by {
                            assert(s2.contains(s2[k2]));
                        }
                    }
                }
                assert forall|k: int| 0 <= k < ns.len() implies (#[trigger] links@[ns[k] as int]).prev == (if k > 0 {
                    Some(ns[k - 1])
                } else {
                    None::<usize>
                }) by {
                    if k < s1.len() {
                        assert(ns[k] == s1[k]);
                        if k > 0 {
                            assert(ns[k - 1] == s1[k - 1]);
                        }
                        if s2.len() > 0 {
                            assert(s1[k] != s2[0]) by {
                                assert(s2.contains(s2[0]));
                            }
                        }
                    } else {
                        let k2 = k - s1.len();
                        assert(ns[k] == s2[k2]);
                        if k2 > 0 {
                            assert(ns[k - 1] == s2[k2 - 1]);
                            assert(s2[k2] != prev) by {
                                assert(s2.contains(s2[k2]));
                            }
                            assert(s2[k2] != s2[0]);
                        } else {
                            assert(ns[k - 1] == s1[s1.len() - 1]);
                        }
                    }
                }
                assert(ns.no_duplicates()) by {
                    assert forall|a: int, b: int| 0 <= a < b < ns.len() implies ns[a] != ns[b] by {
                        if b < s1.len() {
                            assert(ns[a] == s1[a] && ns[b] == s1[b]);
                        } else if a >= s1.len() {
                            assert(ns[a] == s2[a - s1.len()] && ns[b] == s2[b - s1.len()]);
                        } else {
                            assert(ns[a] == s1[a] && ns[b] == s2[b - s1.len()]);
                            assert(s1.contains(s1[a]));
                            assert(s2.contains(s2[b - s1.len()]));
                        }
                    }
                }
                assert(ns[0] == s1[0]);
                assert forall|z: usize| z < old(links)@.len() && !ns.contains(z) implies #[trigger] links@[z as int]
                    == old(links)@[z as int] by {
                    assert(ns[s1.len() - 1] == prev);
                    if s2.len() > 0 {
                        assert(ns[s1.len() as int] == s2[0]);
                    }
                }
            }
        } else {
            self.first = to_append.first;
            proof {
                assert(s1.len() == 0);
                assert(s1 + s2 =~= s2);
                assert forall|x: usize| x < m0.len() && !s1.contains(x) implies #[trigger] markers@[x as int] == m0[x as int] by {}
            }
        }
        self.size = self.size + to_append_size;
        self.elems = Ghost(s1 + s2);
    }
}

/// The queue of allocations waiting to be traced (linked through `next` only).
pub struct LinkedQueue {
    pub first: Option<usize>,
    pub last: Option<usize>,
    pub elems: Ghost<Seq<usize>>,
}

impl LinkedQueue {
    pub open spec fn seq(&self) -> Seq<usize> {
        self.elems@
    }

    pub open spec fn wf(&self, links: Seq<Link>) -> bool {
        q_wf(links, self.first, self.last, self.elems@)
    }

    /// An empty queue.
    pub fn new() -> (q: LinkedQueue)
        ensures
            q.seq() == Seq::<usize>::empty(),
            forall|links: Seq<Link>| q.wf(links),
    {
        LinkedQueue { first: None, last: None, elems: Ghost(Seq::empty()) }
    }

    /// Appends `ptr` at the end of the queue.
    pub fn add(&mut self, links: &mut Vec<Link>, ptr: usize)
        requires
            old(self).wf(old(links)@),
            ptr < old(links)@.len(),
            !old(self).seq().contains(ptr),
            old(links)@[ptr as int] == Link::empty(),
        ensures
            final(self).wf(final(links)@),
            final(self).seq() == old(self).seq().push(ptr),
            links_frame(old(links)@, final(links)@, final(self).seq()),
    {
        let ghost s = self.elems@;
        let ghost ns = s.push(ptr);
        if let Some(l) = self.last {
            assert(s[s.len() - 1] == l);
            links[l] = Link { next: Some(ptr), prev: None };
        } else {
            self.first = Some(ptr);
        }
        self.last = Some(ptr);
        self.elems = Ghost(ns);
        proof {
            assert forall|i: int| 0 <= i < ns.len() implies #[trigger] ns[i] < links@.len() by {
                if i < s.len() {
                    assert(ns[i] == s[i]);
                }
            }
            assert forall|i: int| 0 <= i < ns.len() implies (#[trigger] links@[ns[i] as int]).next == (
            if i + 1 < ns.len() {
                Some(ns[i + 1])
            } else {
                None::<usize>
            }) by {
                if i < s.len() {
                    assert(ns[i] == s[i]);
                    assert(s[i] != ptr);
                }
            }
            assert forall|i: int| 0 <= i < ns.len() implies (#[trigger] links@[ns[i] as int]).prev is None by {
                if i < s.len() {
                    assert(ns[i] == s[i]);
                }
            }
            assert forall|a: int, b: int| 0 <= a < b < ns.len() implies ns[a] != ns[b] by {
                assert(ns[a] == s[a]);
                if b < s.len() {
                    assert(ns[b] == s[b]);
                }
            }
            if s.len() > 0 {
                assert(ns[0] == s[0]);
            }
            assert forall|z: usize| z < old(links)@.len() && !ns.contains(z) implies #[trigger] links@[z as int]
                == old(links)@[z as int] by {
                if s.len() > 0 {
                    assert(ns[s.len() - 1] == s[s.len() - 1]);
                }
                assert(ns[s.len() as int] == ptr);
            }
        }
    }

    /// The first element, if any.
    pub fn peek(&self, links: &Vec<Link>) -> (r: Option<usize>)
        requires
            self.wf(links@),
        ensures
            r == (if self.seq().len() == 0 {
                None::<usize>
            } else {
                Some(self.seq()[0])
            }),
    {
        self.first
    }

    /// Removes the first element and marks it as not marked.
    pub fn poll(&mut self, links: &mut Vec<Link>, markers: &mut Vec<CounterMarker>) -> (r: Option<usize>)
        requires
            old(self).wf(old(links)@),
            forall|i: int| 0 <= i < old(self).seq().len() ==> #[trigger] old(self).seq()[i] < old(
                markers,
            )@.len(),
        ensures
            final(self).wf(final(links)@),
            links_frame(old(links)@, final(links)@, old(self).seq()),
            old(self).seq().len() == 0 ==> r is None && *final(self) == *old(self)
                && final(markers)@ == old(markers)@ && final(links)@ == old(links)@,
            old(self).seq().len() > 0 ==> r == Some(old(self).seq()[0]) && final(self).seq() == old(
                self,
            ).seq().drop_first() && final(links)@[old(self).seq()[0] as int] == Link::empty()
                && marks_set(old(markers)@, final(markers)@, old(self).seq()[0], Mark::NonMarked),
    {
        let ghost s = self.elems@;
        let ghost ns = s.drop_first();
        match self.first {
            Some(f) => {
                assert(s[0] == f);
                self.first = links[f].next;
                if self.first.is_none() {
                    self.last = None;
                }
                links[f] = Link::none();
                markers[f].mark(Mark::NonMarked);
                self.elems = Ghost(ns);
                proof {
                    assert forall|i: int| 0 <= i < ns.len() implies (#[trigger] links@[ns[i] as int]).next
                        == (if i + 1 < ns.len() {
                        Some(ns[i + 1])
                    } else {
                        None::<usize>
                    }) by {
                        assert(ns[i] == s[i + 1]);
                        assert(s[i + 1] != f);
                    }
                    assert forall|i: int| 0 <= i < ns.len() implies (#[trigger] links@[ns[i] as int]).prev
                        is None by {
                        assert(ns[i] == s[i + 1]);
                    }
                    assert forall|i: int| 0 <= i < ns.len() implies #[trigger] ns[i] < links@.len() by {
                        assert(ns[i] == s[i + 1]);
                    }
                    if ns.len() > 0 {
                        assert(ns[0] == s[1]);
                        assert(ns[ns.len() - 1] == s[s.len() - 1]);
                    }
                    assert forall|a: int, b: int| 0 <= a < b < ns.len() implies ns[a] != ns[b] by {
                        assert(ns[a] == s[a + 1] && ns[b] == s[b + 1]);
                    }
                }
                Some(f)
            },
            None => None,
        }
    }

    /// `true` when the queue has no element.
    pub fn is_empty(&self, links: &Vec<Link>) -> (b: bool)
        requires
            self.wf(links@),
        ensures
            b == (self.seq().len() == 0),
    {
        self.first.is_none()
    }
}

/// A chain only depends on the links of its elements.
pub proof fn lemma_dl_frame(a: Seq<Link>, b: Seq<Link>, first: Option<usize>, s: Seq<usize>)
    requires
        dl_wf(a, first, s),
        a.len() == b.len(),
        forall|i: int| 0 <= i < s.len() ==> b[#[trigger] s[i] as int] == a[s[i] as int],
    ensures
        dl_wf(b, first, s),
{
    assert forall|i: int| 0 <= i < s.len() implies (#[trigger] b[s[i] as int]).next == (if i + 1 < s.len() {
        Some(s[i + 1])
    } else {
        None::<usize>
    }) by {
        assert(b[s[i] as int] == a[s[i] as int]);
    }
    assert forall|i: int| 0 <= i < s.len() implies (#[trigger] b[s[i] as int]).prev == (if i > 0 {
        Some(s[i - 1])
    } else {
        None::<usize>
    }) by {
        assert(b[s[i] as int] == a[s[i] as int]);
    }
}

/// A queue only depends on the links of its elements.
pub proof fn lemma_q_frame(a: Seq<Link>, b: Seq<Link>, first: Option<usize>, last: Option<usize>, s: Seq<usize>)
    requires
        q_wf(a, first, last, s),
        a.len() == b.len(),
        forall|i: int| 0 <= i < s.len() ==> b[#[trigger] s[i] as int] == a[s[i] as int],
    ensures
        q_wf(b, first, last, s),
{
    assert forall|i: int| 0 <= i < s.len() implies (#[trigger] b[s[i] as int]).next == (if i + 1 < s.len() {
        Some(s[i + 1])
    } else {
        None::<usize>
    }) by {
        assert(b[s[i] as int] == a[s[i] as int]);
    }
    assert forall|i: int| 0 <= i < s.len() implies (#[trigger] b[s[i] as int]).prev is None by {
        assert(b[s[i] as int] == a[s[i] as int]);
    }
}

/// The indices below `n`.
pub open spec fn below(n: nat) -> Set<usize> {
    Set::new(|u: usize| u < n)
}

pub proof fn lemma_below(n: nat)
    requires
        n <= usize::MAX + 1,
    ensures
        below(n).finite(),
        below(n).len() == n,
    decreases n,
{
    if n == 0 {
        assert(below(n) =~= Set::empty());
    } else {
        lemma_below((n - 1) as nat);
        assert(below((n - 1) as nat).insert((n - 1) as usize) =~= below(n));
    }
}

/// A sequence without duplicates of indices below `n` that misses `x < n` is shorter than `n`.
pub proof fn lemma_no_dup_len_bound(s: Seq<usize>, n: nat, x: usize)
    requires
        s.no_duplicates(),
        forall|i: int| 0 <= i < s.len() ==> #[trigger] s[i] < n,
        x < n,
        n <= usize::MAX,
        !s.contains(x),
    ensures
        s.len() < n,
{
    lemma_below(n);
    s.unique_seq_to_set();
    assert(s.to_set().subset_of(below(n).remove(x))) by {
        assert forall|u: usize| s.to_set().contains(u) implies below(n).remove(x).contains(u) by {
            let k = s.index_of(u);
            assert(s[k] < n);
        }
    }
    vstd::set_lib::lemma_len_subset(s.to_set(), below(n).remove(x));
}

/// Adding an element that is not in a list and then removing it gives back the list.
pub proof fn law_add_then_remove(s: Seq<usize>, ptr: usize)
    requires
        !s.contains(ptr),
    ensures
        (seq![ptr] + s).remove((seq![ptr] + s).index_of(ptr)) == s,
{
    let t = seq![ptr] + s;
    assert(t[0] == ptr);
    assert(t.contains(ptr));
    let k = t.index_of(ptr);
    assert(k == 0) by {
        if k > 0 {
            assert(s[k - 1] == ptr);
        }
    }
    assert(t.remove(0) =~= s);
}

} // verus!
