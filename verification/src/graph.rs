//! Counting references between allocations.
//!
//! The heap is viewed as a graph: `g[y]` is the sequence of the allocations that the
//! element of `y` refers to (what tracing `y` reports, with multiplicity).
use vstd::prelude::*;

verus! {

/// The number of occurrences of `x` in `s`.
pub open spec fn count(s: Seq<usize>, x: usize) -> nat
    decreases s.len(),
{
    if s.len() == 0 {
        0
    } else {
        count(s.drop_last(), x) + (if s.last() == x {
            1nat
        } else {
            0nat
        })
    }
}

/// The number of references to `x` held by the elements of the allocations `y < k` with `y` in `src`.
pub open spec fn into_from(g: Seq<Seq<usize>>, src: Set<usize>, k: int, x: usize) -> nat
    decreases k,
{
    if k <= 0 {
        0
    } else {
        into_from(g, src, k - 1, x) + (if src.contains((k - 1) as usize) {
            count(g[k - 1], x)
        } else {
            0nat
        })
    }
}

/// The number of references to `x` held by all the elements.
pub open spec fn indeg(g: Seq<Seq<usize>>, x: usize) -> nat {
    into_from(g, Set::full(), g.len() as int, x)
}

/// The number of references held by the elements of the allocations `y < k`.
pub open spec fn total_edges(g: Seq<Seq<usize>>, k: int) -> nat
    decreases k,
{
    if k <= 0 {
        0
    } else {
        total_edges(g, k - 1) + g[k - 1].len()
    }
}

/// The number of `true` entries below `k`.
pub open spec fn num_true(a: Seq<bool>, k: int) -> nat
    decreases k,
{
    if k <= 0 {
        0
    } else {
        num_true(a, k - 1) + (if a[k - 1] {
            1nat
        } else {
            0nat
        })
    }
}

pub proof fn lemma_count_push(s: Seq<usize>, a: usize, x: usize)
    ensures
        count(s.push(a), x) == count(s, x) + (if a == x {
            1nat
        } else {
            0nat
        }),
{
    assert(s.push(a).drop_last() =~= s);
}

pub proof fn lemma_count_single(a: usize, x: usize)
    ensures
        count(seq![a], x) == (if a == x {
            1nat
        } else {
            0nat
        }),
{
    lemma_count_push(Seq::empty(), a, x);
    assert(Seq::<usize>::empty().push(a) =~= seq![a]);
}

pub proof fn lemma_count_concat(a: Seq<usize>, b: Seq<usize>, x: usize)
    ensures
        count(a + b, x) == count(a, x) + count(b, x),
    decreases b.len(),
{
    if b.len() == 0 {
        assert(a + b =~= a);
    } else {
        lemma_count_concat(a, b.drop_last(), x);
        assert((a + b).drop_last() =~= a + b.drop_last());
    }
}

pub proof fn lemma_count_contains(s: Seq<usize>, x: usize)
    ensures
        count(s, x) > 0 <==> s.contains(x),
    decreases s.len(),
{
    if s.len() > 0 {
        lemma_count_contains(s.drop_last(), x);
        if s.drop_last().contains(x) {
            let k = s.drop_last().index_of(x);
            assert(s[k] == x);
        }
        if s.contains(x) && s.last() != x {
            let k = s.index_of(x);
            assert(k < s.len() - 1);
            assert(s.drop_last()[k] == x);
        }
    }
}

pub proof fn lemma_count_le_len(s: Seq<usize>, x: usize)
    ensures
        count(s, x) <= s.len(),
    decreases s.len(),
{
    if s.len() > 0 {
        lemma_count_le_len(s.drop_last(), x);
    }
}

/// Replacing `g[y]` by `s` changes the count by the difference of the two counts.
pub proof fn lemma_into_update(g: Seq<Seq<usize>>, src: Set<usize>, k: int, x: usize, y: int, s: Seq<usize>)
    requires
        0 <= y < g.len(),
        k <= g.len(),
    ensures
        into_from(g.update(y, s), src, k, x) + (if y < k && src.contains(y as usize) {
            count(g[y], x)
        } else {
            0nat
        }) == into_from(g, src, k, x) + (if y < k && src.contains(y as usize) {
            count(s, x)
        } else {
            0nat
        }),
    decreases k,
{
    if k > 0 {
        lemma_into_update(g, src, k - 1, x, y, s);
    }
}

/// Adding `y` to the sources adds the references held by `y`.
pub proof fn lemma_into_insert(g: Seq<Seq<usize>>, src: Set<usize>, k: int, x: usize, y: usize)
    requires
        !src.contains(y),
        k <= usize::MAX,
    ensures
        into_from(g, src.insert(y), k, x) == into_from(g, src, k, x) + (if 0 <= y < k {
            count(g[y as int], x)
        } else {
            0nat
        }),
    decreases k,
{
    if k > 0 {
        lemma_into_insert(g, src, k - 1, x, y);
    }
}

/// More sources give at least as many references.
pub proof fn lemma_into_mono(g: Seq<Seq<usize>>, a: Set<usize>, b: Set<usize>, k: int, x: usize)
    requires
        a.subset_of(b),
    ensures
        into_from(g, a, k, x) <= into_from(g, b, k, x),
    decreases k,
{
    if k > 0 {
        lemma_into_mono(g, a, b, k - 1, x);
    }
}

/// The references from disjoint sources add up.
pub proof fn lemma_into_union(g: Seq<Seq<usize>>, a: Set<usize>, b: Set<usize>, k: int, x: usize)
    requires
        a.disjoint(b),
    ensures
        into_from(g, a.union(b), k, x) == into_from(g, a, k, x) + into_from(g, b, k, x),
    decreases k,
{
    if k > 0 {
        lemma_into_union(g, a, b, k - 1, x);
    }
}

/// Sources that agree below `k` give the same count.
pub proof fn lemma_into_ext(g: Seq<Seq<usize>>, a: Set<usize>, b: Set<usize>, k: int, x: usize)
    requires
        forall|y: usize| 0 <= y < k ==> (a.contains(y) <==> b.contains(y)),
    ensures
        into_from(g, a, k, x) == into_from(g, b, k, x),
    decreases k,
{
    if k > 0 {
        lemma_into_ext(g, a, b, k - 1, x);
    }
}

/// When no reference comes from the sources, no source refers to `x`.
pub proof fn lemma_into_zero(g: Seq<Seq<usize>>, src: Set<usize>, k: int, x: usize, y: usize)
    requires
        into_from(g, src, k, x) == 0,
        0 <= y < k,
        src.contains(y),
    ensures
        !g[y as int].contains(x),
    decreases k,
{
    if y < k - 1 {
        lemma_into_zero(g, src, k - 1, x, y);
    } else {
        lemma_count_contains(g[y as int], x);
    }
}

/// A source that refers to `x` gives at least one reference.
pub proof fn lemma_into_pos(g: Seq<Seq<usize>>, src: Set<usize>, k: int, x: usize, y: usize)
    requires
        0 <= y < k,
        src.contains(y),
    ensures
        into_from(g, src, k, x) >= count(g[y as int], x),
    decreases k,
{
    if y < k - 1 {
        lemma_into_pos(g, src, k - 1, x, y);
    }
}

/// Fewer flags set below `k` give a smaller count.
pub proof fn lemma_num_true_mono(a: Seq<bool>, b: Seq<bool>, k: int)
    requires
        forall|i: int| 0 <= i < k && #[trigger] a[i] ==> b[i],
    ensures
        num_true(a, k) <= num_true(b, k),
    decreases k,
{
    if k > 0 {
        lemma_num_true_mono(a, b, k - 1);
    }
}

/// Replacing `g[y]` by `s` changes the number of references by the difference of the lengths.
pub proof fn lemma_total_update(g: Seq<Seq<usize>>, k: int, y: int, s: Seq<usize>)
    requires
        0 <= y < g.len(),
        k <= g.len(),
    ensures
        total_edges(g.update(y, s), k) + (if y < k {
            g[y].len()
        } else {
            0nat
        }) == total_edges(g, k) + (if y < k {
            s.len()
        } else {
            0nat
        }),
    decreases k,
{
    if k > 0 {
        lemma_total_update(g, k - 1, y, s);
    }
}

pub proof fn lemma_total_push(g: Seq<Seq<usize>>, k: int, s: Seq<usize>)
    requires
        0 <= k <= g.len(),
    ensures
        total_edges(g.push(s), k) == total_edges(g, k),
    decreases k,
{
    if k > 0 {
        lemma_total_push(g, k - 1, s);
    }
}

pub proof fn lemma_into_push(g: Seq<Seq<usize>>, src: Set<usize>, k: int, x: usize, s: Seq<usize>)
    requires
        k <= g.len(),
    ensures
        into_from(g.push(s), src, k, x) == into_from(g, src, k, x),
    decreases k,
{
    if k > 0 {
        lemma_into_push(g, src, k - 1, x, s);
    }
}

pub proof fn lemma_num_true_update(a: Seq<bool>, k: int, y: int, v: bool)
    requires
        0 <= y < a.len(),
        k <= a.len(),
    ensures
        num_true(a.update(y, v), k) + (if y < k && a[y] {
            1nat
        } else {
            0nat
        }) == num_true(a, k) + (if y < k && v {
            1nat
        } else {
            0nat
        }),
    decreases k,
{
    if k > 0 {
        lemma_num_true_update(a, k - 1, y, v);
    }
}

pub proof fn lemma_num_true_push(a: Seq<bool>, k: int, v: bool)
    requires
        0 <= k <= a.len(),
    ensures
        num_true(a.push(v), k) == num_true(a, k),
    decreases k,
{
    if k > 0 {
        lemma_num_true_push(a, k - 1, v);
    }
}

pub proof fn lemma_num_true_bound(a: Seq<bool>, k: int)
    ensures
        num_true(a, k) <= (if k < 0 {
            0
        } else {
            k
        }),
    decreases k,
{
    if k > 0 {
        lemma_num_true_bound(a, k - 1);
    }
}

/// When no source refers to `x`, there is no reference to `x` from the sources.
pub proof fn lemma_into_zero_rev(g: Seq<Seq<usize>>, src: Set<usize>, k: int, x: usize)
    requires
        forall|y: usize| 0 <= y < k && src.contains(y) ==> !(#[trigger] g[y as int]).contains(x),
        k <= usize::MAX + 1,
    ensures
        into_from(g, src, k, x) == 0,
    decreases k,
{
    if k > 0 {
        lemma_into_zero_rev(g, src, k - 1, x);
        if src.contains((k - 1) as usize) {
            let y = (k - 1) as usize;
            assert(!g[y as int].contains(x));
            lemma_count_contains(g[k - 1], x);
        }
    }
}

/// A prefix holds at most as many occurrences as the whole sequence.
pub proof fn lemma_count_prefix(s: Seq<usize>, j: int, x: usize)
    requires
        0 <= j <= s.len(),
    ensures
        count(s.take(j), x) <= count(s, x),
{
    lemma_count_concat(s.take(j), s.skip(j), x);
    assert(s.take(j) + s.skip(j) =~= s);
}

/// The references from the sources and from one more allocation are at most all the references.
pub proof fn lemma_into_bound(g: Seq<Seq<usize>>, src: Set<usize>, c: usize, x: usize)
    requires
        c < g.len(),
        g.len() <= usize::MAX,
        !src.contains(c),
    ensures
        into_from(g, src, g.len() as int, x) + count(g[c as int], x) <= into_from(g, Set::full(), g.len() as int, x),
{
    lemma_into_insert(g, src, g.len() as int, x, c);
    lemma_into_mono(g, src.insert(c), Set::full(), g.len() as int, x);
}

/// `path` is a non-empty walk along the edges of `g`.
pub open spec fn is_path(g: Seq<Seq<usize>>, path: Seq<usize>) -> bool {
    &&& path.len() >= 1
    &&& forall|i: int| 0 <= i < path.len() - 1 ==> #[trigger] g[path[i] as int].contains(path[i + 1])
}

/// Every allocation of `s` refers only to allocations of `s`.
pub open spec fn closed_under_edges(g: Seq<Seq<usize>>, s: Set<usize>) -> bool {
    forall|y: usize, j: int|
        s.contains(y) && y < g.len() && 0 <= j < g[y as int].len() ==> s.contains(#[trigger] g[y as int][j])
}

/// `x` is reachable from the allocations `b`: it belongs to every set that contains `b`
/// and is closed under the edges of `g`.
pub open spec fn reachable_from(g: Seq<Seq<usize>>, b: Set<usize>, x: usize) -> bool {
    forall|s: Set<usize>| #[trigger] closed_under_edges(g, s) && b.subset_of(s) ==> s.contains(x)
}

/// What is reachable from allocations that are all reachable from `b` is reachable from `b`.
pub proof fn lemma_reachable_trans(g: Seq<Seq<usize>>, b: Set<usize>, c: Set<usize>, x: usize)
    requires
        forall|y: usize| #[trigger] c.contains(y) ==> reachable_from(g, b, y),
        reachable_from(g, c, x),
    ensures
        reachable_from(g, b, x),
{
    assert forall|s: Set<usize>| #[trigger] closed_under_edges(g, s) && b.subset_of(s) implies s.contains(x) by {
        assert forall|y: usize| c.contains(y) implies s.contains(y) by {
            assert(reachable_from(g, b, y));
        }
        assert(c.subset_of(s));
    }
}

/// What is reachable from `b` without being in `b` is referred to by something reachable.
pub proof fn lemma_reachable_pred(g: Seq<Seq<usize>>, b: Set<usize>, x: usize)
    requires
        reachable_from(g, b, x),
        !b.contains(x),
    ensures
        exists|y: usize| y < g.len() && reachable_from(g, b, y) && #[trigger] g[y as int].contains(x),
{
    let s = Set::new(|z: usize| b.contains(z) || exists|y: usize| y < g.len() && reachable_from(g, b, y) && #[trigger] g[y as int].contains(z));
    assert forall|w: usize, j: int| s.contains(w) && w < g.len() && 0 <= j < g[w as int].len() implies s.contains(#[trigger] g[w as int][j]) by {
        let z = g[w as int][j];
        assert(g[w as int].contains(z));
        if !b.contains(w) {
            let y = choose|y: usize| y < g.len() && reachable_from(g, b, y) && #[trigger] g[y as int].contains(w);
            lemma_reachable_step(g, b, y, w);
        }
    }
    assert(closed_under_edges(g, s));
    assert(b.subset_of(s));
    assert(s.contains(x));
}

/// The allocations of `b` are reachable from `b`.
pub proof fn lemma_reachable_base(g: Seq<Seq<usize>>, b: Set<usize>, x: usize)
    requires
        b.contains(x),
    ensures
        reachable_from(g, b, x),
{
}

/// What a reachable allocation refers to is reachable.
pub proof fn lemma_reachable_step(g: Seq<Seq<usize>>, b: Set<usize>, y: usize, x: usize)
    requires
        reachable_from(g, b, y),
        y < g.len(),
        g[y as int].contains(x),
    ensures
        reachable_from(g, b, x),
{
    let j = g[y as int].index_of(x);
    assert forall|s: Set<usize>| #[trigger] closed_under_edges(g, s) && b.subset_of(s) implies s.contains(x) by {
        assert(s.contains(y));
        assert(g[y as int][j] == x);
    }
}

/// `y` reaches `x`: `x` is reachable from `y` alone.
pub open spec fn ancestor(g: Seq<Seq<usize>>, y: usize, x: usize) -> bool {
    reachable_from(g, Set::empty().insert(y), x)
}

/// What refers to an ancestor of `x` is an ancestor of `x`.
pub proof fn lemma_ancestor_step(g: Seq<Seq<usize>>, u: usize, y: usize, x: usize)
    requires
        u < g.len(),
        g[u as int].contains(y),
        ancestor(g, y, x),
    ensures
        ancestor(g, u, x),
{
    let j = g[u as int].index_of(y);
    assert forall|s: Set<usize>| #[trigger] closed_under_edges(g, s) && Set::empty().insert(u).subset_of(s) implies s.contains(x) by {
        assert(s.contains(u));
        assert(g[u as int][j] == y);
        assert(s.contains(y));
        assert(Set::empty().insert(y).subset_of(s));
    }
}

/// Every allocation is its own ancestor.
pub proof fn lemma_ancestor_refl(g: Seq<Seq<usize>>, x: usize)
    ensures
        ancestor(g, x, x),
{
}

/// The allocations that are not ancestors of `x` refer only to such allocations.
pub proof fn lemma_non_ancestors_closed(g: Seq<Seq<usize>>, x: usize)
    ensures
        closed_under_edges(g, Set::new(|y: usize| !ancestor(g, y, x))),
{
    let s = Set::new(|y: usize| !ancestor(g, y, x));
    assert forall|y: usize, j: int| s.contains(y) && y < g.len() && 0 <= j < g[y as int].len()
        implies s.contains(#[trigger] g[y as int][j]) by {
        if ancestor(g, g[y as int][j], x) {
            lemma_ancestor_step(g, y, g[y as int][j], x);
        }
    }
}

/// `x` is not reachable from allocations that are not its ancestors.
pub proof fn lemma_unreachable_without_ancestors(g: Seq<Seq<usize>>, r: Set<usize>, x: usize)
    requires
        forall|y: usize| #[trigger] r.contains(y) ==> !ancestor(g, y, x),
    ensures
        !reachable_from(g, r, x),
{
    let s = Set::new(|y: usize| !ancestor(g, y, x));
    lemma_non_ancestors_closed(g, x);
    lemma_ancestor_refl(g, x);
    assert(r.subset_of(s));
    assert(!s.contains(x));
}

} // verus!
