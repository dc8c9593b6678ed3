use crate::order::is_total_order;
use crate::order::lemma_total_order;
use crate::order::le;
use crate::order::lt;
use vstd::laws_cmp::obeys_cmp;
use vstd::laws_cmp::obeys_cmp_partial_ord;
use vstd::laws_cmp::obeys_partial_cmp_spec_properties;
use vstd::prelude::*;

verus! {

broadcast use vstd::seq_lib::group_to_multiset_ensures, vstd::multiset::group_multiset_axioms;

/// Relies on std's `slice::swap`: it exchanges the elements at `a` and `b`, and
/// panics when either index is out of bounds.
pub assume_specification<V>[ <[V]>::swap ](s: &mut [V], a: usize, b: usize)
    requires
        a < old(s)@.len(),
        b < old(s)@.len(),
    ensures
        final(s)@ == old(s)@.update(a as int, old(s)@[b as int]).update(b as int, old(s)@[a as int]),
;

/// `a` is strictly more extreme than `b`: greater in a max-heap, smaller in a min-heap.
pub open spec fn better<T: PartialOrd>(is_max: bool, a: T, b: T) -> bool {
    if is_max {
        lt(b, a)
    } else {
        lt(a, b)
    }
}

/// `a` is at least as extreme as `b`, so `a` may stand above `b` in the heap.
pub open spec fn dominates<T: PartialOrd>(is_max: bool, a: T, b: T) -> bool {
    if is_max {
        le(b, a)
    } else {
        le(a, b)
    }
}

/// Node `i` dominates those of its children at `2i+1` and `2i+2` that lie in `[0, len)`.
pub open spec fn node_ok<T: PartialOrd>(s: Seq<T>, is_max: bool, len: int, i: int) -> bool {
    &&& (2 * i + 1 < len ==> dominates(is_max, s[i], s[2 * i + 1]))
    &&& (2 * i + 2 < len ==> dominates(is_max, s[i], s[2 * i + 2]))
}

/// Every node in `[lo, len)` dominates its children within `[0, len)`.
pub open spec fn heap_from<T: PartialOrd>(s: Seq<T>, is_max: bool, len: int, lo: int) -> bool {
    forall|i: int| lo <= i < len ==> #[trigger] node_ok(s, is_max, len, i)
}

/// The prefix `[0, len)` of `s` is a heap: max-heap when `is_max`, else min-heap.
pub open spec fn is_heap<T: PartialOrd>(s: Seq<T>, is_max: bool, len: int) -> bool {
    heap_from(s, is_max, len, 0)
}

/// The sequence with positions `i` and `j` exchanged.
pub open spec fn swapped<T>(s: Seq<T>, i: int, j: int) -> Seq<T> {
    s.update(i, s[j]).update(j, s[i])
}

proof fn lemma_swap_multiset<T>(s: Seq<T>, i: int, j: int)
    requires
        0 <= i < s.len(),
        0 <= j < s.len(),
    ensures
        swapped(s, i, j).to_multiset() == s.to_multiset(),
{
    let s1 = s.update(i, s[j]);
    assert(s1[j] == s[j]);
    assert(swapped(s, i, j).to_multiset() =~= s.to_multiset());
}

/// Exchanging two positions below `len` leaves `[len, ..)` alone and permutes `[0, len)`.
proof fn lemma_swap_prefix<T>(s: Seq<T>, i: int, j: int, len: int)
    requires
        0 <= i < len,
        0 <= j < len,
        len <= s.len(),
    ensures
        swapped(s, i, j).subrange(0, len).to_multiset() == s.subrange(0, len).to_multiset(),
        swapped(s, i, j).subrange(len, s.len() as int) == s.subrange(len, s.len() as int),
{
    assert(swapped(s, i, j).subrange(0, len) =~= swapped(s.subrange(0, len), i, j));
    lemma_swap_multiset(s.subrange(0, len), i, j);
    assert(swapped(s, i, j).subrange(len, s.len() as int) =~= s.subrange(len, s.len() as int));
}

/// Whether `a` is strictly more extreme than `b` under the heap's mode.
fn more_extreme<T: Ord>(a: &T, b: &T, is_max: bool) -> (r: bool)
    requires
        obeys_cmp::<T>(),
    ensures
        r == better(is_max, *a, *b),
{
    proof {
        reveal(obeys_partial_cmp_spec_properties);
        reveal(obeys_cmp_partial_ord);
    }
    if is_max {
        a > b
    } else {
        a < b
    }
}

/// `j` lies in the subtree rooted at `root`: following parents `(j - 1) / 2` from `j`
/// reaches `root`.
pub open spec fn in_subtree(root: int, j: int) -> bool
    decreases j,
{
    if j <= root || j <= 0 {
        j == root
    } else {
        in_subtree(root, (j - 1) / 2)
    }
}

/// Every index from `0` on lies in the subtree of the root `0`.
proof fn lemma_subtree_of_zero(j: int)
    requires
        0 <= j,
    ensures
        in_subtree(0, j),
    decreases j,
{
    if j > 0 {
        lemma_subtree_of_zero((j - 1) / 2);
    }
}

/// Which of `k` and its children within `[0, len)` the sift-down moves up: the left
/// child if it is strictly more extreme than `k`, then the right child if it is
/// strictly more extreme than that choice; otherwise `k` itself.
pub open spec fn extreme_child<T: PartialOrd>(s: Seq<T>, k: int, is_max: bool, len: int) -> int {
    let l = 2 * k + 1;
    let r = 2 * k + 2;
    let e = if l < len && better(is_max, s[l], s[k]) {
        l
    } else {
        k
    };
    if r < len && better(is_max, s[r], s[e]) {
        r
    } else {
        e
    }
}

/// The sequence that sifting `s[k]` down within `[0, len)` produces: while a child is
/// strictly more extreme, exchange with the most extreme child and go on from there.
pub open spec fn sift_down<T: PartialOrd>(s: Seq<T>, k: int, is_max: bool, len: int) -> Seq<T>
    decreases len - k,
{
    if 0 <= k < len {
        let e = extreme_child(s, k, is_max, len);
        if e == k {
            s
        } else {
            sift_down(swapped(s, k, e), e, is_max, len)
        }
    } else {
        s
    }
}

/// Sifts the element at `root` down within the active prefix `[0, len)`: given that
/// the subtrees under `root`'s children are heaps, afterwards the subtree of `root` is
/// one. Only positions of that subtree move, and a root that already dominates its
/// children, ties included, stays where it is.
pub fn heapify<T: Ord>(arr: &mut [T], root: usize, is_max: bool, len: usize)
    requires
        obeys_cmp::<T>(),
        root < len <= old(arr)@.len(),
        forall|j: int| #![trigger node_ok(old(arr)@, is_max, len as int, j)]
            in_subtree(root as int, j) && j != root && j < len ==> node_ok(old(arr)@, is_max, len as int, j),
    ensures
        final(arr)@ == sift_down(old(arr)@, root as int, is_max, len as int),
        final(arr)@.len() == old(arr)@.len(),
        forall|j: int| #![trigger node_ok(final(arr)@, is_max, len as int, j)]
            in_subtree(root as int, j) && j < len ==> node_ok(final(arr)@, is_max, len as int, j),
        forall|j: int| 0 <= j < old(arr)@.len() && !in_subtree(root as int, j) ==> final(arr)@[j] == old(arr)@[j],
        final(arr)@.subrange(0, len as int).to_multiset() == old(arr)@.subrange(0, len as int).to_multiset(),
        final(arr)@.subrange(len as int, old(arr)@.len() as int) == old(arr)@.subrange(len as int, old(arr)@.len() as int),
        node_ok(old(arr)@, is_max, len as int, root as int) ==> final(arr)@ == old(arr)@,
{
    proof {
        lemma_total_order::<T>();
    }
    let ghost s0 = arr@;
    let mut k: usize = root;
    loop
        invariant_except_break
            root <= k < len,
            in_subtree(root as int, k as int),
            forall|j: int| #![trigger node_ok(arr@, is_max, len as int, j)]
                in_subtree(root as int, j) && j < len && j != k ==> node_ok(arr@, is_max, len as int, j),
            k > root ==> {
                let p = (k - 1) / 2;
                &&& in_subtree(root as int, p)
                &&& (2 * k + 1 < len ==> dominates(is_max, arr@[p], arr@[2 * k + 1]))
                &&& (2 * k + 2 < len ==> dominates(is_max, arr@[p], arr@[2 * k + 2]))
            },
            sift_down(arr@, k as int, is_max, len as int) == sift_down(s0, root as int, is_max, len as int),
        invariant
            is_total_order::<T>(),
            obeys_cmp::<T>(),
            root < len <= arr@.len(),
            arr@.len() == s0.len(),
            forall|j: int| 0 <= j < s0.len() && !in_subtree(root as int, j) ==> arr@[j] == s0[j],
            arr@.subrange(0, len as int).to_multiset() == s0.subrange(0, len as int).to_multiset(),
            arr@.subrange(len as int, s0.len() as int) == s0.subrange(len as int, s0.len() as int),
            k == root ==> arr@ == s0,
            k != root ==> !node_ok(s0, is_max, len as int, root as int),
        ensures
            forall|j: int| #![trigger node_ok(arr@, is_max, len as int, j)]
                in_subtree(root as int, j) && j < len ==> node_ok(arr@, is_max, len as int, j),
            arr@ == sift_down(s0, root as int, is_max, len as int),
        decreases len - k,
    {
        if k >= len / 2 {
            assert(node_ok(arr@, is_max, len as int, k as int));
            assert(extreme_child(arr@, k as int, is_max, len as int) == k);
            break;
        }
        let l: usize = 2 * k + 1;
        let r: usize = l + 1;
        let mut extreme: usize = k;
        if more_extreme(&arr[l], &arr[extreme], is_max) {
            extreme = l;
        }
        if r < len && more_extreme(&arr[r], &arr[extreme], is_max) {
            extreme = r;
        }
        assert(extreme == extreme_child(arr@, k as int, is_max, len as int));
        if extreme == k {
            assert(node_ok(arr@, is_max, len as int, k as int));
            break;
        }
        let ghost s = arr@;
        arr.swap(k, extreme);
        proof {
            lemma_swap_prefix(s, k as int, extreme as int, len as int);
            assert(arr@ == swapped(s, k as int, extreme as int));
            assert((extreme - 1) / 2 == k as int);
            assert(in_subtree(root as int, extreme as int));
            assert(node_ok(s, is_max, len as int, extreme as int));
            assert forall|j: int| #![trigger node_ok(arr@, is_max, len as int, j)]
                in_subtree(root as int, j) && j < len && j != extreme implies node_ok(arr@, is_max, len as int, j) by {
                if j != k && j != (k - 1) / 2 {
                    assert(node_ok(s, is_max, len as int, j));
                }
                if j != k && j == (k - 1) / 2 && k > root {
                    assert(node_ok(s, is_max, len as int, j));
                }
            }
            assert forall|j: int| 0 <= j < s0.len() && !in_subtree(root as int, j) implies arr@[j] == s0[j] by {
                assert(j != k && j != extreme);
            }
        }
        k = extreme;
    }
}

/// The elements of `s` in `[lo, hi)` ascend when `ascending`, else they descend.
pub open spec fn sorted_between<T: PartialOrd>(s: Seq<T>, ascending: bool, lo: int, hi: int) -> bool {
    forall|p: int, q: int| lo <= p < q < hi ==> #[trigger] dominates(ascending, s[q], s[p])
}

/// `s` ascends (`s[0] <= s[1] <= ...`) when `ascending`, else it descends.
pub open spec fn sorted<T: PartialOrd>(s: Seq<T>, ascending: bool) -> bool {
    sorted_between(s, ascending, 0, s.len() as int)
}

/// `after` holds the elements of `before`, each as often, in the order `ascending` asks for.
pub open spec fn sorts_to<T: PartialOrd>(before: Seq<T>, after: Seq<T>, ascending: bool) -> bool {
    &&& after.to_multiset() == before.to_multiset()
    &&& sorted(after, ascending)
}

proof fn lemma_root_dominates_one<T: PartialOrd>(s: Seq<T>, is_max: bool, len: int, p: int)
    requires
        is_total_order::<T>(),
        is_heap(s, is_max, len),
        0 <= p < len <= s.len(),
    ensures
        dominates(is_max, s[0], s[p]),
    decreases p,
{
    if p > 0 {
        let q = (p - 1) / 2;
        lemma_root_dominates_one(s, is_max, len, q);
        assert(node_ok(s, is_max, len, q));
    }
}

/// The root of a heap dominates every element of the heap.
pub proof fn lemma_root_dominates<T: PartialOrd>(s: Seq<T>, is_max: bool, len: int)
    requires
        is_total_order::<T>(),
        is_heap(s, is_max, len),
        0 < len <= s.len(),
    ensures
        forall|p: int| 0 <= p < len ==> #[trigger] dominates(is_max, s[0], s[p]),
{
    assert forall|p: int| 0 <= p < len implies #[trigger] dominates(is_max, s[0], s[p]) by {
        lemma_root_dominates_one(s, is_max, len, p);
    }
}

proof fn lemma_prefix_member<T>(a: Seq<T>, b: Seq<T>, len: int, p: int)
    requires
        0 <= p < len <= a.len(),
        len <= b.len(),
        a.subrange(0, len).to_multiset() == b.subrange(0, len).to_multiset(),
    ensures
        exists|q: int| 0 <= q < len && a[p] == b[q],
{
    assert(a.subrange(0, len)[p] == a[p]);
    assert(a.subrange(0, len).contains(a[p]));
    assert(a.subrange(0, len).to_multiset().count(a[p]) > 0);
    assert(b.subrange(0, len).to_multiset().count(a[p]) > 0);
    assert(b.subrange(0, len).contains(a[p]));
    let q = choose|q: int| 0 <= q < len && b.subrange(0, len)[q] == a[p];
    assert(b[q] == a[p]);
}

proof fn lemma_prefix_perm_whole<T>(a: Seq<T>, b: Seq<T>, len: int)
    requires
        0 <= len <= a.len(),
        a.len() == b.len(),
        a.subrange(0, len).to_multiset() == b.subrange(0, len).to_multiset(),
        a.subrange(len, a.len() as int) == b.subrange(len, b.len() as int),
    ensures
        a.to_multiset() == b.to_multiset(),
{
    vstd::seq_lib::lemma_multiset_commutative(a.subrange(0, len), a.subrange(len, a.len() as int));
    vstd::seq_lib::lemma_multiset_commutative(b.subrange(0, len), b.subrange(len, b.len() as int));
    assert(a =~= a.subrange(0, len) + a.subrange(len, a.len() as int));
    assert(b =~= b.subrange(0, len) + b.subrange(len, b.len() as int));
}

/// The result of sifting down each index from `i` down to `0`, in that order.
pub open spec fn build_from<T: PartialOrd>(s: Seq<T>, i: int, is_max: bool) -> Seq<T>
    decreases i + 1,
{
    if i < 0 {
        s
    } else {
        build_from(sift_down(s, i, is_max, s.len() as int), i - 1, is_max)
    }
}

/// The arrangement that building a heap from `s` produces: every index from
/// `(n - 1) / 2` down to `0` sifted down in turn; no change when `n <= 1`.
pub open spec fn build_spec<T: PartialOrd>(s: Seq<T>, is_max: bool) -> Seq<T> {
    if s.len() <= 1 {
        s
    } else {
        build_from(s, (s.len() - 1) / 2, is_max)
    }
}

/// After sifting down `i`, the nodes from `i` on form a heap, given that those after
/// `i` did before.
proof fn lemma_heapify_extends<T: PartialOrd>(s: Seq<T>, t: Seq<T>, is_max: bool, n: int, i: int)
    requires
        0 <= i < n,
        s.len() == n,
        t.len() == n,
        heap_from(s, is_max, n, i + 1),
        forall|j: int| #![trigger node_ok(t, is_max, n, j)]
            in_subtree(i, j) && j < n ==> node_ok(t, is_max, n, j),
        forall|j: int| 0 <= j < n && !in_subtree(i, j) ==> t[j] == s[j],
    ensures
        heap_from(t, is_max, n, i),
{
    assert forall|j: int| i <= j < n implies #[trigger] node_ok(t, is_max, n, j) by {
        if !in_subtree(i, j) {
            assert(node_ok(s, is_max, n, j));
            assert(!in_subtree(i, 2 * j + 1)) by {
                assert((2 * j + 1 - 1) / 2 == j);
            }
            assert(!in_subtree(i, 2 * j + 2)) by {
                assert((2 * j + 2 - 1) / 2 == j);
            }
        }
    }
}

/// Sifts down every index from `(n - 1) / 2` down to `0`, so that the whole
/// sequence becomes a heap of the mode `is_max`.
fn build_heap<T: Ord>(arr: &mut [T], is_max: bool)
    requires
        obeys_cmp::<T>(),
    ensures
        final(arr)@ == build_spec(old(arr)@, is_max),
        final(arr)@.len() == old(arr)@.len(),
        is_heap(final(arr)@, is_max, old(arr)@.len() as int),
        final(arr)@.to_multiset() == old(arr)@.to_multiset(),
        is_heap(old(arr)@, is_max, old(arr)@.len() as int) ==> final(arr)@ == old(arr)@,
        old(arr)@.len() <= 1 ==> final(arr)@ == old(arr)@,
{
    let n = arr.len();
    if n <= 1 {
        return;
    }
    let ghost s0 = arr@;
    let mut i: usize = (n - 1) / 2;
    assert forall|j: int| i + 1 <= j < n implies #[trigger] node_ok(arr@, is_max, n as int, j) by {}
    loop
        invariant_except_break
            heap_from(arr@, is_max, n as int, i + 1),
            build_from(arr@, i as int, is_max) == build_spec(s0, is_max),
        invariant
            obeys_cmp::<T>(),
            n == arr@.len(),
            n == s0.len(),
            i < n,
            arr@.to_multiset() == s0.to_multiset(),
            is_heap(s0, is_max, n as int) ==> arr@ == s0,
        ensures
            is_heap(arr@, is_max, n as int),
            arr@ == build_spec(s0, is_max),
        decreases i,
    {
        let ghost s = arr@;
        proof {
            if is_heap(s0, is_max, n as int) {
                assert(node_ok(s, is_max, n as int, i as int));
            }
        }
        heapify(arr, i, is_max, n);
        proof {
            assert(arr@.subrange(0, n as int) =~= arr@);
            assert(s.subrange(0, n as int) =~= s);
            lemma_heapify_extends(s, arr@, is_max, n as int, i as int);
            assert(build_from(s, i as int, is_max) == build_from(arr@, i - 1, is_max));
            if i == 0 {
                assert(build_from(arr@, -1, is_max) == arr@);
            }
        }
        if i == 0 {
            break;
        }
        i = i - 1;
    }
}

/// Rearranges `arr` in place into a heap: a max-heap when `is_max`, else a min-heap.
/// The arrangement is the bottom-up one of `build_spec`, and a heap is left as it is.
pub fn make_heap<T: Ord>(arr: &mut [T], is_max: bool)
    requires
        obeys_cmp::<T>(),
    ensures
        final(arr)@ == build_spec(old(arr)@, is_max),
        final(arr)@.len() == old(arr)@.len(),
        is_heap(final(arr)@, is_max, old(arr)@.len() as int),
        final(arr)@.to_multiset() == old(arr)@.to_multiset(),
        is_heap(old(arr)@, is_max, old(arr)@.len() as int) ==> final(arr)@ == old(arr)@,
        old(arr)@.len() <= 1 ==> final(arr)@ == old(arr)@,
{
    if arr.len() <= 1 {
        return;
    }
    build_heap(arr, is_max);
}

/// Sorts `arr` in place: ascending when `ascending`, else descending. A max-heap is
/// built for an ascending result, since each extracted maximum goes to the end.
pub fn heap_sort<T: Ord>(arr: &mut [T], ascending: bool)
    requires
        obeys_cmp::<T>(),
    ensures
        final(arr)@.len() == old(arr)@.len(),
        sorts_to(old(arr)@, final(arr)@, ascending),
        old(arr)@.len() <= 1 ==> final(arr)@ == old(arr)@,
{
    proof {
        lemma_total_order::<T>();
    }
    let n = arr.len();
    if n <= 1 {
        return;
    }
    let ghost s0 = arr@;
    build_heap(arr, ascending);
    let mut end: usize = n - 1;
    while end > 0
        invariant
            obeys_cmp::<T>(),
            is_total_order::<T>(),
            n == arr@.len(),
            n == s0.len(),
            end < n,
            is_heap(arr@, ascending, end + 1),
            sorted_between(arr@, ascending, end + 1, n as int),
            forall|p: int, q: int| 0 <= p <= end < q < n ==> #[trigger] dominates(ascending, arr@[q], arr@[p]),
            arr@.to_multiset() == s0.to_multiset(),
        decreases end,
    {
        let ghost s = arr@;
        proof {
            lemma_root_dominates(s, ascending, end + 1);
        }
        arr.swap(0, end);
        let ghost s1 = arr@;
        proof {
            lemma_swap_multiset(s, 0, end as int);
            assert(s1 == swapped(s, 0, end as int));
            assert forall|j: int| 1 <= j < end implies #[trigger] node_ok(s1, ascending, end as int, j) by {
                assert(node_ok(s, ascending, end + 1, j));
            }
        }
        heapify(arr, 0, ascending, end);
        proof {
            let s2 = arr@;
            assert forall|j: int| 0 <= j < end implies #[trigger] node_ok(s2, ascending, end as int, j) by {
                lemma_subtree_of_zero(j);
            }
            lemma_prefix_perm_whole(s2, s1, end as int);
            assert forall|p: int, q: int| 0 <= p <= end - 1 < q < n implies #[trigger] dominates(ascending, s2[q], s2[p]) by {
                lemma_prefix_member(s2, s1, end as int, p);
                let p1 = choose|p1: int| 0 <= p1 < end && s2[p] == s1[p1];
                assert(s2[q] == s2.subrange(end as int, n as int)[q - end]);
                if p1 == 0 {
                    assert(s1[p1] == s[end as int]);
                } else {
                    assert(s1[p1] == s[p1]);
                }
                if q == end {
                    assert(s2[q] == s[0]);
                } else {
                    assert(s2[q] == s[q]);
                }
            }
            assert forall|p: int, q: int| end <= p < q < n implies #[trigger] dominates(ascending, s2[q], s2[p]) by {
                assert(s2[q] == s2.subrange(end as int, n as int)[q - end]);
                assert(s2[p] == s2.subrange(end as int, n as int)[p - end]);
                if p == end {
                    assert(s2[p] == s[0]);
                    assert(s2[q] == s[q]);
                } else {
                    assert(s2[p] == s[p]);
                    assert(s2[q] == s[q]);
                }
            }
        }
        end = end - 1;
    }
    proof {
        let s = arr@;
        assert forall|p: int, q: int| 0 <= p < q < n implies #[trigger] dominates(ascending, s[q], s[p]) by {
            if p >= 1 {
                assert(sorted_between(s, ascending, 1, n as int));
            }
        }
    }
}

/// Any two elements of `s` that the order cannot tell apart are the same value.
pub open spec fn equivalents_identical<T: PartialOrd>(s: Seq<T>) -> bool {
    forall|i: int, j: int|
        0 <= i < s.len() && 0 <= j < s.len() && #[trigger] le(s[i], s[j]) && #[trigger] le(s[j], s[i])
            ==> s[i] == s[j]
}

proof fn lemma_member_index<T>(s: Seq<T>, t: Seq<T>, j: int) -> (i: int)
    requires
        s.to_multiset() == t.to_multiset(),
        0 <= j < t.len(),
    ensures
        0 <= i < s.len(),
        s[i] == t[j],
{
    assert(t.contains(t[j]));
    assert(t.to_multiset().count(t[j]) > 0);
    assert(s.to_multiset().count(t[j]) > 0);
    choose|i: int| 0 <= i < s.len() && s[i] == t[j]
}

proof fn lemma_sorted_unique<T: PartialOrd>(s: Seq<T>, t: Seq<T>, ascending: bool)
    requires
        is_total_order::<T>(),
        sorted(s, ascending),
        sorted(t, ascending),
        s.to_multiset() == t.to_multiset(),
        equivalents_identical(s),
    ensures
        s == t,
    decreases s.len(),
{
    assert(s.len() == s.to_multiset().len());
    assert(t.len() == t.to_multiset().len());
    if s.len() == 0 {
        assert(s =~= t);
    } else {
        let i = lemma_member_index(s, t, 0);
        let j = lemma_member_index(t, s, 0);
        if i > 0 {
            assert(dominates(ascending, s[i], s[0]));
        }
        if j > 0 {
            assert(dominates(ascending, t[j], t[0]));
        }
        assert(le(s[0], s[i]) && le(s[i], s[0]));
        assert(s[0] == t[0]);
        let s1 = s.drop_first();
        let t1 = t.drop_first();
        assert(s.remove(0) =~= s1);
        assert(t.remove(0) =~= t1);
        assert(s1.to_multiset() == t1.to_multiset());
        assert forall|p: int, q: int| 0 <= p < q < s1.len() implies #[trigger] dominates(ascending, s1[q], s1[p]) by {
            assert(dominates(ascending, s[q + 1], s[p + 1]));
        }
        assert forall|p: int, q: int| 0 <= p < q < t1.len() implies #[trigger] dominates(ascending, t1[q], t1[p]) by {
            assert(dominates(ascending, t[q + 1], t[p + 1]));
        }
        assert forall|a: int, b: int|
            0 <= a < s1.len() && 0 <= b < s1.len() && #[trigger] le(s1[a], s1[b]) && #[trigger] le(s1[b], s1[a])
            implies s1[a] == s1[b] by {
            assert(le(s[a + 1], s[b + 1]) && le(s[b + 1], s[a + 1]));
        }
        lemma_sorted_unique(s1, t1, ascending);
        assert forall|k: int| 0 < k < s.len() implies s[k] == t[k] by {
            assert(s[k] == s1[k - 1]);
            assert(t[k] == t1[k - 1]);
        }
        assert(s =~= t);
    }
}

/// Sorting a sequence that is already sorted in the same direction leaves it
/// unchanged, where no two distinct elements of it compare equal.
pub proof fn lemma_sort_of_sorted_unchanged<T: Ord>(s: Seq<T>, t: Seq<T>, ascending: bool)
    requires
        obeys_cmp::<T>(),
        sorted(s, ascending),
        equivalents_identical(s),
        sorts_to(s, t, ascending),
    ensures
        t == s,
{
    lemma_total_order::<T>();
    lemma_sorted_unique(s, t, ascending);
}

/// Sorting twice in the same direction gives what sorting once gave, where no two
/// distinct elements of the input compare equal.
pub proof fn lemma_sort_twice<T: Ord>(s: Seq<T>, t: Seq<T>, u: Seq<T>, ascending: bool)
    requires
        obeys_cmp::<T>(),
        equivalents_identical(s),
        sorts_to(s, t, ascending),
        sorts_to(t, u, ascending),
    ensures
        u == t,
{
    lemma_total_order::<T>();
    assert forall|a: int, b: int|
        0 <= a < t.len() && 0 <= b < t.len() && #[trigger] le(t[a], t[b]) && #[trigger] le(t[b], t[a])
        implies t[a] == t[b] by {
        let a1 = lemma_member_index(s, t, a);
        let b1 = lemma_member_index(s, t, b);
        assert(le(s[a1], s[b1]) && le(s[b1], s[a1]));
    }
    lemma_sorted_unique(t, u, ascending);
}

/// `a` and `b` compare equal.
pub open spec fn equivalent<T: PartialOrd>(a: T, b: T) -> bool {
    le(a, b) && le(b, a)
}

proof fn lemma_sorted_equivalent<T: PartialOrd>(s: Seq<T>, t: Seq<T>, ascending: bool)
    requires
        is_total_order::<T>(),
        sorted(s, ascending),
        sorted(t, ascending),
        s.to_multiset() == t.to_multiset(),
    ensures
        s.len() == t.len(),
        forall|k: int| 0 <= k < s.len() ==> #[trigger] equivalent(s[k], t[k]),
    decreases s.len(),
{
    assert(s.len() == s.to_multiset().len());
    assert(t.len() == t.to_multiset().len());
    if s.len() > 0 {
        let i = lemma_member_index(s, t, 0);
        let j = lemma_member_index(t, s, 0);
        if i > 0 {
            assert(dominates(ascending, s[i], s[0]));
        }
        if j > 0 {
            assert(dominates(ascending, t[j], t[0]));
        }
        assert(equivalent(s[0], s[i]));
        let s2 = swapped(s, 0, i);
        lemma_swap_multiset(s, 0, i);
        assert forall|k: int| 0 <= k < s.len() implies #[trigger] equivalent(s2[k], s[k]) by {
            if k != 0 && k != i {
                assert(s2[k] == s[k]);
            }
        }
        assert forall|p: int, q: int| 0 <= p < q < s2.len() implies #[trigger] dominates(ascending, s2[q], s2[p]) by {
            assert(dominates(ascending, s[q], s[p]));
            assert(equivalent(s2[p], s[p]));
            assert(equivalent(s2[q], s[q]));
        }
        let s1 = s2.drop_first();
        let t1 = t.drop_first();
        assert(s2.remove(0) =~= s1);
        assert(t.remove(0) =~= t1);
        assert(s1.to_multiset() == t1.to_multiset());
        assert forall|p: int, q: int| 0 <= p < q < s1.len() implies #[trigger] dominates(ascending, s1[q], s1[p]) by {
            assert(dominates(ascending, s2[q + 1], s2[p + 1]));
        }
        assert forall|p: int, q: int| 0 <= p < q < t1.len() implies #[trigger] dominates(ascending, t1[q], t1[p]) by {
            assert(dominates(ascending, t[q + 1], t[p + 1]));
        }
        lemma_sorted_equivalent(s1, t1, ascending);
        assert forall|k: int| 0 <= k < s.len() implies #[trigger] equivalent(s[k], t[k]) by {
            assert(equivalent(s2[k], s[k]));
            if k > 0 {
                assert(equivalent(s1[k - 1], t1[k - 1]));
            }
        }
    }
}

/// Sorting a sequence that is already sorted in the same direction gives, position
/// by position, an element that compares equal to the one that stood there.
pub proof fn lemma_sort_of_sorted_equivalent<T: Ord>(s: Seq<T>, t: Seq<T>, ascending: bool)
    requires
        obeys_cmp::<T>(),
        sorted(s, ascending),
        sorts_to(s, t, ascending),
    ensures
        t.len() == s.len(),
        forall|k: int| 0 <= k < s.len() ==> #[trigger] equivalent(t[k], s[k]),
{
    lemma_total_order::<T>();
    lemma_sorted_equivalent(s, t, ascending);
    assert forall|k: int| 0 <= k < s.len() implies #[trigger] equivalent(t[k], s[k]) by {
        assert(equivalent(s[k], t[k]));
    }
}

/// Sorting twice in the same direction gives, position by position, elements that
/// compare equal to those that sorting once gave.
pub proof fn lemma_sort_twice_equivalent<T: Ord>(s: Seq<T>, t: Seq<T>, u: Seq<T>, ascending: bool)
    requires
        obeys_cmp::<T>(),
        sorts_to(s, t, ascending),
        sorts_to(t, u, ascending),
    ensures
        u.len() == t.len(),
        forall|k: int| 0 <= k < t.len() ==> #[trigger] equivalent(u[k], t[k]),
{
    lemma_sort_of_sorted_equivalent(t, u, ascending);
}

} // verus!
