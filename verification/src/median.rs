//! Order-statistic primitives: a fixed-size median probe and an in-place
//! quickselect partition, the splitting engine behind tree construction.

use crate::rng;
use vstd::prelude::*;

verus! {

broadcast use
    vstd::seq_lib::group_to_multiset_ensures,
    vstd::multiset::group_multiset_axioms,
;

/// A total preorder: any two values are comparable and the relation is
/// transitive. The shape every comparison handed to the partitioner is
/// assumed to have.
pub open spec fn total_preorder<T>(leq: spec_fn(T, T) -> bool) -> bool {
    &&& forall|x: T, y: T| #[trigger] leq(x, y) || #[trigger] leq(y, x)
    &&& forall|x: T, y: T, z: T|
        #![trigger leq(x, y), leq(y, z)]
        leq(x, y) && leq(y, z) ==> leq(x, z)
}

/// The executable comparison `f` answers according to `leq`: any boolean
/// that `f` can return on a pair of borrowed values equals `leq` on them.
pub open spec fn consistent_with<T, F: Fn(&T, &T) -> bool>(
    f: F,
    leq: spec_fn(T, T) -> bool,
) -> bool {
    forall|x: &T, y: &T, b: bool| #[trigger] call_ensures(f, (x, y), b) ==> b == leq(*x, *y)
}

/// Some call of `f` has already answered that `x` is not above `y`:
/// either `f` returned true on `(x, y)` or false on `(y, x)`.
pub open spec fn observed_le<T, F: Fn(&T, &T) -> bool>(f: F, x: T, y: T) -> bool {
    call_ensures(f, (&x, &y), true) || call_ensures(f, (&y, &x), false)
}

/// Every pair of borrowed values is an acceptable input for `f`.
pub open spec fn comparison_callable<T, F: Fn(&T, &T) -> bool>(f: F) -> bool {
    forall|x: &T, y: &T| #[trigger] call_requires(f, (x, y))
}

/// An observation made by `f` binds every total preorder `f` answers for.
proof fn lemma_observed_le<T, F: Fn(&T, &T) -> bool>(
    f: F,
    x: T,
    y: T,
    leq: spec_fn(T, T) -> bool,
)
    requires
        observed_le(f, x, y),
        total_preorder(leq),
        consistent_with(f, leq),
    ensures
        leq(x, y),
{
    if call_ensures(f, (&x, &y), true) {
        assert(leq(x, y));
    } else {
        assert(call_ensures(f, (&y, &x), false));
        assert(!leq(y, x));
    }
}

/// Swap the elements at positions `i` and `j`.
pub(crate) fn vec_swap<T>(arr: &mut Vec<T>, i: usize, j: usize)
    requires
        i < old(arr)@.len(),
        j < old(arr)@.len(),
    ensures
        final(arr)@ == old(arr)@.update(i as int, old(arr)@[j as int]).update(
            j as int,
            old(arr)@[i as int],
        ),
{
    if i != j {
        let a = if i < j {
            i
        } else {
            j
        };
        let b = if i < j {
            j
        } else {
            i
        };
        let x = arr.remove(b);
        let y = arr.remove(a);
        arr.insert(a, x);
        arr.insert(b, y);
        proof {
            assert(arr@ =~= old(arr)@.update(i as int, old(arr)@[j as int]).update(
                j as int,
                old(arr)@[i as int],
            ));
        }
    } else {
        proof {
            assert(arr@ =~= old(arr)@.update(i as int, old(arr)@[j as int]).update(
                j as int,
                old(arr)@[i as int],
            ));
        }
    }
}

/// Swapping two positions of a sequence keeps its multiset of elements.
pub(crate) proof fn lemma_swap_keeps_multiset<T>(s: Seq<T>, i: int, j: int)
    requires
        0 <= i < s.len(),
        0 <= j < s.len(),
    ensures
        s.update(i, s[j]).update(j, s[i]).to_multiset() == s.to_multiset(),
{
    let s1 = s.update(i, s[j]);
    let s2 = s1.update(j, s[i]);
    assert(s1.to_multiset() == s.to_multiset().remove(s[i]).insert(s[j]));
    assert(s2.to_multiset() == s1.to_multiset().remove(s1[j]).insert(s[i]));
    assert(s.to_multiset().count(s[i]) > 0);
    if i == j {
        assert(s2.to_multiset() =~= s.to_multiset());
    } else {
        assert(s1[j] == s[j]);
        assert(s.to_multiset().count(s[j]) > 0);
        assert(s2.to_multiset() =~= s.to_multiset());
    }
}

/// `x <= y` on the ordered distance scalar.
pub fn less_eq(x: &u64, y: &u64) -> (r: bool)
    ensures
        r == (*x <= *y),
{
    *x <= *y
}

/// Index of the median of a probe of one, two or three scalars.
///
/// For a single element the answer is its own index; for two it is the
/// index of the smaller; for three it is the index of the middle element.
pub fn small_median(arr: &[u64]) -> (r: usize)
    requires
        1 <= arr@.len() <= 3,
    ensures
        r < arr@.len(),
        arr@.len() == 1 ==> r == 0,
        arr@.len() == 2 ==> (forall|m: int| 0 <= m < 2 && m != r ==> arr@[r as int] <= arr@[m]),
        arr@.len() == 3 ==> (exists|i: int, j: int|
            0 <= i < 3 && 0 <= j < 3 && i != j && i != r && j != r && arr@[i] <= arr@[r as int]
                && arr@[r as int] <= arr@[j]),
{
    if arr.len() == 1 {
        0
    } else if arr.len() == 2 {
        if less_eq(&arr[0], &arr[1]) {
            0
        } else {
            1
        }
    } else {
        if less_eq(&arr[1], &arr[2]) {
            if less_eq(&arr[1], &arr[0]) {
                if less_eq(&arr[0], &arr[2]) {
                    0
                } else {
                    2
                }
            } else {
                1
            }
        } else {
            if less_eq(&arr[2], &arr[0]) {
                if less_eq(&arr[0], &arr[1]) {
                    0
                } else {
                    1
                }
            } else {
                2
            }
        }
    }
}

/// Index of the median of a probe of one, two or three elements, under a
/// caller-supplied comparison.
///
/// The comparison's own answers witness the result: some other element
/// was answered `<=` the one returned and some other `>=` it.
pub fn small_median_by<T, F: Fn(&T, &T) -> bool>(arr: &[T], f: &F) -> (r: usize)
    requires
        1 <= arr@.len() <= 3,
        comparison_callable(f),
    ensures
        r < arr@.len(),
        arr@.len() == 1 ==> r == 0,
        arr@.len() == 2 ==> (exists|m: int|
            0 <= m < 2 && m != r && observed_le(f, arr@[r as int], arr@[m])),
        arr@.len() == 3 ==> (exists|i: int, j: int|
            0 <= i < 3 && 0 <= j < 3 && i != j && i != r && j != r && observed_le(
                f,
                arr@[i],
                arr@[r as int],
            ) && observed_le(f, arr@[r as int], arr@[j])),
{
    if arr.len() == 1 {
        0
    } else if arr.len() == 2 {
        if f(&arr[0], &arr[1]) {
            proof {
                assert(observed_le(f, arr@[0], arr@[1]));
            }
            0
        } else {
            proof {
                assert(observed_le(f, arr@[1], arr@[0]));
            }
            1
        }
    } else {
        if f(&arr[1], &arr[2]) {
            if f(&arr[1], &arr[0]) {
                if f(&arr[0], &arr[2]) {
                    proof {
                        assert(observed_le(f, arr@[1], arr@[0]) && observed_le(
                            f,
                            arr@[0],
                            arr@[2],
                        ));
                    }
                    0
                } else {
                    proof {
                        assert(observed_le(f, arr@[1], arr@[2]) && observed_le(
                            f,
                            arr@[2],
                            arr@[0],
                        ));
                    }
                    2
                }
            } else {
                proof {
                    assert(observed_le(f, arr@[0], arr@[1]) && observed_le(f, arr@[1], arr@[2]));
                }
                1
            }
        } else {
            if f(&arr[2], &arr[0]) {
                if f(&arr[0], &arr[1]) {
                    proof {
                        assert(observed_le(f, arr@[2], arr@[0]) && observed_le(
                            f,
                            arr@[0],
                            arr@[1],
                        ));
                    }
                    0
                } else {
                    proof {
                        assert(observed_le(f, arr@[2], arr@[1]) && observed_le(
                            f,
                            arr@[1],
                            arr@[0],
                        ));
                    }
                    1
                }
            } else {
                proof {
                    assert(observed_le(f, arr@[0], arr@[2]) && observed_le(f, arr@[2], arr@[1]));
                }
                2
            }
        }
    }
}

/// The elements outside `lo..hi` are the same in `s1` and `s2`.
pub open spec fn same_outside<T>(s1: Seq<T>, s2: Seq<T>, lo: int, hi: int) -> bool {
    s1.len() == s2.len() && forall|m: int|
        0 <= m < s1.len() && !(lo <= m < hi) ==> s1[m] == s2[m]
}

/// A swap of two positions inside `lo..hi` touches nothing outside the
/// range and keeps the range's multiset of elements.
proof fn lemma_swap_in_range<T>(s_old: Seq<T>, s_new: Seq<T>, i: int, j: int, lo: int, hi: int)
    requires
        0 <= lo <= i < hi <= s_old.len(),
        lo <= j < hi,
        s_new == s_old.update(i, s_old[j]).update(j, s_old[i]),
    ensures
        same_outside(s_old, s_new, lo, hi),
        s_new.subrange(lo, hi).to_multiset() == s_old.subrange(lo, hi).to_multiset(),
{
    let sub_old = s_old.subrange(lo, hi);
    assert(s_new.subrange(lo, hi) =~= sub_old.update(i - lo, sub_old[j - lo]).update(
        j - lo,
        sub_old[i - lo],
    ));
    lemma_swap_keeps_multiset(sub_old, i - lo, j - lo);
}

/// Partition `arr[lo..hi]` in place around a randomized median-of-three
/// pivot, two scan pointers moving toward each other from both ends.
///
/// Returns the pivot's final position `b`: the comparison has answered
/// that every element of `arr[lo..b]` is `<=` the pivot and every element
/// of `arr[b+1..hi]` is `>=` it.
fn hoare_partition<T, F: Fn(&T, &T) -> bool>(
    arr: &mut Vec<T>,
    lo: usize,
    hi: usize,
    f: &F,
) -> (b: usize)
    requires
        lo + 3 <= hi,
        hi <= old(arr)@.len(),
        comparison_callable(f),
    ensures
        lo <= b < hi,
        same_outside(old(arr)@, final(arr)@, lo as int, hi as int),
        final(arr)@.subrange(lo as int, hi as int).to_multiset() == old(arr)@.subrange(
            lo as int,
            hi as int,
        ).to_multiset(),
        forall|m: int|
            lo <= m < b ==> observed_le(f, final(arr)@[m], final(arr)@[b as int]),
        forall|m: int|
            b < m < hi ==> observed_le(f, final(arr)@[b as int], final(arr)@[m]),
{
    // Move three randomly chosen elements of the range to its front and
    // swap their median into the pivot seat at `lo`.
    let ghost s0 = arr@;
    let r0 = rng::random_in_range(lo, hi);
    vec_swap(arr, lo, r0);
    proof {
        lemma_swap_in_range(s0, arr@, lo as int, r0 as int, lo as int, hi as int);
    }
    let ghost s1 = arr@;
    let r1 = rng::random_in_range(lo + 1, hi);
    vec_swap(arr, lo + 1, r1);
    proof {
        lemma_swap_in_range(s1, arr@, lo + 1, r1 as int, lo as int, hi as int);
    }
    let ghost s2 = arr@;
    let r2 = rng::random_in_range(lo + 2, hi);
    vec_swap(arr, lo + 2, r2);
    proof {
        lemma_swap_in_range(s2, arr@, lo + 2, r2 as int, lo as int, hi as int);
    }
    let ghost s3 = arr@;
    let m = {
        let sl = arr.as_slice();
        small_median_by(&sl[lo..lo + 3], f)
    };
    vec_swap(arr, lo, lo + m);
    proof {
        lemma_swap_in_range(s3, arr@, lo as int, lo + m, lo as int, hi as int);
    }

    let ghost s_init = arr@;
    let ghost pivot = arr@[lo as int];

    let mut i: usize = lo + 1;
    let mut j: usize = hi - 1;
    while i <= j
        invariant
            lo + 1 <= i,
            i <= j + 1,
            lo <= j < hi,
            hi <= arr@.len(),
            comparison_callable(f),
            same_outside(s_init, arr@, lo as int, hi as int),
            arr@.subrange(lo as int, hi as int).to_multiset() == s_init.subrange(
                lo as int,
                hi as int,
            ).to_multiset(),
            arr@[lo as int] == pivot,
            forall|m: int| lo < m < i ==> observed_le(f, arr@[m], pivot),
            forall|m: int| j < m < hi ==> observed_le(f, pivot, arr@[m]),
        decreases j + 1 - i,
    {
        let c1 = f(&arr[lo], &arr[i]);
        if !c1 {
            proof {
                assert(observed_le(f, arr@[i as int], pivot));
            }
            i += 1;
        } else {
            let c2 = f(&arr[j], &arr[lo]);
            if !c2 {
                proof {
                    assert(observed_le(f, pivot, arr@[j as int]));
                }
                j -= 1;
            } else {
                if i < j {
                    let ghost s_pre = arr@;
                    vec_swap(arr, i, j);
                    proof {
                        lemma_swap_in_range(
                            s_pre,
                            arr@,
                            i as int,
                            j as int,
                            lo as int,
                            hi as int,
                        );
                        assert(observed_le(f, arr@[i as int], pivot));
                        assert(observed_le(f, pivot, arr@[j as int]));
                    }
                    i += 1;
                    j -= 1;
                } else {
                    proof {
                        assert(observed_le(f, arr@[i as int], pivot));
                    }
                    i += 1;
                }
            }
        }
    }

    let b = i - 1;
    let ghost s_end = arr@;
    vec_swap(arr, lo, b);
    proof {
        lemma_swap_in_range(s_end, arr@, lo as int, b as int, lo as int, hi as int);
        assert(arr@[b as int] == pivot);
        assert forall|m: int| lo <= m < b implies observed_le(f, arr@[m], arr@[b as int]) by {
            if m == lo {
                assert(arr@[m] == s_end[b as int]);
            } else {
                assert(arr@[m] == s_end[m]);
            }
        }
        assert forall|m: int| b < m < hi implies observed_le(f, arr@[b as int], arr@[m]) by {
            assert(arr@[m] == s_end[m]);
        }
    }
    b
}

/// The element at `k` separates `s[lo..hi]` by rank: under every total
/// preorder that `f` answers for, everything in `s[lo..k]` is `<=` `s[k]`
/// and everything in `s[k+1..hi]` is `>=` `s[k]`.
pub open spec fn rank_separated<T, F: Fn(&T, &T) -> bool>(
    f: F,
    s: Seq<T>,
    lo: int,
    k: int,
    hi: int,
) -> bool {
    forall|leq: spec_fn(T, T) -> bool|
        total_preorder(leq) && #[trigger] consistent_with(f, leq) ==> ((forall|m: int|
            lo <= m < k ==> leq(s[m], s[k])) && (forall|m: int| k < m < hi ==> leq(s[k], s[m])))
}

/// Splitting a subrange splits its multiset.
proof fn lemma_subrange_multiset_split<T>(s: Seq<T>, lo: int, mid: int, hi: int)
    requires
        0 <= lo <= mid <= hi <= s.len(),
    ensures
        s.subrange(lo, hi).to_multiset() == s.subrange(lo, mid).to_multiset().add(
            s.subrange(mid, hi).to_multiset(),
        ),
{
    assert(s.subrange(lo, hi) =~= s.subrange(lo, mid) + s.subrange(mid, hi));
    vstd::seq_lib::lemma_multiset_commutative(s.subrange(lo, mid), s.subrange(mid, hi));
}

/// Two sequences with the same multiset have, after mapping both, still
/// the same multiset.
pub(crate) proof fn lemma_map_values_multiset<A, B>(s1: Seq<A>, s2: Seq<A>, f: spec_fn(A) -> B)
    requires
        s1.to_multiset() == s2.to_multiset(),
    ensures
        s1.map_values(f).to_multiset() == s2.map_values(f).to_multiset(),
    decreases s1.len(),
{
    if s1.len() == 0 {
        assert(s2.to_multiset().len() == 0);
        assert(s1.map_values(f) =~= Seq::<B>::empty());
        assert(s2.map_values(f) =~= Seq::<B>::empty());
    } else {
        let x = s1.last();
        assert(s1.contains(x));
        assert(s2.to_multiset().count(x) > 0);
        assert(s2.contains(x));
        let w = choose|w: int| 0 <= w < s2.len() && s2[w] == x;
        let s1p = s1.drop_last();
        let s2p = s2.remove(w);
        assert(s1 =~= s1p.push(x));
        assert(s1.to_multiset() == s1p.to_multiset().insert(x));
        assert(s2p.to_multiset() == s2.to_multiset().remove(x));
        assert(s1p.to_multiset() =~= s2p.to_multiset());
        lemma_map_values_multiset(s1p, s2p, f);
        assert(s1.map_values(f) =~= s1p.map_values(f).push(f(x)));
        assert(s2p.map_values(f) =~= s2.map_values(f).remove(w));
        assert(s1.map_values(f).to_multiset() == s1p.map_values(f).to_multiset().insert(f(x)));
        assert(s2.map_values(f).remove(w).to_multiset() == s2.map_values(f).to_multiset().remove(
            s2.map_values(f)[w],
        ));
        assert(s2.map_values(f)[w] == f(x));
        assert(s2.map_values(f).to_multiset().count(f(x)) > 0) by {
            assert(s2.map_values(f).contains(f(x)));
        }
        assert(s1.map_values(f).to_multiset() =~= s2.map_values(f).to_multiset());
    }
}

/// A value stored anywhere in `s1[lo..hi]` also occurs somewhere in
/// `s2[lo..hi]` whenever the two subranges carry the same multiset.
pub(crate) proof fn lemma_value_in_range<T>(s1: Seq<T>, s2: Seq<T>, lo: int, hi: int, at: int) -> (m0: int)
    requires
        0 <= lo <= at < hi <= s1.len(),
        hi <= s2.len(),
        s1.subrange(lo, hi).to_multiset() == s2.subrange(lo, hi).to_multiset(),
    ensures
        lo <= m0 < hi,
        s2[m0] == s1[at],
{
    let sub1 = s1.subrange(lo, hi);
    let sub2 = s2.subrange(lo, hi);
    assert(sub1[at - lo] == s1[at]);
    assert(sub1.contains(s1[at]));
    assert(sub2.to_multiset().count(s1[at]) > 0);
    assert(sub2.contains(s1[at]));
    let w = choose|w: int| 0 <= w < sub2.len() && sub2[w] == s1[at];
    lo + w
}

/// Quickselect on the subrange `arr[lo..hi]`, bringing the element of
/// rank `k - lo` to position `k` and partitioning the rest around it.
fn select_in_range<T, F: Fn(&T, &T) -> bool>(
    arr: &mut Vec<T>,
    lo: usize,
    hi: usize,
    k: usize,
    f: &F,
)
    requires
        lo <= k < hi,
        hi <= old(arr)@.len(),
        comparison_callable(f),
    ensures
        same_outside(old(arr)@, final(arr)@, lo as int, hi as int),
        final(arr)@.subrange(lo as int, hi as int).to_multiset() == old(arr)@.subrange(
            lo as int,
            hi as int,
        ).to_multiset(),
        rank_separated(f, final(arr)@, lo as int, k as int, hi as int),
    decreases hi - lo,
{
    let n = hi - lo;
    if n <= 1 {
        return ;
    }
    if n == 2 {
        let c = f(&arr[lo + 1], &arr[lo]);
        if c {
            let ghost s_pre = arr@;
            vec_swap(arr, lo, lo + 1);
            proof {
                lemma_swap_in_range(s_pre, arr@, lo as int, lo + 1, lo as int, hi as int);
            }
        }
        proof {
            assert(observed_le(f, arr@[lo as int], arr@[lo + 1]));
            assert forall|leq: spec_fn(T, T) -> bool|
                total_preorder(leq) && #[trigger] consistent_with(f, leq) implies ((forall|m: int|
                lo <= m < k ==> leq(arr@[m], arr@[k as int])) && (forall|m: int|
                k < m < hi ==> leq(arr@[k as int], arr@[m]))) by {
                lemma_observed_le(f, arr@[lo as int], arr@[lo + 1], leq);
            }
        }
        return ;
    }

    let b = hoare_partition(arr, lo, hi, f);
    let ghost s_mid = arr@;
    let ghost pivot = s_mid[b as int];
    if b > k {
        select_in_range(arr, lo, b, k, f);
        proof {
            let fin = arr@;
            assert(fin[b as int] == pivot);
            assert forall|m: int| b <= m < hi implies fin[m] == s_mid[m] by {}
            lemma_subrange_multiset_split(s_mid, lo as int, b as int, hi as int);
            lemma_subrange_multiset_split(fin, lo as int, b as int, hi as int);
            assert(fin.subrange(b as int, hi as int) =~= s_mid.subrange(b as int, hi as int));
            assert(fin.subrange(lo as int, hi as int).to_multiset() == s_mid.subrange(
                lo as int,
                hi as int,
            ).to_multiset());
            assert forall|leq: spec_fn(T, T) -> bool|
                total_preorder(leq) && #[trigger] consistent_with(f, leq) implies ((forall|m: int|
                lo <= m < k ==> leq(fin[m], fin[k as int])) && (forall|m: int|
                k < m < hi ==> leq(fin[k as int], fin[m]))) by {
                assert(forall|m: int| lo <= m < k ==> leq(fin[m], fin[k as int]));
                let m0 = lemma_value_in_range(fin, s_mid, lo as int, b as int, k as int);
                assert(observed_le(f, s_mid[m0], pivot));
                lemma_observed_le(f, fin[k as int], pivot, leq);
                assert forall|m: int| k < m < hi implies leq(fin[k as int], fin[m]) by {
                    if m < b {
                        assert(leq(fin[k as int], fin[m]));
                    } else if m == b {
                        assert(leq(fin[k as int], pivot));
                    } else {
                        assert(observed_le(f, pivot, s_mid[m]));
                        lemma_observed_le(f, pivot, fin[m], leq);
                    }
                }
            }
        }
    } else if k > b {
        select_in_range(arr, b + 1, hi, k, f);
        proof {
            let fin = arr@;
            assert(fin[b as int] == pivot);
            assert forall|m: int| lo <= m <= b implies fin[m] == s_mid[m] by {}
            lemma_subrange_multiset_split(s_mid, lo as int, b + 1, hi as int);
            lemma_subrange_multiset_split(fin, lo as int, b + 1, hi as int);
            assert(fin.subrange(lo as int, b + 1) =~= s_mid.subrange(lo as int, b + 1));
            assert(fin.subrange(lo as int, hi as int).to_multiset() == s_mid.subrange(
                lo as int,
                hi as int,
            ).to_multiset());
            assert forall|leq: spec_fn(T, T) -> bool|
                total_preorder(leq) && #[trigger] consistent_with(f, leq) implies ((forall|m: int|
                lo <= m < k ==> leq(fin[m], fin[k as int])) && (forall|m: int|
                k < m < hi ==> leq(fin[k as int], fin[m]))) by {
                assert(forall|m: int| k < m < hi ==> leq(fin[k as int], fin[m]));
                let m0 = lemma_value_in_range(fin, s_mid, b + 1, hi as int, k as int);
                assert(observed_le(f, pivot, s_mid[m0]));
                lemma_observed_le(f, pivot, fin[k as int], leq);
                assert forall|m: int| lo <= m < k implies leq(fin[m], fin[k as int]) by {
                    if m > b {
                        assert(leq(fin[m], fin[k as int]));
                    } else if m == b {
                        assert(leq(pivot, fin[k as int]));
                    } else {
                        assert(observed_le(f, s_mid[m], pivot));
                        lemma_observed_le(f, fin[m], pivot, leq);
                    }
                }
            }
        }
    } else {
        proof {
            let fin = arr@;
            assert forall|leq: spec_fn(T, T) -> bool|
                total_preorder(leq) && #[trigger] consistent_with(f, leq) implies ((forall|m: int|
                lo <= m < k ==> leq(fin[m], fin[k as int])) && (forall|m: int|
                k < m < hi ==> leq(fin[k as int], fin[m]))) by {
                assert forall|m: int| lo <= m < k implies leq(fin[m], fin[k as int]) by {
                    lemma_observed_le(f, fin[m], fin[k as int], leq);
                }
                assert forall|m: int| k < m < hi implies leq(fin[k as int], fin[m]) by {
                    lemma_observed_le(f, fin[k as int], fin[m], leq);
                }
            }
        }
    }
}

/// Partially reorder `arr` in place so that position `k` holds the
/// element a full ascending sort would put there: under any total
/// preorder that the comparison `f` answers for, everything before
/// position `k` compares `<=` the element there and everything after it
/// compares `>=` it.
pub fn quick_select_by<T, F: Fn(&T, &T) -> bool>(arr: &mut Vec<T>, k: usize, f: &F)
    requires
        k < old(arr)@.len(),
        comparison_callable(f),
    ensures
        final(arr)@.len() == old(arr)@.len(),
        final(arr)@.to_multiset() == old(arr)@.to_multiset(),
        rank_separated(f, final(arr)@, 0, k as int, final(arr)@.len() as int),
{
    let n = arr.len();
    select_in_range(arr, 0, n, k, f);
    proof {
        assert(arr@.subrange(0, n as int) =~= arr@);
        assert(old(arr)@.subrange(0, n as int) =~= old(arr)@);
    }
}

} // verus!
