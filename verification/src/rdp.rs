//! Iterative Ramer-Douglas-Peucker simplification: the splitting of ranges.
//!
//! The caller supplies the distance of point `i` to the segment from `start`
//! to `end` as an order-preserving `u64` key (the IEEE-754 bits of a
//! non-negative `f64` distance order like the distances themselves) and the
//! test whether the largest distance of a range exceeds the tolerance; this
//! module runs the explicit stack of ranges and decides which points are kept.
use crate::series::count_set;
use vstd::prelude::*;

verus! {

// ─── Specification ──────────────────────────────────────────────────────────

/// The distance key that `d` gives for point `i` and segment `(s, e)`.
pub open spec fn key_of<D: Fn(usize, usize, usize) -> u64>(d: &D, i: int, s: int, e: int) -> u64 {
    choose|r: u64| #[trigger] d.ensures((i as usize, s as usize, e as usize), r)
}

/// Whether `x` says that the largest key `m` exceeds the tolerance.
pub open spec fn exceeds_of<S: Fn(u64) -> bool>(x: &S, m: u64) -> bool {
    choose|b: bool| #[trigger] x.ensures((m,), b)
}

/// `d` and `x` are functions of their arguments (as the floating-point
/// distance and comparison are).
pub open spec fn functional<D: Fn(usize, usize, usize) -> u64, S: Fn(u64) -> bool>(
    d: &D,
    x: &S,
) -> bool {
    &&& forall|args: (usize, usize, usize), r1: u64, r2: u64|
        #[trigger] d.ensures(args, r1) && #[trigger] d.ensures(args, r2) ==> r1 == r2
    &&& forall|m: u64, b1: bool, b2: bool|
        #[trigger] x.ensures((m,), b1) && #[trigger] x.ensures((m,), b2) ==> b1 == b2
}

/// Scanning the points `s < i < k` of range `(s, e)`: the largest key and the
/// first point with it, starting from key 0 at point `s + 1`.
pub open spec fn scan<D: Fn(usize, usize, usize) -> u64>(d: &D, s: int, e: int, k: int) -> (
    u64,
    int,
)
    decreases k - s,
{
    if k <= s + 1 {
        (0, s + 1)
    } else {
        let (m, idx) = scan(d, s, e, k - 1);
        let x = key_of(d, k - 1, s, e);
        if x > m {
            (x, k - 1)
        } else {
            (m, idx)
        }
    }
}

pub proof fn lemma_scan_range<D: Fn(usize, usize, usize) -> u64>(d: &D, s: int, e: int, k: int)
    requires
        s + 1 < e,
        s + 1 <= k <= e,
    ensures
        s < scan(d, s, e, k).1 < e,
        scan(d, s, e, k).1 < k || k == s + 1,
    decreases k - s,
{
    if k > s + 1 {
        lemma_scan_range(d, s, e, k - 1);
    }
}

/// The points that Ramer-Douglas-Peucker keeps strictly inside range `(s, e)`.
pub open spec fn kept_inside<D: Fn(usize, usize, usize) -> u64, S: Fn(u64) -> bool>(
    d: &D,
    x: &S,
    s: int,
    e: int,
) -> Set<int>
    decreases e - s,
{
    if e <= s + 1 {
        Set::empty()
    } else {
        let (m, idx) = scan(d, s, e, e);
        proof {
            lemma_scan_range(d, s, e, e);
        }
        if exceeds_of(x, m) {
            set![idx] + kept_inside(d, x, s, idx) + kept_inside(d, x, idx, e)
        } else {
            Set::empty()
        }
    }
}

/// The mask of points that Ramer-Douglas-Peucker keeps among `n`.
pub open spec fn rdp_mask<D: Fn(usize, usize, usize) -> u64, S: Fn(u64) -> bool>(
    d: &D,
    x: &S,
    n: int,
) -> Seq<bool> {
    Seq::new(n as nat, |i: int| i == 0 || i == n - 1 || kept_inside(d, x, 0, n - 1).contains(i))
}

proof fn lemma_kept_inside_within<D: Fn(usize, usize, usize) -> u64, S: Fn(u64) -> bool>(
    d: &D,
    x: &S,
    s: int,
    e: int,
)
    ensures
        forall|j: int| #[trigger] kept_inside(d, x, s, e).contains(j) ==> s < j < e,
    decreases e - s,
{
    if e > s + 1 {
        let (m, idx) = scan(d, s, e, e);
        lemma_scan_range(d, s, e, e);
        lemma_kept_inside_within(d, x, s, idx);
        lemma_kept_inside_within(d, x, idx, e);
        let whole = kept_inside(d, x, s, e);
        if exceeds_of(x, m) {
            assert(whole == set![idx] + kept_inside(d, x, s, idx) + kept_inside(d, x, idx, e));
        } else {
            assert(whole == Set::<int>::empty());
        }
        assert forall|j: int| #[trigger] whole.contains(j) implies s < j < e by {
            if exceeds_of(x, m) && j != idx {
                if kept_inside(d, x, s, idx).contains(j) {
                } else {
                    assert(kept_inside(d, x, idx, e).contains(j));
                }
            }
        }
    }
}

proof fn lemma_scan_max<D: Fn(usize, usize, usize) -> u64>(d: &D, s: int, e: int, k: int)
    requires
        s + 1 <= k,
    ensures
        forall|i: int| s < i < k ==> key_of(d, i, s, e) <= #[trigger] scan(d, s, e, k).0,
    decreases k - s,
{
    if k > s + 1 {
        lemma_scan_max(d, s, e, k - 1);
        assert forall|i: int| s < i < k implies key_of(d, i, s, e) <= #[trigger] scan(
            d,
            s,
            e,
            k,
        ).0 by {
            if i < k - 1 {
                assert(key_of(d, i, s, e) <= scan(d, s, e, k - 1).0);
            }
        }
    }
}

proof fn lemma_final_range<D: Fn(usize, usize, usize) -> u64, S: Fn(u64) -> bool>(
    d: &D,
    x: &S,
    s: int,
    e: int,
    a: int,
    b: int,
)
    requires
        s <= a,
        a + 2 <= b,
        b <= e,
        a == s || kept_inside(d, x, s, e).contains(a),
        b == e || kept_inside(d, x, s, e).contains(b),
        forall|j: int| a < j < b ==> !#[trigger] kept_inside(d, x, s, e).contains(j),
    ensures
        !exceeds_of(x, scan(d, a, b, b).0),
    decreases e - s,
{
    lemma_kept_inside_within(d, x, s, e);
    let (m, idx) = scan(d, s, e, e);
    lemma_scan_range(d, s, e, e);
    let left = kept_inside(d, x, s, idx);
    let right = kept_inside(d, x, idx, e);
    if exceeds_of(x, m) {
        assert(kept_inside(d, x, s, e) == set![idx] + left + right);
        lemma_kept_inside_within(d, x, s, idx);
        lemma_kept_inside_within(d, x, idx, e);
        if b <= idx {
            assert forall|j: int| a < j < b implies !#[trigger] left.contains(j) by {
                assert(!kept_inside(d, x, s, e).contains(j));
            }
            if b != idx {
                assert(!right.contains(b));
            }
            lemma_final_range(d, x, s, idx, a, b);
        } else {
            assert(idx <= a) by {
                if a < idx {
                    assert(kept_inside(d, x, s, e).contains(idx));
                }
            }
            assert forall|j: int| a < j < b implies !#[trigger] right.contains(j) by {
                assert(!kept_inside(d, x, s, e).contains(j));
            }
            if a != idx {
                assert(!left.contains(a));
            }
            lemma_final_range(d, x, idx, e, a, b);
        }
    } else {
        assert(kept_inside(d, x, s, e) == Set::<int>::empty());
    }
}

/// Between two consecutive kept points at least two apart, no dropped point
/// was flagged: the largest distance key among the points dropped between
/// them passed the tolerance test, and each dropped point's key is at most
/// that largest key (the key-level form of "every dropped point deviates at
/// most epsilon from the segment of its kept neighbors").
pub proof fn dropped_within_tolerance<D: Fn(usize, usize, usize) -> u64, S: Fn(u64) -> bool>(
    d: &D,
    x: &S,
    n: int,
    a: int,
    b: int,
)
    requires
        0 <= a,
        a + 2 <= b < n,
        rdp_mask(d, x, n)[a],
        rdp_mask(d, x, n)[b],
        forall|j: int| a < j < b ==> !#[trigger] rdp_mask(d, x, n)[j],
    ensures
        !exceeds_of(x, scan(d, a, b, b).0),
        forall|i: int| a < i < b ==> key_of(d, i, a, b) <= #[trigger] scan(d, a, b, b).0,
{
    lemma_kept_inside_within(d, x, 0, n - 1);
    assert forall|j: int| a < j < b implies !#[trigger] kept_inside(d, x, 0, n - 1).contains(j) by {
        assert(!rdp_mask(d, x, n)[j]);
    }
    lemma_final_range(d, x, 0, n - 1, a, b);
    lemma_scan_max(d, a, b, b);
}

proof fn lemma_kept_inside_monotone<
    D: Fn(usize, usize, usize) -> u64,
    S1: Fn(u64) -> bool,
    S2: Fn(u64) -> bool,
>(d: &D, x1: &S1, x2: &S2, s: int, e: int)
    requires
        forall|m: u64| #[trigger] exceeds_of(x2, m) ==> exceeds_of(x1, m),
    ensures
        kept_inside(d, x2, s, e).subset_of(kept_inside(d, x1, s, e)),
    decreases e - s,
{
    if e > s + 1 {
        let (m, idx) = scan(d, s, e, e);
        lemma_scan_range(d, s, e, e);
        if exceeds_of(x2, m) {
            lemma_kept_inside_monotone(d, x1, x2, s, idx);
            lemma_kept_inside_monotone(d, x1, x2, idx, e);
            assert(kept_inside(d, x2, s, e) == set![idx] + kept_inside(d, x2, s, idx)
                + kept_inside(d, x2, idx, e));
            assert(kept_inside(d, x1, s, e) == set![idx] + kept_inside(d, x1, s, idx)
                + kept_inside(d, x1, idx, e));
        } else {
            assert(kept_inside(d, x2, s, e) =~= Set::<int>::empty());
        }
    }
}

proof fn lemma_count_set_monotone(small: Seq<bool>, big: Seq<bool>, k: int)
    requires
        0 <= k <= small.len(),
        k <= big.len(),
        forall|i: int| 0 <= i < k ==> #[trigger] small[i] ==> big[i],
    ensures
        count_set(small, k) <= count_set(big, k),
    decreases k,
{
    if k > 0 {
        lemma_count_set_monotone(small, big, k - 1);
        assert(small[k - 1] ==> big[k - 1]);
    }
}

/// Raising the tolerance only drops points: when every largest distance that
/// passes the stricter test `x2` (a larger epsilon) also passes `x1` (a
/// smaller one), each point kept under `x2` is kept under `x1`, so no more
/// points are kept under `x2` than under `x1`.
pub proof fn tolerance_monotone<
    D: Fn(usize, usize, usize) -> u64,
    S1: Fn(u64) -> bool,
    S2: Fn(u64) -> bool,
>(d: &D, x1: &S1, x2: &S2, n: int)
    requires
        forall|m: u64| #[trigger] exceeds_of(x2, m) ==> exceeds_of(x1, m),
    ensures
        forall|i: int| 0 <= i < n && #[trigger] rdp_mask(d, x2, n)[i] ==> rdp_mask(d, x1, n)[i],
        count_set(rdp_mask(d, x2, n), n) <= count_set(rdp_mask(d, x1, n), n),
{
    lemma_kept_inside_monotone(d, x1, x2, 0, n - 1);
    assert forall|i: int| 0 <= i < n && #[trigger] rdp_mask(d, x2, n)[i] implies rdp_mask(
        d,
        x1,
        n,
    )[i] by {
        if i != 0 && i != n - 1 {
            assert(kept_inside(d, x2, 0, n - 1).contains(i));
        }
    }
    if n >= 0 {
        lemma_count_set_monotone(rdp_mask(d, x2, n), rdp_mask(d, x1, n), n);
    }
}

/// `j` is the first point of range `(s, e)` with the largest distance key.
pub open spec fn first_farthest<D: Fn(usize, usize, usize) -> u64>(d: &D, j: int, s: int, e: int) -> bool {
    &&& s < j < e
    &&& forall|i: int| s < i < e ==> #[trigger] key_of(d, i, s, e) <= key_of(d, j, s, e)
    &&& forall|i: int| s < i < j ==> #[trigger] key_of(d, i, s, e) < key_of(d, j, s, e)
}

/// Range `(s, e)` is split at `j`: `j` is its first farthest point and that
/// largest key passes the tolerance test.
pub open spec fn splits_at<D: Fn(usize, usize, usize) -> u64, S: Fn(u64) -> bool>(
    d: &D,
    x: &S,
    j: int,
    s: int,
    e: int,
) -> bool {
    first_farthest(d, j, s, e) && exceeds_of(x, key_of(d, j, s, e))
}

proof fn lemma_scan_first_farthest<D: Fn(usize, usize, usize) -> u64>(d: &D, s: int, e: int, k: int)
    requires
        s + 2 <= k,
    ensures
        s < scan(d, s, e, k).1 < k,
        key_of(d, scan(d, s, e, k).1, s, e) == scan(d, s, e, k).0,
        forall|i: int| s < i < k ==> #[trigger] key_of(d, i, s, e) <= scan(d, s, e, k).0,
        forall|i: int| s < i < scan(d, s, e, k).1 ==> #[trigger] key_of(d, i, s, e) < scan(
            d,
            s,
            e,
            k,
        ).0,
    decreases k - s,
{
    let x = key_of(d, k - 1, s, e);
    if k > s + 2 {
        lemma_scan_first_farthest(d, s, e, k - 1);
    } else {
        assert(scan(d, s, e, k - 1) == (0u64, s + 1));
    }
    let (m, idx) = scan(d, s, e, k - 1);
    assert(scan(d, s, e, k) == (if x > m {
        (x, k - 1)
    } else {
        (m, idx)
    }));
}

proof fn lemma_kept_inside_split<D: Fn(usize, usize, usize) -> u64, S: Fn(u64) -> bool>(
    d: &D,
    x: &S,
    s: int,
    e: int,
)
    ensures
        forall|j: int| #[trigger] kept_inside(d, x, s, e).contains(j) ==> exists|a: int, b: int|
            s <= a < j < b <= e && (a == s || kept_inside(d, x, s, e).contains(a)) && (b == e
                || kept_inside(d, x, s, e).contains(b)) && #[trigger] splits_at(d, x, j, a, b),
    decreases e - s,
{
    if e > s + 1 {
        let (m, idx) = scan(d, s, e, e);
        lemma_scan_range(d, s, e, e);
        lemma_scan_first_farthest(d, s, e, e);
        let whole = kept_inside(d, x, s, e);
        if exceeds_of(x, m) {
            let left = kept_inside(d, x, s, idx);
            let right = kept_inside(d, x, idx, e);
            assert(whole == set![idx] + left + right);
            lemma_kept_inside_split(d, x, s, idx);
            lemma_kept_inside_split(d, x, idx, e);
            lemma_kept_inside_within(d, x, s, idx);
            lemma_kept_inside_within(d, x, idx, e);
            assert forall|j: int| #[trigger] whole.contains(j) implies exists|a: int, b: int|
                s <= a < j < b <= e && (a == s || whole.contains(a)) && (b == e || whole.contains(
                    b,
                )) && #[trigger] splits_at(d, x, j, a, b) by {
                if j == idx {
                    assert(splits_at(d, x, j, s, e));
                } else if left.contains(j) {
                    let (a, b) = choose|a: int, b: int|
                        s <= a < j < b <= idx && (a == s || left.contains(a)) && (b == idx
                            || left.contains(b)) && #[trigger] splits_at(d, x, j, a, b);
                    assert(splits_at(d, x, j, a, b));
                } else {
                    assert(right.contains(j));
                    let (a, b) = choose|a: int, b: int|
                        idx <= a < j < b <= e && (a == idx || right.contains(a)) && (b == e
                            || right.contains(b)) && #[trigger] splits_at(d, x, j, a, b);
                    assert(splits_at(d, x, j, a, b));
                }
            }
        } else {
            assert(whole =~= Set::<int>::empty());
        }
    }
}

/// Ramer-Douglas-Peucker keeps an interior point only as the split point of
/// a range between two kept points: the point is the first one with the
/// largest distance key of that range, and that key passes the tolerance
/// test.
pub proof fn rdp_kept_points_split<D: Fn(usize, usize, usize) -> u64, S: Fn(u64) -> bool>(
    d: &D,
    x: &S,
    n: int,
)
    ensures
        forall|j: int|
            0 < j < n - 1 && #[trigger] rdp_mask(d, x, n)[j] ==> exists|a: int, b: int|
                0 <= a < j < b <= n - 1 && rdp_mask(d, x, n)[a] && rdp_mask(d, x, n)[b]
                    && #[trigger] splits_at(d, x, j, a, b),
{
    let mask = rdp_mask(d, x, n);
    let inside = kept_inside(d, x, 0, n - 1);
    lemma_kept_inside_split(d, x, 0, n - 1);
    assert forall|j: int| 0 < j < n - 1 && #[trigger] mask[j] implies exists|a: int, b: int|
        0 <= a < j < b <= n - 1 && mask[a] && mask[b] && #[trigger] splits_at(d, x, j, a, b) by {
        assert(inside.contains(j));
        let (a, b) = choose|a: int, b: int|
            0 <= a < j < b <= n - 1 && (a == 0 || inside.contains(a)) && (b == n - 1
                || inside.contains(b)) && #[trigger] splits_at(d, x, j, a, b);
        assert(mask[a] && mask[b]);
    }
}

/// Between two consecutive kept points at least two apart, the first point
/// with the largest distance key of that range fails the tolerance test: no
/// dropped range would have been split.
pub proof fn rdp_dropped_ranges_unsplit<D: Fn(usize, usize, usize) -> u64, S: Fn(u64) -> bool>(
    d: &D,
    x: &S,
    n: int,
    a: int,
    b: int,
)
    requires
        0 <= a,
        a + 2 <= b < n,
        rdp_mask(d, x, n)[a],
        rdp_mask(d, x, n)[b],
        forall|j: int| a < j < b ==> !#[trigger] rdp_mask(d, x, n)[j],
    ensures
        exists|i: int| #[trigger] first_farthest(d, i, a, b) && !exceeds_of(x, key_of(d, i, a, b)),
{
    dropped_within_tolerance(d, x, n, a, b);
    lemma_scan_first_farthest(d, a, b, b);
    let i = scan(d, a, b, b).1;
    assert(first_farthest(d, i, a, b));
}

/// When no largest distance passes the tolerance test, Ramer-Douglas-Peucker
/// keeps only the two endpoints, however many points there are.
pub proof fn rdp_no_split_keeps_endpoints<D: Fn(usize, usize, usize) -> u64, S: Fn(u64) -> bool>(
    d: &D,
    x: &S,
    n: int,
)
    requires
        2 <= n,
        forall|m: u64| !#[trigger] exceeds_of(x, m),
    ensures
        rdp_mask(d, x, n) == Seq::new(n as nat, |j: int| j == 0 || j == n - 1),
        count_set(rdp_mask(d, x, n), n) == 2,
{
    rdp_kept_points_split(d, x, n);
    let mask = rdp_mask(d, x, n);
    let ends = Seq::new(n as nat, |j: int| j == 0 || j == n - 1);
    assert forall|j: int| 0 <= j < n implies mask[j] == ends[j] by {
        if 0 < j < n - 1 && mask[j] {
            let (a, b) = choose|a: int, b: int|
                0 <= a < j < b <= n - 1 && mask[a] && mask[b] && #[trigger] splits_at(d, x, j, a, b);
            assert(exceeds_of(x, key_of(d, j, a, b)));
        }
    }
    assert(mask =~= ends);
    lemma_count_endpoints(ends, n);
}

proof fn lemma_count_endpoints(mask: Seq<bool>, n: int)
    requires
        2 <= n == mask.len(),
        forall|j: int| 0 <= j < n ==> mask[j] == (j == 0 || j == n - 1),
    ensures
        count_set(mask, n) == 2,
{
    assert(count_set(mask, n - 1) == 1) by {
        lemma_count_prefix_one(mask, n - 1);
    }
}

proof fn lemma_count_prefix_one(mask: Seq<bool>, k: int)
    requires
        1 <= k <= mask.len() - 1,
        mask[0],
        forall|j: int| 0 < j < mask.len() - 1 ==> !#[trigger] mask[j],
    ensures
        count_set(mask, k) == 1,
    decreases k,
{
    reveal_with_fuel(count_set, 2);
    if k > 1 {
        lemma_count_prefix_one(mask, k - 1);
    }
}

/// The points kept inside the ranges of a stack.
pub open spec fn stack_kept<D: Fn(usize, usize, usize) -> u64, S: Fn(u64) -> bool>(
    d: &D,
    x: &S,
    st: Seq<(usize, usize)>,
) -> Set<int>
    decreases st.len(),
{
    if st.len() == 0 {
        Set::empty()
    } else {
        stack_kept(d, x, st.drop_last()) + kept_inside(
            d,
            x,
            st.last().0 as int,
            st.last().1 as int,
        )
    }
}

/// The indices a mask marks.
pub open spec fn marked(kept: Seq<bool>) -> Set<int> {
    Set::new(|j: int| 0 <= j < kept.len() && kept[j])
}

/// Range `r` of kept endpoints has no kept point strictly inside.
pub open spec fn open_range(kept: Seq<bool>, r: (usize, usize)) -> bool {
    &&& r.0 < r.1 < kept.len()
    &&& kept[r.0 as int]
    &&& kept[r.1 as int]
    &&& forall|j: int| r.0 < j < r.1 ==> !#[trigger] kept[j]
}

/// The insides of two ranges do not overlap.
pub open spec fn apart(a: (usize, usize), b: (usize, usize)) -> bool {
    a.1 <= b.0 || b.1 <= a.0
}

proof fn lemma_count_set_true(mask: Seq<bool>, i: int, k: int)
    requires
        0 <= i < mask.len(),
        0 <= k <= mask.len(),
        !mask[i],
    ensures
        count_set(mask.update(i, true), k) == count_set(mask, k) + (if i < k {
            1int
        } else {
            0int
        }),
    decreases k,
{
    if k > 0 {
        lemma_count_set_true(mask, i, k - 1);
    }
}

proof fn lemma_count_set_le(mask: Seq<bool>, k: int)
    requires
        0 <= k <= mask.len(),
    ensures
        count_set(mask, k) <= k,
    decreases k,
{
    if k > 0 {
        lemma_count_set_le(mask, k - 1);
    }
}

/// Ramer-Douglas-Peucker over `n` points, with an explicit stack of ranges
/// instead of recursion (no stack overflow on large inputs).
///
/// For each range `(start, end)` the first point with the largest
/// `dist_key(i, start, end)` over `start < i < end` is found; when
/// `exceeds(largest)` holds that point is kept and both halves are processed.
/// Returns the mask of kept points; the first and last points are always kept.
/// When the two closures are functions of their arguments the mask is
/// exactly [`rdp_mask`].
pub fn rdp_select<D: Fn(usize, usize, usize) -> u64, S: Fn(u64) -> bool>(
    n: usize,
    dist_key: &D,
    exceeds: &S,
) -> (kept: Vec<bool>)
    requires
        forall|i: usize, s: usize, e: usize|
            s < i < e < n ==> #[trigger] dist_key.requires((i, s, e)),
        forall|k: u64| #[trigger] exceeds.requires((k,)),
    ensures
        kept@.len() == n,
        n >= 1 ==> kept@[0] && kept@[n - 1],
        functional(dist_key, exceeds) ==> kept@ == rdp_mask(dist_key, exceeds, n as int),
        functional(dist_key, exceeds) && n >= 2 && (forall|m: u64| !#[trigger] exceeds_of(exceeds, m))
            ==> count_set(kept@, n as int) == 2,
{
    let ghost fun = functional(dist_key, exceeds);
    let mut kept: Vec<bool> = vec![false; n];
    if n == 0 {
        assert(kept@ =~= rdp_mask(dist_key, exceeds, n as int));
        return kept;
    }
    kept.set(0, true);
    if n == 1 {
        assert(kept@ =~= rdp_mask(dist_key, exceeds, n as int));
        return kept;
    }
    kept.set(n - 1, true);
    if n == 2 {
        assert(kept@ =~= rdp_mask(dist_key, exceeds, n as int));
        proof {
            if fun && (forall|m: u64| !#[trigger] exceeds_of(exceeds, m)) {
                rdp_no_split_keeps_endpoints(dist_key, exceeds, n as int);
            }
        }
        return kept;
    }
    let ghost goal: Set<int> = set![0int, n - 1] + kept_inside(dist_key, exceeds, 0, n - 1);

    // Stack holds (start_idx, end_idx) ranges to process.
    let mut stack: Vec<(usize, usize)> = Vec::new();
    stack.push((0, n - 1));
    proof {
        lemma_count_set_le(kept@, n as int);
        assert(stack@.drop_last() =~= Seq::<(usize, usize)>::empty());
        assert(stack_kept(dist_key, exceeds, stack@) == stack_kept(
            dist_key,
            exceeds,
            stack@.drop_last(),
        ) + kept_inside(dist_key, exceeds, 0, n - 1));
        assert(stack_kept(dist_key, exceeds, stack@.drop_last()) == Set::<int>::empty());
        assert(marked(kept@) =~= set![0int, n - 1]);
        assert(marked(kept@) + stack_kept(dist_key, exceeds, stack@) =~= goal);
    }
    loop
        invariant
            n >= 3,
            kept@.len() == n,
            kept@[0],
            kept@[n - 1],
            forall|i: usize, s: usize, e: usize|
                s < i < e < n ==> #[trigger] dist_key.requires((i, s, e)),
            forall|k: u64| #[trigger] exceeds.requires((k,)),
            forall|k: int| 0 <= k < stack@.len() ==> open_range(kept@, #[trigger] stack@[k]),
            forall|k1: int, k2: int|
                0 <= k1 < k2 < stack@.len() ==> apart(#[trigger] stack@[k1], #[trigger] stack@[k2]),
            count_set(kept@, n as int) <= n,
            fun == functional(dist_key, exceeds),
            goal == set![0int, n - 1] + kept_inside(dist_key, exceeds, 0, n - 1),
            fun ==> marked(kept@) + stack_kept(dist_key, exceeds, stack@) == goal,
        ensures
            kept@.len() == n,
            kept@[0],
            kept@[n - 1],
            fun ==> marked(kept@) == goal,
        decreases n - count_set(kept@, n as int), stack@.len(),
    {
        let ghost before = stack@;
        let (start, end) = match stack.pop() {
            None => {
                assert(stack@ =~= Seq::<(usize, usize)>::empty());
                assert(marked(kept@) + Set::<int>::empty() =~= marked(kept@));
                break;
            },
            Some(r) => r,
        };
        assert(before[before.len() - 1] == (start, end));
        assert(before.drop_last() == stack@);
        assert(open_range(kept@, (start, end)));
        let ghost inside = kept_inside(dist_key, exceeds, start as int, end as int);
        assert(stack_kept(dist_key, exceeds, before) == stack_kept(dist_key, exceeds, stack@)
            + inside);
        if end <= start + 1 {
            assert(inside =~= Set::<int>::empty());
            assert(stack_kept(dist_key, exceeds, stack@) + Set::<int>::empty() =~= stack_kept(
                dist_key,
                exceeds,
                stack@,
            ));
            continue;
        }
        // Find the point with the maximum distance to segment [start, end].
        let mut max_dist: u64 = 0;
        let mut max_idx: usize = start + 1;
        let mut i: usize = start + 1;
        while i < end
            invariant
                start < max_idx < end < n,
                start < i <= end,
                forall|i: usize, s: usize, e: usize|
                    s < i < e < n ==> #[trigger] dist_key.requires((i, s, e)),
                fun == functional(dist_key, exceeds),
                fun ==> (max_dist, max_idx as int) == scan(
                    dist_key,
                    start as int,
                    end as int,
                    i as int,
                ),
            decreases end - i,
        {
            let d = dist_key(i, start, end);
            proof {
                if fun {
                    assert(dist_key.ensures((i, start, end), d));
                    assert(key_of(dist_key, i as int, start as int, end as int) == d);
                }
            }
            if d > max_dist {
                max_dist = d;
                max_idx = i;
            }
            i = i + 1;
        }
        let split = exceeds(max_dist);
        proof {
            if fun {
                assert(exceeds.ensures((max_dist,), split));
                assert(exceeds_of(exceeds, max_dist) == split);
            }
        }
        if split {
            let ghost k0 = kept@;
            proof {
                lemma_count_set_true(k0, max_idx as int, n as int);
                lemma_count_set_le(k0.update(max_idx as int, true), n as int);
            }
            kept.set(max_idx, true);
            let ghost mid = stack@;
            assert forall|k: int| 0 <= k < mid.len() implies open_range(kept@, #[trigger] mid[k]) by {
                assert(open_range(k0, mid[k]));
                assert(apart(before[k], before[before.len() - 1]));
            }
            stack.push((start, max_idx));
            stack.push((max_idx, end));
            assert forall|k: int| 0 <= k < stack@.len() implies open_range(
                kept@,
                #[trigger] stack@[k],
            ) by {
                if k < mid.len() {
                    assert(stack@[k] == mid[k]);
                }
            }
            assert forall|k1: int, k2: int| 0 <= k1 < k2 < stack@.len() implies apart(
                #[trigger] stack@[k1],
                #[trigger] stack@[k2],
            ) by {
                if k2 < mid.len() {
                    assert(stack@[k1] == before[k1] && stack@[k2] == before[k2]);
                } else if k1 < mid.len() {
                    assert(stack@[k1] == before[k1]);
                    assert(apart(before[k1], before[before.len() - 1]));
                }
            }
            proof {
                if fun {
                    let left = kept_inside(dist_key, exceeds, start as int, max_idx as int);
                    let right = kept_inside(dist_key, exceeds, max_idx as int, end as int);
                    assert(inside == set![max_idx as int] + left + right);
                    let mid1 = mid.push((start, max_idx));
                    assert(stack@.drop_last() =~= mid1);
                    assert(mid1.drop_last() =~= mid);
                    assert(stack_kept(dist_key, exceeds, stack@) == stack_kept(
                        dist_key,
                        exceeds,
                        mid1,
                    ) + right);
                    assert(stack_kept(dist_key, exceeds, mid1) == stack_kept(dist_key, exceeds, mid)
                        + left);
                    assert(stack_kept(dist_key, exceeds, stack@) =~= stack_kept(
                        dist_key,
                        exceeds,
                        mid,
                    ) + left + right);
                    assert(marked(kept@) =~= marked(k0) + set![max_idx as int]);
                    assert(marked(kept@) + stack_kept(dist_key, exceeds, stack@) =~= marked(k0)
                        + stack_kept(dist_key, exceeds, before));
                }
            }
        } else {
            assert forall|k1: int, k2: int| 0 <= k1 < k2 < stack@.len() implies apart(
                #[trigger] stack@[k1],
                #[trigger] stack@[k2],
            ) by {
                assert(stack@[k1] == before[k1] && stack@[k2] == before[k2]);
            }
            proof {
                if fun {
                    assert(inside =~= Set::<int>::empty());
                    assert(marked(kept@) + stack_kept(dist_key, exceeds, stack@) =~= marked(kept@)
                        + stack_kept(dist_key, exceeds, before));
                }
            }
        }
    }
    proof {
        if fun {
            assert forall|j: int| 0 <= j < n implies kept@[j] == rdp_mask(
                dist_key,
                exceeds,
                n as int,
            )[j] by {
                assert(marked(kept@).contains(j) == kept@[j]);
            }
            assert(kept@ =~= rdp_mask(dist_key, exceeds, n as int));
            if forall|m: u64| !#[trigger] exceeds_of(exceeds, m) {
                rdp_no_split_keeps_endpoints(dist_key, exceeds, n as int);
            }
        }
    }
    kept
}

} // verus!
