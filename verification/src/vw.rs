//! Visvalingam-Whyatt simplification, effective-area variant (Visvalingam
//! 2016): the removal order over area keys.
//!
//! The caller supplies the area of the triangle formed by three points as an
//! order-preserving `u64` key (the IEEE-754 bits of a non-negative `f64`
//! area order like the areas themselves); this module keeps the doubly-linked
//! list of surviving points, the generation-stamped min-heap of keys, and
//! the effective-area clamp, and decides which points survive.
use crate::heap::{HeapEntry, MinHeap};
use crate::series::count_set;
use vstd::multiset::Multiset;
use vstd::prelude::*;

verus! {

/// Key of a removed point (and of the two endpoints, which have no area):
/// the bits of `f64::INFINITY`.
pub const AREA_INFINITY: u64 = 0x7FF0_0000_0000_0000;

// ─── Specification ──────────────────────────────────────────────────────────

/// The target count `n_out` clamped to `[2, n]`.
pub open spec fn clamp_target(n_out: int, n: int) -> int {
    let lo = if n_out < 2 {
        2
    } else {
        n_out
    };
    if lo > n {
        n
    } else {
        lo
    }
}

/// `next[i]` is the first surviving point after surviving point `i`.
pub open spec fn next_ok(next: Seq<usize>, act: Seq<bool>, i: int) -> bool {
    &&& i < next[i] < act.len()
    &&& act[next[i] as int]
    &&& forall|j: int| i < j < next[i] ==> !#[trigger] act[j]
}

/// `prev[i]` is the last surviving point before surviving point `i`.
pub open spec fn prev_ok(prev: Seq<usize>, act: Seq<bool>, i: int) -> bool {
    &&& 0 <= prev[i] < i
    &&& act[prev[i] as int]
    &&& forall|j: int| prev[i] < j < i ==> !#[trigger] act[j]
}

/// The linked list over the surviving points `act` is consistent.
pub open spec fn links_ok(prev: Seq<usize>, next: Seq<usize>, act: Seq<bool>) -> bool {
    let n = act.len();
    &&& prev.len() == n
    &&& next.len() == n
    &&& n >= 2
    &&& act[0]
    &&& act[n - 1]
    &&& forall|i: int| 0 <= i < n - 1 && act[i] ==> #[trigger] next_ok(next, act, i)
    &&& forall|i: int| 0 < i < n && act[i] ==> #[trigger] prev_ok(prev, act, i)
}

/// The heap entry that is current for point `i`.
pub open spec fn current(areas: Seq<u64>, gens: Seq<u64>, i: int) -> HeapEntry {
    HeapEntry { key: areas[i], idx: i as usize, gen: gens[i] }
}

/// Heap bookkeeping: entries are for interior points and never newer than
/// their point's generation; an entry of the current generation is the only
/// one of its kind and carries the point's key, and belongs to a surviving
/// point other than `skip`; every surviving interior point but `skip` has its
/// current entry in the heap.
pub open spec fn heap_ok(
    h: Multiset<HeapEntry>,
    areas: Seq<u64>,
    gens: Seq<u64>,
    act: Seq<bool>,
    skip: int,
) -> bool {
    let n = act.len();
    &&& forall|e: HeapEntry| #[trigger]
        h.contains(e) ==> 1 <= e.idx < n - 1 && e.gen <= gens[e.idx as int]
    &&& forall|e: HeapEntry| #[trigger]
        h.contains(e) && e.gen == gens[e.idx as int] ==> act[e.idx as int] && e.idx != skip
            && e.key == areas[e.idx as int] && h.count(e) == 1
    &&& forall|i: int|
        1 <= i < n - 1 && act[i] && i != skip ==> h.contains(#[trigger] current(areas, gens, i))
}

/// The key that `f` gives for the triangle of points `a < i < b`.
pub open spec fn area_of<F: Fn(usize, usize, usize) -> u64>(f: &F, a: int, i: int, b: int) -> u64 {
    choose|r: u64| #[trigger] f.ensures((a as usize, i as usize, b as usize), r)
}

/// `f` is a function of its arguments (as the floating-point area is).
pub open spec fn area_functional<F: Fn(usize, usize, usize) -> u64>(f: &F) -> bool {
    forall|args: (usize, usize, usize), r1: u64, r2: u64|
        #[trigger] f.ensures(args, r1) && #[trigger] f.ensures(args, r2) ==> r1 == r2
}

/// `p` is the surviving point right before `i`.
pub open spec fn is_prev(act: Seq<bool>, i: int, p: int) -> bool {
    &&& 0 <= p < i
    &&& act[p]
    &&& forall|j: int| p < j < i ==> !#[trigger] act[j]
}

/// `x` is the surviving point right after `i`.
pub open spec fn is_next(act: Seq<bool>, i: int, x: int) -> bool {
    &&& i < x < act.len()
    &&& act[x]
    &&& forall|j: int| i < j < x ==> !#[trigger] act[j]
}

/// The surviving point right before `i`.
pub open spec fn prev_of(act: Seq<bool>, i: int) -> int {
    choose|p: int| is_prev(act, i, p)
}

/// The surviving point right after `i`.
pub open spec fn next_of(act: Seq<bool>, i: int) -> int {
    choose|x: int| is_next(act, i, x)
}

pub open spec fn umax(a: u64, b: u64) -> u64 {
    if a > b {
        a
    } else {
        b
    }
}

/// The state of the removal process: which points survive, the effective
/// key of each surviving interior point ([`AREA_INFINITY`] elsewhere), and
/// the largest effective key removed so far.
pub struct VwState {
    pub act: Seq<bool>,
    pub eff: Seq<u64>,
    pub last: u64,
}

/// All `n` points survive; each interior point's key is its triangle's.
pub open spec fn vw_init<F: Fn(usize, usize, usize) -> u64>(f: &F, n: int) -> VwState {
    VwState {
        act: Seq::new(n as nat, |i: int| true),
        eff: Seq::new(
            n as nat,
            |i: int|
                if 1 <= i < n - 1 {
                    area_of(f, i - 1, i, i + 1)
                } else {
                    AREA_INFINITY
                },
        ),
        last: 0,
    }
}

/// Removing surviving interior point `r`: its neighbors become adjacent, and
/// each interior neighbor's key becomes its new triangle's, clamped up to the
/// largest effective key removed so far.
pub open spec fn vw_remove<F: Fn(usize, usize, usize) -> u64>(f: &F, st: VwState, r: int) -> VwState {
    let n = st.act.len() as int;
    let p = prev_of(st.act, r);
    let nx = next_of(st.act, r);
    let last = umax(st.last, st.eff[r]);
    let act = st.act.update(r, false);
    let eff0 = st.eff.update(r, AREA_INFINITY);
    let eff1 = if p != 0 {
        eff0.update(p, umax(area_of(f, prev_of(act, p), p, nx), last))
    } else {
        eff0
    };
    let eff2 = if nx != n - 1 {
        eff1.update(nx, umax(area_of(f, p, nx, next_of(act, nx)), last))
    } else {
        eff1
    };
    VwState { act, eff: eff2, last }
}

/// The state after removing the points of `trace` in order.
pub open spec fn vw_after<F: Fn(usize, usize, usize) -> u64>(f: &F, n: int, trace: Seq<int>) -> VwState
    decreases trace.len(),
{
    if trace.len() == 0 {
        vw_init(f, n)
    } else {
        vw_remove(f, vw_after(f, n, trace.drop_last()), trace.last())
    }
}

/// `r` is a surviving interior point with the smallest effective key.
pub open spec fn smallest_survivor(st: VwState, r: int) -> bool {
    let n = st.act.len() as int;
    &&& 1 <= r < n - 1
    &&& st.act[r]
    &&& forall|j: int| 1 <= j < n - 1 && st.act[j] ==> st.eff[r] <= #[trigger] st.eff[j]
}

/// Every point of `trace` had the smallest effective key among the surviving
/// interior points when it was removed.
pub open spec fn valid_trace<F: Fn(usize, usize, usize) -> u64>(f: &F, n: int, trace: Seq<int>) -> bool
    decreases trace.len(),
{
    trace.len() == 0 || (valid_trace(f, n, trace.drop_last()) && smallest_survivor(
        vw_after(f, n, trace.drop_last()),
        trace.last(),
    ))
}

proof fn lemma_prev_of(act: Seq<bool>, i: int, p: int)
    requires
        is_prev(act, i, p),
    ensures
        prev_of(act, i) == p,
{
    let q = prev_of(act, i);
    assert(is_prev(act, i, q));
    if q < p {
        assert(!act[p]);
    } else if p < q {
        assert(!act[q]);
    }
}

proof fn lemma_next_of(act: Seq<bool>, i: int, x: int)
    requires
        is_next(act, i, x),
    ensures
        next_of(act, i) == x,
{
    let y = next_of(act, i);
    assert(is_next(act, i, y));
    if y < x {
        assert(!act[y]);
    } else if x < y {
        assert(!act[x]);
    }
}

proof fn lemma_area_of<F: Fn(usize, usize, usize) -> u64>(f: &F, a: usize, i: usize, b: usize, r: u64)
    requires
        area_functional(f),
        f.ensures((a, i, b), r),
    ensures
        area_of(f, a as int, i as int, b as int) == r,
{
    let q = area_of(f, a as int, i as int, b as int);
    assert(f.ensures((a, i, b), q));
}

/// The points that survive the removal of the points of `trace`.
pub open spec fn survivors(n: int, trace: Seq<int>) -> Seq<bool> {
    Seq::new(n as nat, |i: int| !trace.contains(i))
}

/// The current key of surviving interior point `j`: the area of its triangle
/// with its surviving neighbours, clamped up to `floor`.
pub open spec fn current_key<F: Fn(usize, usize, usize) -> u64>(
    f: &F,
    act: Seq<bool>,
    j: int,
    floor: u64,
) -> u64 {
    umax(area_of(f, prev_of(act, j), j, next_of(act, j)), floor)
}

/// The largest key removed along `trace` (0 before any removal).
pub open spec fn removed_max<F: Fn(usize, usize, usize) -> u64>(f: &F, n: int, trace: Seq<int>) -> u64
    decreases trace.len(),
{
    if trace.len() == 0 {
        0
    } else {
        let t0 = trace.drop_last();
        let floor = removed_max(f, n, t0);
        umax(floor, current_key(f, survivors(n, t0), trace.last(), floor))
    }
}

/// Each point of `trace`, when it was removed, was a surviving interior point
/// whose current key (clamped up to the largest key removed before it) was
/// the smallest among the surviving interior points.
pub open spec fn greedy_trace<F: Fn(usize, usize, usize) -> u64>(f: &F, n: int, trace: Seq<int>) -> bool
    decreases trace.len(),
{
    if trace.len() == 0 {
        true
    } else {
        let t0 = trace.drop_last();
        let act = survivors(n, t0);
        let floor = removed_max(f, n, t0);
        let r = trace.last();
        &&& greedy_trace(f, n, t0)
        &&& 1 <= r < n - 1
        &&& act[r]
        &&& forall|j: int|
            1 <= j < n - 1 && act[j] ==> current_key(f, act, r, floor) <= #[trigger] current_key(
                f,
                act,
                j,
                floor,
            )
    }
}

proof fn lemma_prev_from(act: Seq<bool>, i: int, k: int)
    requires
        0 <= k < i <= act.len(),
        act[0],
        forall|j: int| k < j < i ==> !#[trigger] act[j],
    ensures
        is_prev(act, i, prev_of(act, i)),
    decreases k,
{
    if act[k] {
        assert(is_prev(act, i, k));
    } else {
        lemma_prev_from(act, i, k - 1);
    }
}

proof fn lemma_next_from(act: Seq<bool>, i: int, k: int)
    requires
        0 <= i < k < act.len(),
        act[act.len() - 1],
        forall|j: int| i < j < k ==> !#[trigger] act[j],
    ensures
        is_next(act, i, next_of(act, i)),
    decreases act.len() - k,
{
    if act[k] {
        assert(is_next(act, i, k));
    } else {
        lemma_next_from(act, i, k + 1);
    }
}

/// A point strictly inside has a surviving point right before and right after it.
proof fn lemma_neighbours(act: Seq<bool>, i: int)
    requires
        0 < i < act.len() - 1,
        act[0],
        act[act.len() - 1],
    ensures
        is_prev(act, i, prev_of(act, i)),
        is_next(act, i, next_of(act, i)),
{
    lemma_prev_from(act, i, i - 1);
    lemma_next_from(act, i, i + 1);
}

proof fn lemma_contains_push(t0: Seq<int>, r: int, i: int)
    ensures
        t0.push(r).contains(i) <==> (t0.contains(i) || r == i),
{
    let t = t0.push(r);
    if t.contains(i) {
        let k = choose|k: int| 0 <= k < t.len() && t[k] == i;
        if k < t0.len() {
            assert(t0[k] == i);
        }
    }
    if t0.contains(i) {
        let k = choose|k: int| 0 <= k < t0.len() && t0[k] == i;
        assert(t[k] == i);
    }
    if r == i {
        assert(t[t0.len() as int] == i);
    }
}

/// The removal process is the greedy one stated over current triangles: along
/// any valid removal sequence, the surviving points are those not removed,
/// each surviving interior point's effective key is the area of its triangle
/// with its current surviving neighbours clamped up to the largest key removed
/// so far, and each removed point had the smallest such key.
pub proof fn vw_removal_is_greedy<F: Fn(usize, usize, usize) -> u64>(f: &F, n: int, trace: Seq<int>)
    requires
        n >= 2,
        valid_trace(f, n, trace),
    ensures
        vw_after(f, n, trace).act == survivors(n, trace),
        vw_after(f, n, trace).eff.len() == n,
        forall|k: int| 0 <= k < trace.len() ==> 1 <= #[trigger] trace[k] < n - 1,
        vw_after(f, n, trace).last == removed_max(f, n, trace),
        forall|j: int|
            1 <= j < n - 1 && #[trigger] vw_after(f, n, trace).act[j] ==> vw_after(f, n, trace).eff[j]
                == current_key(f, vw_after(f, n, trace).act, j, vw_after(f, n, trace).last),
        greedy_trace(f, n, trace),
    decreases trace.len(),
{
    let st = vw_after(f, n, trace);
    if trace.len() == 0 {
        assert(st.act =~= survivors(n, trace));
        assert forall|j: int| 1 <= j < n - 1 && #[trigger] st.act[j] implies st.eff[j]
            == current_key(f, st.act, j, st.last) by {
            assert(is_prev(st.act, j, j - 1));
            assert(is_next(st.act, j, j + 1));
            lemma_prev_of(st.act, j, j - 1);
            lemma_next_of(st.act, j, j + 1);
        }
    } else {
        let t0 = trace.drop_last();
        let r = trace.last();
        assert(trace == t0.push(r));
        vw_removal_is_greedy(f, n, t0);
        let st0 = vw_after(f, n, t0);
        let act = st0.act;
        let l0 = st0.last;
        assert(smallest_survivor(st0, r));
        assert(act.len() == n);
        assert(!t0.contains(0) && !t0.contains(n - 1)) by {
            if t0.contains(0) || t0.contains(n - 1) {
                let k = choose|k: int| 0 <= k < t0.len() && (t0[k] == 0 || t0[k] == n - 1);
                assert(1 <= t0[k] < n - 1);
            }
        }
        assert(act[0] && act[n - 1]);
        assert forall|k: int| 0 <= k < trace.len() implies 1 <= #[trigger] trace[k] < n - 1 by {
            if k < t0.len() {
                assert(trace[k] == t0[k]);
            }
        }
        lemma_neighbours(act, r);
        let p = prev_of(act, r);
        let nx = next_of(act, r);
        let act2 = act.update(r, false);
        assert forall|i: int| 0 <= i < n implies act2[i] == survivors(n, trace)[i] by {
            lemma_contains_push(t0, r, i);
        }
        assert(st.act =~= survivors(n, trace));
        assert(st.act == act2);
        let eff_r = st0.eff[r];
        assert(eff_r == current_key(f, act, r, l0));
        assert(st.last == eff_r);
        // neighbours after the removal
        if p != 0 {
            assert(is_next(act2, p, nx));
            lemma_next_of(act2, p, nx);
        }
        if nx != n - 1 {
            assert(is_prev(act2, nx, p));
            lemma_prev_of(act2, nx, p);
        }
        assert forall|j: int| 1 <= j < n - 1 && #[trigger] st.act[j] implies st.eff[j]
            == current_key(f, st.act, j, st.last) by {
            assert(act[j] && j != r);
            if j != p && j != nx {
                lemma_neighbours(act, j);
                let q = prev_of(act, j);
                let y = next_of(act, j);
                if q == r {
                    assert(is_next(act, r, j));
                    lemma_next_of(act, r, j);
                }
                if y == r {
                    assert(is_prev(act, r, j));
                    lemma_prev_of(act, r, j);
                }
                assert(is_prev(act2, j, q));
                assert(is_next(act2, j, y));
                lemma_prev_of(act2, j, q);
                lemma_next_of(act2, j, y);
                assert(st0.eff[j] == current_key(f, act, j, l0));
                assert(eff_r <= st0.eff[j]);
            }
        }
        assert forall|j: int| 1 <= j < n - 1 && act[j] implies current_key(f, act, r, l0)
            <= #[trigger] current_key(f, act, j, l0) by {
            assert(st0.eff[j] == current_key(f, act, j, l0));
        }
    }
}

// ─── Lemmas ─────────────────────────────────────────────────────────────────

proof fn lemma_count_update(mask: Seq<bool>, i: int, k: int)
    requires
        0 <= i < mask.len(),
        0 <= k <= mask.len(),
    ensures
        count_set(mask.update(i, false), k) == count_set(mask, k) - (if i < k && mask[i] {
            1int
        } else {
            0int
        }),
    decreases k,
{
    if k > 0 {
        lemma_count_update(mask, i, k - 1);
    }
}

proof fn lemma_count_ext(a: Seq<bool>, b: Seq<bool>, k: int)
    requires
        0 <= k <= a.len(),
        a.len() == b.len(),
        forall|j: int| 0 <= j < k ==> a[j] == b[j],
    ensures
        count_set(a, k) == count_set(b, k),
    decreases k,
{
    if k > 0 {
        lemma_count_ext(a, b, k - 1);
    }
}

proof fn lemma_count_all(mask: Seq<bool>, k: int)
    requires
        0 <= k <= mask.len(),
        forall|j: int| 0 <= j < k ==> mask[j],
    ensures
        count_set(mask, k) == k,
    decreases k,
{
    if k > 0 {
        lemma_count_all(mask, k - 1);
    }
}

proof fn lemma_count_bound(mask: Seq<bool>, k: int)
    requires
        1 <= k <= mask.len() - 1,
        forall|j: int| 1 <= j < mask.len() - 1 ==> !mask[j],
    ensures
        count_set(mask, k) <= 1,
    decreases k,
{
    reveal_with_fuel(count_set, 2);
    if k > 1 {
        lemma_count_bound(mask, k - 1);
    }
}

/// Three or more survivors include an interior one.
proof fn lemma_interior_survivor(act: Seq<bool>) -> (i: int)
    requires
        act.len() >= 2,
        count_set(act, act.len() as int) >= 3,
    ensures
        1 <= i < act.len() - 1,
        act[i],
{
    if forall|j: int| 1 <= j < act.len() - 1 ==> !act[j] {
        lemma_count_bound(act, act.len() - 1);
        assert(false);
        0
    } else {
        choose|j: int| 1 <= j < act.len() - 1 && act[j]
    }
}

/// Unlinking surviving interior point `i` keeps the list consistent.
proof fn lemma_unlink(prev: Seq<usize>, next: Seq<usize>, act: Seq<bool>, i: int)
    requires
        links_ok(prev, next, act),
        0 < i < act.len() - 1,
        act[i],
    ensures
        ({
            let p = prev[i] as int;
            let nx = next[i] as int;
            links_ok(
                prev.update(nx, p as usize),
                next.update(p, nx as usize),
                act.update(i, false),
            )
        }),
{
    let n = act.len();
    assert(next_ok(next, act, i));
    assert(prev_ok(prev, act, i));
    let p = prev[i] as int;
    let nx = next[i] as int;
    let act2 = act.update(i, false);
    let next2 = next.update(p, nx as usize);
    let prev2 = prev.update(nx, p as usize);
    assert forall|k: int| 0 <= k < n - 1 && act2[k] implies #[trigger] next_ok(next2, act2, k) by {
        if k == p {
            assert forall|j: int| k < j < next2[k] implies !#[trigger] act2[j] by {
                if j < i {
                } else if j > i {
                }
            }
        } else {
            assert(next_ok(next, act, k));
            if next[k] as int == i {
                if k < p {
                    assert(!act[p]);
                } else {
                    assert(p < k < i);
                    assert(!act[k]);
                }
            }
        }
    }
    assert forall|k: int| 0 < k < n && act2[k] implies #[trigger] prev_ok(prev2, act2, k) by {
        if k == nx {
            assert forall|j: int| prev2[k] < j < k implies !#[trigger] act2[j] by {
                if j < i {
                } else if j > i {
                }
            }
        } else {
            assert(prev_ok(prev, act, k));
            if prev[k] as int == i {
                if k > nx {
                    assert(!act[nx]);
                } else {
                    assert(i < k < nx);
                    assert(!act[k]);
                }
            }
        }
    }
}

// ─── Executable code ────────────────────────────────────────────────────────

/// Visvalingam-Whyatt point selection with the effective-area variant: when
/// removing a point, each remaining neighbor's recomputed key is clamped up to
/// the largest key removed so far, to prevent out-of-order removal artifacts.
///
/// `area_key(a, i, b)` is the key of the triangle formed by points `a < i < b`.
/// Keeps exactly `n_out` points (clamped to `[2, n]`), whatever the keys; the
/// first and last points are always kept. Returns the mask of kept points.
/// When `area_key` is a function of its arguments, the points removed are
/// those of a removal sequence in which each point had the smallest effective
/// key among the surviving interior points ([`valid_trace`]); among equal
/// keys, which goes first is the heap's choice.
pub fn vw_select<F: Fn(usize, usize, usize) -> u64>(n: usize, n_out: usize, area_key: &F) -> (kept:
    Vec<bool>)
    requires
        forall|a: usize, i: usize, b: usize|
            a < i < b < n ==> #[trigger] area_key.requires((a, i, b)),
    ensures
        kept@.len() == n,
        n >= 1 ==> kept@[0] && kept@[n - 1],
        count_set(kept@, n as int) == clamp_target(n_out as int, n as int),
        area_functional(area_key) ==> exists|trace: Seq<int>|
            trace.len() == n - clamp_target(n_out as int, n as int) && valid_trace(
                area_key,
                n as int,
                trace,
            ) && kept@ == vw_after(area_key, n as int, trace).act,
        area_functional(area_key) ==> exists|trace: Seq<int>|
            trace.len() == n - clamp_target(n_out as int, n as int) && greedy_trace(
                area_key,
                n as int,
                trace,
            ) && kept@ == survivors(n as int, trace),
{
    let ghost fun = area_functional(area_key);
    let target = if n_out < 2 {
        2
    } else {
        n_out
    };
    let target = if target > n {
        n
    } else {
        target
    };
    assert(target == clamp_target(n_out as int, n as int));

    if n <= target {
        let kept = vec![true; n];
        proof {
            lemma_count_all(kept@, n as int);
            let trace = Seq::<int>::empty();
            assert(valid_trace(area_key, n as int, trace));
            assert(kept@ =~= vw_after(area_key, n as int, trace).act);
            assert(kept@ =~= survivors(n as int, trace));
            assert(greedy_trace(area_key, n as int, trace));
        }
        return kept;
    }

    // Doubly-linked list over active indices.
    let mut prev: Vec<usize> = Vec::new();
    let mut next: Vec<usize> = Vec::new();
    let mut i: usize = 0;
    while i < n
        invariant
            i <= n,
            prev@.len() == i,
            next@.len() == i,
            forall|j: int| 0 <= j < i ==> prev@[j] == (if j == 0 { 0 } else { j - 1 }),
            forall|j: int| 0 <= j < i ==> next@[j] == (if j == n - 1 { n - 1 } else { j + 1 }),
        decreases n - i,
    {
        prev.push(if i == 0 { 0 } else { i - 1 });
        next.push(if i == n - 1 { n - 1 } else { i + 1 });
        i = i + 1;
    }
    let ghost mut act: Seq<bool> = Seq::new(n as nat, |j: int| true);
    assert forall|k: int| 0 <= k < n - 1 && act[k] implies #[trigger] next_ok(next@, act, k) by {}
    assert forall|k: int| 0 < k < n && act[k] implies #[trigger] prev_ok(prev@, act, k) by {}
    assert(links_ok(prev@, next@, act));
    proof {
        lemma_count_all(act, n as int);
    }

    // Generation counter per point: bumped when its key changes, so that stale
    // heap entries are skipped.
    let mut gens: Vec<u64> = vec![0; n];
    let mut areas: Vec<u64> = vec![AREA_INFINITY; n];

    // Initialize keys of interior points.
    let mut i: usize = 1;
    while i < n - 1
        invariant
            1 <= i <= n - 1,
            forall|a: usize, i: usize, b: usize|
                a < i < b < n ==> #[trigger] area_key.requires((a, i, b)),
            areas@.len() == n,
            prev@.len() == n,
            next@.len() == n,
            forall|j: int| 0 <= j < n ==> prev@[j] == (if j == 0 { 0 } else { j - 1 }),
            forall|j: int| 0 <= j < n ==> next@[j] == (if j == n - 1 { n - 1 } else { j + 1 }),
            areas@[0] == AREA_INFINITY,
            areas@[n - 1] == AREA_INFINITY,
            fun == area_functional(area_key),
            fun ==> forall|j: int| 1 <= j < i ==> areas@[j] == area_of(area_key, j - 1, j, j + 1),
        decreases n - 1 - i,
    {
        let a = area_key(prev[i], i, next[i]);
        proof {
            if fun {
                lemma_area_of(area_key, (i - 1) as usize, i, (i + 1) as usize, a);
            }
        }
        areas.set(i, a);
        i = i + 1;
    }

    let mut heap = MinHeap::new();
    let mut i: usize = 1;
    while i < n - 1
        invariant
            1 <= i <= n - 1,
            n >= 3,
            heap.wf(),
            areas@.len() == n,
            gens@.len() == n,
            act.len() == n,
            forall|j: int| 0 <= j < n ==> gens@[j] == 0,
            forall|j: int| 0 <= j < n ==> act[j],
            forall|e: HeapEntry| #[trigger]
                heap@.contains(e) ==> 1 <= e.idx < i && e.gen == 0 && e.key == areas@[e.idx as int]
                    && heap@.count(e) == 1,
            forall|j: int| 1 <= j < i ==> heap@.contains(#[trigger] current(areas@, gens@, j)),
            fun == area_functional(area_key),
            fun ==> forall|j: int|
                1 <= j < n - 1 ==> areas@[j] == area_of(area_key, j - 1, j, j + 1),
            areas@[0] == AREA_INFINITY,
            areas@[n - 1] == AREA_INFINITY,
        decreases n - 1 - i,
    {
        let e = HeapEntry { key: areas[i], idx: i, gen: 0 };
        let ghost h0 = heap@;
        assert(!h0.contains(e));
        heap.push(e);
        assert forall|x: HeapEntry| #[trigger] heap@.contains(x) implies 1 <= x.idx < i + 1 && x.gen
            == 0 && x.key == areas@[x.idx as int] && heap@.count(x) == 1 by {
            if x != e {
                assert(h0.contains(x));
            }
        }
        assert forall|j: int| 1 <= j < i + 1 implies heap@.contains(
            #[trigger] current(areas@, gens@, j),
        ) by {
            if j < i {
                assert(h0.contains(current(areas@, gens@, j)));
            } else {
                assert(current(areas@, gens@, j) == e);
            }
        }
        i = i + 1;
    }
    assert(heap_ok(heap@, areas@, gens@, act, -1));

    // Which points survive: the mask that is handed back.
    let mut alive: Vec<bool> = vec![true; n];
    let mut remaining: usize = n;
    let mut last_removed_area: u64 = 0;
    let ghost mut trace: Seq<int> = Seq::empty();
    proof {
        if fun {
            assert(areas@ =~= vw_init(area_key, n as int).eff);
            assert(act =~= vw_init(area_key, n as int).act);
        }
    }

    while remaining > target
        invariant
            2 <= target < n,
            target <= remaining <= n,
            forall|a: usize, i: usize, b: usize|
                a < i < b < n ==> #[trigger] area_key.requires((a, i, b)),
            heap.wf(),
            act.len() == n,
            areas@.len() == n,
            gens@.len() == n,
            links_ok(prev@, next@, act),
            count_set(act, n as int) == remaining,
            alive@ == act,
            heap_ok(heap@, areas@, gens@, act, -1),
            forall|j: int| 0 <= j < n && !act[j] ==> areas@[j] == AREA_INFINITY,
            areas@[0] == AREA_INFINITY,
            areas@[n - 1] == AREA_INFINITY,
            forall|j: int| 0 <= j < n ==> gens@[j] <= n - remaining,
            fun == area_functional(area_key),
            trace.len() == n - remaining,
            fun ==> valid_trace(area_key, n as int, trace),
            fun ==> vw_after(area_key, n as int, trace).act == act,
            fun ==> vw_after(area_key, n as int, trace).eff == areas@,
            fun ==> vw_after(area_key, n as int, trace).last == last_removed_area,
        ensures
            remaining == target,
            trace.len() == n - target,
            fun ==> valid_trace(area_key, n as int, trace),
            fun ==> vw_after(area_key, n as int, trace).act == act,
            act.len() == n,
            areas@.len() == n,
            count_set(act, n as int) == remaining,
            alive@ == act,
            links_ok(prev@, next@, act),
            forall|j: int| 0 <= j < n && !act[j] ==> areas@[j] == AREA_INFINITY,
        decreases remaining,
    {
        // Pop the point with the smallest effective key; skip stale entries.
        let mut found: Option<HeapEntry> = None;
        loop
            invariant_except_break
                heap_ok(heap@, areas@, gens@, act, -1),
                found is None,
            invariant
                heap.wf(),
                act.len() == n,
                areas@.len() == n,
                gens@.len() == n,
            ensures
                heap.wf(),
                match found {
                    None => heap@.len() == 0 && heap_ok(heap@, areas@, gens@, act, -1),
                    Some(e) => 1 <= e.idx < n - 1 && act[e.idx as int] && e == current(
                        areas@,
                        gens@,
                        e.idx as int,
                    ) && heap_ok(heap@, areas@, gens@, act, e.idx as int) && (forall|j: int|
                        1 <= j < n - 1 && act[j] ==> e.key <= #[trigger] areas@[j]),
                },
            decreases heap@.len(),
        {
            let ghost before = heap@;
            match heap.pop() {
                None => {
                    break;
                },
                Some(e) => {
                    assert(before.contains(e));
                    assert(before == heap@.insert(e));
                    assert forall|x: HeapEntry| #[trigger] heap@.contains(x) implies before.contains(x)
                        && heap@.count(x) == before.count(x) - (if x == e {
                        1int
                    } else {
                        0int
                    }) by {}
                    if e.gen == gens[e.idx] {
                        found = Some(e);
                        assert forall|j: int| 1 <= j < n - 1 && act[j] implies e.key
                            <= #[trigger] areas@[j] by {
                            assert(before.contains(current(areas@, gens@, j)));
                        }
                        assert(before.count(e) == 1);
                        assert(!heap@.contains(e));
                        assert forall|x: HeapEntry| #[trigger]
                            heap@.contains(x) && x.gen == gens@[x.idx as int] implies act[x.idx as int]
                            && x.idx != e.idx && x.key == areas@[x.idx as int] && heap@.count(x)
                            == 1 by {
                            if x.idx == e.idx {
                                assert(x == e);
                            }
                        }
                        assert forall|i: int|
                            1 <= i < n - 1 && act[i] && i != e.idx implies heap@.contains(
                            #[trigger] current(areas@, gens@, i),
                        ) by {
                            assert(before.contains(current(areas@, gens@, i)));
                        }
                        break;
                    }
                    assert forall|i: int| 1 <= i < n - 1 && act[i] implies heap@.contains(
                        #[trigger] current(areas@, gens@, i),
                    ) by {
                        assert(before.contains(current(areas@, gens@, i)));
                    }
                    assert forall|x: HeapEntry| #[trigger]
                        heap@.contains(x) && x.gen == gens@[x.idx as int] implies act[x.idx as int]
                        && x.idx != -1 && x.key == areas@[x.idx as int] && heap@.count(x) == 1 by {
                        assert(x != e);
                    }
                },
            }
        }
        let entry = match found {
            Some(e) => e,
            None => {
                proof {
                    let j = lemma_interior_survivor(act);
                    assert(heap@.contains(current(areas@, gens@, j)));
                }
                break;
            },
        };

        let i = entry.idx;
        if i == 0 || i == n - 1 {
            continue;  // endpoints are protected
        }

        let ghost st = vw_after(area_key, n as int, trace);
        let ghost trace0 = trace;
        proof {
            if fun {
                assert(smallest_survivor(st, i as int));
            }
        }

        // Track effective area: cannot be less than the last removed area.
        if areas[i] > last_removed_area {
            last_removed_area = areas[i];
        }
        let ghost a_before = areas@;
        areas.set(i, AREA_INFINITY);  // mark as removed

        // Splice out of linked list.
        assert(next_ok(next@, act, i as int));
        assert(prev_ok(prev@, act, i as int));
        let p = prev[i];
        let nx = next[i];
        proof {
            lemma_unlink(prev@, next@, act, i as int);
            lemma_count_update(act, i as int, n as int);
        }
        next.set(p, nx);
        prev.set(nx, p);
        alive.set(i, false);
        let ghost old_act = act;
        proof {
            act = act.update(i as int, false);
            trace = trace.push(i as int);
            if fun {
                lemma_prev_of(old_act, i as int, p as int);
                lemma_next_of(old_act, i as int, nx as int);
            }
        }
        let ghost eff0 = st.eff.update(i as int, AREA_INFINITY);
        let ghost last1 = last_removed_area;
        let ghost eff1 = if p != 0 {
            eff0.update(
                p as int,
                umax(area_of(area_key, prev_of(act, p as int), p as int, nx as int), last1),
            )
        } else {
            eff0
        };
        let ghost eff2 = if nx != n - 1 {
            eff1.update(
                nx as int,
                umax(area_of(area_key, p as int, nx as int, next_of(act, nx as int)), last1),
            )
        } else {
            eff1
        };
        assert(fun ==> areas@ == eff0);
        remaining = remaining - 1;
        assert(heap_ok(heap@, areas@, gens@, act, -1)) by {
            assert forall|e: HeapEntry| #[trigger]
                heap@.contains(e) && e.gen == gens@[e.idx as int] implies act[e.idx as int]
                && e.idx != -1 && e.key == areas@[e.idx as int] && heap@.count(e) == 1 by {}
            assert forall|j: int| 1 <= j < n - 1 && act[j] && j != -1 implies heap@.contains(
                #[trigger] current(areas@, gens@, j),
            ) by {
                assert(old_act[j]);
                assert(current(areas@, gens@, j) == current(a_before, gens@, j));
            }
        }

        // Recompute neighbors' effective areas.
        if p != 0 {
            assert(prev_ok(prev@, act, p as int));
            let pp = prev[p];
            let a = area_key(pp, p, nx);
            proof {
                if fun {
                    lemma_prev_of(act, p as int, pp as int);
                    lemma_area_of(area_key, pp, p, nx, a);
                }
            }
            let new_area = if a > last_removed_area {
                a
            } else {
                last_removed_area
            };
            let ghost h0 = heap@;
            let ghost g0 = gens@;
            let ghost a0 = areas@;
            areas.set(p, new_area);
            let g = gens[p] + 1;
            gens.set(p, g);
            let e = HeapEntry { key: new_area, idx: p, gen: g };
            assert(!h0.contains(e));
            heap.push(e);
            assert(heap_ok(heap@, areas@, gens@, act, -1)) by {
                assert forall|x: HeapEntry| #[trigger] heap@.contains(x) implies 1 <= x.idx < n - 1
                    && x.gen <= gens@[x.idx as int] by {
                    if x != e {
                        assert(h0.contains(x));
                    }
                }
                assert forall|x: HeapEntry| #[trigger]
                    heap@.contains(x) && x.gen == gens@[x.idx as int] implies act[x.idx as int]
                    && x.idx != -1 && x.key == areas@[x.idx as int] && heap@.count(x) == 1 by {
                    if x != e {
                        assert(h0.contains(x));
                        assert(x.idx != p);
                    }
                }
                assert forall|j: int| 1 <= j < n - 1 && act[j] && j != -1 implies heap@.contains(
                    #[trigger] current(areas@, gens@, j),
                ) by {
                    if j != p {
                        assert(current(areas@, gens@, j) == current(a0, g0, j));
                    } else {
                        assert(current(areas@, gens@, j) == e);
                    }
                }
            }
        }
        assert(fun ==> areas@ == eff1);
        if nx != n - 1 {
            assert(next_ok(next@, act, nx as int));
            let nnx = next[nx];
            let a = area_key(p, nx, nnx);
            proof {
                if fun {
                    lemma_next_of(act, nx as int, nnx as int);
                    lemma_area_of(area_key, p, nx, nnx, a);
                }
            }
            let new_area = if a > last_removed_area {
                a
            } else {
                last_removed_area
            };
            let ghost h0 = heap@;
            let ghost g0 = gens@;
            let ghost a0 = areas@;
            areas.set(nx, new_area);
            let g = gens[nx] + 1;
            gens.set(nx, g);
            let e = HeapEntry { key: new_area, idx: nx, gen: g };
            assert(!h0.contains(e));
            heap.push(e);
            assert(heap_ok(heap@, areas@, gens@, act, -1)) by {
                assert forall|x: HeapEntry| #[trigger] heap@.contains(x) implies 1 <= x.idx < n - 1
                    && x.gen <= gens@[x.idx as int] by {
                    if x != e {
                        assert(h0.contains(x));
                    }
                }
                assert forall|x: HeapEntry| #[trigger]
                    heap@.contains(x) && x.gen == gens@[x.idx as int] implies act[x.idx as int]
                    && x.idx != -1 && x.key == areas@[x.idx as int] && heap@.count(x) == 1 by {
                    if x != e {
                        assert(h0.contains(x));
                        assert(x.idx != nx);
                    }
                }
                assert forall|j: int| 1 <= j < n - 1 && act[j] && j != -1 implies heap@.contains(
                    #[trigger] current(areas@, gens@, j),
                ) by {
                    if j != nx {
                        assert(current(areas@, gens@, j) == current(a0, g0, j));
                    } else {
                        assert(current(areas@, gens@, j) == e);
                    }
                }
            }
        }
        proof {
            if fun {
                assert(areas@ == eff2);
                assert(trace.drop_last() =~= trace0);
                assert(vw_after(area_key, n as int, trace) == vw_remove(area_key, st, i as int));
                assert(valid_trace(area_key, n as int, trace));
            }
        }
    }

    proof {
        if fun {
            vw_removal_is_greedy(area_key, n as int, trace);
            assert(alive@ == survivors(n as int, trace));
        }
    }
    alive
}

} // verus!
