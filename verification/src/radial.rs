//! Radial-distance pre-filter: one pass that keeps a point when it departs far
//! enough from the last kept point.
//!
//! The caller supplies the test `departs(i, last)`: whether point `i` lies at
//! least the radius away (in the value domain) from kept point `last`.
use vstd::prelude::*;

verus! {

/// What `f` answers for point `i` against kept point `last`.
pub open spec fn departs_of<F: Fn(usize, usize) -> bool>(f: &F, i: int, last: int) -> bool {
    choose|b: bool| #[trigger] f.ensures((i as usize, last as usize), b)
}

/// `f` is a function of its arguments (as the floating-point test is).
pub open spec fn departs_functional<F: Fn(usize, usize) -> bool>(f: &F) -> bool {
    forall|args: (usize, usize), b1: bool, b2: bool|
        #[trigger] f.ensures(args, b1) && #[trigger] f.ensures(args, b2) ==> b1 == b2
}

/// The decisions for points `0..k` (point 0 kept), and the last kept point.
pub open spec fn radial_prefix<F: Fn(usize, usize) -> bool>(f: &F, k: int) -> (Seq<bool>, int)
    decreases k,
{
    if k <= 1 {
        (seq![true], 0)
    } else {
        let (s, last) = radial_prefix(f, k - 1);
        let b = departs_of(f, k - 1, last);
        (s.push(b), if b {
            k - 1
        } else {
            last
        })
    }
}

/// The mask of points the filter keeps among `n`: the first and the last
/// always, an interior point when it departs from the last kept point.
pub open spec fn radial_mask<F: Fn(usize, usize) -> bool>(f: &F, n: int) -> Seq<bool> {
    if n <= 0 {
        seq![]
    } else if n == 1 {
        seq![true]
    } else {
        radial_prefix(f, n - 1).0.push(true)
    }
}

proof fn lemma_radial_prefix<F: Fn(usize, usize) -> bool>(f: &F, k: int)
    requires
        k >= 1,
    ensures
        radial_prefix(f, k).0.len() == k,
        0 <= radial_prefix(f, k).1 < k,
    decreases k,
{
    if k > 1 {
        lemma_radial_prefix(f, k - 1);
    }
}

/// O(n) radial pre-filter over `n` points. Returns the mask of kept points;
/// the first and last points are always kept. When `departs` is a function of
/// its arguments the mask is exactly [`radial_mask`].
pub fn radial_select<F: Fn(usize, usize) -> bool>(n: usize, departs: &F) -> (kept: Vec<bool>)
    requires
        forall|i: usize, last: usize| last < i < n ==> #[trigger] departs.requires((i, last)),
    ensures
        kept@.len() == n,
        n >= 1 ==> kept@[0] && kept@[n - 1],
        departs_functional(departs) ==> kept@ == radial_mask(departs, n as int),
{
    let ghost fun = departs_functional(departs);
    let mut kept: Vec<bool> = vec![false; n];
    if n == 0 {
        assert(kept@ =~= radial_mask(departs, n as int));
        return kept;
    }
    kept.set(0, true);
    if n == 1 {
        assert(kept@ =~= radial_mask(departs, n as int));
        return kept;
    }
    kept.set(n - 1, true);

    let mut last_kept: usize = 0;
    let mut i: usize = 1;
    while i < n - 1
        invariant
            n >= 2,
            1 <= i <= n - 1,
            last_kept < i,
            kept@.len() == n,
            kept@[0],
            kept@[n - 1],
            forall|k: int| i <= k < n - 1 ==> !#[trigger] kept@[k],
            forall|i: usize, last: usize| last < i < n ==> #[trigger] departs.requires((i, last)),
            fun == departs_functional(departs),
            fun ==> radial_prefix(departs, i as int).0 == kept@.subrange(0, i as int),
            fun ==> radial_prefix(departs, i as int).1 == last_kept,
        decreases n - 1 - i,
    {
        let ghost before = kept@;
        let b = departs(i, last_kept);
        proof {
            if fun {
                assert(departs.ensures((i, last_kept), b));
                let q = departs_of(departs, i as int, last_kept as int);
                assert(departs.ensures((i, last_kept), q));
            }
        }
        if b {
            kept.set(i, true);
            last_kept = i;
        }
        proof {
            if fun {
                assert(kept@.subrange(0, i + 1) =~= before.subrange(0, i as int).push(b));
            }
        }
        i = i + 1;
    }
    proof {
        if fun {
            assert(kept@ =~= kept@.subrange(0, n - 1).push(true));
        }
    }
    kept
}

} // verus!
