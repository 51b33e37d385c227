//! Time series bookkeeping: input validation, kept-point selection, and the
//! location of a query time among support points.
use crate::error::CpError;
use vstd::arithmetic::div_mod::lemma_fundamental_div_mod_converse;
use vstd::prelude::*;
use vstd::string::StringExecFns;

verus! {

// ─── Specification ──────────────────────────────────────────────────────────

/// Every timestamp is larger than the one before it.
pub open spec fn strictly_increasing(ts: Seq<i64>) -> bool {
    forall|i: int, j: int| 0 <= i < j < ts.len() ==> ts[i] < ts[j]
}

/// Index `i` is the first place where a timestamp does not exceed its predecessor.
pub open spec fn first_unordered_at(ts: Seq<i64>, i: int) -> bool {
    &&& 1 <= i < ts.len()
    &&& ts[i] <= ts[i - 1]
    &&& forall|j: int| 1 <= j < i ==> ts[j - 1] < #[trigger] ts[j]
}

/// The character of decimal digit `d`.
pub open spec fn digit_char(d: nat) -> char {
    (48 + d) as char
}

/// The decimal digits of `n`, most significant first, without leading zeros.
pub open spec fn decimal(n: nat) -> Seq<char>
    decreases n,
{
    if n < 10 {
        seq![digit_char(n)]
    } else {
        decimal(n / 10) + seq![digit_char(n % 10)]
    }
}

/// The items at the positions among the first `k` where the mask is set, in order.
pub open spec fn masked_prefix<T>(items: Seq<T>, mask: Seq<bool>, k: int) -> Seq<T>
    decreases k,
{
    if k <= 0 {
        seq![]
    } else if mask[k - 1] {
        masked_prefix(items, mask, k - 1).push(items[k - 1])
    } else {
        masked_prefix(items, mask, k - 1)
    }
}

/// The items where the mask is set, in order.
pub open spec fn masked<T>(items: Seq<T>, mask: Seq<bool>) -> Seq<T> {
    masked_prefix(items, mask, items.len() as int)
}

/// The number of set entries among the first `k` of a mask.
pub open spec fn count_set(mask: Seq<bool>, k: int) -> nat
    decreases k,
{
    if k <= 0 {
        0
    } else {
        count_set(mask, k - 1) + (if mask[k - 1] { 1nat } else { 0nat })
    }
}

// ─── Executable code ────────────────────────────────────────────────────────

/// The one-character text of decimal digit `d`.
fn digit_str(d: usize) -> (s: &'static str)
    requires
        d < 10,
    ensures
        s@ == seq![digit_char(d as nat)],
{
    match d {
        0 => {
            proof {
                reveal_strlit("0");
            }
            "0"
        },
        1 => {
            proof {
                reveal_strlit("1");
            }
            "1"
        },
        2 => {
            proof {
                reveal_strlit("2");
            }
            "2"
        },
        3 => {
            proof {
                reveal_strlit("3");
            }
            "3"
        },
        4 => {
            proof {
                reveal_strlit("4");
            }
            "4"
        },
        5 => {
            proof {
                reveal_strlit("5");
            }
            "5"
        },
        6 => {
            proof {
                reveal_strlit("6");
            }
            "6"
        },
        7 => {
            proof {
                reveal_strlit("7");
            }
            "7"
        },
        8 => {
            proof {
                reveal_strlit("8");
            }
            "8"
        },
        _ => {
            proof {
                reveal_strlit("9");
            }
            "9"
        },
    }
}

/// Decimal text of `i`.
fn decimal_string(i: usize) -> (s: String)
    ensures
        s@ == decimal(i as nat),
    decreases i,
{
    if i < 10 {
        String::from_str(digit_str(i))
    } else {
        let mut s = decimal_string(i / 10);
        s.append(digit_str(i % 10));
        s
    }
}

/// Validates what the integer part of the input must satisfy: as many
/// timestamps as values, at least one point, timestamps strictly increasing.
pub fn validate_series(timestamps: &[i64], n_values: usize) -> (res: Result<(), CpError>)
    ensures
        res is Ok <==> (timestamps@.len() == n_values && n_values > 0 && strictly_increasing(
            timestamps@,
        )),
        timestamps@.len() != n_values ==> (res matches Err(CpError::BadInput(m))
            && m@ == "timestamps and values have different lengths"@),
        timestamps@.len() == n_values == 0 ==> (res matches Err(CpError::BadInput(m)) && m@
            == "empty input"@),
        timestamps@.len() == n_values > 0 && !strictly_increasing(timestamps@) ==> (res matches Err(
            CpError::BadInput(m),
        ) && exists|i: int|
            first_unordered_at(timestamps@, i) && m@ == "timestamps not strictly increasing at index "@
                + decimal(i as nat)),
{
    let n = timestamps.len();
    if n != n_values {
        return Err(CpError::BadInput("timestamps and values have different lengths".to_owned()));
    }
    if n == 0 {
        return Err(CpError::BadInput("empty input".to_owned()));
    }
    let mut i: usize = 1;
    while i < n
        invariant
            1 <= i <= n,
            n == timestamps@.len(),
            n == n_values,
            forall|j: int| 1 <= j < i ==> timestamps@[j - 1] < #[trigger] timestamps@[j],
        decreases n - i,
    {
        if timestamps[i] <= timestamps[i - 1] {
            let mut m = "timestamps not strictly increasing at index ".to_owned();
            let digits = decimal_string(i);
            m.append(digits.as_str());
            assert(first_unordered_at(timestamps@, i as int));
            return Err(CpError::BadInput(m));
        }
        i = i + 1;
    }
    proof {
        assert forall|a: int, b: int| 0 <= a < b < timestamps@.len() implies timestamps@[a]
            < timestamps@[b] by {
            lemma_adjacent_increasing(timestamps@, a, b);
        }
    }
    Ok(())
}

proof fn lemma_adjacent_increasing(ts: Seq<i64>, a: int, b: int)
    requires
        0 <= a < b < ts.len(),
        forall|j: int| 1 <= j < ts.len() ==> ts[j - 1] < #[trigger] ts[j],
    ensures
        ts[a] < ts[b],
    decreases b - a,
{
    if b > a + 1 {
        lemma_adjacent_increasing(ts, a, b - 1);
    }
}

/// The items at the positions where `mask` is set, in their input order.
pub fn select_kept<T: Copy>(items: &[T], mask: &[bool]) -> (kept: Vec<T>)
    requires
        items@.len() == mask@.len(),
    ensures
        kept@ == masked(items@, mask@),
        kept@.len() == count_set(mask@, mask@.len() as int),
{
    let mut kept: Vec<T> = Vec::new();
    let mut i: usize = 0;
    while i < items.len()
        invariant
            i <= items@.len() == mask@.len(),
            kept@ == masked_prefix(items@, mask@, i as int),
            kept@.len() == count_set(mask@, i as int),
        decreases items@.len() - i,
    {
        if mask[i] {
            kept.push(items[i]);
        }
        i = i + 1;
    }
    kept
}

/// Where a query time falls among support points.
#[derive(Debug, Clone, Copy, PartialEq, Eq, Structural)]
pub enum Bracket {
    /// Outside the support range: the value of this support point holds.
    Clamp(usize),
    /// Strictly inside the segment from this support point to the next.
    Segment(usize),
}

/// Locates `t` among the support timestamps `ts` for linear interpolation.
///
/// - `t` at or before `ts[0]` clamps to the first point, at or after the last
///   timestamp to the last point (flat extrapolation);
/// - otherwise `Segment(j)` with `ts[j] <= t < ts[j + 1]`, found by binary
///   search (for increasing `ts` this `j` is the only such index).
pub fn locate_sample(ts: &[i64], t: i64) -> (res: Result<Bracket, CpError>)
    ensures
        ts@.len() == 0 <==> res is Err,
        res matches Err(e) ==> (e matches CpError::BadInput(m) && m@ == "empty ts"@),
        res matches Ok(b) ==> match b {
            Bracket::Clamp(i) => (i == 0 && t <= ts@[0]) || (i == ts@.len() - 1 && ts@[0] < t
                && t >= ts@[ts@.len() - 1]),
            Bracket::Segment(j) => j + 1 < ts@.len() && ts@[0] < t < ts@[ts@.len() - 1]
                && ts@[j as int] <= t < ts@[j + 1],
        },
{
    if ts.len() == 0 {
        return Err(CpError::BadInput("empty ts".to_owned()));
    }
    let n = ts.len();
    if t <= ts[0] {
        return Ok(Bracket::Clamp(0));
    }
    if t >= ts[n - 1] {
        return Ok(Bracket::Clamp(n - 1));
    }
    // Binary search: keep ts[lo] <= t < ts[hi].
    let mut lo: usize = 0;
    let mut hi: usize = n - 1;
    while hi - lo > 1
        invariant
            n == ts@.len(),
            lo < hi < n,
            ts@[lo as int] <= t < ts@[hi as int],
        decreases hi - lo,
    {
        let mid = lo + (hi - lo) / 2;
        if ts[mid] <= t {
            lo = mid;
        } else {
            hi = mid;
        }
    }
    Ok(Bracket::Segment(lo))
}

/// For increasing support timestamps a query time lies in at most one segment.
pub proof fn segment_unique(ts: Seq<i64>, t: i64, j: int, k: int)
    requires
        strictly_increasing(ts),
        0 <= j,
        j + 1 < ts.len(),
        0 <= k,
        k + 1 < ts.len(),
        ts[j] <= t < ts[j + 1],
        ts[k] <= t < ts[k + 1],
    ensures
        j == k,
{
    if j < k {
        assert(ts[j + 1] <= ts[k]);
    } else if k < j {
        assert(ts[k + 1] <= ts[j]);
    }
}

/// The query times of a regular grid: `t_start`, `t_start + interval_ns`, ...
/// up to `t_end`, after validating the support points and the grid.
///
/// Errors (`BadInput`): no support points, as many timestamps as values
/// missing, a non-positive interval, or `t_end` before `t_start`.
pub fn interpolation_grid(n_ts: usize, n_val: usize, t_start: i64, t_end: i64, interval_ns: i64) -> (res:
    Result<Vec<i64>, CpError>)
    ensures
        res is Ok <==> (n_ts > 0 && n_ts == n_val && interval_ns > 0 && t_start <= t_end),
        n_ts == 0 ==> (res matches Err(CpError::BadInput(m)) && m@ == "empty ts"@),
        n_ts > 0 && n_ts != n_val ==> (res matches Err(CpError::BadInput(m)) && m@
            == "timestamps and values have different lengths"@),
        n_ts > 0 && n_ts == n_val && interval_ns <= 0 ==> (res matches Err(CpError::BadInput(m))
            && m@ == "interval_ns must be positive"@),
        n_ts > 0 && n_ts == n_val && interval_ns > 0 && t_end < t_start ==> (res matches Err(
            CpError::BadInput(m),
        ) && m@ == "t_end before t_start"@),
        res matches Ok(grid) ==> {
            &&& grid@.len() == (t_end - t_start) / (interval_ns as int) + 1
            &&& forall|k: int| 0 <= k < grid@.len() ==> grid@[k] == t_start + k * interval_ns
        },
{
    if n_ts == 0 {
        return Err(CpError::BadInput("empty ts".to_owned()));
    }
    if n_ts != n_val {
        return Err(CpError::BadInput("timestamps and values have different lengths".to_owned()));
    }
    if interval_ns <= 0 {
        return Err(CpError::BadInput("interval_ns must be positive".to_owned()));
    }
    if t_end < t_start {
        return Err(CpError::BadInput("t_end before t_start".to_owned()));
    }
    let mut grid: Vec<i64> = Vec::new();
    let mut t: i64 = t_start;
    let ghost d = t_end - t_start;
    assert(t == t_start + grid@.len() * interval_ns);
    loop
        invariant_except_break
            t_start <= t <= t_end,
            t == t_start + grid@.len() * interval_ns,
        invariant
            interval_ns > 0,
            t_start <= t_end,
            forall|k: int| 0 <= k < grid@.len() ==> grid@[k] == t_start + k * interval_ns,
        ensures
            grid@.len() >= 1,
            t_end - t_start < grid@.len() * interval_ns,
            (grid@.len() - 1) * interval_ns <= t_end - t_start,
            forall|k: int| 0 <= k < grid@.len() ==> grid@[k] == t_start + k * interval_ns,
        decreases t_end - t,
    {
        let ghost k = grid@.len();
        grid.push(t);
        assert(t + interval_ns == t_start + grid@.len() * interval_ns) by (nonlinear_arith)
            requires
                t == t_start + k * interval_ns,
                grid@.len() == k + 1,
        ;
        if (t_end as i128) - (t as i128) < interval_ns as i128 {
            assert(t_end - t_start < grid@.len() * interval_ns);
            assert((grid@.len() - 1) * interval_ns <= t_end - t_start) by (nonlinear_arith)
                requires
                    t == t_start + k * interval_ns,
                    grid@.len() == k + 1,
                    t <= t_end,
            ;
            break;
        }
        t = t + interval_ns;
    }
    proof {
        let n = grid@.len() as int;
        assert(d - (n - 1) * interval_ns < interval_ns) by (nonlinear_arith)
            requires
                d < n * interval_ns,
        ;
        lemma_fundamental_div_mod_converse(
            d,
            interval_ns as int,
            n - 1,
            d - (n - 1) * interval_ns,
        );
    }
    Ok(grid)
}

// ─── Laws ───────────────────────────────────────────────────────────────────

proof fn lemma_masked_prefix_from(ts: Seq<i64>, mask: Seq<bool>, k: int)
    requires
        0 <= k <= ts.len() == mask.len(),
        strictly_increasing(ts),
    ensures
        strictly_increasing(masked_prefix(ts, mask, k)),
        k >= 1 ==> forall|a: int|
            0 <= a < masked_prefix(ts, mask, k).len() ==> #[trigger] masked_prefix(ts, mask, k)[a]
                <= ts[k - 1],
    decreases k,
{
    if k > 0 {
        lemma_masked_prefix_from(ts, mask, k - 1);
        let prev = masked_prefix(ts, mask, k - 1);
        if k >= 2 {
            assert(ts[k - 2] < ts[k - 1]);
        }
        if mask[k - 1] {
            let cur = prev.push(ts[k - 1]);
            assert(masked_prefix(ts, mask, k) == cur);
            assert forall|a: int, b: int| 0 <= a < b < cur.len() implies cur[a] < cur[b] by {
                if b == cur.len() - 1 {
                    assert(cur[a] == prev[a]);
                } else {
                    assert(cur[a] == prev[a] && cur[b] == prev[b]);
                }
            }
            assert forall|a: int| 0 <= a < cur.len() implies cur[a] <= ts[k - 1] by {
                if a < cur.len() - 1 {
                    assert(cur[a] == prev[a]);
                }
            }
        } else {
            assert(masked_prefix(ts, mask, k) == prev);
        }
    }
}

/// Selecting never yields more items than there are.
pub proof fn lemma_masked_len<T>(items: Seq<T>, mask: Seq<bool>, k: int)
    requires
        0 <= k <= items.len() == mask.len(),
    ensures
        masked_prefix(items, mask, k).len() <= k,
    decreases k,
{
    if k > 0 {
        lemma_masked_len(items, mask, k - 1);
    }
}

/// Selecting kept points keeps strictly increasing timestamps strictly increasing.
pub proof fn selection_keeps_order(ts: Seq<i64>, mask: Seq<bool>)
    requires
        ts.len() == mask.len(),
        strictly_increasing(ts),
    ensures
        strictly_increasing(masked(ts, mask)),
{
    lemma_masked_prefix_from(ts, mask, ts.len() as int);
}

proof fn lemma_masked_first_last<T>(items: Seq<T>, mask: Seq<bool>, k: int)
    requires
        1 <= k <= items.len() == mask.len(),
        mask[0],
    ensures
        masked_prefix(items, mask, k).len() >= 1,
        masked_prefix(items, mask, k)[0] == items[0],
        mask[k - 1] ==> masked_prefix(items, mask, k).last() == items[k - 1],
    decreases k,
{
    reveal_with_fuel(masked_prefix, 2);
    if k > 1 {
        lemma_masked_first_last(items, mask, k - 1);
    }
}

/// When both endpoints are marked kept, the selection starts with the first
/// item and ends with the last.
pub proof fn selection_keeps_endpoints<T>(items: Seq<T>, mask: Seq<bool>)
    requires
        items.len() == mask.len(),
        items.len() >= 1,
        mask[0],
        mask[mask.len() - 1],
    ensures
        masked(items, mask).len() >= 1,
        masked(items, mask)[0] == items[0],
        masked(items, mask).last() == items.last(),
{
    lemma_masked_first_last(items, mask, items.len() as int);
}

} // verus!
