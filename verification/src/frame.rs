//! The self-describing byte stream.
//!
//! Binary layout (little-endian):
//! ```text
//! [4]  magic "CPRS"
//! [1]  version (= 1)
//! [1]  flags: bits[0-1]=algo, bit[2]=ts_mode, bits[3-7]=reserved
//! [1]  quant_bits (u8)
//! [1]  reserved (= 0)
//! [8]  val_min   (f64 LE)
//! [8]  val_range (f64 LE)
//! [4]  n_kept    (u32 LE)
//! [4]  n_input   (u32 LE)
//! [.]  payload   (value varint stream, then timestamp stream)
//! ```
//! The two `f64` fields are carried as their IEEE-754 bit patterns. The value
//! stream is the first quantization code as a varint, then the zigzag deltas
//! of consecutive codes. The timestamp stream starts with the first
//! timestamp's bit pattern. In the irregular mode the differences of
//! consecutive timestamps follow; in the regular mode the interval follows
//! (the greatest common divisor of those differences), then each difference
//! counted in intervals (the index stream).
use crate::error::CpError;
use crate::le::{
    le_bytes, le_value, lemma_le_bytes_len, lemma_le_roundtrip, lemma_pow256_values, read_u32_le, read_u64_le, write_u32_le, write_u64_le};
use crate::varint::{
    lemma_leb128_read_at, lemma_leb128_read_prefix, leb128, leb128_read, read_varint, unzigzag, write_varint, zigzag, zigzag_decode, zigzag_encode,
};
use crate::series::{
    lemma_masked_len, masked, selection_keeps_endpoints, selection_keeps_order, strictly_increasing,
};
use crate::{Algo, TsMode};
use vstd::arithmetic::div_mod::*;
use vstd::prelude::*;

verus! {

pub const FORMAT_VERSION: u8 = 1;

pub const HEADER_LEN: usize = 32;

/// The largest quantization width a stream may announce.
pub const MAX_QUANT_BITS: u8 = 32;

// ─── Specification ──────────────────────────────────────────────────────────

/// The magic bytes "CPRS".
pub open spec fn magic() -> Seq<u8> {
    seq![0x43u8, 0x50u8, 0x52u8, 0x53u8]
}

/// The flags byte: the algorithm's code in bits 0-1, bit 2 set for the
/// regular timestamp mode.
pub open spec fn flags_byte(algo: Algo, mode: TsMode) -> u8 {
    match mode {
        TsMode::Regular => (algo.spec_code() + 4) as u8,
        TsMode::Irregular => algo.spec_code(),
    }
}

/// Whether a flags byte has bit 2 (the regular timestamp mode) set.
pub open spec fn regular_flag(flags: u8) -> bool {
    (flags / 4) % 2 == 1
}

/// The 32 header bytes.
pub open spec fn header(
    flags: u8,
    quant_bits: u8,
    val_min_bits: u64,
    val_range_bits: u64,
    n_kept: u32,
    n_input: u32,
) -> Seq<u8> {
    magic() + seq![FORMAT_VERSION, flags, quant_bits, 0u8] + le_bytes(val_min_bits as nat, 8)
        + le_bytes(val_range_bits as nat, 8) + le_bytes(n_kept as nat, 4) + le_bytes(
        n_input as nat,
        4,
    )
}

/// `x` reduced modulo 2^32.
pub open spec fn wrap_u32(x: int) -> u32 {
    (x % 0x1_0000_0000) as u32
}

/// `x` reduced modulo 2^64.
pub open spec fn wrap_u64(x: int) -> u64 {
    (x % 0x1_0000_0000_0000_0000) as u64
}

/// The `i64` whose two's-complement bit pattern is `u`.
pub open spec fn as_signed(u: u64) -> i64 {
    if u <= i64::MAX {
        u as i64
    } else {
        (u - 0x1_0000_0000_0000_0000) as i64
    }
}

/// The `i64` congruent to `x` modulo 2^64.
pub open spec fn wrap_i64(x: int) -> i64 {
    as_signed(wrap_u64(x))
}

/// Varints of the zigzag deltas `codes[i] - codes[i - 1]`, `codes[i + 1] - codes[i]`, ...
pub open spec fn code_delta_bytes(codes: Seq<u32>, i: nat) -> Seq<u8>
    decreases codes.len() - i,
{
    if i == 0 || i >= codes.len() {
        seq![]
    } else {
        leb128(zigzag(codes[i as int] - codes[i - 1]) as u64) + code_delta_bytes(codes, i + 1)
    }
}

/// The difference `ts[i] - ts[i - 1]`, modulo 2^64.
pub open spec fn ts_gap(ts: Seq<i64>, i: int) -> u64 {
    wrap_u64(ts[i] - ts[i - 1])
}

/// The greatest common divisor of `a` and `b` (Euclid); `gcd(a, 0) == a`.
pub open spec fn gcd(a: nat, b: nat) -> nat
    decreases b,
{
    if b == 0 {
        a
    } else {
        gcd(b, a % b)
    }
}

/// The greatest common divisor of the differences `ts_gap(ts, j)` for
/// `0 < j < n`; 0 when there is none.
pub open spec fn gaps_gcd(ts: Seq<i64>, n: int) -> nat
    decreases n,
{
    if n <= 1 {
        0
    } else {
        gcd(gaps_gcd(ts, n - 1), ts_gap(ts, n - 1) as nat)
    }
}

/// The interval of the regular timestamp mode: the largest step that divides
/// every difference of consecutive timestamps.
pub open spec fn ts_interval(ts: Seq<i64>) -> nat {
    gaps_gcd(ts, ts.len() as int)
}

/// How many steps of `unit` make up `gap` (0 for a zero unit).
pub open spec fn step_count(gap: u64, unit: nat) -> nat {
    if unit == 0 {
        0
    } else {
        gap as nat / unit
    }
}

/// Varints of the differences from `ts[i] - ts[i - 1]` on, each counted in
/// steps of `unit`; with `unit == 1` they are the differences themselves.
pub open spec fn ts_step_bytes(ts: Seq<i64>, i: nat, unit: nat) -> Seq<u8>
    decreases ts.len() - i,
{
    if i == 0 || i >= ts.len() {
        seq![]
    } else {
        leb128(step_count(ts_gap(ts, i as int), unit) as u64) + ts_step_bytes(ts, i + 1, unit)
    }
}

/// The timestamp stream: the first timestamp's bit pattern, then the
/// differences (irregular), or the interval and the differences counted in
/// intervals (regular).
pub open spec fn ts_stream_bytes(ts: Seq<i64>, mode: TsMode) -> Seq<u8> {
    leb128(wrap_u64(ts[0] as int)) + match mode {
        TsMode::Irregular => ts_step_bytes(ts, 1, 1),
        TsMode::Regular => leb128(ts_interval(ts) as u64) + ts_step_bytes(ts, 1, ts_interval(ts)),
    }
}

/// The payload: value stream, then timestamp stream.
pub open spec fn payload_bytes(codes: Seq<u32>, ts: Seq<i64>, mode: TsMode) -> Seq<u8> {
    leb128(codes[0] as u64) + code_delta_bytes(codes, 1) + ts_stream_bytes(ts, mode)
}

/// The whole stream for quantization codes `codes` at timestamps `ts`.
pub open spec fn frame_bytes(
    algo: Algo,
    mode: TsMode,
    quant_bits: u8,
    val_min_bits: u64,
    val_range_bits: u64,
    codes: Seq<u32>,
    ts: Seq<i64>,
    n_input: u32,
) -> Seq<u8> {
    header(flags_byte(algo, mode), quant_bits, val_min_bits, val_range_bits, codes.len() as u32, n_input)
        + payload_bytes(codes, ts, mode)
}

/// What a stream holds: the quantization parameters, codes and timestamps.
pub struct FrameView {
    pub quant_bits: u32,
    pub val_min_bits: u64,
    pub val_range_bits: u64,
    pub codes: Seq<u32>,
    pub timestamps: Seq<i64>,
}

/// Prepends `s` to a parse result.
pub open spec fn prepend<T>(s: Seq<T>, r: Option<(Seq<T>, int)>) -> Option<(Seq<T>, int)> {
    match r {
        Some((rest, end)) => Some((s + rest, end)),
        None => None,
    }
}

/// Parses `count` varint zigzag deltas from `pos` on, each applied (modulo
/// 2^32) to the code before it, starting from `prev`.
pub open spec fn parse_code_deltas(data: Seq<u8>, pos: int, count: nat, prev: u32) -> Option<
    (Seq<u32>, int),
>
    decreases count,
{
    if count == 0 {
        Some((seq![], pos))
    } else {
        match leb128_read(data, pos).0 {
            None => None,
            Some(d) => {
                let code = wrap_u32(prev + unzigzag(d as int));
                prepend(
                    seq![code],
                    parse_code_deltas(data, leb128_read(data, pos).1, (count - 1) as nat, code),
                )
            },
        }
    }
}

/// Parses `count` varint step counts from `pos` on, each multiplied by `unit`
/// and added (modulo 2^64) to the timestamp before it, starting from `prev`.
pub open spec fn parse_ts_steps(data: Seq<u8>, pos: int, count: nat, prev: i64, unit: u64) -> Option<
    (Seq<i64>, int),
>
    decreases count,
{
    if count == 0 {
        Some((seq![], pos))
    } else {
        match leb128_read(data, pos).0 {
            None => None,
            Some(d) => {
                let t = wrap_i64(prev + d * unit);
                prepend(
                    seq![t],
                    parse_ts_steps(data, leb128_read(data, pos).1, (count - 1) as nat, t, unit),
                )
            },
        }
    }
}

/// The number of kept points that a header announces.
pub open spec fn header_n_kept(data: Seq<u8>) -> nat {
    le_value(data.subrange(24, 28))
}

/// The unit of the step counts that follow the first timestamp, read at
/// `pos`: the interval for a regular stream, 1 otherwise.
pub open spec fn read_unit(data: Seq<u8>, pos: int) -> (Option<u64>, int) {
    if regular_flag(data[5]) {
        leb128_read(data, pos)
    } else {
        (Some(1u64), pos)
    }
}

/// Decoding of a whole stream; `None` when it is corrupt, truncated or
/// announces a quantization width over [`MAX_QUANT_BITS`].
pub open spec fn parse_frame(data: Seq<u8>) -> Option<FrameView> {
    let n_kept = header_n_kept(data);
    if data.len() < HEADER_LEN || data.subrange(0, 4) != magic() || data[4] != FORMAT_VERSION
        || data[6] > MAX_QUANT_BITS || n_kept == 0 {
        None
    } else {
        match leb128_read(data, HEADER_LEN as int).0 {
            None => None,
            Some(c0) => {
                let first = wrap_u32(c0 as int);
                match parse_code_deltas(
                    data,
                    leb128_read(data, HEADER_LEN as int).1,
                    (n_kept - 1) as nat,
                    first,
                ) {
                    None => None,
                    Some((codes, p)) => match leb128_read(data, p).0 {
                        None => None,
                        Some(t0) => {
                            let ts0 = as_signed(t0);
                            let u = read_unit(data, leb128_read(data, p).1);
                            match u.0 {
                                None => None,
                                Some(unit) => match parse_ts_steps(
                                    data,
                                    u.1,
                                    (n_kept - 1) as nat,
                                    ts0,
                                    unit,
                                ) {
                                    None => None,
                                    Some((ts, _)) => Some(
                                        FrameView {
                                            quant_bits: data[6] as u32,
                                            val_min_bits: le_value(data.subrange(8, 16)) as u64,
                                            val_range_bits: le_value(data.subrange(16, 24)) as u64,
                                            codes: seq![first] + codes,
                                            timestamps: seq![ts0] + ts,
                                        },
                                    ),
                                },
                            }
                        },
                    },
                }
            },
        }
    }
}

// ─── Laws ───────────────────────────────────────────────────────────────────

proof fn lemma_wrap_i64_identity(b: i64)
    ensures
        wrap_i64(b as int) == b,
{
    if b < 0 {
        lemma_mod_add_multiples_vanish(b as int, 0x1_0000_0000_0000_0000);
        lemma_small_mod((b + 0x1_0000_0000_0000_0000) as nat, 0x1_0000_0000_0000_0000);
    } else {
        lemma_small_mod(b as nat, 0x1_0000_0000_0000_0000);
    }
}

proof fn lemma_ts_step(a: i64, b: i64)
    ensures
        wrap_i64(a + wrap_u64(b - a)) == b,
{
    lemma_add_mod_noop_right(a as int, b - a, 0x1_0000_0000_0000_0000);
    lemma_mod_bound(b - a, 0x1_0000_0000_0000_0000);
    assert(wrap_u64(b - a) as int == (b - a) % 0x1_0000_0000_0000_0000);
    assert(wrap_u64(a + wrap_u64(b - a)) == wrap_u64(b as int));
    lemma_wrap_i64_identity(b);
}

/// `g` divides `x` (only 0 is a multiple of 0).
pub open spec fn divides(g: nat, x: nat) -> bool {
    if g == 0 {
        x == 0
    } else {
        x % g == 0
    }
}

proof fn lemma_divides_sum(g: nat, b: nat, r: nat, q: nat)
    requires
        g > 0,
        b % g == 0,
        r % g == 0,
    ensures
        (q * b + r) % g == 0,
{
    lemma_fundamental_div_mod(b as int, g as int);
    lemma_fundamental_div_mod(r as int, g as int);
    let k = q * (b / g) + r / g;
    assert(q * b + r == k * g) by (nonlinear_arith)
        requires
            b == g * (b / g) + 0,
            r == g * (r / g) + 0,
            k == q * (b / g) + r / g,
    ;
    lemma_mod_multiples_basic(k as int, g as int);
}

proof fn lemma_gcd_divides(a: nat, b: nat)
    ensures
        divides(gcd(a, b), a),
        divides(gcd(a, b), b),
    decreases b,
{
    if b == 0 {
        if a > 0 {
            lemma_mod_self_0(a as int);
            lemma_small_mod(0, a);
        }
    } else {
        let r = a % b;
        lemma_gcd_divides(b, r);
        let g = gcd(b, r);
        assert(gcd(a, b) == g);
        lemma_fundamental_div_mod(a as int, b as int);
        lemma_divides_sum(g, b, r, a / b);
        assert(a == (a / b) * b + r) by (nonlinear_arith)
            requires
                a == b * (a / b) + r,
        ;
    }
}

proof fn lemma_divides_trans(g: nat, h: nat, x: nat)
    requires
        divides(g, h),
        divides(h, x),
    ensures
        divides(g, x),
{
    if h == 0 {
        if g > 0 {
            lemma_small_mod(0, g);
        }
    } else {
        lemma_divides_sum(g, h, 0, x / h);
        lemma_fundamental_div_mod(x as int, h as int);
        assert(x == (x / h) * h + 0) by (nonlinear_arith)
            requires
                x == h * (x / h) + 0,
        ;
    }
}

proof fn lemma_gcd_bound(a: nat, b: nat)
    ensures
        gcd(a, b) <= if a < b { b } else { a },
    decreases b,
{
    if b > 0 {
        lemma_gcd_bound(b, a % b);
    }
}

proof fn lemma_gaps_gcd(ts: Seq<i64>, n: int)
    requires
        n <= ts.len(),
    ensures
        gaps_gcd(ts, n) <= u64::MAX,
        forall|j: int| 1 <= j < n ==> divides(gaps_gcd(ts, n), #[trigger] ts_gap(ts, j) as nat),
    decreases n,
{
    if n > 1 {
        lemma_gaps_gcd(ts, n - 1);
        let prev = gaps_gcd(ts, n - 1);
        let gap = ts_gap(ts, n - 1) as nat;
        lemma_gcd_divides(prev, gap);
        lemma_gcd_bound(prev, gap);
        assert forall|j: int| 1 <= j < n implies divides(
            gaps_gcd(ts, n),
            #[trigger] ts_gap(ts, j) as nat,
        ) by {
            if j < n - 1 {
                lemma_divides_trans(gaps_gcd(ts, n), prev, ts_gap(ts, j) as nat);
            }
        }
    }
}

/// Every difference of consecutive timestamps is a whole number of `unit`s.
pub open spec fn unit_divides_gaps(ts: Seq<i64>, unit: nat) -> bool {
    forall|j: int|
        1 <= j < ts.len() ==> step_count(#[trigger] ts_gap(ts, j), unit) * unit == ts_gap(ts, j)
}

proof fn lemma_step_count(gap: u64, unit: nat)
    requires
        divides(unit, gap as nat),
    ensures
        step_count(gap, unit) * unit == gap,
        step_count(gap, unit) <= gap,
{
    if unit > 0 {
        lemma_fundamental_div_mod(gap as int, unit as int);
        let s = step_count(gap, unit);
        assert(s * unit == gap && s <= gap) by (nonlinear_arith)
            requires
                gap == unit * s + 0,
                unit > 0,
                s >= 0,
        ;
    }
}

/// The interval of the regular mode fits a `u64` and divides every
/// difference of consecutive timestamps.
pub proof fn interval_divides_gaps(ts: Seq<i64>)
    ensures
        ts_interval(ts) <= u64::MAX,
        unit_divides_gaps(ts, ts_interval(ts)),
{
    lemma_gaps_gcd(ts, ts.len() as int);
    assert forall|j: int| 1 <= j < ts.len() implies step_count(
        #[trigger] ts_gap(ts, j),
        ts_interval(ts),
    ) * ts_interval(ts) == ts_gap(ts, j) by {
        lemma_step_count(ts_gap(ts, j), ts_interval(ts));
    }
}

proof fn lemma_unit_one_divides(ts: Seq<i64>)
    ensures
        unit_divides_gaps(ts, 1),
{
    assert forall|j: int| 1 <= j < ts.len() implies step_count(#[trigger] ts_gap(ts, j), 1) * 1
        == ts_gap(ts, j) by {
        lemma_mod_multiples_basic(ts_gap(ts, j) as int, 1);
        lemma_step_count(ts_gap(ts, j), 1);
    }
}

proof fn lemma_code_deltas(codes: Seq<u32>, i: nat, data: Seq<u8>, pos: int)
    requires
        1 <= i <= codes.len(),
        0 <= pos,
        pos + code_delta_bytes(codes, i).len() <= data.len(),
        data.subrange(pos, pos + code_delta_bytes(codes, i).len()) == code_delta_bytes(codes, i),
    ensures
        parse_code_deltas(data, pos, (codes.len() - i) as nat, codes[i - 1]) == Some(
            (codes.subrange(i as int, codes.len() as int), pos + code_delta_bytes(codes, i).len()),
        ),
    decreases codes.len() - i,
{
    if i < codes.len() {
        let z = zigzag(codes[i as int] - codes[i - 1]) as u64;
        let bytes = code_delta_bytes(codes, i);
        let rest = code_delta_bytes(codes, i + 1);
        assert(bytes == leb128(z) + rest);
        assert(data.subrange(pos, pos + leb128(z).len()) =~= bytes.subrange(
            0,
            leb128(z).len() as int,
        ));
        assert(bytes.subrange(0, leb128(z).len() as int) =~= leb128(z));
        assert(bytes.subrange(leb128(z).len() as int, bytes.len() as int) =~= rest);
        lemma_leb128_read_at(z, data, pos);
        let p2 = pos + leb128(z).len();
        assert(data.subrange(p2, p2 + rest.len()) =~= bytes.subrange(
            leb128(z).len() as int,
            bytes.len() as int,
        ));
        lemma_small_mod(codes[i as int] as nat, 0x1_0000_0000);
        assert(wrap_u32(codes[i - 1] + unzigzag(z as int)) == codes[i as int]);
        lemma_code_deltas(codes, i + 1, data, p2);
        assert(seq![codes[i as int]] + codes.subrange(i + 1 as int, codes.len() as int) =~= codes.subrange(
            i as int,
            codes.len() as int,
        ));
    } else {
        assert(codes.subrange(i as int, codes.len() as int) =~= Seq::<u32>::empty());
    }
}

proof fn lemma_ts_steps(ts: Seq<i64>, i: nat, data: Seq<u8>, pos: int, unit: u64)
    requires
        1 <= i <= ts.len(),
        0 <= pos,
        unit_divides_gaps(ts, unit as nat),
        pos + ts_step_bytes(ts, i, unit as nat).len() <= data.len(),
        data.subrange(pos, pos + ts_step_bytes(ts, i, unit as nat).len()) == ts_step_bytes(
            ts,
            i,
            unit as nat,
        ),
    ensures
        parse_ts_steps(data, pos, (ts.len() - i) as nat, ts[i - 1], unit) == Some(
            (ts.subrange(i as int, ts.len() as int), pos + ts_step_bytes(ts, i, unit as nat).len()),
        ),
    decreases ts.len() - i,
{
    if i < ts.len() {
        let gap = ts_gap(ts, i as int);
        let s = step_count(gap, unit as nat);
        assert(s * unit == gap);
        assert(s <= gap) by (nonlinear_arith)
            requires
                s * unit == gap,
                unit > 0 || s == 0,
                s >= 0,
        ;
        let d = s as u64;
        let bytes = ts_step_bytes(ts, i, unit as nat);
        let rest = ts_step_bytes(ts, i + 1, unit as nat);
        assert(bytes == leb128(d) + rest);
        assert(data.subrange(pos, pos + leb128(d).len()) =~= bytes.subrange(
            0,
            leb128(d).len() as int,
        ));
        assert(bytes.subrange(0, leb128(d).len() as int) =~= leb128(d));
        assert(bytes.subrange(leb128(d).len() as int, bytes.len() as int) =~= rest);
        lemma_leb128_read_at(d, data, pos);
        let p2 = pos + leb128(d).len();
        assert(data.subrange(p2, p2 + rest.len()) =~= bytes.subrange(
            leb128(d).len() as int,
            bytes.len() as int,
        ));
        lemma_ts_step(ts[i - 1], ts[i as int]);
        assert(wrap_i64(ts[i - 1] + d * unit) == ts[i as int]);
        lemma_ts_steps(ts, i + 1, data, p2, unit);
        assert(seq![ts[i as int]] + ts.subrange(i + 1 as int, ts.len() as int) =~= ts.subrange(
            i as int,
            ts.len() as int,
        ));
    } else {
        assert(ts.subrange(i as int, ts.len() as int) =~= Seq::<i64>::empty());
    }
}

/// The unit of the step counts in the timestamp stream of `mode`.
pub open spec fn stream_unit(ts: Seq<i64>, mode: TsMode) -> u64 {
    match mode {
        TsMode::Irregular => 1,
        TsMode::Regular => ts_interval(ts) as u64,
    }
}

/// The bytes that carry the unit in the timestamp stream of `mode`.
pub open spec fn unit_bytes(ts: Seq<i64>, mode: TsMode) -> Seq<u8> {
    match mode {
        TsMode::Irregular => seq![],
        TsMode::Regular => leb128(ts_interval(ts) as u64),
    }
}

proof fn lemma_header_fields(
    flags: u8,
    quant_bits: u8,
    val_min_bits: u64,
    val_range_bits: u64,
    n_kept: u32,
    n_input: u32,
    data: Seq<u8>,
)
    requires
        32 <= data.len(),
        data.subrange(0, 32) == header(flags, quant_bits, val_min_bits, val_range_bits, n_kept, n_input),
    ensures
        data.subrange(0, 4) == magic(),
        data[4] == FORMAT_VERSION,
        data[5] == flags,
        data[6] == quant_bits,
        le_value(data.subrange(8, 16)) == val_min_bits,
        le_value(data.subrange(16, 24)) == val_range_bits,
        header_n_kept(data) == n_kept,
{
    let h = header(flags, quant_bits, val_min_bits, val_range_bits, n_kept, n_input);
    lemma_le_bytes_len(val_min_bits as nat, 8);
    lemma_le_bytes_len(val_range_bits as nat, 8);
    lemma_le_bytes_len(n_kept as nat, 4);
    lemma_le_bytes_len(n_input as nat, 4);
    let hs = data.subrange(0, 32);
    assert(data[4] == hs[4] && data[5] == hs[5] && data[6] == hs[6]);
    assert(data.subrange(0, 4) =~= hs.subrange(0, 4));
    assert(hs.subrange(0, 4) =~= magic());
    assert(data.subrange(8, 16) =~= hs.subrange(8, 16));
    assert(hs.subrange(8, 16) =~= le_bytes(val_min_bits as nat, 8));
    assert(data.subrange(16, 24) =~= hs.subrange(16, 24));
    assert(hs.subrange(16, 24) =~= le_bytes(val_range_bits as nat, 8));
    assert(data.subrange(24, 28) =~= hs.subrange(24, 28));
    assert(hs.subrange(24, 28) =~= le_bytes(n_kept as nat, 4));
    lemma_pow256_values();
    lemma_le_roundtrip(val_min_bits as nat, 8);
    lemma_le_roundtrip(val_range_bits as nat, 8);
    lemma_le_roundtrip(n_kept as nat, 4);
}

proof fn lemma_value_stages(codes: Seq<u32>, data: Seq<u8>, p0: int)
    requires
        1 <= codes.len(),
        0 <= p0,
        p0 + leb128(codes[0] as u64).len() + code_delta_bytes(codes, 1).len() <= data.len(),
        data.subrange(p0, p0 + leb128(codes[0] as u64).len() + code_delta_bytes(codes, 1).len())
            == leb128(codes[0] as u64) + code_delta_bytes(codes, 1),
    ensures
        ({
            let p1 = p0 + leb128(codes[0] as u64).len();
            &&& leb128_read(data, p0) == (Some(codes[0] as u64), p1)
            &&& wrap_u32(codes[0] as int) == codes[0]
            &&& parse_code_deltas(data, p1, (codes.len() - 1) as nat, codes[0]) == Some(
                (codes.subrange(1, codes.len() as int), p1 + code_delta_bytes(codes, 1).len()),
            )
        }),
{
    let l0 = leb128(codes[0] as u64);
    let cd = code_delta_bytes(codes, 1);
    let whole = l0 + cd;
    assert(data.subrange(p0, p0 + l0.len()) =~= whole.subrange(0, l0.len() as int));
    assert(whole.subrange(0, l0.len() as int) =~= l0);
    lemma_leb128_read_at(codes[0] as u64, data, p0);
    lemma_small_mod(codes[0] as nat, 0x1_0000_0000);
    let p1 = p0 + l0.len();
    assert(data.subrange(p1, p1 + cd.len()) =~= whole.subrange(l0.len() as int, whole.len() as int));
    assert(whole.subrange(l0.len() as int, whole.len() as int) =~= cd);
    lemma_code_deltas(codes, 1, data, p1);
}

proof fn lemma_ts_stages(ts: Seq<i64>, mode: TsMode, data: Seq<u8>, p2: int)
    requires
        1 <= ts.len(),
        6 <= p2,
        p2 + ts_stream_bytes(ts, mode).len() <= data.len(),
        data.subrange(p2, p2 + ts_stream_bytes(ts, mode).len()) == ts_stream_bytes(ts, mode),
        regular_flag(data[5]) <==> mode == TsMode::Regular,
    ensures
        ({
            let p3 = p2 + leb128(wrap_u64(ts[0] as int)).len();
            let p4 = p3 + unit_bytes(ts, mode).len();
            let unit = stream_unit(ts, mode);
            &&& leb128_read(data, p2) == (Some(wrap_u64(ts[0] as int)), p3)
            &&& as_signed(wrap_u64(ts[0] as int)) == ts[0]
            &&& read_unit(data, p3) == (Some(unit), p4)
            &&& parse_ts_steps(data, p4, (ts.len() - 1) as nat, ts[0], unit) == Some(
                (ts.subrange(1, ts.len() as int), p2 + ts_stream_bytes(ts, mode).len()),
            )
        }),
{
    let lt = leb128(wrap_u64(ts[0] as int));
    let unit = stream_unit(ts, mode);
    let lu = unit_bytes(ts, mode);
    let td = ts_step_bytes(ts, 1, unit as nat);
    interval_divides_gaps(ts);
    lemma_unit_one_divides(ts);
    assert(unit_divides_gaps(ts, unit as nat));
    let whole = ts_stream_bytes(ts, mode);
    assert(whole =~= lt + lu + td);
    assert(data.subrange(p2, p2 + lt.len()) =~= whole.subrange(0, lt.len() as int));
    assert(whole.subrange(0, lt.len() as int) =~= lt);
    lemma_leb128_read_at(wrap_u64(ts[0] as int), data, p2);
    lemma_wrap_i64_identity(ts[0]);
    let p3 = p2 + lt.len();
    if mode == TsMode::Regular {
        assert(data.subrange(p3, p3 + lu.len()) =~= whole.subrange(
            lt.len() as int,
            (lt.len() + lu.len()) as int,
        ));
        assert(whole.subrange(lt.len() as int, (lt.len() + lu.len()) as int) =~= lu);
        lemma_leb128_read_at(unit, data, p3);
    }
    let p4 = p3 + lu.len();
    assert(data.subrange(p4, p4 + td.len()) =~= whole.subrange(
        (lt.len() + lu.len()) as int,
        whole.len() as int,
    ));
    assert(whole.subrange((lt.len() + lu.len()) as int, whole.len() as int) =~= td);
    lemma_ts_steps(ts, 1, data, p4, unit);
}

/// Decoding a stream that [`encode_frame`] produced gives back the quantizer
/// parameters, every code and every timestamp, in either timestamp mode,
/// whatever the header's algorithm and input count and whatever bytes follow
/// the stream, as long as the kept count fits the header's `u32` and the
/// quantization width is at most [`MAX_QUANT_BITS`].
pub proof fn frame_roundtrip(
    algo: Algo,
    mode: TsMode,
    quant_bits: u8,
    val_min_bits: u64,
    val_range_bits: u64,
    codes: Seq<u32>,
    ts: Seq<i64>,
    n_input: u32,
    after: Seq<u8>,
)
    requires
        codes.len() == ts.len(),
        1 <= codes.len() <= u32::MAX,
        quant_bits <= MAX_QUANT_BITS,
    ensures
        parse_frame(
            frame_bytes(algo, mode, quant_bits, val_min_bits, val_range_bits, codes, ts, n_input)
                + after,
        ) == Some(
            FrameView {
                quant_bits: quant_bits as u32,
                val_min_bits,
                val_range_bits,
                codes,
                timestamps: ts,
            },
        ),
{
    let n = codes.len();
    let data = frame_bytes(algo, mode, quant_bits, val_min_bits, val_range_bits, codes, ts, n_input)
        + after;
    let fb = frame_bytes(algo, mode, quant_bits, val_min_bits, val_range_bits, codes, ts, n_input);
    assert(data.subrange(0, fb.len() as int) =~= fb);
    lemma_frame_stages(algo, mode, quant_bits, val_min_bits, val_range_bits, codes, ts, n_input, data);
    assert(seq![codes[0]] + codes.subrange(1, n as int) =~= codes);
    assert(seq![ts[0]] + ts.subrange(1, n as int) =~= ts);
}

/// Where each part of a stream that [`encode_frame`] produced ends, and what
/// parsing each part yields, when `data` starts with that stream.
proof fn lemma_frame_stages(
    algo: Algo,
    mode: TsMode,
    quant_bits: u8,
    val_min_bits: u64,
    val_range_bits: u64,
    codes: Seq<u32>,
    ts: Seq<i64>,
    n_input: u32,
    data: Seq<u8>,
)
    requires
        codes.len() == ts.len(),
        1 <= codes.len() <= u32::MAX,
        data.len() >= frame_bytes(algo, mode, quant_bits, val_min_bits, val_range_bits, codes, ts, n_input).len(),
        data.subrange(0, frame_bytes(algo, mode, quant_bits, val_min_bits, val_range_bits, codes, ts, n_input).len() as int)
            == frame_bytes(algo, mode, quant_bits, val_min_bits, val_range_bits, codes, ts, n_input),
    ensures
        ({
            let n = codes.len();
            let p1: int = 32 + leb128(codes[0] as u64).len() as int;
            let p2: int = p1 + code_delta_bytes(codes, 1).len();
            let p3: int = p2 + leb128(wrap_u64(ts[0] as int)).len();
            let p4: int = p3 + unit_bytes(ts, mode).len();
            let unit = stream_unit(ts, mode);
            let end = frame_bytes(algo, mode, quant_bits, val_min_bits, val_range_bits, codes, ts, n_input).len() as int;
            &&& data.subrange(0, 4) == magic()
            &&& data[4] == FORMAT_VERSION
            &&& data[6] == quant_bits
            &&& le_value(data.subrange(8, 16)) == val_min_bits
            &&& le_value(data.subrange(16, 24)) == val_range_bits
            &&& header_n_kept(data) == n
            &&& leb128_read(data, 32) == (Some(codes[0] as u64), p1)
            &&& wrap_u32(codes[0] as int) == codes[0]
            &&& parse_code_deltas(data, p1, (n - 1) as nat, codes[0]) == Some(
                (codes.subrange(1, n as int), p2),
            )
            &&& leb128_read(data, p2) == (Some(wrap_u64(ts[0] as int)), p3)
            &&& as_signed(wrap_u64(ts[0] as int)) == ts[0]
            &&& read_unit(data, p3) == (Some(unit), p4)
            &&& parse_ts_steps(data, p4, (n - 1) as nat, ts[0], unit) == Some(
                (ts.subrange(1, n as int), end),
            )
            &&& 32 < p1 <= p2 < p3 <= p4 <= end
        }),
{
    let n = codes.len();
    let flags = flags_byte(algo, mode);
    let h = header(flags, quant_bits, val_min_bits, val_range_bits, n as u32, n_input);
    let vs = leb128(codes[0] as u64) + code_delta_bytes(codes, 1);
    let tsb = ts_stream_bytes(ts, mode);
    let fb = frame_bytes(algo, mode, quant_bits, val_min_bits, val_range_bits, codes, ts, n_input);
    lemma_le_bytes_len(val_min_bits as nat, 8);
    lemma_le_bytes_len(val_range_bits as nat, 8);
    lemma_le_bytes_len(n as nat, 4);
    lemma_le_bytes_len(n_input as nat, 4);
    assert(h.len() == 32);
    assert(fb =~= h + vs + tsb);
    assert(data.subrange(0, 32) =~= fb.subrange(0, 32));
    assert(fb.subrange(0, 32) =~= h);
    lemma_header_fields(flags, quant_bits, val_min_bits, val_range_bits, n as u32, n_input, data);
    assert(regular_flag(data[5]) <==> mode == TsMode::Regular);
    assert(data.subrange(32, 32 + vs.len() as int) =~= fb.subrange(32, 32 + vs.len() as int));
    assert(fb.subrange(32, 32 + vs.len() as int) =~= vs);
    lemma_value_stages(codes, data, 32);
    let p2: int = 32 + vs.len() as int;
    assert(data.subrange(p2, p2 + tsb.len()) =~= fb.subrange(p2, fb.len() as int));
    assert(fb.subrange(p2, fb.len() as int) =~= tsb);
    lemma_ts_stages(ts, mode, data, p2);
    assert(leb128(wrap_u64(ts[0] as int)).len() > 0);
    assert(leb128(codes[0] as u64).len() > 0);
}

proof fn lemma_code_deltas_prefix(data: Seq<u8>, pos: int, count: nat, prev: u32, k: int)
    requires
        0 <= k <= data.len(),
        0 <= pos,
        parse_code_deltas(data, pos, count, prev) is Some,
    ensures
        ({
            let end = parse_code_deltas(data, pos, count, prev).unwrap().1;
            &&& end >= pos
            &&& count == 0 ==> end == pos
            &&& end <= k ==> parse_code_deltas(data.take(k), pos, count, prev) == parse_code_deltas(
                data,
                pos,
                count,
                prev,
            )
            &&& end > k && count > 0 ==> parse_code_deltas(data.take(k), pos, count, prev) is None
        }),
    decreases count,
{
    if count > 0 {
        let d = leb128_read(data, pos).0.unwrap();
        let q = leb128_read(data, pos).1;
        let code = wrap_u32(prev + unzigzag(d as int));
        lemma_leb128_read_prefix(data, pos, k);
        assert(parse_code_deltas(data, q, (count - 1) as nat, code) is Some);
        lemma_code_deltas_prefix(data, q, (count - 1) as nat, code, k);
        assert(parse_code_deltas(data, pos, count, prev).unwrap().1 == parse_code_deltas(
            data,
            q,
            (count - 1) as nat,
            code,
        ).unwrap().1);
    }
}

proof fn lemma_ts_steps_prefix(data: Seq<u8>, pos: int, count: nat, prev: i64, unit: u64, k: int)
    requires
        0 <= k <= data.len(),
        0 <= pos,
        parse_ts_steps(data, pos, count, prev, unit) is Some,
    ensures
        ({
            let end = parse_ts_steps(data, pos, count, prev, unit).unwrap().1;
            &&& end >= pos
            &&& count == 0 ==> end == pos
            &&& end <= k ==> parse_ts_steps(data.take(k), pos, count, prev, unit)
                == parse_ts_steps(data, pos, count, prev, unit)
            &&& end > k && count > 0 ==> parse_ts_steps(data.take(k), pos, count, prev, unit) is None
        }),
    decreases count,
{
    if count > 0 {
        let d = leb128_read(data, pos).0.unwrap();
        let q = leb128_read(data, pos).1;
        let t = wrap_i64(prev + d * unit);
        lemma_leb128_read_prefix(data, pos, k);
        assert(parse_ts_steps(data, q, (count - 1) as nat, t, unit) is Some);
        lemma_ts_steps_prefix(data, q, (count - 1) as nat, t, unit, k);
        assert(parse_ts_steps(data, pos, count, prev, unit).unwrap().1 == parse_ts_steps(
            data,
            q,
            (count - 1) as nat,
            t,
            unit,
        ).unwrap().1);
    }
}

/// Every proper prefix of a stream that [`encode_frame`] produced is
/// rejected: a truncated stream never decodes.
#[verifier::spinoff_prover]
#[verifier::rlimit(40)]
pub proof fn truncated_frame_rejected(
    algo: Algo,
    mode: TsMode,
    quant_bits: u8,
    val_min_bits: u64,
    val_range_bits: u64,
    codes: Seq<u32>,
    ts: Seq<i64>,
    n_input: u32,
    k: int,
)
    requires
        codes.len() == ts.len(),
        1 <= codes.len() <= u32::MAX,
        0 <= k < frame_bytes(
            algo,
            mode,
            quant_bits,
            val_min_bits,
            val_range_bits,
            codes,
            ts,
            n_input,
        ).len(),
    ensures
        parse_frame(
            frame_bytes(algo, mode, quant_bits, val_min_bits, val_range_bits, codes, ts, n_input)
                .take(k),
        ) is None,
{
    let fb = frame_bytes(algo, mode, quant_bits, val_min_bits, val_range_bits, codes, ts, n_input);
    let d = fb.take(k);
    if k >= 32 {
        let n = codes.len();
        assert(fb.subrange(0, fb.len() as int) =~= fb);
        lemma_frame_stages(algo, mode, quant_bits, val_min_bits, val_range_bits, codes, ts, n_input, fb);
        let p1: int = 32 + leb128(codes[0] as u64).len() as int;
        let p2: int = p1 + code_delta_bytes(codes, 1).len();
        let p3: int = p2 + leb128(wrap_u64(ts[0] as int)).len();
        let p4: int = p3 + unit_bytes(ts, mode).len();
        let unit = stream_unit(ts, mode);
        assert(d.subrange(0, 4) =~= fb.subrange(0, 4));
        assert(d[4] == fb[4] && d[5] == fb[5] && d[6] == fb[6]);
        assert(d.subrange(24, 28) =~= fb.subrange(24, 28));
        assert(header_n_kept(d) == n);
        lemma_leb128_read_prefix(fb, 32, k);
        if k >= p1 {
            lemma_code_deltas_prefix(fb, p1, (n - 1) as nat, codes[0], k);
            if k >= p2 {
                lemma_leb128_read_prefix(fb, p2, k);
                if k >= p3 {
                    if mode == TsMode::Regular {
                        lemma_leb128_read_prefix(fb, p3, k);
                    }
                    assert(read_unit(d, p3) == read_unit(fb, p3) || (k < p4 && read_unit(
                        d,
                        p3,
                    ).0 is None));
                    if k >= p4 {
                        lemma_ts_steps_prefix(fb, p4, (n - 1) as nat, ts[0], unit, k);
                    }
                }
            }
        }
    }
}

/// The stream of the points a mask keeps gives back exactly their input
/// timestamps, strictly increasing, from the series' first timestamp to its
/// last, together with every quantization code, in either timestamp mode.
pub proof fn kept_points_roundtrip(
    algo: Algo,
    mode: TsMode,
    quant_bits: u8,
    val_min_bits: u64,
    val_range_bits: u64,
    codes: Seq<u32>,
    ts: Seq<i64>,
    mask: Seq<bool>,
    n_input: u32,
)
    requires
        ts.len() == mask.len(),
        1 <= ts.len() <= u32::MAX,
        mask[0],
        mask[mask.len() - 1],
        strictly_increasing(ts),
        codes.len() == masked(ts, mask).len(),
        quant_bits <= MAX_QUANT_BITS,
    ensures
        ({
            let kept = masked(ts, mask);
            let decoded = parse_frame(
                frame_bytes(algo, mode, quant_bits, val_min_bits, val_range_bits, codes, kept, n_input),
            );
            &&& decoded is Some
            &&& decoded.unwrap().timestamps == kept
            &&& decoded.unwrap().codes == codes
            &&& strictly_increasing(kept)
            &&& kept[0] == ts[0]
            &&& kept.last() == ts.last()
        }),
{
    let kept = masked(ts, mask);
    lemma_masked_len(ts, mask, ts.len() as int);
    selection_keeps_endpoints(ts, mask);
    selection_keeps_order(ts, mask);
    frame_roundtrip(
        algo,
        mode,
        quant_bits,
        val_min_bits,
        val_range_bits,
        codes,
        kept,
        n_input,
        Seq::empty(),
    );
    assert(frame_bytes(algo, mode, quant_bits, val_min_bits, val_range_bits, codes, kept, n_input)
        + Seq::<u8>::empty() =~= frame_bytes(
        algo,
        mode,
        quant_bits,
        val_min_bits,
        val_range_bits,
        codes,
        kept,
        n_input,
    ));
}

proof fn lemma_code_deltas_len(data: Seq<u8>, pos: int, count: nat, prev: u32)
    ensures
        parse_code_deltas(data, pos, count, prev) matches Some((s, _)) ==> s.len() == count,
    decreases count,
{
    if count > 0 {
        match leb128_read(data, pos).0 {
            None => {},
            Some(d) => {
                let code = wrap_u32(prev + unzigzag(d as int));
                lemma_code_deltas_len(data, leb128_read(data, pos).1, (count - 1) as nat, code);
            },
        }
    }
}

proof fn lemma_ts_steps_len(data: Seq<u8>, pos: int, count: nat, prev: i64, unit: u64)
    ensures
        parse_ts_steps(data, pos, count, prev, unit) matches Some((s, _)) ==> s.len() == count,
    decreases count,
{
    if count > 0 {
        match leb128_read(data, pos).0 {
            None => {},
            Some(d) => {
                let t = wrap_i64(prev + d * unit);
                lemma_ts_steps_len(data, leb128_read(data, pos).1, (count - 1) as nat, t, unit);
            },
        }
    }
}

/// A decoded stream holds as many codes and timestamps as its header
/// announces kept points, and at least one.
pub proof fn decoded_lengths(data: Seq<u8>)
    requires
        parse_frame(data) is Some,
    ensures
        parse_frame(data).unwrap().codes.len() == header_n_kept(data),
        parse_frame(data).unwrap().timestamps.len() == header_n_kept(data),
        header_n_kept(data) >= 1,
{
    let n_kept = header_n_kept(data);
    let c0 = leb128_read(data, HEADER_LEN as int);
    lemma_code_deltas_len(data, c0.1, (n_kept - 1) as nat, wrap_u32(c0.0.unwrap() as int));
    let (codes, p) = parse_code_deltas(
        data,
        c0.1,
        (n_kept - 1) as nat,
        wrap_u32(c0.0.unwrap() as int),
    ).unwrap();
    let t0 = leb128_read(data, p);
    let u = read_unit(data, t0.1);
    lemma_ts_steps_len(data, u.1, (n_kept - 1) as nat, as_signed(t0.0.unwrap()), u.0.unwrap());
}

// ─── Executable code ────────────────────────────────────────────────────────

/// A decoded stream.
pub struct DecodedFrame {
    pub quant_bits: u32,
    /// IEEE-754 bits of `val_min`.
    pub val_min_bits: u64,
    /// IEEE-754 bits of `val_range`.
    pub val_range_bits: u64,
    /// Quantization codes of the kept points.
    pub codes: Vec<u32>,
    /// Timestamps of the kept points.
    pub timestamps: Vec<i64>,
}

impl View for DecodedFrame {
    type V = FrameView;

    open spec fn view(&self) -> FrameView {
        FrameView {
            quant_bits: self.quant_bits,
            val_min_bits: self.val_min_bits,
            val_range_bits: self.val_range_bits,
            codes: self.codes@,
            timestamps: self.timestamps@,
        }
    }
}

/// The bit pattern of `x`.
fn i64_bits(x: i64) -> (u: u64)
    ensures
        u == wrap_u64(x as int),
{
    if x < 0 {
        (x as i128 + 0x1_0000_0000_0000_0000i128) as u64
    } else {
        x as u64
    }
}

/// The `i64` with bit pattern `u`.
fn i64_from_bits(u: u64) -> (x: i64)
    ensures
        x == as_signed(u),
{
    if u <= i64::MAX as u64 {
        u as i64
    } else {
        (u as i128 - 0x1_0000_0000_0000_0000i128) as i64
    }
}

/// `t - prev` modulo 2^64.
fn ts_delta(prev: i64, t: i64) -> (d: u64)
    ensures
        d == wrap_u64(t - prev),
{
    let x: i128 = t as i128 - prev as i128;
    if x < 0 {
        (x + 0x1_0000_0000_0000_0000i128) as u64
    } else {
        x as u64
    }
}

/// `prev + d` wrapped into `i64`.
fn ts_step(prev: i64, d: u64) -> (t: i64)
    ensures
        t == wrap_i64(prev + d),
{
    let s: i128 = prev as i128 + d as i128;
    let m: i128 = if s < 0 {
        s + 0x1_0000_0000_0000_0000i128
    } else if s >= 0x1_0000_0000_0000_0000i128 {
        s - 0x1_0000_0000_0000_0000i128
    } else {
        s
    };
    assert(m as int == (prev + d) % 0x1_0000_0000_0000_0000);
    i64_from_bits(m as u64)
}

/// `prev + delta` modulo 2^32.
fn code_step(prev: u32, delta: i64) -> (c: u32)
    ensures
        c == wrap_u32(prev + delta),
{
    let s: i128 = prev as i128 + delta as i128;
    if s >= 0 {
        (s % 0x1_0000_0000i128) as u32
    } else {
        let k: i128 = (-s) / 0x1_0000_0000i128 + 1;
        let shifted: i128 = s + k * 0x1_0000_0000i128;
        proof {
            lemma_mod_multiples_vanish(k as int, s as int, 0x1_0000_0000);
        }
        (shifted % 0x1_0000_0000i128) as u32
    }
}

/// `prev + d * unit` wrapped into `i64`.
fn scaled_step(prev: i64, d: u64, unit: u64) -> (t: i64)
    ensures
        t == wrap_i64(prev + d * unit),
{
    assert(d * unit <= 0xffff_ffff_ffff_ffffu64 * 0xffff_ffff_ffff_ffffu64) by (nonlinear_arith);
    let p: u128 = d as u128 * unit as u128;
    let low: u64 = (p % 0x1_0000_0000_0000_0000u128) as u64;
    proof {
        lemma_add_mod_noop_right(prev as int, p as int, 0x1_0000_0000_0000_0000);
    }
    ts_step(prev, low)
}

/// The greatest common divisor of `a` and `b`.
fn gcd_u64(a: u64, b: u64) -> (g: u64)
    ensures
        g == gcd(a as nat, b as nat),
{
    let mut x = a;
    let mut y = b;
    while y != 0
        invariant
            gcd(x as nat, y as nat) == gcd(a as nat, b as nat),
        decreases y,
    {
        let r = x % y;
        x = y;
        y = r;
    }
    x
}

fn push_header(
    out: &mut Vec<u8>,
    flags: u8,
    quant_bits: u8,
    val_min_bits: u64,
    val_range_bits: u64,
    n_kept: u32,
    n_input: u32,
)
    ensures
        final(out)@ == old(out)@ + header(
            flags,
            quant_bits,
            val_min_bits,
            val_range_bits,
            n_kept,
            n_input,
        ),
{
    let ghost start = out@;
    out.push(0x43);  // 'C'
    out.push(0x50);  // 'P'
    out.push(0x52);  // 'R'
    out.push(0x53);  // 'S'
    out.push(FORMAT_VERSION);
    out.push(flags);
    out.push(quant_bits);
    out.push(0u8);  // reserved
    write_u64_le(out, val_min_bits);
    write_u64_le(out, val_range_bits);
    write_u32_le(out, n_kept);
    write_u32_le(out, n_input);
    assert(out@ =~= start + header(
        flags,
        quant_bits,
        val_min_bits,
        val_range_bits,
        n_kept,
        n_input,
    ));
}

/// Frames quantization codes and timestamps of the kept points into a stream.
///
/// `val_min_bits` and `val_range_bits` are the IEEE-754 bits of the
/// quantizer's `val_min` and `val_range`; `n_input` is the number of input
/// points before reduction. `ts_mode` picks the timestamp stream and is
/// recorded in bit 2 of the flags byte.
pub fn encode_frame(
    algo: Algo,
    ts_mode: TsMode,
    quant_bits: u32,
    val_min_bits: u64,
    val_range_bits: u64,
    codes: &[u32],
    kept_ts: &[i64],
    n_input: usize,
) -> (out: Vec<u8>)
    requires
        codes@.len() == kept_ts@.len(),
        codes@.len() >= 1,
    ensures
        out@ == frame_bytes(
            algo,
            ts_mode,
            quant_bits as u8,
            val_min_bits,
            val_range_bits,
            codes@,
            kept_ts@,
            n_input as u32,
        ),
{
    let n_kept = kept_ts.len();
    let mut payload: Vec<u8> = Vec::new();

    // Value stream: q[0] raw, then zigzag deltas.
    write_varint(&mut payload, codes[0] as u64);
    let ghost after_first = payload@;
    let mut i: usize = 1;
    while i < n_kept
        invariant
            1 <= i <= n_kept,
            n_kept == codes@.len() == kept_ts@.len(),
            payload@ + code_delta_bytes(codes@, i as nat) == after_first + code_delta_bytes(
                codes@,
                1,
            ),
        decreases n_kept - i,
    {
        let delta = codes[i] as i64 - codes[i - 1] as i64;
        let z = zigzag_encode(delta);
        let ghost before = payload@;
        write_varint(&mut payload, z);
        assert(payload@ + code_delta_bytes(codes@, (i + 1) as nat) =~= before + code_delta_bytes(
            codes@,
            i as nat,
        ));
        i = i + 1;
    }
    assert(code_delta_bytes(codes@, n_kept as nat) =~= Seq::<u8>::empty());
    assert(payload@ =~= leb128(codes@[0] as u64) + code_delta_bytes(codes@, 1));

    // Timestamp stream: t0 as plain varint, then (regular) the interval, then
    // the differences counted in units of the interval (irregular: in units of 1).
    let ghost values_part = payload@;
    write_varint(&mut payload, i64_bits(kept_ts[0]));
    let ghost after_t0 = payload@;
    let unit: u64 = match ts_mode {
        TsMode::Irregular => 1,
        TsMode::Regular => {
            let mut g: u64 = 0;
            let mut i: usize = 1;
            while i < n_kept
                invariant
                    1 <= i <= n_kept,
                    n_kept == kept_ts@.len(),
                    g == gaps_gcd(kept_ts@, i as int),
                decreases n_kept - i,
            {
                let d = ts_delta(kept_ts[i - 1], kept_ts[i]);
                g = gcd_u64(g, d);
                i = i + 1;
            }
            write_varint(&mut payload, g);
            g
        },
    };
    assert(unit as nat == match ts_mode {
        TsMode::Irregular => 1nat,
        TsMode::Regular => ts_interval(kept_ts@),
    });
    let ghost after_unit = payload@;
    let mut i: usize = 1;
    while i < n_kept
        invariant
            1 <= i <= n_kept,
            n_kept == kept_ts@.len(),
            payload@ + ts_step_bytes(kept_ts@, i as nat, unit as nat) == after_unit
                + ts_step_bytes(kept_ts@, 1, unit as nat),
        decreases n_kept - i,
    {
        let d = ts_delta(kept_ts[i - 1], kept_ts[i]);
        let s: u64 = if unit == 0 {
            0
        } else {
            d / unit
        };
        let ghost before = payload@;
        write_varint(&mut payload, s);
        assert(payload@ + ts_step_bytes(kept_ts@, (i + 1) as nat, unit as nat) =~= before
            + ts_step_bytes(kept_ts@, i as nat, unit as nat));
        i = i + 1;
    }
    assert(ts_step_bytes(kept_ts@, n_kept as nat, unit as nat) =~= Seq::<u8>::empty());
    assert(payload@ =~= payload_bytes(codes@, kept_ts@, ts_mode));

    // Header, then payload.
    let flags: u8 = match ts_mode {
        TsMode::Regular => algo.code() | 4u8,
        TsMode::Irregular => algo.code(),
    };
    proof {
        let c = algo.spec_code();
        assert(c <= 2 ==> (c | 4u8) == c + 4) by (bit_vector);
    }
    let mut out: Vec<u8> = Vec::new();
    push_header(
        &mut out,
        flags,
        quant_bits as u8,
        val_min_bits,
        val_range_bits,
        n_kept as u32,
        n_input as u32,
    );
    out.append(&mut payload);
    out
}

/// Decodes a stream produced by [`encode_frame`]: the quantization
/// parameters, the codes and the timestamps of the kept points.
#[verifier::loop_isolation(false)]
#[verifier::spinoff_prover]
#[verifier::rlimit(30)]
pub fn decode_frame(data: &[u8]) -> (res: Result<DecodedFrame, CpError>)
    ensures
        match res {
            Ok(f) => parse_frame(data@) == Some(f@),
            Err(e) => parse_frame(data@) is None && e is Corrupt,
        },
{
    if data.len() < HEADER_LEN {
        return Err(CpError::Corrupt);
    }
    assert(data@.subrange(0, 4) =~= seq![data@[0], data@[1], data@[2], data@[3]]);
    if data[0] != 0x43 || data[1] != 0x50 || data[2] != 0x52 || data[3] != 0x53 {
        return Err(CpError::Corrupt);
    }
    if data[4] != FORMAT_VERSION {
        return Err(CpError::Corrupt);
    }
    let flags = data[5];
    if data[6] > MAX_QUANT_BITS {
        return Err(CpError::Corrupt);
    }
    let quant_bits = data[6] as u32;
    let val_min_bits = match read_u64_le(data, 8) {
        Some(v) => v,
        None => return Err(CpError::Corrupt),
    };
    let val_range_bits = match read_u64_le(data, 16) {
        Some(v) => v,
        None => return Err(CpError::Corrupt),
    };
    let n_kept = match read_u32_le(data, 24) {
        Some(v) => v as usize,
        None => return Err(CpError::Corrupt),
    };
    proof {
        crate::le::lemma_le_value_bound(data@.subrange(24, 28));
        crate::le::lemma_pow256_values();
    }
    if n_kept == 0 {
        return Err(CpError::Corrupt);
    }
    let mut pos: usize = HEADER_LEN;

    // Decode value stream.
    let first_raw = match read_varint(data, &mut pos) {
        Some(v) => v,
        None => return Err(CpError::Corrupt),
    };
    let first_code = #[verifier::truncate] (first_raw as u32);
    assert((first_raw as u32) == ((first_raw % 0x1_0000_0000) as u32)) by (bit_vector);
    let ghost p1 = pos as int;
    let mut codes: Vec<u32> = Vec::new();
    codes.push(first_code);
    let mut k: usize = 1;
    while k < n_kept
        invariant
            1 <= k <= n_kept,
            codes@.len() == k,
            codes@[0] == first_code,
            parse_code_deltas(data@, p1, (n_kept - 1) as nat, first_code) == prepend(
                codes@.drop_first(),
                parse_code_deltas(data@, pos as int, (n_kept - k) as nat, codes@[k - 1]),
            ),
        decreases n_kept - k,
    {
        let ghost pos_before = pos as int;
        let ghost codes_before = codes@;
        let d = match read_varint(data, &mut pos) {
            Some(d) => d,
            None => return Err(CpError::Corrupt),
        };
        let delta = zigzag_decode(d);
        let prev = codes[k - 1];
        let c = code_step(prev, delta);
        codes.push(c);
        k = k + 1;
        assert(codes@.drop_first() =~= codes_before.drop_first() + seq![c]);
        assert(parse_code_deltas(data@, pos_before, (n_kept - (k - 1)) as nat, prev) == prepend(
            seq![c],
            parse_code_deltas(data@, pos as int, (n_kept - k) as nat, c),
        ));
        assert(codes_before.drop_first() + (seq![c] + Seq::empty()) =~= codes@.drop_first()
            + Seq::empty());
        proof {
            match parse_code_deltas(data@, pos as int, (n_kept - k) as nat, c) {
                Some((rest, end)) => {
                    assert(codes_before.drop_first() + (seq![c] + rest) =~= codes@.drop_first()
                        + rest);
                },
                None => {},
            }
        }
    }
    assert(codes@ =~= seq![first_code] + codes@.drop_first());

    // Decode timestamp stream: t0 as plain varint, then (regular) the
    // interval, then the step counts.
    let ghost p2 = pos as int;
    let t0_raw = match read_varint(data, &mut pos) {
        Some(v) => v,
        None => return Err(CpError::Corrupt),
    };
    let t0 = i64_from_bits(t0_raw);
    let regular = flags & 4u8 != 0;
    assert((flags & 4u8 != 0) == ((flags / 4) % 2 == 1)) by (bit_vector);
    let ghost p_unit = pos as int;
    let unit: u64 = if regular {
        match read_varint(data, &mut pos) {
            Some(u) => u,
            None => return Err(CpError::Corrupt),
        }
    } else {
        1
    };
    assert(read_unit(data@, p_unit) == (Some(unit), pos as int));
    let ghost p3 = pos as int;
    let mut ts: Vec<i64> = Vec::new();
    ts.push(t0);
    let mut k: usize = 1;
    while k < n_kept
        invariant
            1 <= k <= n_kept,
            ts@.len() == k,
            ts@[0] == t0,
            parse_ts_steps(data@, p3, (n_kept - 1) as nat, t0, unit) == prepend(
                ts@.drop_first(),
                parse_ts_steps(data@, pos as int, (n_kept - k) as nat, ts@[k - 1], unit),
            ),
        decreases n_kept - k,
    {
        let ghost pos_before = pos as int;
        let ghost ts_before = ts@;
        let d = match read_varint(data, &mut pos) {
            Some(d) => d,
            None => return Err(CpError::Corrupt),
        };
        let last = ts[k - 1];
        let t = scaled_step(last, d, unit);
        ts.push(t);
        k = k + 1;
        assert(ts@.drop_first() =~= ts_before.drop_first() + seq![t]);
        assert(parse_ts_steps(data@, pos_before, (n_kept - (k - 1)) as nat, last, unit) == prepend(
            seq![t],
            parse_ts_steps(data@, pos as int, (n_kept - k) as nat, t, unit),
        ));
        proof {
            match parse_ts_steps(data@, pos as int, (n_kept - k) as nat, t, unit) {
                Some((rest, end)) => {
                    assert(ts_before.drop_first() + (seq![t] + rest) =~= ts@.drop_first() + rest);
                },
                None => {},
            }
        }
    }
    assert(ts@ =~= seq![t0] + ts@.drop_first());

    Ok(DecodedFrame { quant_bits, val_min_bits, val_range_bits, codes, timestamps: ts })
}

} // verus!
