//! LEB-128 varints and zigzag mapping of signed integers.
use vstd::prelude::*;

verus! {

// ─── Specification ──────────────────────────────────────────────────────────

/// The unsigned LEB-128 encoding of `v`: seven payload bits per byte, least
/// significant group first; every byte but the last has its high bit set.
pub open spec fn leb128(v: u64) -> Seq<u8>
    decreases v,
{
    if v < 128 {
        seq![v as u8]
    } else {
        seq![(v % 128 + 128) as u8] + leb128(v / 128)
    }
}

/// Decoding of one varint that starts at byte `pos`, where `shift` payload
/// bits have already been gathered into `acc`.
///
/// Yields the decoded value (`None` when the data ends before a terminal byte,
/// or when a continuation byte would need more than 64 bits) together with the
/// position reached.
pub open spec fn leb128_read_from(data: Seq<u8>, pos: int, shift: u32, acc: u64) -> (Option<u64>, int)
    decreases data.len() - pos,
{
    if pos < 0 || pos >= data.len() {
        (None, pos)
    } else {
        let byte = data[pos] as u64;
        let acc2 = acc | ((byte & 0x7f) << shift);
        if byte & 0x80 == 0 {
            (Some(acc2), pos + 1)
        } else if shift + 7 >= 64 {
            (None, pos + 1)
        } else {
            leb128_read_from(data, pos + 1, (shift + 7) as u32, acc2)
        }
    }
}

/// Decoding of one varint starting at byte `pos`.
pub open spec fn leb128_read(data: Seq<u8>, pos: int) -> (Option<u64>, int) {
    leb128_read_from(data, pos, 0, 0)
}

/// Zigzag mapping: 0, -1, 1, -2, 2, ... onto 0, 1, 2, 3, 4, ...
pub open spec fn zigzag(n: int) -> int {
    if n >= 0 {
        2 * n
    } else {
        -2 * n - 1
    }
}

/// Inverse of [`zigzag`] on the naturals: even codes are the non-negative
/// integers, odd codes the negative ones.
pub open spec fn unzigzag(u: int) -> int {
    if u % 2 == 0 {
        u / 2
    } else {
        -(u / 2) - 1
    }
}

// ─── Laws ───────────────────────────────────────────────────────────────────

proof fn lemma_terminal_byte(v: u64)
    requires
        v < 128,
    ensures
        ((v as u8) as u64) & 0x7f == v,
        ((v as u8) as u64) & 0x80 == 0,
{
    assert(((v as u8) as u64) & 0x7f == v && ((v as u8) as u64) & 0x80 == 0) by (bit_vector)
        requires
            v < 128,
    ;
}

proof fn lemma_continuation_byte(v: u64)
    requires
        v >= 128,
    ensures
        (((v % 128 + 128) as u8) as u64) & 0x7f == v & 0x7f,
        (((v % 128 + 128) as u8) as u64) & 0x80 != 0,
        v >> 7 == v / 128,
{
    assert((((v % 128 + 128) as u8) as u64) & 0x7f == v & 0x7f && (((v % 128 + 128) as u8) as u64)
        & 0x80 != 0 && v >> 7 == v / 128) by (bit_vector)
        requires
            v >= 128,
    ;
}

proof fn lemma_read_from_prefix(data: Seq<u8>, pos: int, shift: u32, acc: u64, k: int)
    requires
        0 <= k <= data.len(),
        0 <= pos,
        leb128_read_from(data, pos, shift, acc).0 is Some,
    ensures
        leb128_read_from(data, pos, shift, acc).1 > pos,
        leb128_read_from(data, pos, shift, acc).1 <= k ==> leb128_read_from(
            data.take(k),
            pos,
            shift,
            acc,
        ) == leb128_read_from(data, pos, shift, acc),
        leb128_read_from(data, pos, shift, acc).1 > k ==> leb128_read_from(
            data.take(k),
            pos,
            shift,
            acc,
        ).0 is None,
    decreases data.len() - pos,
{
    let byte = data[pos] as u64;
    let acc2 = acc | ((byte & 0x7f) << shift);
    if byte & 0x80 != 0 && shift + 7 < 64 {
        lemma_read_from_prefix(data, pos + 1, (shift + 7) as u32, acc2, k);
    }
    if pos < k {
        assert(data.take(k)[pos] == data[pos]);
    }
}

/// A varint read on a prefix of the data: the same where the varint ends
/// within the prefix, `None` where it runs past its end.
pub proof fn lemma_leb128_read_prefix(data: Seq<u8>, pos: int, k: int)
    requires
        0 <= k <= data.len(),
        0 <= pos,
        leb128_read(data, pos).0 is Some,
    ensures
        leb128_read(data, pos).1 > pos,
        leb128_read(data, pos).1 <= k ==> leb128_read(data.take(k), pos) == leb128_read(data, pos),
        leb128_read(data, pos).1 > k ==> leb128_read(data.take(k), pos).0 is None,
{
    lemma_read_from_prefix(data, pos, 0, 0, k);
}

/// `v << shift` loses no bits: the remaining payload fits above `shift`.
pub open spec fn fits_above(v: u64, shift: u32) -> bool {
    shift < 64 && (v << shift) >> shift == v
}

proof fn lemma_shift_step(v: u64, shift: u32, acc: u64)
    requires
        v >= 128,
        fits_above(v, shift),
    ensures
        shift + 7 < 64,
        fits_above(v >> 7, (shift + 7) as u32),
        (acc | ((v & 0x7f) << shift)) | ((v >> 7) << ((shift + 7) as u32)) == acc | (v << shift),
{
    assert(shift + 7 < 64) by (bit_vector)
        requires
            v >= 128,
            shift < 64,
            (v << shift) >> shift == v,
    ;
    let s2 = (shift + 7) as u32;
    assert(((v >> 7) << s2) >> s2 == v >> 7) by (bit_vector)
        requires
            v >= 128,
            shift < 57,
            s2 == shift + 7,
            (v << shift) >> shift == v,
    ;
    assert((acc | ((v & 0x7f) << shift)) | ((v >> 7) << s2) == acc | (v << shift)) by (bit_vector)
        requires
            shift < 57,
            s2 == shift + 7,
    ;
}

proof fn lemma_leb128_read_from(v: u64, data: Seq<u8>, pos: int, shift: u32, acc: u64)
    requires
        0 <= pos,
        pos + leb128(v).len() <= data.len(),
        data.subrange(pos, pos + leb128(v).len()) == leb128(v),
        fits_above(v, shift),
    ensures
        leb128_read_from(data, pos, shift, acc) == (Some(acc | (v << shift)), pos + leb128(v).len()),
    decreases v,
{
    assert(data[pos] == data.subrange(pos, pos + leb128(v).len())[0]);
    if v < 128 {
        lemma_terminal_byte(v);
    } else {
        lemma_continuation_byte(v);
        lemma_shift_step(v, shift, acc);
        let rest = leb128(v / 128);
        assert(data.subrange(pos + 1, pos + 1 + rest.len()) =~= data.subrange(
            pos,
            pos + leb128(v).len(),
        ).subrange(1, 1 + rest.len() as int));
        assert(leb128(v).subrange(1, 1 + rest.len() as int) =~= rest);
        let acc2 = acc | ((v & 0x7f) << shift);
        lemma_leb128_read_from(v / 128, data, pos + 1, (shift + 7) as u32, acc2);
    }
}

proof fn lemma_leb128_len_from(v: u64, shift: u32)
    requires
        fits_above(v, shift),
        shift % 7 == 0,
    ensures
        1 <= leb128(v).len() <= (70 - shift) / 7,
    decreases v,
{
    if v >= 128 {
        lemma_continuation_byte(v);
        lemma_shift_step(v, shift, 0);
        lemma_leb128_len_from(v / 128, (shift + 7) as u32);
    }
}

/// An encoded varint takes one to ten bytes.
pub proof fn lemma_leb128_len(v: u64)
    ensures
        1 <= leb128(v).len() <= 10,
{
    assert((v << 0u32) >> 0u32 == v) by (bit_vector);
    lemma_leb128_len_from(v, 0);
}

/// Reading at `pos` where the bytes of `leb128(v)` stand gives back `v`
/// and stops right after them.
pub proof fn lemma_leb128_read_at(v: u64, data: Seq<u8>, pos: int)
    requires
        0 <= pos,
        pos + leb128(v).len() <= data.len(),
        data.subrange(pos, pos + leb128(v).len()) == leb128(v),
    ensures
        leb128_read(data, pos) == (Some(v), pos + leb128(v).len()),
{
    assert((v << 0u32) >> 0u32 == v) by (bit_vector);
    lemma_leb128_read_from(v, data, pos, 0, 0);
    assert((0u64 | (v << 0u32)) == v) by (bit_vector);
}

/// Reading a varint where one was written gives back the value and stops
/// right after its last byte, whatever precedes or follows it.
pub proof fn varint_roundtrip(before: Seq<u8>, v: u64, after: Seq<u8>)
    ensures
        leb128_read(before + leb128(v) + after, before.len() as int) == (
            Some(v),
            (before.len() + leb128(v).len()) as int,
        ),
{
    let data = before + leb128(v) + after;
    let pos = before.len() as int;
    assert(data.subrange(pos, pos + leb128(v).len()) =~= leb128(v));
    lemma_leb128_read_at(v, data, pos);
}

/// Zigzag decoding undoes zigzag encoding.
pub proof fn zigzag_roundtrip(n: int)
    ensures
        zigzag(n) >= 0,
        unzigzag(zigzag(n)) == n,
{
}

/// Zigzag encoding undoes zigzag decoding: the mapping is a bijection
/// between the integers and the naturals.
pub proof fn zigzag_onto(u: int)
    requires
        u >= 0,
    ensures
        zigzag(unzigzag(u)) == u,
{
}

/// Small magnitudes, positive or negative, give small codes.
pub proof fn zigzag_magnitude(n: int)
    ensures
        zigzag(n) <= 2 * (if n >= 0 { n } else { -n }),
{
}

// ─── Executable code ────────────────────────────────────────────────────────

/// Unsigned LEB-128 encoding. Each byte carries 7 payload bits; the high bit
/// signals that more bytes follow.
pub fn write_varint(buf: &mut Vec<u8>, value: u64)
    ensures
        final(buf)@ == old(buf)@ + leb128(value),
{
    let ghost start = buf@;
    let ghost v0 = value;
    let mut value = value;
    while value >= 128
        invariant
            buf@ + leb128(value) == start + leb128(v0),
        decreases value,
    {
        let byte = (value & 0x7F) as u8;
        assert((value & 0x7f) == value % 128) by (bit_vector);
        assert(byte < 128);
        assert((byte | 0x80) == byte + 128) by (bit_vector)
            requires
                byte < 128,
        ;
        let ghost before = buf@;
        buf.push(byte | 0x80);
        let ghost v_old = value;
        value = value >> 7;
        assert((v_old >> 7) == v_old / 128) by (bit_vector);
        assert(leb128(v_old) == seq![(v_old % 128 + 128) as u8] + leb128(value));
        assert(buf@ + leb128(value) =~= before + leb128(v_old));
    }
    buf.push(value as u8);
    assert(buf@ =~= start + leb128(v0));
}

/// Decode one unsigned LEB-128 varint from `data[pos..]`.
/// Advances `pos` past the consumed bytes. Returns `None` on truncation or
/// an overlong encoding (> 10 bytes for a u64).
pub fn read_varint(data: &[u8], pos: &mut usize) -> (res: Option<u64>)
    ensures
        (res, *final(pos) as int) == leb128_read(data@, *old(pos) as int),
{
    let ghost start = *pos as int;
    let mut result: u64 = 0;
    let mut shift: u32 = 0;
    loop
        invariant
            shift < 64,
            start == *old(pos) as int,
            leb128_read_from(data@, *pos as int, shift, result) == leb128_read(data@, start),
        decreases data@.len() - *pos,
    {
        if *pos >= data.len() {
            return None;
        }
        let byte = data[*pos] as u64;
        *pos += 1;
        result |= (byte & 0x7F) << shift;
        if byte & 0x80 == 0 {
            return Some(result);
        }
        shift += 7;
        if shift >= 64 {
            return None;  // malformed / overlong
        }
    }
}

/// Zigzag-encode a signed integer to an unsigned one so that small magnitudes
/// (positive or negative) produce small varints.
///
/// zigzag(n) = (n << 1) ^ (n >> 63)
pub fn zigzag_encode(n: i64) -> (res: u64)
    ensures
        res as int == zigzag(n as int),
{
    let r = ((n << 1) ^ (n >> 63)) as u64;
    if n >= 0 {
        assert(((n << 1) ^ (n >> 63)) as u64 == 2 * n) by (bit_vector)
            requires
                n >= 0,
        ;
    } else {
        assert(((n << 1) ^ (n >> 63)) as u64 == -2 * n - 1) by (bit_vector)
            requires
                n < 0,
        ;
    }
    r
}

/// Inverse of `zigzag_encode`.
pub fn zigzag_decode(n: u64) -> (res: i64)
    ensures
        res as int == unzigzag(n as int),
{
    assert((n & 1) <= 1 && (n >> 1) <= 0x7fff_ffff_ffff_ffff) by (bit_vector);
    let r = ((n >> 1) as i64) ^ (-((n & 1) as i64));
    if n % 2 == 0 {
        assert(((n >> 1) as i64) ^ ((-((n & 1) as i64)) as i64) == n / 2) by (bit_vector)
            requires
                n % 2 == 0,
        ;
    } else {
        assert(((n >> 1) as i64) ^ ((-((n & 1) as i64)) as i64) == -(n / 2) - 1) by (bit_vector)
            requires
                n % 2 == 1,
        ;
    }
    r
}

} // verus!
