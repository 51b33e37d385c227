//! Little-endian fixed-width integers in byte buffers.
use vstd::prelude::*;

verus! {

/// `256^k`.
pub open spec fn pow256(k: nat) -> nat
    decreases k,
{
    if k == 0 {
        1
    } else {
        256 * pow256((k - 1) as nat)
    }
}

/// The `k` low-order base-256 digits of `v`, least significant first.
pub open spec fn le_bytes(v: nat, k: nat) -> Seq<u8>
    decreases k,
{
    if k == 0 {
        seq![]
    } else {
        seq![(v % 256) as u8] + le_bytes(v / 256, (k - 1) as nat)
    }
}

/// The number whose little-endian base-256 digits are `b`.
pub open spec fn le_value(b: Seq<u8>) -> nat
    decreases b.len(),
{
    if b.len() == 0 {
        0
    } else {
        b[0] as nat + 256 * le_value(b.drop_first())
    }
}

pub proof fn lemma_le_bytes_len(v: nat, k: nat)
    ensures
        le_bytes(v, k).len() == k,
    decreases k,
{
    if k > 0 {
        lemma_le_bytes_len(v / 256, (k - 1) as nat);
    }
}

pub proof fn lemma_le_value_bound(b: Seq<u8>)
    ensures
        le_value(b) < pow256(b.len()),
    decreases b.len(),
{
    if b.len() > 0 {
        lemma_le_value_bound(b.drop_first());
    }
}

/// Reading back `k` little-endian digits gives the number, when it fits.
pub proof fn lemma_le_roundtrip(v: nat, k: nat)
    requires
        v < pow256(k),
    ensures
        le_value(le_bytes(v, k)) == v,
    decreases k,
{
    if k > 0 {
        lemma_le_roundtrip(v / 256, (k - 1) as nat);
        assert(le_bytes(v, k).drop_first() =~= le_bytes(v / 256, (k - 1) as nat));
    }
}

pub proof fn lemma_pow256_values()
    ensures
        pow256(4) == 0x1_0000_0000,
        pow256(8) == 0x1_0000_0000_0000_0000,
{
    reveal_with_fuel(pow256, 9);
}

/// Appends the `width` low-order bytes of `v`, least significant first.
fn push_le(buf: &mut Vec<u8>, v: u64, width: usize)
    requires
        width <= 8,
    ensures
        final(buf)@ == old(buf)@ + le_bytes(v as nat, width as nat),
{
    let ghost start = buf@;
    let mut x = v;
    let mut i: usize = 0;
    while i < width
        invariant
            i <= width,
            buf@ + le_bytes(x as nat, (width - i) as nat) == start + le_bytes(v as nat, width as nat),
        decreases width - i,
    {
        let ghost before = buf@;
        let ghost x_old = x;
        buf.push((x % 256) as u8);
        x = x / 256;
        i = i + 1;
        assert(buf@ + le_bytes(x as nat, (width - i) as nat) =~= before + le_bytes(
            x_old as nat,
            (width - (i - 1)) as nat,
        ));
    }
}

/// Reads the `width` bytes at `off` as a little-endian number.
fn read_le(data: &[u8], off: usize, width: usize) -> (res: u64)
    requires
        width <= 8,
        off + width <= data@.len(),
    ensures
        res as nat == le_value(data@.subrange(off as int, off + width)),
{
    let mut acc: u64 = 0;
    let mut i: usize = width;
    proof {
        lemma_pow256_values();
    }
    while i > 0
        invariant
            i <= width <= 8,
            off + width <= data.len(),
            pow256(8) == 0x1_0000_0000_0000_0000,
            acc as nat == le_value(data@.subrange(off + i, off + width)),
        decreases i,
    {
        i = i - 1;
        let ghost tail = data@.subrange(off + i + 1, off + width);
        let ghost cur = data@.subrange(off + i, off + width);
        assert(cur.drop_first() =~= tail);
        proof {
            lemma_le_value_bound(cur);
            lemma_pow256_monotone(cur.len(), 8);
        }
        acc = acc * 256 + data[off + i] as u64;
    }
    acc
}

proof fn lemma_pow256_monotone(a: nat, b: nat)
    requires
        a <= b,
    ensures
        pow256(a) <= pow256(b),
    decreases b,
{
    if a < b {
        lemma_pow256_monotone(a, (b - 1) as nat);
    }
}

/// Appends the four little-endian bytes of `v`.
pub fn write_u32_le(buf: &mut Vec<u8>, v: u32)
    ensures
        final(buf)@ == old(buf)@ + le_bytes(v as nat, 4),
{
    push_le(buf, v as u64, 4);
}

/// Appends the eight little-endian bytes of `v`.
pub fn write_u64_le(buf: &mut Vec<u8>, v: u64)
    ensures
        final(buf)@ == old(buf)@ + le_bytes(v as nat, 8),
{
    push_le(buf, v, 8);
}

/// Reads a little-endian `u32` at `off`; `None` when fewer than four bytes remain.
pub fn read_u32_le(data: &[u8], off: usize) -> (res: Option<u32>)
    requires
        off + 4 <= usize::MAX,
    ensures
        res == (if off + 4 <= data@.len() {
            Some(le_value(data@.subrange(off as int, off + 4)) as u32)
        } else {
            None
        }),
{
    if off > data.len() || data.len() - off < 4 {
        return None;
    }
    let v = read_le(data, off, 4);
    proof {
        lemma_le_value_bound(data@.subrange(off as int, off + 4));
        lemma_pow256_values();
    }
    Some(v as u32)
}

/// Reads a little-endian `u64` at `off`; `None` when fewer than eight bytes remain.
pub fn read_u64_le(data: &[u8], off: usize) -> (res: Option<u64>)
    requires
        off + 8 <= usize::MAX,
    ensures
        res == (if off + 8 <= data@.len() {
            Some(le_value(data@.subrange(off as int, off + 8)) as u64)
        } else {
            None
        }),
{
    if off > data.len() || data.len() - off < 8 {
        return None;
    }
    let v = read_le(data, off, 8);
    Some(v)
}

} // verus!
