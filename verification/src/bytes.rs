//! Big- and little-endian integers read from byte sequences.
use vstd::prelude::*;

verus! {

/// Big-endian 32-bit value of `b[p..p+4]`.
pub open spec fn be32_at(b: Seq<u8>, p: int) -> u64 {
    (b[p] as int * 0x1000000 + b[p + 1] as int * 0x10000 + b[p + 2] as int * 0x100
        + b[p + 3] as int) as u64
}

/// Big-endian 64-bit value of `b[p..p+8]`.
pub open spec fn be64_at(b: Seq<u8>, p: int) -> u64 {
    (be32_at(b, p) as int * 0x1_0000_0000 + be32_at(b, p + 4) as int) as u64
}

/// Little-endian 32-bit value of `b[p..p+4]`.
pub open spec fn le32_at(b: Seq<u8>, p: int) -> u32 {
    (b[p] as int + b[p + 1] as int * 0x100 + b[p + 2] as int * 0x10000 + b[p + 3] as int
        * 0x1000000) as u32
}

/// The four little-endian bytes of `v`.
pub open spec fn le_bytes(v: u32) -> Seq<u8> {
    seq![
        (v % 0x100) as u8,
        ((v / 0x100) % 0x100) as u8,
        ((v / 0x10000) % 0x100) as u8,
        ((v / 0x1000000) % 0x100) as u8,
    ]
}

/// Reading back the bytes of a value gives the value.
pub proof fn lemma_le32_of_le_bytes(v: u32)
    ensures
        le32_at(le_bytes(v), 0) == v,
{
    let b = le_bytes(v);
    let x = v as int;
    assert(x == x % 0x100 + (x / 0x100) % 0x100 * 0x100 + (x / 0x10000) % 0x100 * 0x10000 + (x
        / 0x1000000) % 0x100 * 0x1000000) by (nonlinear_arith)
        requires
            0 <= x < 0x1_0000_0000,
    ;
}

/// The bytes of the value read from four bytes are those four bytes.
pub proof fn lemma_le_bytes_of_le32(b: Seq<u8>, p: int)
    requires
        0 <= p,
        p + 4 <= b.len(),
    ensures
        le_bytes(le32_at(b, p)) == b.subrange(p, p + 4),
{
    let (b0, b1, b2, b3) = (b[p] as int, b[p + 1] as int, b[p + 2] as int, b[p + 3] as int);
    let x = b0 + b1 * 0x100 + b2 * 0x10000 + b3 * 0x1000000;
    assert(x % 0x100 == b0 && (x / 0x100) % 0x100 == b1 && (x / 0x10000) % 0x100 == b2 && (x
        / 0x1000000) % 0x100 == b3) by (nonlinear_arith)
        requires
            0 <= b0 < 256,
            0 <= b1 < 256,
            0 <= b2 < 256,
            0 <= b3 < 256,
            x == b0 + b1 * 0x100 + b2 * 0x10000 + b3 * 0x1000000,
    ;
    assert(le_bytes(le32_at(b, p)) =~= b.subrange(p, p + 4));
}

/// Big-endian 32-bit value at `p` (as `u64`).
pub fn be32(b: &[u8], p: usize) -> (r: u64)
    requires
        p + 4 <= b.len(),
    ensures
        r == be32_at(b@, p as int),
        r < 0x1_0000_0000,
{
    (b[p] as u64) * 0x1000000 + (b[p + 1] as u64) * 0x10000 + (b[p + 2] as u64) * 0x100 + (b[p
        + 3] as u64)
}

/// Big-endian 64-bit value at `p`.
pub fn be64(b: &[u8], p: usize) -> (r: u64)
    requires
        p + 8 <= b.len(),
    ensures
        r == be64_at(b@, p as int),
{
    let hi = be32(b, p);
    let lo = be32(b, p + 4);
    hi * 0x1_0000_0000 + lo
}

/// Little-endian 32-bit value at `p`.
pub fn le32(b: &[u8], p: usize) -> (r: u32)
    requires
        p + 4 <= b.len(),
    ensures
        r == le32_at(b@, p as int),
{
    (b[p] as u32) + (b[p + 1] as u32) * 0x100 + (b[p + 2] as u32) * 0x10000 + (b[p + 3] as u32)
        * 0x1000000
}

/// The four little-endian bytes of `v`.
pub fn to_le_bytes(v: u32) -> (r: [u8; 4])
    ensures
        r@ == le_bytes(v),
{
    let r = [
        (v % 0x100) as u8,
        ((v / 0x100) % 0x100) as u8,
        ((v / 0x10000) % 0x100) as u8,
        ((v / 0x1000000) % 0x100) as u8,
    ];
    assert(r@ =~= le_bytes(v));
    r
}

} // verus!
