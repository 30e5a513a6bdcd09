//! Big-endian unsigned integers of two, three, four and eight bytes, as they
//! appear inside block headers and payloads.

use vstd::prelude::*;

verus! {

/// The value of the two bytes at `i`, most significant first.
pub open spec fn u16_at(s: Seq<u8>, i: int) -> int {
    s[i] * 0x100 + s[i + 1]
}

/// The value of the three bytes at `i`, most significant first.
pub open spec fn u24_at(s: Seq<u8>, i: int) -> int {
    (s[i] * 0x100 + s[i + 1]) * 0x100 + s[i + 2]
}

/// The value of the four bytes at `i`, most significant first.
pub open spec fn u32_at(s: Seq<u8>, i: int) -> int {
    ((s[i] * 0x100 + s[i + 1]) * 0x100 + s[i + 2]) * 0x100 + s[i + 3]
}

/// The value of the eight bytes at `i`, most significant first.
pub open spec fn u64_at(s: Seq<u8>, i: int) -> int {
    u32_at(s, i) * 0x1_0000_0000 + u32_at(s, i + 4)
}

/// The two low bytes of `v`, most significant first.
pub open spec fn u16_bytes(v: int) -> Seq<u8> {
    seq![(v / 0x100 % 0x100) as u8, (v % 0x100) as u8]
}

/// The three low bytes of `v`, most significant first.
pub open spec fn u24_bytes(v: int) -> Seq<u8> {
    seq![(v / 0x100 / 0x100 % 0x100) as u8, (v / 0x100 % 0x100) as u8, (v % 0x100) as u8]
}

/// The four low bytes of `v`, most significant first.
pub open spec fn u32_bytes(v: int) -> Seq<u8> {
    seq![
        (v / 0x100 / 0x100 / 0x100 % 0x100) as u8,
        (v / 0x100 / 0x100 % 0x100) as u8,
        (v / 0x100 % 0x100) as u8,
        (v % 0x100) as u8,
    ]
}

/// The eight low bytes of `v`, most significant first.
pub open spec fn u64_bytes(v: int) -> Seq<u8> {
    u32_bytes(v / 0x1_0000_0000) + u32_bytes(v)
}

/// What is read at `i` is what is read at the front of the bytes from `i` on.
pub proof fn lemma_at_subrange(s: Seq<u8>, i: int)
    requires
        0 <= i,
    ensures
        i + 2 <= s.len() ==> u16_at(s, i) == u16_at(s.subrange(i, i + 2), 0),
        i + 3 <= s.len() ==> u24_at(s, i) == u24_at(s.subrange(i, i + 3), 0),
        i + 4 <= s.len() ==> u32_at(s, i) == u32_at(s.subrange(i, i + 4), 0),
        i + 8 <= s.len() ==> u64_at(s, i) == u64_at(s.subrange(i, i + 8), 0),
{
}

/// Reading back the two bytes written for `v` gives `v` reduced to 16 bits.
pub proof fn lemma_u16_write_read(v: int)
    requires
        0 <= v,
    ensures
        u16_bytes(v).len() == 2,
        u16_at(u16_bytes(v), 0) == v % 0x1_0000,
{
}

/// Reading back the three bytes written for `v` gives `v` reduced to 24 bits.
pub proof fn lemma_u24_write_read(v: int)
    requires
        0 <= v,
    ensures
        u24_bytes(v).len() == 3,
        u24_at(u24_bytes(v), 0) == v % 0x100_0000,
{
}

/// Reading back the four bytes written for `v` gives `v` reduced to 32 bits.
pub proof fn lemma_u32_write_read(v: int)
    requires
        0 <= v,
    ensures
        u32_bytes(v).len() == 4,
        u32_at(u32_bytes(v), 0) == v % 0x1_0000_0000,
{
}

/// Reading back the eight bytes written for `v` gives `v` reduced to 64 bits.
pub proof fn lemma_u64_write_read(v: int)
    requires
        0 <= v,
    ensures
        u64_bytes(v).len() == 8,
        u64_at(u64_bytes(v), 0) == v % 0x1_0000_0000_0000_0000,
{
    let hi = v / 0x1_0000_0000;
    lemma_u32_write_read(hi);
    lemma_u32_write_read(v);
    let s = u64_bytes(v);
    assert(u32_at(s, 0) == u32_at(u32_bytes(hi), 0));
    assert(u32_at(s, 4) == u32_at(u32_bytes(v), 0));
}

/// Dividing by 256 commutes with dropping whole multiples of `256 * m`.
proof fn lemma_shift_under_mod(v: int, m: int)
    requires
        0 <= v,
        0 < m,
    ensures
        (v % (0x100 * m)) / 0x100 == (v / 0x100) % m,
        (v % (0x100 * m)) % 0x100 == v % 0x100,
{
    let d = 0x100 * m;
    let q = v / d;
    let w = v % d;
    vstd::arithmetic::div_mod::lemma_fundamental_div_mod(v, d);
    let w1 = w / 0x100;
    let w0 = w % 0x100;
    assert(0 <= w < d) by {
        vstd::arithmetic::div_mod::lemma_mod_bound(v, d);
    }
    assert(0 <= w1 < m);
    assert(v == 0x100 * (q * m + w1) + w0) by (nonlinear_arith)
        requires
            v == d * q + w,
            d == 0x100 * m,
            w == 0x100 * w1 + w0,
    ;
    assert(v / 0x100 == q * m + w1 && v % 0x100 == w0);
    vstd::arithmetic::div_mod::lemma_fundamental_div_mod_converse(v / 0x100, m, q, w1);
}

/// The low bytes of a value do not depend on what lies above them.
pub proof fn lemma_low_bytes(v: int)
    requires
        0 <= v,
    ensures
        u16_bytes(v % 0x1_0000) == u16_bytes(v),
        u24_bytes(v % 0x100_0000) == u24_bytes(v),
        u32_bytes(v % 0x1_0000_0000) == u32_bytes(v),
{
    let v1 = v / 0x100;
    let v2 = v1 / 0x100;
    let v3 = v2 / 0x100;
    lemma_shift_under_mod(v, 0x100);
    lemma_shift_under_mod(v, 0x1_0000);
    lemma_shift_under_mod(v, 0x100_0000);
    lemma_shift_under_mod(v1, 0x100);
    lemma_shift_under_mod(v1, 0x1_0000);
    lemma_shift_under_mod(v2, 0x100);
    lemma_shift_under_mod(v1, 1);
    lemma_shift_under_mod(v2, 1);
    lemma_shift_under_mod(v3, 1);
    assert(u16_bytes(v % 0x1_0000) =~= u16_bytes(v));
    assert(u24_bytes(v % 0x100_0000) =~= u24_bytes(v));
    assert(u32_bytes(v % 0x1_0000_0000) =~= u32_bytes(v));
}

/// The big-endian `u16` at the front of `bytes`.
pub fn be_u16(bytes: &[u8]) -> (v: u16)
    requires
        bytes@.len() >= 2,
    ensures
        v == u16_at(bytes@, 0),
{
    (bytes[0] as u16) * 0x100 + (bytes[1] as u16)
}

/// The big-endian 24-bit integer at the front of `bytes`.
pub fn be_u24(bytes: &[u8]) -> (v: u32)
    requires
        bytes@.len() >= 3,
    ensures
        v == u24_at(bytes@, 0),
        v < 0x100_0000,
{
    ((bytes[0] as u32) * 0x100 + (bytes[1] as u32)) * 0x100 + (bytes[2] as u32)
}

/// The big-endian `u32` at the front of `bytes`.
pub fn be_u32(bytes: &[u8]) -> (v: u32)
    requires
        bytes@.len() >= 4,
    ensures
        v == u32_at(bytes@, 0),
{
    (((bytes[0] as u32) * 0x100 + (bytes[1] as u32)) * 0x100 + (bytes[2] as u32)) * 0x100 + (
    bytes[3] as u32)
}

/// The big-endian `u64` at the front of `bytes`.
pub fn be_u64(bytes: &[u8]) -> (v: u64)
    requires
        bytes@.len() >= 8,
    ensures
        v == u64_at(bytes@, 0),
{
    let hi = (((bytes[0] as u64) * 0x100 + (bytes[1] as u64)) * 0x100 + (bytes[2] as u64)) * 0x100
        + (bytes[3] as u64);
    let lo = (((bytes[4] as u64) * 0x100 + (bytes[5] as u64)) * 0x100 + (bytes[6] as u64)) * 0x100
        + (bytes[7] as u64);
    hi * 0x1_0000_0000 + lo
}

/// Appends the two bytes of `v` to `buf`, most significant first.
pub fn put_u16(buf: &mut Vec<u8>, v: u16)
    ensures
        final(buf)@ == old(buf)@ + u16_bytes(v as int),
{
    buf.push((v / 0x100) as u8);
    buf.push((v % 0x100) as u8);
    assert(buf@ =~= old(buf)@ + u16_bytes(v as int));
}

/// Appends the three low bytes of `v` to `buf`, most significant first.
pub fn put_u24(buf: &mut Vec<u8>, v: u32)
    ensures
        final(buf)@ == old(buf)@ + u24_bytes(v as int),
{
    buf.push((v / 0x100 / 0x100 % 0x100) as u8);
    buf.push((v / 0x100 % 0x100) as u8);
    buf.push((v % 0x100) as u8);
    assert(buf@ =~= old(buf)@ + u24_bytes(v as int));
}

/// Appends the four bytes of `v` to `buf`, most significant first.
pub fn put_u32(buf: &mut Vec<u8>, v: u32)
    ensures
        final(buf)@ == old(buf)@ + u32_bytes(v as int),
{
    buf.push((v / 0x100 / 0x100 / 0x100) as u8);
    buf.push((v / 0x100 / 0x100 % 0x100) as u8);
    buf.push((v / 0x100 % 0x100) as u8);
    buf.push((v % 0x100) as u8);
    assert(buf@ =~= old(buf)@ + u32_bytes(v as int));
}

/// Appends the eight bytes of `v` to `buf`, most significant first.
pub fn put_u64(buf: &mut Vec<u8>, v: u64)
    ensures
        final(buf)@ == old(buf)@ + u64_bytes(v as int),
{
    put_u32(buf, (v / 0x1_0000_0000) as u32);
    put_u32(buf, (v % 0x1_0000_0000) as u32);
    proof {
        lemma_low_bytes(v as int);
        assert(buf@ =~= old(buf)@ + u64_bytes(v as int));
    }
}

} // verus!
