//! Numbers as bytes, the lowest first.

use vstd::prelude::*;

verus! {

/// The low 32 bits of `n` as four bytes.
pub open spec fn le32(n: nat) -> Seq<u8> {
    seq![
        (n % 256) as u8,
        (n / 256 % 256) as u8,
        (n / 65536 % 256) as u8,
        (n / 16777216 % 256) as u8,
    ]
}

/// The low 64 bits of `n` as eight bytes.
pub open spec fn le64(n: nat) -> Seq<u8> {
    le32(n) + le32(n / 0x1_0000_0000)
}

/// The low 16 bits of `n` as two bytes.
pub open spec fn le16(n: nat) -> Seq<u8> {
    seq![(n % 256) as u8, (n / 256 % 256) as u8]
}

pub open spec fn u16_at(data: Seq<u8>, o: int) -> nat {
    (data[o] + 256 * data[o + 1]) as nat
}

pub open spec fn u32_at(data: Seq<u8>, o: int) -> nat {
    (data[o] + 256 * data[o + 1] + 65536 * data[o + 2] + 16777216 * data[o + 3]) as nat
}

pub open spec fn u64_at(data: Seq<u8>, o: int) -> nat {
    u32_at(data, o) + 0x1_0000_0000 * u32_at(data, o + 4)
}

/// A number of 32 bits is read back from its bytes.
pub proof fn lemma_u32_at(data: Seq<u8>, o: int, n: nat)
    requires
        n < 0x1_0000_0000,
        0 <= o,
        o + 4 <= data.len(),
        data.subrange(o, o + 4) == le32(n),
    ensures
        u32_at(data, o) == n,
{
    let s = data.subrange(o, o + 4);
    assert(s[0] == data[o] && s[1] == data[o + 1] && s[2] == data[o + 2] && s[3] == data[o + 3]);
}

pub proof fn lemma_u16_at(data: Seq<u8>, o: int, n: nat)
    requires
        n < 0x1_0000,
        0 <= o,
        o + 2 <= data.len(),
        data.subrange(o, o + 2) == le16(n),
    ensures
        u16_at(data, o) == n,
{
    let s = data.subrange(o, o + 2);
    assert(s[0] == data[o] && s[1] == data[o + 1]);
}

/// Only the low 32 bits are written.
pub proof fn lemma_le32_low(n: nat)
    ensures
        le32(n) == le32((n % 0x1_0000_0000) as nat),
{
    let low = n as int % 0x1_0000_0000;
    let q = n as int / 0x1_0000_0000;
    lemma_shifted(low, q, 0x1_0000_0000, 1);
    lemma_shifted(low, q, 16777216, 256);
    lemma_shifted(low, q, 65536, 65536);
    lemma_shifted(low, q, 256, 16777216);
    assert(le32(n) =~= le32(low as nat));
}

/// A multiple of 256 `d` on top changes nothing in the byte at `d`.
proof fn lemma_shifted(low: int, q: int, k: int, d: int)
    requires
        d > 0,
        k % 256 == 0,
        k * d == 0x1_0000_0000,
    ensures
        (q * 0x1_0000_0000 + low) / d % 256 == low / d % 256,
{
    vstd::arithmetic::div_mod::lemma_hoist_over_denominator(low, q * k, d as nat);
    assert((q * k) * d == q * 0x1_0000_0000) by (nonlinear_arith)
        requires
            k * d == 0x1_0000_0000,
    ;
    let r = k / 256;
    assert(q * k == 256 * (q * r)) by (nonlinear_arith)
        requires
            k == 256 * r,
    ;
    vstd::arithmetic::div_mod::lemma_mod_multiples_vanish(q * r, low / d, 256);
}

/// A number of 64 bits is read back from its bytes.
pub proof fn lemma_u64_at(data: Seq<u8>, o: int, n: nat)
    requires
        n <= u64::MAX,
        0 <= o,
        o + 8 <= data.len(),
        data.subrange(o, o + 8) == le64(n),
    ensures
        u64_at(data, o) == n,
{
    let low = (n % 0x1_0000_0000) as nat;
    let s = data.subrange(o, o + 8);
    assert(data.subrange(o, o + 4) =~= s.subrange(0, 4));
    assert(data.subrange(o + 4, o + 8) =~= s.subrange(4, 8));
    assert(s.subrange(0, 4) =~= le32(n));
    assert(s.subrange(4, 8) =~= le32(n / 0x1_0000_0000));
    lemma_le32_low(n);
    lemma_u32_at(data, o, low);
    lemma_u32_at(data, o + 4, n / 0x1_0000_0000);
}

/// Appends the low 32 bits of `n`.
pub fn push_u32(out: &mut Vec<u8>, n: u64)
    ensures
        final(out)@ == old(out)@ + le32(n as nat),
{
    let ghost before = out@;
    out.push((n % 256) as u8);
    out.push((n / 256 % 256) as u8);
    out.push((n / 65536 % 256) as u8);
    out.push((n / 16777216 % 256) as u8);
    assert(out@ =~= before + le32(n as nat));
}

pub fn push_u64(out: &mut Vec<u8>, n: u64)
    ensures
        final(out)@ == old(out)@ + le64(n as nat),
{
    let ghost before = out@;
    push_u32(out, n);
    push_u32(out, n / 0x1_0000_0000);
    assert(out@ =~= before + le64(n as nat));
}

pub fn push_u16(out: &mut Vec<u8>, n: u64)
    ensures
        final(out)@ == old(out)@ + le16(n as nat),
{
    let ghost before = out@;
    out.push((n % 256) as u8);
    out.push((n / 256 % 256) as u8);
    assert(out@ =~= before + le16(n as nat));
}

pub fn get_u16(data: &[u8], o: usize) -> (n: u16)
    requires
        o + 2 <= data@.len(),
    ensures
        n == u16_at(data@, o as int),
{
    data[o] as u16 + 256 * (data[o + 1] as u16)
}

pub fn get_u32(data: &[u8], o: usize) -> (n: u32)
    requires
        o + 4 <= data@.len(),
    ensures
        n == u32_at(data@, o as int),
{
    data[o] as u32 + 256 * (data[o + 1] as u32) + 65536 * (data[o + 2] as u32) + 16777216 * (data[o
        + 3] as u32)
}

pub fn get_u64(data: &[u8], o: usize) -> (n: u64)
    requires
        o + 8 <= data@.len(),
    ensures
        n == u64_at(data@, o as int),
{
    let end: usize = data.len();
    assert(o + 4 < end);
    get_u32(data, o) as u64 + 0x1_0000_0000 * (get_u32(data, o + 4) as u64)
}

} // verus!
