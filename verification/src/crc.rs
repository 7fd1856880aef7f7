//! The CRC-32 of IEEE 802.3, eight bytes at a time.

use crate::bytes;
use vstd::prelude::*;

verus! {

/// One bit of the register goes through the polynomial.
pub open spec fn crc_step(c: u32) -> u32 {
    if c & 1 != 0 {
        0xEDB8_8320u32 ^ (c >> 1)
    } else {
        c >> 1
    }
}

/// The register after `k` bits.
pub open spec fn shifted(c: u32, k: nat) -> u32
    decreases k,
{
    if k == 0 {
        c
    } else {
        crc_step(shifted(c, (k - 1) as nat))
    }
}

/// The register `c` after the bytes of `data`.
pub open spec fn crc_fold(c: u32, data: Seq<u8>) -> u32
    decreases data.len(),
{
    if data.len() == 0 {
        c
    } else {
        shifted(crc_fold(c, data.drop_last()) ^ (data.last() as u32), 8)
    }
}

/// The checksum `crc` of what went before, carried on over `data`.
pub open spec fn crc_updated(crc: u32, data: Seq<u8>) -> u32 {
    crc_fold(crc ^ 0xFFFF_FFFFu32, data) ^ 0xFFFF_FFFFu32
}

/// The checksum of `data`.
pub open spec fn crc_of(data: Seq<u8>) -> u32 {
    crc_fold(0xFFFF_FFFFu32, data) ^ 0xFFFF_FFFFu32
}

proof fn lemma_fold_add(c: u32, a: Seq<u8>, b: Seq<u8>)
    ensures
        crc_fold(c, a + b) == crc_fold(crc_fold(c, a), b),
    decreases b.len(),
{
    if b.len() == 0 {
        assert(a + b =~= a);
    } else {
        lemma_fold_add(c, a, b.drop_last());
        assert((a + b).drop_last() =~= a + b.drop_last());
    }
}

/// A checksum carried on over `b` is the checksum of both parts together, and one that starts from
/// zero is the checksum of the part.
pub proof fn lemma_crc_parts(a: Seq<u8>, b: Seq<u8>)
    ensures
        crc_updated(crc_of(a), b) == crc_of(a + b),
        crc_updated(0, b) == crc_of(b),
        crc_of(Seq::empty()) == 0,
{
    let c = crc_fold(0xFFFF_FFFFu32, a);
    assert((c ^ 0xFFFF_FFFFu32) ^ 0xFFFF_FFFFu32 == c && 0u32 ^ 0xFFFF_FFFFu32 == 0xFFFF_FFFFu32
        && 0xFFFF_FFFFu32 ^ 0xFFFF_FFFFu32 == 0u32) by (bit_vector);
    lemma_fold_add(0xFFFF_FFFFu32, a, b);
}

proof fn lemma_linear(a: u32, b: u32, k: nat)
    ensures
        shifted(a ^ b, k) == shifted(a, k) ^ shifted(b, k),
    decreases k,
{
    if k > 0 {
        lemma_linear(a, b, (k - 1) as nat);
        let x = shifted(a, (k - 1) as nat);
        let y = shifted(b, (k - 1) as nat);
        assert(crc_step(x ^ y) == crc_step(x) ^ crc_step(y)) by (bit_vector);
    }
}

proof fn lemma_shifted_add(c: u32, j: nat, k: nat)
    ensures
        shifted(shifted(c, j), k) == shifted(c, j + k),
    decreases k,
{
    if k > 0 {
        lemma_shifted_add(c, j, (k - 1) as nat);
    }
}

/// Eight bits that are zero pass through without a trace.
proof fn lemma_shifted_clear(c: u32)
    requires
        c & 0xFF == 0,
    ensures
        shifted(c, 8) == c >> 8,
{
    reveal_with_fuel(shifted, 9);
    assert(crc_step(crc_step(crc_step(crc_step(crc_step(crc_step(crc_step(crc_step(c)))))))) == c
        >> 8) by (bit_vector)
        requires
            c & 0xFF == 0,
    ;
}

/// One byte of the register through the first table, the rest moved up.
proof fn lemma_shifted_byte(c: u32)
    ensures
        shifted(c, 8) == shifted(c & 0xFF, 8) ^ (c >> 8),
{
    let high = c & 0xFFFF_FF00u32;
    assert((c & 0xFF) ^ high == c && high & 0xFF == 0 && high >> 8 == c >> 8) by (bit_vector)
        requires
            high == c & 0xFFFF_FF00u32,
    ;
    lemma_linear(c & 0xFF, high, 8);
    lemma_shifted_clear(high);
}

/// A word goes through eight bytes as its four bytes do, each from its own place.
proof fn lemma_shifted_word(w: u32)
    ensures
        shifted(w, 64) == shifted(w & 0xFF, 64) ^ shifted((w >> 8) & 0xFF, 56) ^ shifted(
            (w >> 16) & 0xFF,
            48,
        ) ^ shifted((w >> 24) & 0xFF, 40),
{
    let b0 = w & 0xFF;
    let b1 = (w >> 8) & 0xFF;
    let b2 = (w >> 16) & 0xFF;
    let b3 = (w >> 24) & 0xFF;
    let r1 = w >> 8;
    let r2 = w >> 16;
    let r3 = w >> 24;
    assert(r1 >> 8 == r2 && r2 >> 8 == r3 && r3 & 0xFF == r3) by (bit_vector)
        requires
            r1 == w >> 8,
            r2 == w >> 16,
            r3 == w >> 24,
    ;
    lemma_shifted_byte(w);
    lemma_shifted_byte(r1);
    lemma_shifted_byte(r2);
    lemma_shifted_add(w, 8, 56);
    lemma_shifted_add(b0, 8, 56);
    lemma_linear(shifted(b0, 8), r1, 56);
    lemma_shifted_add(r1, 8, 48);
    lemma_shifted_add(b1, 8, 48);
    lemma_linear(shifted(b1, 8), r2, 48);
    lemma_shifted_add(r2, 8, 40);
    lemma_shifted_add(b2, 8, 40);
    lemma_linear(shifted(b2, 8), r3, 40);
    lemma_regroup(shifted(b0, 64), shifted(b1, 56), shifted(b2, 48), shifted(b3, 40));
}

proof fn lemma_regroup(a: u32, b: u32, c: u32, d: u32)
    ensures
        a ^ (b ^ (c ^ d)) == a ^ b ^ c ^ d,
{
    assert(a ^ (b ^ (c ^ d)) == a ^ b ^ c ^ d) by (bit_vector);
}

/// The register and the bytes act apart from each other.
proof fn lemma_fold_linear(c: u32, s: Seq<u8>)
    ensures
        crc_fold(c, s) == shifted(c, 8 * s.len()) ^ crc_fold(0, s),
    decreases s.len(),
{
    if s.len() == 0 {
        assert(c ^ 0u32 == c) by (bit_vector);
    } else {
        let r = s.drop_last();
        let b = s.last() as u32;
        lemma_fold_linear(c, r);
        let x = shifted(c, 8 * r.len());
        let y = crc_fold(0, r);
        assert((x ^ y) ^ b == x ^ (y ^ b)) by (bit_vector);
        lemma_linear(x, y ^ b, 8);
        lemma_shifted_add(c, 8 * r.len(), 8);
    }
}

/// The first byte is shifted by itself and all that follows it.
proof fn lemma_fold_front(s: Seq<u8>)
    requires
        s.len() > 0,
    ensures
        crc_fold(0, s) == shifted(s[0] as u32, 8 * s.len()) ^ crc_fold(0, s.skip(1)),
{
    let b = s[0] as u32;
    let one = seq![s[0]];
    assert(s =~= one + s.skip(1));
    lemma_fold_add(0, one, s.skip(1));
    assert(one.drop_last() =~= Seq::empty());
    assert(0u32 ^ b == b) by (bit_vector);
    assert(crc_fold(0, one.drop_last()) == 0);
    lemma_fold_linear(shifted(b, 8), s.skip(1));
    lemma_shifted_add(b, 8, 8 * s.skip(1).len());
}

/// The bytes of a word.
proof fn lemma_word_bytes(w: u32, b0: u8, b1: u8, b2: u8, b3: u8)
    requires
        w == b0 + 256 * b1 + 65536 * b2 + 16777216 * b3,
    ensures
        w & 0xFF == b0,
        (w >> 8) & 0xFF == b1,
        (w >> 16) & 0xFF == b2,
        (w >> 24) & 0xFF == b3,
{
    assert(w & 0xFF == b0 && (w >> 8) & 0xFF == b1 && (w >> 16) & 0xFF == b2 && (w >> 24) & 0xFF
        == b3) by (bit_vector)
        requires
            w == b0 + 256 * b1 + 65536 * b2 + 16777216 * b3,
    ;
}

/// Eight bytes at once: the first four go into the register, and each byte through its own table.
proof fn lemma_fold_eight(c: u32, s: Seq<u8>, word: u32)
    requires
        s.len() == 8,
        word == bytes::u32_at(s, 0),
    ensures
        ({
            let w = c ^ word;
            crc_fold(c, s) == shifted(w & 0xFF, 64) ^ shifted((w >> 8) & 0xFF, 56) ^ shifted(
                (w >> 16) & 0xFF,
                48,
            ) ^ shifted((w >> 24) & 0xFF, 40) ^ shifted(s[4] as u32, 32) ^ shifted(s[5] as u32, 24)
                ^ shifted(s[6] as u32, 16) ^ shifted(s[7] as u32, 8)
        }),
{
    let w = c ^ word;
    lemma_fold_linear(c, s);
    lemma_fold_front(s);
    lemma_fold_front(s.skip(1));
    lemma_fold_front(s.skip(1).skip(1));
    lemma_fold_front(s.skip(1).skip(1).skip(1));
    let t = s.skip(4);
    assert(s.skip(1).skip(1).skip(1).skip(1) =~= t);
    lemma_fold_front(t);
    lemma_fold_front(t.skip(1));
    lemma_fold_front(t.skip(1).skip(1));
    lemma_fold_front(t.skip(1).skip(1).skip(1));
    assert(t.skip(1).skip(1).skip(1).skip(1).len() == 0);
    lemma_word_bytes(word, s[0], s[1], s[2], s[3]);
    lemma_shifted_word(word);
    lemma_shifted_word(w);
    lemma_linear(c, word, 64);
    let x = shifted(c, 64);
    let a0 = shifted(s[0] as u32, 64);
    let a1 = shifted(s[1] as u32, 56);
    let a2 = shifted(s[2] as u32, 48);
    let a3 = shifted(s[3] as u32, 40);
    let a4 = shifted(s[4] as u32, 32);
    let a5 = shifted(s[5] as u32, 24);
    let a6 = shifted(s[6] as u32, 16);
    let a7 = shifted(s[7] as u32, 8);
    assert(x ^ (a0 ^ (a1 ^ (a2 ^ (a3 ^ (a4 ^ (a5 ^ (a6 ^ (a7 ^ 0u32)))))))) == (x ^ (a0 ^ a1 ^ a2
        ^ a3)) ^ a4 ^ a5 ^ a6 ^ a7) by (bit_vector);
}

/// Table `i` shifts a byte by itself and `i` more.
pub open spec fn is_tables(t: Seq<Vec<u32>>) -> bool {
    &&& t.len() == 8
    &&& forall|i: int| 0 <= i < 8 ==> (#[trigger] t[i])@.len() == 256
    &&& forall|i: int, n: int|
        0 <= i < 8 && 0 <= n < 256 ==> (#[trigger] t[i]@[n]) == shifted(n as u32, (8 * (i + 1)) as nat)
}

/// The register after one bit.
fn step(c: u32) -> (r: u32)
    ensures
        r == crc_step(c),
{
    if c & 1 != 0 {
        0xEDB8_8320u32 ^ (c >> 1)
    } else {
        c >> 1
    }
}

/// The register after one more byte, through the first table.
fn shift_byte(first: &[u32], c: u32) -> (r: u32)
    requires
        first@.len() == 256,
        forall|n: int| 0 <= n < 256 ==> (#[trigger] first@[n]) == shifted(n as u32, 8),
    ensures
        r == shifted(c, 8),
{
    proof {
        lemma_shifted_byte(c);
    }
    assert(c & 0xFF < 256) by (bit_vector);
    first[(c & 0xFF) as usize] ^ (c >> 8)
}

/// The eight tables: the first shifts each byte by eight bits, and each further one by eight more.
fn crc32_tables() -> (t: Vec<Vec<u32>>)
    ensures
        is_tables(t@),
{
    let mut first: Vec<u32> = Vec::new();
    let mut n: u32 = 0;
    while n < 256
        invariant
            n <= 256,
            first@.len() == n,
            forall|m: int| 0 <= m < n ==> (#[trigger] first@[m]) == shifted(m as u32, 8),
        decreases 256 - n,
    {
        let mut c: u32 = n;
        let mut k: usize = 0;
        while k < 8
            invariant
                k <= 8,
                c == shifted(n, k as nat),
            decreases 8 - k,
        {
            c = step(c);
            k += 1;
        }
        first.push(c);
        n += 1;
    }
    let mut t: Vec<Vec<u32>> = Vec::new();
    t.push(first);
    let mut i: usize = 1;
    while i < 8
        invariant
            1 <= i <= 8,
            t@.len() == i,
            forall|j: int| 0 <= j < i ==> (#[trigger] t@[j])@.len() == 256,
            forall|j: int, m: int|
                0 <= j < i && 0 <= m < 256 ==> (#[trigger] t@[j]@[m]) == shifted(
                    m as u32,
                    (8 * (j + 1)) as nat,
                ),
        decreases 8 - i,
    {
        let mut next: Vec<u32> = Vec::new();
        let mut m: usize = 0;
        while m < 256
            invariant
                m <= 256,
                1 <= i < 8,
                t@.len() == i,
                next@.len() == m,
                forall|j: int| 0 <= j < i ==> (#[trigger] t@[j])@.len() == 256,
                forall|j: int, l: int|
                    0 <= j < i && 0 <= l < 256 ==> (#[trigger] t@[j]@[l]) == shifted(
                        l as u32,
                        (8 * (j + 1)) as nat,
                    ),
                forall|l: int|
                    0 <= l < m ==> (#[trigger] next@[l]) == shifted(
                        l as u32,
                        (8 * (i + 1)) as nat,
                    ),
            decreases 256 - m,
        {
            let before: u32 = t[i - 1][m];
            proof {
                assert forall|l: int| 0 <= l < 256 implies (#[trigger] t@[0]@[l]) == shifted(
                    l as u32,
                    8,
                ) by {
                    let j: int = 0;
                    assert(t@[j]@[l] == shifted(l as u32, (8 * (j + 1)) as nat));
                }
                lemma_shifted_add(m as u32, (8 * i) as nat, 8);
            }
            next.push(shift_byte(t[0].as_slice(), before));
            m += 1;
        }
        t.push(next);
        i += 1;
    }
    t
}

/// Carries the register over `data`.
fn fold(c: u32, data: &[u8]) -> (r: u32)
    ensures
        r == crc_fold(c, data@),
{
    let t = crc32_tables();
    let n: usize = data.len();
    let mut crc: u32 = c;
    let mut i: usize = 0;
    assert(data@.take(0) =~= Seq::empty());
    while n - i >= 8
        invariant
            n == data@.len(),
            i <= n,
            is_tables(t@),
            crc == crc_fold(c, data@.take(i as int)),
        decreases n - i,
    {
        let word: u32 = bytes::get_u32(data, i);
        let w: u32 = crc ^ word;
        assert(w & 0xFF < 256 && (w >> 8) & 0xFF < 256 && (w >> 16) & 0xFF < 256 && (w >> 24) & 0xFF
            < 256) by (bit_vector);
        proof {
            let s = data@.subrange(i as int, i + 8);
            lemma_fold_eight(crc, s, word);
            lemma_fold_add(c, data@.take(i as int), s);
            assert(data@.take(i as int) + s =~= data@.take(i + 8));
        }
        crc = t[7][(w & 0xFF) as usize] ^ t[6][((w >> 8) & 0xFF) as usize] ^ t[5][((w >> 16)
            & 0xFF) as usize] ^ t[4][((w >> 24) & 0xFF) as usize] ^ t[3][data[i + 4] as usize]
            ^ t[2][data[i + 5] as usize] ^ t[1][data[i + 6] as usize] ^ t[0][data[i + 7] as usize];
        i += 8;
    }
    proof {
        assert forall|l: int| 0 <= l < 256 implies (#[trigger] t@[0]@[l]) == shifted(l as u32, 8) by {
            let j: int = 0;
            assert(t@[j]@[l] == shifted(l as u32, (8 * (j + 1)) as nat));
        }
    }
    while i < n
        invariant
            n == data@.len(),
            i <= n,
            is_tables(t@),
            forall|l: int| 0 <= l < 256 ==> (#[trigger] t@[0]@[l]) == shifted(l as u32, 8),
            crc == crc_fold(c, data@.take(i as int)),
        decreases n - i,
    {
        assert(data@.take(i + 1).drop_last() =~= data@.take(i as int));
        crc = shift_byte(t[0].as_slice(), crc ^ (data[i] as u32));
        i += 1;
    }
    assert(data@.take(n as int) =~= data@);
    crc
}

/// The CRC-32 of `data`.
pub fn crc32(data: &[u8]) -> (r: u32)
    ensures
        r == crc_of(data@),
{
    fold(0xFFFF_FFFFu32, data) ^ 0xFFFF_FFFFu32
}

/// Carries the CRC-32 of what went before on over `data`.
pub fn crc32_update(crc: u32, data: &[u8]) -> (r: u32)
    ensures
        r == crc_updated(crc, data@),
{
    fold(crc ^ 0xFFFF_FFFFu32, data) ^ 0xFFFF_FFFFu32
}

} // verus!
