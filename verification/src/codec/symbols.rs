//! The alphabets of match lengths and distances.
//!
//! A distance or a length is written as a code, which names a range of values,
//! and extra bits, which pick one value of that range.

use crate::codec::bits;
use vstd::prelude::*;

verus! {

/// How many extra bits follow distance code `c`.
pub open spec fn dist_extra(c: int) -> nat {
    if c < 4 {
        0
    } else {
        (c / 2 - 1) as nat
    }
}

/// The least distance (less one) that distance code `c` stands for.
pub open spec fn dist_base(c: int) -> nat {
    if c < 4 {
        c as nat
    } else {
        if c % 2 == 0 {
            2 * bits::p2(dist_extra(c))
        } else {
            3 * bits::p2(dist_extra(c))
        }
    }
}

/// The greatest code up to `c` whose range does not start above `d`.
pub open spec fn dist_code_upto(d: nat, c: int) -> int
    decreases c,
{
    if c <= 0 || dist_base(c) <= d {
        c
    } else {
        dist_code_upto(d, c - 1)
    }
}

/// The code of a distance (less one).
pub open spec fn dist_code(d: nat) -> int {
    dist_code_upto(d, 31)
}

/// How many extra bits follow length code `c`.
pub open spec fn len_extra(c: int) -> nat {
    if c < 8 || c >= 28 {
        0
    } else {
        (c / 4 - 1) as nat
    }
}

/// The least match length that length code `c` stands for.
pub open spec fn len_base(c: int) -> nat {
    if c < 8 {
        (c + 3) as nat
    } else if c < 28 {
        let unit = bits::p2(len_extra(c));
        3 + if c % 4 == 0 {
            4 * unit
        } else if c % 4 == 1 {
            5 * unit
        } else if c % 4 == 2 {
            6 * unit
        } else {
            7 * unit
        }
    } else {
        258
    }
}

/// The greatest code up to `c` whose range does not start above `l`.
pub open spec fn len_code_upto(l: nat, c: int) -> int
    decreases c,
{
    if c <= 0 || len_base(c) <= l {
        c
    } else {
        len_code_upto(l, c - 1)
    }
}

/// The code of a match length.
pub open spec fn len_code(l: nat) -> int {
    len_code_upto(l, 28)
}

/// Code to (base distance, number of extra bits).
pub const DIST_CODE_TABLE: [(u16, u8); 32] = [
    (0, 0), (1, 0), (2, 0), (3, 0), (4, 1), (6, 1), (8, 2), (12, 2),
    (16, 3), (24, 3), (32, 4), (48, 4), (64, 5), (96, 5), (128, 6), (192, 6),
    (256, 7), (384, 7), (512, 8), (768, 8), (1024, 9), (1536, 9), (2048, 10), (3072, 10),
    (4096, 11), (6144, 11), (8192, 12), (12288, 12), (16384, 13), (24576, 13), (32768, 14), (49152, 14),
];

/// Code to (base length, number of extra bits).
pub const LEN_CODE_TABLE: [(u16, u8); 29] = [
    (3, 0), (4, 0), (5, 0), (6, 0), (7, 0), (8, 0), (9, 0), (10, 0),
    (11, 1), (13, 1), (15, 1), (17, 1), (19, 2), (23, 2), (27, 2), (31, 2),
    (35, 3), (43, 3), (51, 3), (59, 3), (67, 4), (83, 4), (99, 4), (115, 4),
    (131, 5), (163, 5), (195, 5), (227, 5), (258, 0),
];

proof fn lemma_dist_table(c: int)
    requires
        0 <= c < 32,
    ensures
        DIST_CODE_TABLE@[c].0 == dist_base(c),
        DIST_CODE_TABLE@[c].1 == dist_extra(c),
{
    bits::lemma_p2_small();
    let t = DIST_CODE_TABLE;
    assert(t[c] == DIST_CODE_TABLE@[c]);
}

proof fn lemma_len_table(c: int)
    requires
        0 <= c < 29,
    ensures
        LEN_CODE_TABLE@[c].0 == len_base(c),
        LEN_CODE_TABLE@[c].1 == len_extra(c),
{
    bits::lemma_p2_small();
    let t = LEN_CODE_TABLE;
    assert(t[c] == LEN_CODE_TABLE@[c]);
}

/// The ranges of the distance codes follow one another without a gap, up to 65536.
pub proof fn lemma_dist_ranges(c: int)
    requires
        0 <= c < 32,
    ensures
        dist_base(c) + bits::p2(dist_extra(c)) == if c == 31 { 65536 } else { dist_base(c + 1) },
        dist_extra(c) <= 14,
{
    bits::lemma_p2_small();
}

/// The ranges of the length codes follow one another without a gap; only the
/// last value of code 27 is taken over by code 28.
pub proof fn lemma_len_ranges(c: int)
    requires
        0 <= c < 29,
    ensures
        c < 27 ==> len_base(c) + bits::p2(len_extra(c)) == len_base(c + 1),
        c == 27 ==> len_base(c) + bits::p2(len_extra(c)) == 259,
        len_extra(c) <= 5,
{
    bits::lemma_p2_small();
}

/// No distance is over 65536.
pub proof fn lemma_dist_top(c: int)
    requires
        0 <= c < 32,
    ensures
        dist_base(c) + bits::p2(dist_extra(c)) <= 65536,
{
    bits::lemma_p2_small();
}

/// No length is over 258.
pub proof fn lemma_len_top(c: int)
    requires
        0 <= c < 29,
    ensures
        len_base(c) + bits::p2(len_extra(c)) <= 259,
{
    bits::lemma_p2_small();
}

proof fn lemma_dist_code_upto(d: nat, c: int)
    requires
        0 <= c < 32,
        c < 31 ==> d < dist_base(c + 1),
        d < 65536,
    ensures
        0 <= dist_code_upto(d, c) <= c,
        dist_base(dist_code_upto(d, c)) <= d < dist_base(dist_code_upto(d, c)) + bits::p2(
            dist_extra(dist_code_upto(d, c)),
        ),
    decreases c,
{
    lemma_dist_ranges(c);
    if c > 0 && dist_base(c) > d {
        lemma_dist_code_upto(d, c - 1);
    }
}

/// Every distance up to 65536 lies in the range of its code.
pub proof fn lemma_dist_code(d: nat)
    requires
        d < 65536,
    ensures
        0 <= dist_code(d) < 32,
        dist_base(dist_code(d)) <= d < dist_base(dist_code(d)) + bits::p2(dist_extra(dist_code(d))),
{
    lemma_dist_code_upto(d, 31);
}

proof fn lemma_len_code_upto(l: nat, c: int)
    requires
        0 <= c < 29,
        c < 28 ==> l < len_base(c + 1),
        3 <= l <= 258,
    ensures
        0 <= len_code_upto(l, c) <= c,
        len_base(len_code_upto(l, c)) <= l < len_base(len_code_upto(l, c)) + bits::p2(
            len_extra(len_code_upto(l, c)),
        ),
    decreases c,
{
    bits::lemma_p2_small();
    if c > 0 && len_base(c) > l {
        lemma_len_code_upto(l, c - 1);
    }
}

/// Every match length from 3 to 258 lies in the range of its code.
pub proof fn lemma_len_code(l: nat)
    requires
        3 <= l <= 258,
    ensures
        0 <= len_code(l) < 29,
        len_base(len_code(l)) <= l < len_base(len_code(l)) + bits::p2(len_extra(len_code(l))),
{
    lemma_len_code_upto(l, 28);
}

/// A distance has as many extra bits as it has binary digits behind its first two, and a length,
/// less three, as many as behind its first three; only the longest length has none.
pub proof fn lemma_extra_bits(d: nat, l: nat)
    requires
        2 <= d < 65536,
        7 <= l < 258,
    ensures
        ({
            let x = dist_extra(dist_code(d));
            bits::p2(x + 1) <= d < bits::p2(x + 2)
        }),
        ({
            let x = len_extra(len_code(l));
            bits::p2(x + 2) <= l - 3 < bits::p2(x + 3)
        }),
        dist_extra(dist_code(0)) == 0 && dist_extra(dist_code(1)) == 0,
        len_code(258) == 28 && len_extra(28) == 0,
        forall|k: nat| 3 <= k < 7 ==> len_extra(#[trigger] len_code(k)) == 0,
{
    bits::lemma_p2_small();
    lemma_dist_code(d);
    lemma_dist_code(0);
    lemma_dist_code(1);
    lemma_len_code(l);
    lemma_len_code(258);
    let x = dist_extra(dist_code(d));
    let y = len_extra(len_code(l));
    assert(bits::p2(x + 2) == 2 * bits::p2(x + 1));
    assert(bits::p2(x + 1) == 2 * bits::p2(x));
    assert(bits::p2(y + 3) == 2 * bits::p2(y + 2));
    assert(bits::p2(y + 2) == 2 * bits::p2(y + 1));
    assert(bits::p2(y + 1) == 2 * bits::p2(y));
    assert(len_code(l) < 28);
    assert forall|k: nat| 3 <= k < 7 implies len_extra(#[trigger] len_code(k)) == 0 by {
        lemma_len_code(k);
        let c = len_code(k);
        lemma_len_ranges(c);
        if c >= 8 {
            assert(len_base(c) >= 11) by {
                bits::lemma_p2_pos(len_extra(c));
            }
        }
    }
}

/// Splits a distance (less one) into its code, the extra bits and their number.
pub fn dist_to_code(dist: u16) -> (r: (u8, u16, u8))
    ensures
        r.0 == dist_code(dist as nat),
        r.1 == dist - dist_base(r.0 as int),
        r.2 == dist_extra(r.0 as int),
        r.0 < 32,
{
    let mut c: usize = 31;
    proof {
        lemma_dist_table(31);
    }
    while c > 0 && DIST_CODE_TABLE[c].0 > dist
        invariant
            c < 32,
            dist_code_upto(dist as nat, c as int) == dist_code(dist as nat),
        decreases c,
    {
        proof {
            lemma_dist_table(c as int);
        }
        c = c - 1;
    }
    proof {
        lemma_dist_table(c as int);
        lemma_dist_code(dist as nat);
    }
    (c as u8, dist - DIST_CODE_TABLE[c].0, DIST_CODE_TABLE[c].1)
}

/// The distance (less one) that a code and its extra bits stand for.
pub fn code_to_dist(code: u8, extra: u16) -> (r: u16)
    requires
        code < 32,
        dist_base(code as int) + extra <= u16::MAX,
    ensures
        r == dist_base(code as int) + extra,
{
    proof {
        lemma_dist_table(code as int);
    }
    DIST_CODE_TABLE[code as usize].0 + extra
}

/// Length to length code, for every length up to 258; lengths below 3 get code 0.
pub fn build_len_lookup() -> (lookup: [u8; 259])
    ensures
        forall|l: int| 0 <= l < 259 ==> #[trigger] lookup@[l] == len_code(l as nat),
{
    let mut lookup = [0u8; 259];
    let mut l: usize = 0;
    while l < 259
        invariant
            l <= 259,
            forall|k: int| 0 <= k < l ==> #[trigger] lookup@[k] == len_code(k as nat),
        decreases 259 - l,
    {
        let code = find_len_code(l as u16);
        lookup[l] = code;
        l = l + 1;
    }
    lookup
}

fn find_len_code(length: u16) -> (r: u8)
    ensures
        r == len_code(length as nat),
        r < 29,
{
    let mut c: usize = 28;
    while c > 0 && LEN_CODE_TABLE[c].0 > length
        invariant
            c < 29,
            len_code_upto(length as nat, c as int) == len_code(length as nat),
        decreases c,
    {
        proof {
            lemma_len_table(c as int);
        }
        c = c - 1;
    }
    proof {
        lemma_len_table(c as int);
    }
    c as u8
}

/// Splits a match length into its code, the extra bits and their number.
/// Lengths above 258 count as 258.
pub fn len_to_code(length: u16) -> (r: (u8, u16, u8))
    requires
        length >= 3,
    ensures
        r.0 == len_code(if length > 258 { 258 } else { length as nat }),
        r.1 == (if length > 258 { 258 } else { length as int }) - len_base(r.0 as int),
        r.2 == len_extra(r.0 as int),
        r.0 < 29,
{
    if length >= 258 {
        assert(len_code(258) == 28);
        return (28, 0, 0);
    }
    let code = find_len_code(length);
    proof {
        lemma_len_table(code as int);
        lemma_len_code(length as nat);
    }
    let row = LEN_CODE_TABLE[code as usize];
    (code, length - row.0, row.1)
}

/// The match length that a code and its extra bits stand for; 0 for no code.
pub fn code_to_len(code: u8, extra: u16) -> (r: u16)
    requires
        code < 29 ==> len_base(code as int) + extra <= u16::MAX,
    ensures
        r == if code < 29 { len_base(code as int) + extra } else { 0 },
{
    if code > 28 {
        return 0;
    }
    proof {
        lemma_len_table(code as int);
    }
    LEN_CODE_TABLE[code as usize].0 + extra
}

/// The number of extra bits behind a length code.
pub fn len_extra_bits(code: u8) -> (r: u8)
    requires
        code < 29,
    ensures
        r == len_extra(code as int),
{
    proof {
        lemma_len_table(code as int);
    }
    LEN_CODE_TABLE[code as usize].1
}

/// The number of extra bits behind a distance code.
pub fn dist_extra_bits(code: u8) -> (r: u8)
    requires
        code < 32,
    ensures
        r == dist_extra(code as int),
{
    proof {
        lemma_dist_table(code as int);
    }
    DIST_CODE_TABLE[code as usize].1
}

} // verus!
