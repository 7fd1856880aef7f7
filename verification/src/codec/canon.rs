//! Canonical prefix codes: the codes that follow from the code lengths alone.
//!
//! Codes of one length are consecutive numbers, in the order of the symbols, and
//! those of the next length go on where the shorter ones end.

use crate::codec::bits;
use crate::codec::kraft;
use vstd::prelude::*;

verus! {

pub open spec fn as_nats(lens: Seq<u8>) -> Seq<nat> {
    Seq::new(lens.len(), |i: int| lens[i] as nat)
}

/// The number of codes of `b` bits.
pub open spec fn code_count(lens: Seq<u8>, b: nat) -> nat {
    if b == 0 {
        0
    } else {
        kraft::len_count(as_nats(lens), lens.len(), b)
    }
}

/// The first code of `b` bits.
pub open spec fn start_code(lens: Seq<u8>, b: nat) -> nat
    decreases b,
{
    if b == 0 {
        0
    } else {
        2 * (start_code(lens, (b - 1) as nat) + code_count(lens, (b - 1) as nat))
    }
}

/// The place of symbol `s` among the symbols of its length.
pub open spec fn rank(lens: Seq<u8>, s: int) -> nat {
    kraft::len_count(as_nats(lens), s as nat, lens[s] as nat)
}

/// The code of symbol `s`. Lengths over `max_bits` start at 0.
pub open spec fn code_of(lens: Seq<u8>, max_bits: nat, s: int) -> nat {
    rank(lens, s) + if lens[s] <= max_bits {
        start_code(lens, lens[s] as nat)
    } else {
        0
    }
}

/// The bits of the code of symbol `s`.
pub open spec fn code_bits(lens: Seq<u8>, max_bits: nat, s: int) -> Seq<bool> {
    bits::num_bits(code_of(lens, max_bits, s) as u64, lens[s] as nat)
}

pub open spec fn max_len(lens: Seq<u8>) -> nat
    decreases lens.len(),
{
    if lens.len() == 0 {
        0
    } else if lens.last() > max_len(lens.drop_last()) {
        lens.last() as nat
    } else {
        max_len(lens.drop_last())
    }
}

pub proof fn lemma_max_len(lens: Seq<u8>)
    ensures
        forall|i: int| 0 <= i < lens.len() ==> #[trigger] lens[i] <= max_len(lens),
        max_len(lens) > 0 ==> exists|i: int|
            0 <= i < lens.len() && #[trigger] lens[i] == max_len(lens),
    decreases lens.len(),
{
    if lens.len() > 0 {
        let q = lens.drop_last();
        lemma_max_len(q);
        assert forall|i: int| 0 <= i < lens.len() implies #[trigger] lens[i] <= max_len(lens) by {
            if i < q.len() {
                assert(q[i] == lens[i]);
            }
        }
        if max_len(lens) > 0 {
            if lens.last() > max_len(q) {
                assert(lens[lens.len() - 1] == max_len(lens));
            } else {
                let i = choose|i: int| 0 <= i < q.len() && #[trigger] q[i] == max_len(q);
                assert(lens[i] == max_len(lens));
            }
        }
    }
}

/// The codes of these lengths do not overlap: they fit in the 2^15 words.
pub open spec fn prefix_lens(lens: Seq<u8>, max_bits: nat) -> bool {
    &&& forall|s: int| 0 <= s < lens.len() ==> #[trigger] lens[s] <= max_bits
    &&& max_bits <= 15
    &&& kraft::kraft(kraft::len_counts(as_nats(lens), lens.len(), 15), 15, 15) <= bits::p2(15)
}

proof fn lemma_start_kraft(lens: Seq<u8>, b: nat)
    requires
        1 <= b <= 15,
    ensures
        start_code(lens, b) * bits::p2((15 - b) as nat) == kraft::kraft(
            kraft::len_counts(as_nats(lens), lens.len(), 15),
            (b - 1) as nat,
            15,
        ),
    decreases b,
{
    let counts = kraft::len_counts(as_nats(lens), lens.len(), 15);
    let p = bits::p2((15 - b) as nat);
    if b == 1 {
        assert(start_code(lens, 0) == 0);
        assert(start_code(lens, 1) == 0);
        assert(0 * p == 0);
    } else {
        lemma_start_kraft(lens, (b - 1) as nat);
        let q = bits::p2((15 - (b - 1)) as nat);
        let u = start_code(lens, (b - 1) as nat);
        let c = code_count(lens, (b - 1) as nat);
        assert(q == 2 * p);
        assert(c == counts[b - 1]);
        assert((2 * (u + c)) * p == u * (2 * p) + c * (2 * p)) by (nonlinear_arith);
    }
}

proof fn lemma_rank_bound(lens: Seq<u8>, s: int, t: int)
    requires
        0 <= s < t <= lens.len(),
    ensures
        rank(lens, s) < kraft::len_count(as_nats(lens), t as nat, lens[s] as nat),
    decreases t,
{
    if t > s + 1 {
        lemma_rank_bound(lens, s, t - 1);
    }
}

/// The first word of 15 bits that starts with the code of `s`.
pub open spec fn low(lens: Seq<u8>, max_bits: nat, s: int) -> nat {
    code_of(lens, max_bits, s) * bits::p2((15 - lens[s]) as nat)
}

/// The words of 15 bits that start with the code of `s`.
pub open spec fn covers(lens: Seq<u8>, max_bits: nat, s: int, v: nat) -> bool {
    &&& lens[s] > 0
    &&& low(lens, max_bits, s) <= v < low(lens, max_bits, s) + bits::p2((15 - lens[s]) as nat)
}

proof fn lemma_low(lens: Seq<u8>, max_bits: nat, s: int)
    requires
        prefix_lens(lens, max_bits),
        0 <= s < lens.len(),
        lens[s] > 0,
    ensures
        ({
            let counts = kraft::len_counts(as_nats(lens), lens.len(), 15);
            let l = lens[s] as nat;
            let p = bits::p2((15 - l) as nat);
            &&& low(lens, max_bits, s) == kraft::kraft(counts, (l - 1) as nat, 15) + rank(lens, s)
                * p
            &&& low(lens, max_bits, s) + p <= kraft::kraft(counts, l, 15)
        }),
{
    let counts = kraft::len_counts(as_nats(lens), lens.len(), 15);
    let l = lens[s] as nat;
    let p = bits::p2((15 - l) as nat);
    lemma_start_kraft(lens, l);
    lemma_rank_bound(lens, s, lens.len() as int);
    let r = rank(lens, s);
    let u = start_code(lens, l);
    assert((r + u) * p == u * p + r * p) by (nonlinear_arith);
    let c = counts[l as int];
    assert(r * p + p <= c * p) by (nonlinear_arith)
        requires
            r + 1 <= c,
    ;
}

/// A code is a number of as many bits as it has.
pub proof fn lemma_code_fits(lens: Seq<u8>, max_bits: nat, s: int)
    requires
        prefix_lens(lens, max_bits),
        0 <= s < lens.len(),
        lens[s] > 0,
    ensures
        code_of(lens, max_bits, s) < bits::p2(lens[s] as nat),
{
    lemma_low(lens, max_bits, s);
    let counts = kraft::len_counts(as_nats(lens), lens.len(), 15);
    let l = lens[s] as nat;
    kraft::lemma_kraft_mono(counts, l, 15, 15);
    bits::lemma_p2_add(l, (15 - l) as nat);
    bits::lemma_p2_pos((15 - l) as nat);
    let c = code_of(lens, max_bits, s);
    let p = bits::p2((15 - l) as nat);
    let q = bits::p2(l);
    assert(c < q) by (nonlinear_arith)
        requires
            c * p + p <= q * p,
            p >= 1,
    ;
}

/// No word starts with two codes.
pub proof fn lemma_covers_unique(lens: Seq<u8>, max_bits: nat, s: int, t: int, v: nat)
    requires
        prefix_lens(lens, max_bits),
        0 <= s < lens.len(),
        0 <= t < lens.len(),
        covers(lens, max_bits, s, v),
        covers(lens, max_bits, t, v),
    ensures
        s == t,
{
    let counts = kraft::len_counts(as_nats(lens), lens.len(), 15);
    lemma_low(lens, max_bits, s);
    lemma_low(lens, max_bits, t);
    if lens[s] < lens[t] {
        kraft::lemma_kraft_mono(counts, lens[s] as nat, (lens[t] - 1) as nat, 15);
    } else if lens[t] < lens[s] {
        kraft::lemma_kraft_mono(counts, lens[t] as nat, (lens[s] - 1) as nat, 15);
    } else if s != t {
        let (a, b) = if s < t {
            (s, t)
        } else {
            (t, s)
        };
        lemma_rank_bound(lens, a, b);
        let p = bits::p2((15 - lens[s]) as nat);
        let x = rank(lens, a);
        let y = rank(lens, b);
        assert(x * p + p <= y * p) by (nonlinear_arith)
            requires
                x + 1 <= y,
        ;
    }
}

/// A stream that starts with a code shows a word that the code covers.
pub proof fn lemma_code_front(lens: Seq<u8>, max_bits: nat, s: int, z: Seq<bool>)
    requires
        prefix_lens(lens, max_bits),
        0 <= s < lens.len(),
        lens[s] > 0,
    ensures
        covers(
            lens,
            max_bits,
            s,
            bits::front_num(code_bits(lens, max_bits, s) + z, 15),
        ),
        bits::after(code_bits(lens, max_bits, s) + z, lens[s] as nat) == z,
        code_bits(lens, max_bits, s).len() == lens[s],
{
    let l = lens[s] as nat;
    let c = code_of(lens, max_bits, s);
    let head = code_bits(lens, max_bits, s);
    let b = head + z;
    lemma_code_fits(lens, max_bits, s);
    bits::lemma_p2_small();
    bits::lemma_p2_mono(l, 15);
    bits::lemma_num_bits_value(c as u64, l);
    let w = Seq::new(15, |i: int| i < b.len() && b[i]);
    let tail = w.skip(l as int);
    assert(w =~= head + tail);
    bits::lemma_bits_num_concat(head, tail);
    bits::lemma_bits_num_bound(tail);
    assert(b.skip(l as int) =~= z);
}

proof fn lemma_start_bound(lens: Seq<u8>, b: nat)
    ensures
        start_code(lens, b) <= 2 * lens.len() * (bits::p2(b) - 1),
    decreases b,
{
    if b > 0 {
        lemma_start_bound(lens, (b - 1) as nat);
        kraft::lemma_len_count(as_nats(lens), lens.len(), (b - 1) as nat);
        let n = lens.len();
        let p = bits::p2((b - 1) as nat);
        let u = start_code(lens, (b - 1) as nat);
        let c = code_count(lens, (b - 1) as nat);
        assert(2 * (u + c) <= 2 * n * (2 * p - 1)) by (nonlinear_arith)
            requires
                u <= 2 * n * (p - 1),
                c <= n,
        ;
    }
}

/// The longest of the lengths.
pub fn longest(lens: &[u8]) -> (m: u8)
    ensures
        m == max_len(lens@),
{
    let mut m: u8 = 0;
    let mut i: usize = 0;
    while i < lens.len()
        invariant
            i <= lens@.len(),
            m == max_len(lens@.take(i as int)),
        decreases lens@.len() - i,
    {
        if lens[i] > m {
            m = lens[i];
        }
        i = i + 1;
        assert(lens@.take(i as int).drop_last() =~= lens@.take(i - 1));
    }
    assert(lens@.take(i as int) =~= lens@);
    m
}

/// Counts the codes of each length up to 15.
fn count_lens(lens: &[u8]) -> (counts: Vec<usize>)
    requires
        forall|s: int| 0 <= s < lens@.len() ==> #[trigger] lens@[s] <= 15,
    ensures
        counts@.len() == 16,
        forall|b: int| 1 <= b < 16 ==> #[trigger] counts@[b] == code_count(lens@, b as nat),
        counts@[0] == 0,
{
    let mut counts: Vec<usize> = vec![0usize; 16];
    let mut i: usize = 0;
    let n: usize = lens.len();
    while i < n
        invariant
            i <= n == lens@.len(),
            counts@.len() == 16,
            counts@[0] == 0,
            forall|s: int| 0 <= s < lens@.len() ==> #[trigger] lens@[s] <= 15,
            forall|b: int|
                1 <= b < 16 ==> #[trigger] counts@[b] == kraft::len_count(
                    as_nats(lens@),
                    i as nat,
                    b as nat,
                ),
        decreases n - i,
    {
        let l: usize = lens[i] as usize;
        assert(lens@[i as int] <= 15);
        proof {
            kraft::lemma_len_count(as_nats(lens@), i as nat, l as nat);
        }
        if l > 0 {
            assert(counts@[l as int] <= i);
            let c: usize = counts[l];
            counts.set(l, c + 1);
        }
        i = i + 1;
    }
    counts
}

/// The code of every symbol that has one.
pub fn assign_codes(lens: &[u8], max_bits: usize) -> (codes: Vec<u32>)
    requires
        lens@.len() <= 16384,
        max_bits <= 15,
        forall|s: int| 0 <= s < lens@.len() ==> #[trigger] lens@[s] <= 15,
    ensures
        codes@.len() == lens@.len(),
        forall|s: int|
            0 <= s < lens@.len() && lens@[s] > 0 ==> #[trigger] codes@[s] == code_of(
                lens@,
                max_bits as nat,
                s,
            ),
{
    let counts = count_lens(lens);
    let mut next: Vec<u32> = vec![0u32; 16];
    let mut code: u32 = 0;
    let mut b: usize = 1;
    proof {
        bits::lemma_p2_small();
    }
    while b <= max_bits
        invariant
            1 <= b <= max_bits + 1,
            max_bits <= 15,
            lens@.len() <= 16384,
            counts@.len() == 16,
            next@.len() == 16,
            forall|b: int| 1 <= b < 16 ==> #[trigger] counts@[b] == code_count(lens@, b as nat),
            counts@[0] == 0,
            code == start_code(lens@, (b - 1) as nat),
            forall|l: int| 0 <= l < 16 ==> #[trigger] next@[l] == if 1 <= l < b {
                start_code(lens@, l as nat)
            } else {
                0
            },
        decreases max_bits + 1 - b,
    {
        proof {
            lemma_start_bound(lens@, b as nat);
            bits::lemma_p2_mono(b as nat, 15);
            bits::lemma_p2_small();
            let n = lens@.len();
            let p = bits::p2(b as nat);
            assert(2 * n * (p - 1) <= 2 * 16384 * 32767) by (nonlinear_arith)
                requires
                    n <= 16384,
                    1 <= p <= 32768,
            ;
            assert(counts@[b - 1] == code_count(lens@, (b - 1) as nat));
        }
        code = 2 * (code + counts[b - 1] as u32);
        next.set(b, code);
        b = b + 1;
    }
    let mut codes: Vec<u32> = Vec::new();
    let mut s: usize = 0;
    let ghost starts = next@;
    proof {
        assert forall|l: int| 1 <= l < 16 implies #[trigger] starts[l] <= 2 * 16384 * 32767 by {
            lemma_start_bound(lens@, l as nat);
            bits::lemma_p2_mono(l as nat, 15);
            bits::lemma_p2_pos(l as nat);
            let n = lens@.len();
            let p = bits::p2(l as nat);
            assert(2 * n * (p - 1) <= 2 * 16384 * 32767) by (nonlinear_arith)
                requires
                    n <= 16384,
                    1 <= p <= 32768,
            ;
        }
    }
    while s < lens.len()
        invariant
            s <= lens@.len() <= 16384,
            codes@.len() == s,
            next@.len() == 16,
            forall|s: int| 0 <= s < lens@.len() ==> #[trigger] lens@[s] <= 15,
            forall|l: int|
                1 <= l < 16 ==> #[trigger] next@[l] == starts[l] + kraft::len_count(
                    as_nats(lens@),
                    s as nat,
                    l as nat,
                ),
            forall|l: int| 1 <= l < 16 ==> #[trigger] starts[l] <= 2 * 16384 * 32767,
            forall|l: int|
                1 <= l < 16 ==> #[trigger] starts[l] == if l <= max_bits {
                    start_code(lens@, l as nat)
                } else {
                    0
                },
            forall|t: int|
                0 <= t < s && lens@[t] > 0 ==> #[trigger] codes@[t] == code_of(
                    lens@,
                    max_bits as nat,
                    t,
                ),
        decreases lens@.len() - s,
    {
        let l: usize = lens[s] as usize;
        assert(lens@[s as int] <= 15);
        if l > 0 {
            proof {
                kraft::lemma_len_count(as_nats(lens@), s as nat, l as nat);
                assert(next@[l as int] == starts[l as int] + rank(lens@, s as int));
            }
            let c: u32 = next[l];
            codes.push(c);
            next.set(l, c + 1);
        } else {
            codes.push(0);
        }
        s = s + 1;
    }
    codes
}

/// Codes rise with their length, and among those of one length with the symbol: of two words that
/// start with a code each, filled up to 15 bits, the one with the shorter code, or of codes of one
/// length with the smaller symbol, is less.
pub proof fn lemma_codes_rise(lens: Seq<u8>, max_bits: nat, a: int, b: int)
    requires
        prefix_lens(lens, max_bits),
        0 <= a < lens.len(),
        0 <= b < lens.len(),
        lens[a] > 0,
        lens[b] > 0,
        lens[a] < lens[b] || (lens[a] == lens[b] && a < b),
    ensures
        (code_of(lens, max_bits, a) + 1) * bits::p2((15 - lens[a]) as nat) <= code_of(
            lens,
            max_bits,
            b,
        ) * bits::p2((15 - lens[b]) as nat),
{
    let counts = kraft::len_counts(as_nats(lens), lens.len(), 15);
    lemma_low(lens, max_bits, a);
    lemma_low(lens, max_bits, b);
    let p = bits::p2((15 - lens[a]) as nat);
    let c = code_of(lens, max_bits, a);
    assert((c + 1) * p == c * p + p) by (nonlinear_arith);
    if lens[a] < lens[b] {
        kraft::lemma_kraft_mono(counts, lens[a] as nat, (lens[b] - 1) as nat, 15);
    } else {
        lemma_rank_bound(lens, a, b);
        let x = rank(lens, a);
        let y = rank(lens, b);
        assert(x * p + p <= y * p) by (nonlinear_arith)
            requires
                x < y,
        ;
    }
}

/// The first of the shortest codes is all zeros.
pub proof fn lemma_first_code(lens: Seq<u8>, max_bits: nat, s: int)
    requires
        prefix_lens(lens, max_bits),
        0 <= s < lens.len(),
        lens[s] > 0,
        forall|t: int| 0 <= t < lens.len() && lens[t] > 0 ==> #[trigger] lens[t] >= lens[s],
        forall|t: int| 0 <= t < s && lens[t] > 0 ==> #[trigger] lens[t] > lens[s],
    ensures
        code_of(lens, max_bits, s) == 0,
{
    lemma_none_shorter(lens, lens[s] as nat);
    lemma_no_rank(lens, s, s as nat);
}

proof fn lemma_none_shorter(lens: Seq<u8>, b: nat)
    requires
        forall|t: int| 0 <= t < lens.len() && lens[t] > 0 ==> #[trigger] lens[t] >= b,
    ensures
        start_code(lens, b) == 0,
    decreases b,
{
    if b > 0 {
        lemma_none_shorter(lens, (b - 1) as nat);
        if b > 1 {
            lemma_count_none(lens, (b - 1) as nat, lens.len());
        }
    }
}

proof fn lemma_count_none(lens: Seq<u8>, b: nat, k: nat)
    requires
        b >= 1,
        k <= lens.len(),
        forall|t: int| 0 <= t < k ==> #[trigger] lens[t] != b,
    ensures
        kraft::len_count(as_nats(lens), k, b) == 0,
    decreases k,
{
    if k > 0 {
        lemma_count_none(lens, b, (k - 1) as nat);
    }
}

proof fn lemma_no_rank(lens: Seq<u8>, s: int, k: nat)
    requires
        0 <= s < lens.len(),
        k <= s,
        lens[s] > 0,
        forall|t: int| 0 <= t < s && lens[t] > 0 ==> #[trigger] lens[t] > lens[s],
    ensures
        kraft::len_count(as_nats(lens), k, lens[s] as nat) == 0,
{
    lemma_count_none(lens, lens[s] as nat, k);
}

} // verus!
