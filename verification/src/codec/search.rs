//! What the search for repeats is sure to find.
//!
//! A repeat is found if the bytes stand in the window, at a position that was entered, and not too
//! many positions with the same mark were entered behind it.

use crate::codec::alone;
use crate::codec::bits;
use crate::codec::canon;
use crate::codec::cost;
use crate::codec::deflate;
use crate::codec::huffman;
use crate::codec::lz;
use crate::codec::lz::{Block, Chains, Token};
use crate::codec::rle;
use crate::codec::symbols;
use vstd::prelude::*;

verus! {

// ---- marks ----

/// The byte at `j`, or 0 behind the end.
pub open spec fn byte_or_zero(data: Seq<u8>, j: int) -> nat {
    if 0 <= j < data.len() {
        data[j] as nat
    } else {
        0
    }
}

/// The mark of four bytes: the upper half of the lower 32 bits of their number times a constant.
pub open spec fn mark(data: Seq<u8>, j: int) -> nat {
    let word = byte_or_zero(data, j) + 256 * byte_or_zero(data, j + 1) + 65536 * byte_or_zero(
        data,
        j + 2,
    ) + 16777216 * byte_or_zero(data, j + 3);
    ((word * 0x1E35A7BD) % 0x1_0000_0000) / 65536
}

/// How many positions between `p` and `x` have the mark of `i`.
pub open spec fn crowd(data: Seq<u8>, p: int, x: int, i: int) -> nat
    decreases x - p,
{
    if x <= p + 1 {
        0
    } else {
        crowd(data, p, x - 1, i) + if mark(data, x - 1) == mark(data, i) {
            1nat
        } else {
            0nat
        }
    }
}

/// The bytes at `p` and at `i` are alike for `l` bytes.
pub open spec fn alike(data: Seq<u8>, p: int, i: int, l: nat) -> bool {
    forall|k: int| 0 <= k < l ==> #[trigger] data[p + k] == data[i + k]
}

proof fn lemma_mark(data: Seq<u8>, a: int, b: int, hash_bits: nat)
    requires
        16 <= hash_bits <= 32,
        0 <= a < data.len(),
        0 <= b < data.len(),
    ensures
        lz::hash_at(data, a, hash_bits) == lz::hash_at(data, b, hash_bits) ==> mark(data, a)
            == mark(data, b),
{
    let x = (lz::word_at(data, a) * 0x1E35A7BD) % 0x1_0000_0000;
    let y = (lz::word_at(data, b) * 0x1E35A7BD) % 0x1_0000_0000;
    let c = bits::p2((32 - hash_bits) as nat) as int;
    let d = bits::p2((hash_bits - 16) as nat) as int;
    bits::lemma_p2_pos((32 - hash_bits) as nat);
    bits::lemma_p2_pos((hash_bits - 16) as nat);
    bits::lemma_p2_add((32 - hash_bits) as nat, (hash_bits - 16) as nat);
    bits::lemma_p2_small();
    assert(c * d == 65536);
    vstd::arithmetic::div_mod::lemma_div_denominator(x as int, c, d);
    vstd::arithmetic::div_mod::lemma_div_denominator(y as int, c, d);
}

proof fn lemma_same_hash(data: Seq<u8>, p: int, i: int, l: nat, hash_bits: nat)
    requires
        0 <= p < i,
        l >= 4,
        i + l <= data.len(),
        alike(data, p, i, l),
    ensures
        lz::hash_at(data, p, hash_bits) == lz::hash_at(data, i, hash_bits),
{
    assert(data[p + 0] == data[i + 0]);
    assert(data[p + 1] == data[i + 1]);
    assert(data[p + 2] == data[i + 2]);
    assert(data[p + 3] == data[i + 3]);
    assert(lz::word_at(data, p) == lz::word_at(data, i));
}

// ---- tables and the positions that were entered ----

/// The tables once the positions were entered, one after the other.
pub open spec fn entered_all(b: Block, c: Chains, s: Seq<int>) -> Chains
    decreases s.len(),
{
    if s.len() == 0 {
        c
    } else {
        b.entered(entered_all(b, c, s.drop_last()), s.last())
    }
}

/// Positions below `i`, each behind the one before it.
pub open spec fn rising(s: Seq<int>, i: int) -> bool {
    &&& forall|k: int| 0 <= k < s.len() ==> 0 <= #[trigger] s[k] < i
    &&& forall|k: int, m: int| 0 <= k < m < s.len() ==> #[trigger] s[k] < #[trigger] s[m]
}

/// The last of the positions below `bound` that has hash `h`.
spec fn latest(b: Block, s: Seq<int>, h: nat, bound: int) -> Option<int>
    decreases s.len(),
{
    if s.len() == 0 {
        None
    } else if s.last() < bound && lz::hash_at(b.data, s.last(), b.hash_bits) == h {
        Some(s.last())
    } else {
        latest(b, s.drop_last(), h, bound)
    }
}

/// What a table holds of a position, or what it held at first.
spec fn held(b: Block, q: Option<int>, first: Option<nat>) -> Option<nat> {
    match q {
        Some(x) => Some((b.base + x) as nat),
        None => first,
    }
}

/// What the search needs of a block.
pub open spec fn searchable(b: Block) -> bool {
    &&& b.wf()
    &&& 16 <= b.hash_bits <= 20
    &&& exists|e: nat| e < 64 && b.window == bits::p2(e)
}

proof fn lemma_rising_less(s: Seq<int>, i: int)
    requires
        rising(s, i),
        s.len() > 0,
    ensures
        rising(s.drop_last(), s.last()),
        rising(s.drop_last(), i),
        0 <= s.last() < i,
{
    let t = s.drop_last();
    assert(s.last() == s[s.len() - 1]);
    assert forall|k: int| 0 <= k < t.len() implies 0 <= #[trigger] t[k] < s.last() by {
        assert(t[k] == s[k]);
    }
    assert forall|k: int, m: int| 0 <= k < m < t.len() implies #[trigger] t[k] < #[trigger] t[m] by {
        assert(s[k] < s[m]);
    }
}

proof fn lemma_latest_all(b: Block, s: Seq<int>, h: nat, x: int, y: int)
    requires
        rising(s, x),
        x <= y,
    ensures
        latest(b, s, h, x) == latest(b, s, h, y),
    decreases s.len(),
{
    if s.len() > 0 {
        lemma_rising_less(s, x);
        lemma_latest_all(b, s.drop_last(), h, x, y);
    }
}

/// Positions less than a window apart have different slots.
proof fn lemma_slots(b: Block, x: int, y: int)
    requires
        searchable(b),
        0 <= x < y < b.data.len(),
        y - x < b.window,
    ensures
        lz::ring_slot(b.window, (b.base + x) as nat) != lz::ring_slot(
            b.window,
            (b.base + y) as nat,
        ),
{
    let w = b.window as int;
    alone::lemma_ring_mod(b.window, (b.base + x) as nat);
    alone::lemma_ring_mod(b.window, (b.base + y) as nat);
    if (b.base + x) % w == (b.base + y) % w {
        vstd::arithmetic::div_mod::lemma_mod_equivalence(b.base + y, b.base + x, w);
        let d = y - x;
        assert((b.base + y) - (b.base + x) == d);
        vstd::arithmetic::div_mod::lemma_small_mod(d as nat, w as nat);
    }
}

/// The tables tell of the positions that were entered.
#[verifier::rlimit(50)]
#[verifier::spinoff_prover]
proof fn lemma_tables(b: Block, c0: Chains, s: Seq<int>, i: int)
    requires
        searchable(b),
        c0.head.len() >= bits::p2(b.hash_bits),
        c0.prev.len() >= b.window,
        0 <= i <= b.data.len(),
        rising(s, i),
        b.base + i < b.modulus,
    ensures
        ({
            let c = entered_all(b, c0, s);
            &&& c.head.len() == c0.head.len()
            &&& c.prev.len() == c0.prev.len()
            &&& forall|h: nat|
                h < c0.head.len() ==> #[trigger] c.head[h as int] == held(
                    b,
                    latest(b, s, h, i),
                    c0.head[h as int],
                )
            &&& forall|k: int|
                0 <= k < s.len() && s.last() - s[k] < b.window ==> {
                    let h = lz::hash_at(b.data, #[trigger] s[k], b.hash_bits);
                    c.prev[lz::ring_slot(b.window, (b.base + s[k]) as nat)] == held(
                        b,
                        latest(b, s, h, s[k]),
                        c0.head[h as int],
                    )
                }
        }),
    decreases s.len(),
{
    if s.len() > 0 {
        let t = s.drop_last();
        let x = s.last();
        lemma_rising_less(s, i);
        lemma_tables(b, c0, t, i);
        let c1 = entered_all(b, c0, t);
        let c = entered_all(b, c0, s);
        let hx = lz::hash_at(b.data, x, b.hash_bits);
        let v = (b.base + x) as nat;
        lz::lemma_hash(b.data, x, b.hash_bits);
        lz::lemma_ring_slot(b.window, v);
        vstd::arithmetic::div_mod::lemma_small_mod(v, b.modulus);
        assert(lz::stored(b.modulus, v) == Some(v));
        assert forall|h: nat| h < c0.head.len() implies #[trigger] c.head[h as int] == held(
            b,
            latest(b, s, h, i),
            c0.head[h as int],
        ) by {
            assert(c1.head[h as int] == held(b, latest(b, t, h, i), c0.head[h as int]));
        }
        assert forall|k: int| 0 <= k < s.len() && x - s[k] < b.window implies ({
            let h = lz::hash_at(b.data, #[trigger] s[k], b.hash_bits);
            c.prev[lz::ring_slot(b.window, (b.base + s[k]) as nat)] == held(
                b,
                latest(b, s, h, s[k]),
                c0.head[h as int],
            )
        }) by {
            let h = lz::hash_at(b.data, s[k], b.hash_bits);
            let slot = lz::ring_slot(b.window, (b.base + s[k]) as nat);
            lz::lemma_ring_slot(b.window, (b.base + s[k]) as nat);
            if k == s.len() - 1 {
                assert(c.prev[slot] == c1.head[hx as int]);
                lemma_latest_all(b, t, h, x, i);
                assert(latest(b, s, h, x) == latest(b, t, h, x));
            } else {
                assert(s[k] < s[s.len() - 1]);
                assert(t[k] == s[k]);
                assert(t.last() == s[s.len() - 2]);
                assert(s[s.len() - 2] < s[s.len() - 1]);
                lemma_slots(b, s[k], x);
                assert(latest(b, s, h, s[k]) == latest(b, t, h, s[k]));
                assert(c.prev[slot] == c1.prev[slot]);
            }
        }
    }
}

/// How many of the positions from behind `p` up to `q` have hash `h`.
spec fn rivals(b: Block, s: Seq<int>, h: nat, p: int, q: int) -> nat
    decreases s.len(),
{
    if s.len() == 0 {
        0
    } else {
        rivals(b, s.drop_last(), h, p, q) + if p < s.last() <= q && lz::hash_at(
            b.data,
            s.last(),
            b.hash_bits,
        ) == h {
            1nat
        } else {
            0nat
        }
    }
}

proof fn lemma_latest(b: Block, s: Seq<int>, h: nat, bound: int, p: int, i: int)
    requires
        rising(s, i),
        s.contains(p),
        p < bound,
        lz::hash_at(b.data, p, b.hash_bits) == h,
    ensures
        latest(b, s, h, bound) is Some,
        ({
            let q = latest(b, s, h, bound)->0;
            &&& p <= q < bound
            &&& s.contains(q)
            &&& lz::hash_at(b.data, q, b.hash_bits) == h
            &&& rivals(b, s, h, p, q) == rivals(b, s, h, p, bound - 1)
        }),
    decreases s.len(),
{
    let t = s.drop_last();
    let x = s.last();
    let j = choose|j: int| 0 <= j < s.len() && s[j] == p;
    lemma_rising_less(s, i);
    assert(s[s.len() - 1] == x);
    if x < bound && lz::hash_at(b.data, x, b.hash_bits) == h {
        assert(j < s.len() - 1 ==> s[j] < s[s.len() - 1]);
        assert(s.contains(x));
        lemma_rivals_top(b, t, h, p, x, bound - 1);
    } else {
        assert(x != p);
        assert(t[j] == p);
        assert(t.contains(p));
        lemma_latest(b, t, h, bound, p, i);
        let q = latest(b, t, h, bound)->0;
        let m = choose|m: int| 0 <= m < t.len() && t[m] == q;
        assert(s[m] == q);
        assert(s[m] < s[s.len() - 1]);
    }
}

proof fn lemma_rivals_top(b: Block, s: Seq<int>, h: nat, p: int, x: int, y: int)
    requires
        rising(s, x),
        x <= y,
    ensures
        rivals(b, s, h, p, x) == rivals(b, s, h, p, y),
    decreases s.len(),
{
    if s.len() > 0 {
        lemma_rising_less(s, x);
        lemma_rivals_top(b, s.drop_last(), h, p, x, y);
    }
}

proof fn lemma_rivals_less(b: Block, s: Seq<int>, h: nat, p: int, q: int, i: int)
    requires
        rising(s, i),
        s.contains(q),
        p < q,
        lz::hash_at(b.data, q, b.hash_bits) == h,
    ensures
        rivals(b, s, h, p, q) == rivals(b, s, h, p, q - 1) + 1,
    decreases s.len(),
{
    let t = s.drop_last();
    let x = s.last();
    let j = choose|j: int| 0 <= j < s.len() && s[j] == q;
    lemma_rising_less(s, i);
    assert(s[s.len() - 1] == x);
    if x == q {
        lemma_rivals_top(b, t, h, p, q, q);
        lemma_rivals_below(b, t, h, p, q);
    } else {
        assert(t[j] == q);
        assert(t.contains(q));
        assert(s[j] < s[s.len() - 1]);
        lemma_rivals_less(b, t, h, p, q, i);
    }
}

proof fn lemma_rivals_below(b: Block, s: Seq<int>, h: nat, p: int, q: int)
    requires
        rising(s, q),
    ensures
        rivals(b, s, h, p, q) == rivals(b, s, h, p, q - 1),
    decreases s.len(),
{
    if s.len() > 0 {
        lemma_rising_less(s, q);
        lemma_rising_less(s, q);
        lemma_rivals_below(b, s.drop_last(), h, p, q);
    }
}

/// Positions that were entered are no more than there are.
proof fn lemma_rivals_crowd(b: Block, s: Seq<int>, p: int, x: int, i: int)
    requires
        searchable(b),
        rising(s, x),
        x <= b.data.len(),
        0 <= p < x,
        0 <= i < b.data.len(),
    ensures
        rivals(b, s, lz::hash_at(b.data, i, b.hash_bits), p, x - 1) <= crowd(b.data, p, x, i),
    decreases x - p,
{
    let h = lz::hash_at(b.data, i, b.hash_bits);
    if x <= p + 1 {
        lemma_rivals_none(b, s, h, p, x - 1);
    } else if s.len() > 0 && s.last() == x - 1 {
        lemma_rising_less(s, x);
        let t = s.drop_last();
        lemma_rivals_crowd(b, t, p, x - 1, i);
        lemma_rivals_below(b, t, h, p, x - 1);
        lemma_mark(b.data, x - 1, i, b.hash_bits);
    } else {
        assert(rising(s, x - 1)) by {
            if s.len() > 0 {
                lemma_rising_less(s, x);
                assert forall|k: int| 0 <= k < s.len() implies 0 <= #[trigger] s[k] < x - 1 by {
                    if k < s.len() - 1 {
                        assert(s[k] < s[s.len() - 1]);
                    }
                }
            }
        }
        lemma_rivals_crowd(b, s, p, x - 1, i);
        lemma_rivals_below(b, s, h, p, x - 1);
    }
}

proof fn lemma_rivals_none(b: Block, s: Seq<int>, h: nat, p: int, q: int)
    requires
        q <= p,
    ensures
        rivals(b, s, h, p, q) == 0,
    decreases s.len(),
{
    if s.len() > 0 {
        lemma_rivals_none(b, s.drop_last(), h, p, q);
    }
}

// ---- the search down a chain ----

/// How many positions with one mark are looked at.
pub open spec fn tries(window: nat) -> nat {
    if window <= 65536 {
        128
    } else if window <= 131072 {
        256
    } else if window <= 262144 {
        512
    } else if window <= 524288 {
        1024
    } else if window <= 1048576 {
        1536
    } else if window <= 2097152 {
        2048
    } else if window <= 4194304 {
        3072
    } else {
        4096
    }
}

/// The length that is sure to be found where `n` positions come before: any up to an eighth of the
/// positions that are looked at, and no more than is good enough behind that.
pub open spec fn sure_len(window: nat, n: nat, l: nat) -> nat {
    let most: nat = if n < tries(window) / 8 {
        258
    } else if n < tries(window) / 2 {
        32
    } else if n < tries(window) {
        8
    } else {
        0
    };
    if l <= most {
        l
    } else {
        most
    }
}

proof fn lemma_tries(window: nat)
    requires
        exists|e: nat| e < 64 && window == bits::p2(e),
    ensures
        lz::chain_limit(window) == tries(window),
{
    let e = choose|e: nat| e < 64 && window == bits::p2(e);
    bits::lemma_p2_small();
    assert(bits::p2(17) == 131072);
    assert(bits::p2(18) == 262144);
    assert(bits::p2(19) == 524288);
    assert(bits::p2(20) == 1048576);
    assert(bits::p2(21) == 2097152);
    assert(bits::p2(22) == 4194304);
    assert(bits::p2(23) == 8388608);
    if e <= 16 {
        bits::lemma_p2_mono(e, 16);
    } else if e >= 23 {
        bits::lemma_p2_mono(23, e);
    }
}

proof fn lemma_common_least(data: Seq<u8>, p: int, i: int, l: nat, k: nat, limit: nat)
    requires
        alike(data, p, i, l),
        k <= l <= limit,
    ensures
        lz::common(data, p, i, k, limit) >= l,
    decreases l - k,
{
    if k < l {
        assert(data[p + k] == data[i + k]);
        lemma_common_least(data, p, i, l, k + 1, limit);
    } else {
        lz::lemma_common(data, p, i, k, limit);
    }
}

proof fn lemma_best_grows(
    b: Block,
    prev: Seq<Option<nat>>,
    i: int,
    pos: Option<nat>,
    tried: nat,
    depth: nat,
    best: (nat, nat),
)
    ensures
        b.best_from(prev, i, pos, tried, depth, best).0 >= best.0,
    decreases b.chain() - tried,
{
    if !(tried >= depth || tried >= b.chain() || pos is None || pos->0 < b.min_pos(i)) {
        let q = pos->0;
        let p = q - b.base;
        let next = prev[lz::ring_slot(b.window, q)];
        let limit = b.longest(i);
        if p < i {
            let l = lz::common(b.data, p, i, 0, limit);
            if best.0 < limit && b.data[p] == b.data[i] && b.data[p + best.0] == b.data[i + best.0]
                && l > best.0 {
                if l != 258 {
                    let depth2 = if l >= 32 {
                        b.chain() / 8
                    } else if l >= 8 {
                        b.chain() / 2
                    } else {
                        depth
                    };
                    lemma_best_grows(b, prev, i, next, tried + 1, depth2, (l, (i - p) as nat));
                }
            } else {
                lemma_best_grows(b, prev, i, next, tried + 1, depth, best);
            }
        }
    }
}

/// The depth fits the best length so far.
spec fn deep_enough(b: Block, depth: nat, best: nat) -> bool {
    &&& depth >= b.chain() / 8
    &&& best < 32 ==> depth >= b.chain() / 2
    &&& best < 8 ==> depth >= b.chain()
}

#[verifier::rlimit(50)]
#[verifier::spinoff_prover]
proof fn lemma_walk(
    b: Block,
    c0: Chains,
    s: Seq<int>,
    i: int,
    p: int,
    l: nat,
    q: int,
    tried: nat,
    depth: nat,
    best: (nat, nat),
)
    requires
        searchable(b),
        c0.head.len() >= bits::p2(b.hash_bits),
        c0.prev.len() >= b.window,
        0 <= i < b.data.len(),
        rising(s, i),
        b.base + i + 1 < b.modulus,
        s.contains(p),
        s.contains(q),
        p <= q < i,
        lz::hash_at(b.data, p, b.hash_bits) == lz::hash_at(b.data, i, b.hash_bits),
        lz::hash_at(b.data, q, b.hash_bits) == lz::hash_at(b.data, i, b.hash_bits),
        i - p <= b.window,
        i - p <= 65536,
        l <= 258,
        i + l <= b.data.len(),
        alike(b.data, p, i, l),
        deep_enough(b, depth, best.0),
    ensures
        ({
            let prev = entered_all(b, c0, s.push(i)).prev;
            let h = lz::hash_at(b.data, i, b.hash_bits);
            b.best_from(prev, i, Some((b.base + q) as nat), tried, depth, best).0 >= sure_len(
                b.window,
                tried + rivals(b, s, h, p, q),
                l,
            )
        }),
    decreases q - p,
{
    let all = s.push(i);
    let prev = entered_all(b, c0, all).prev;
    let h = lz::hash_at(b.data, i, b.hash_bits);
    let pos = Some((b.base + q) as nat);
    let n = tried + rivals(b, s, h, p, q);
    lemma_tries(b.window);
    let r = b.best_from(prev, i, pos, tried, depth, best);
    lemma_best_grows(b, prev, i, pos, tried, depth, best);
    if best.0 < sure_len(b.window, n, l) {
        assert(tried < depth);
        assert(tried < b.chain());
        assert(b.base + q >= b.min_pos(i));
        let limit = b.longest(i);
        let next = prev[lz::ring_slot(b.window, (b.base + q) as nat)];
        let lq = lz::common(b.data, q, i, 0, limit);
        lz::lemma_common(b.data, q, i, 0, limit);
        let better = best.0 < limit && b.data[q] == b.data[i] && b.data[q + best.0] == b.data[i
            + best.0] && lq > best.0;
        if q == p {
            lemma_common_least(b.data, p, i, l, 0, limit);
            assert(b.data[p + 0] == b.data[i + 0]);
            assert(b.data[p + best.0] == b.data[i + best.0]);
            assert(better);
            if lq != 258 {
                let depth2 = if lq >= 32 {
                    b.chain() / 8
                } else if lq >= 8 {
                    b.chain() / 2
                } else {
                    depth
                };
                lemma_best_grows(b, prev, i, next, tried + 1, depth2, (lq, (i - q) as nat));
            }
        } else {
            // the next position down the chain
            lemma_latest(b, s, h, q, p, i);
            let q2 = latest(b, s, h, q)->0;
            lemma_rivals_less(b, s, h, p, q, i);
            assert(rising(all, i + 1)) by {
                assert forall|k: int, m: int| 0 <= k < m < all.len() implies #[trigger] all[k]
                    < #[trigger] all[m] by {
                    if m < s.len() {
                        assert(s[k] < s[m]);
                    } else {
                        assert(s[k] < i);
                    }
                }
                assert forall|k: int| 0 <= k < all.len() implies 0 <= #[trigger] all[k] < i + 1 by {
                    if k < s.len() {
                        assert(s[k] < i);
                    }
                }
            }
            lemma_tables(b, c0, all, i + 1);
            let m = choose|m: int| 0 <= m < s.len() && s[m] == q;
            assert(all[m] == q);
            assert(all.last() == i);
            assert(all.last() - all[m] < b.window);
            assert(all.drop_last() =~= s);
            assert(latest(b, all, h, q) == latest(b, s, h, q));
            assert(next == Some((b.base + q2) as nat));
            if better {
                if lq == 258 {
                } else {
                    let depth2 = if lq >= 32 {
                        b.chain() / 8
                    } else if lq >= 8 {
                        b.chain() / 2
                    } else {
                        depth
                    };
                    lemma_walk(
                        b,
                        c0,
                        s,
                        i,
                        p,
                        l,
                        q2,
                        tried + 1,
                        depth2,
                        (lq, (i - q) as nat),
                    );
                }
            } else {
                lemma_walk(b, c0, s, i, p, l, q2, tried + 1, depth, best);
            }
        }
    }
}

/// Where bytes that stand at `i` stood at `p` before, no further back than the window and 64 KiB
/// reach, a step at `i` gives a repeat behind at most two single bytes, and the repeat is as long
/// as those bytes, as far as `sure_len` says. From 32 bytes on it comes at once.
#[verifier::rlimit(50)]
#[verifier::spinoff_prover]
pub proof fn lemma_step_finds(b: Block, c0: Chains, s: Seq<int>, i: int, p: int, l: nat)
    requires
        searchable(b),
        b.fresh(c0, 0),
        0 <= i < b.data.len(),
        rising(s, i),
        b.base + i + 1 < b.modulus,
        s.contains(p),
        i - p <= b.window,
        i - p <= 65536,
        4 <= l <= 258,
        i + l <= b.data.len(),
        alike(b.data, p, i, l),
        crowd(b.data, p, i, i) < tries(b.window),
    ensures
        ({
            let (toks, c2, used) = b.step(entered_all(b, c0, s), i);
            let skip = toks.len() - 1;
            &&& 0 <= skip <= 2
            &&& toks[skip] is Repeat
            &&& toks[skip]->Repeat_0 >= sure_len(b.window, crowd(b.data, p, i, i), l)
            &&& sure_len(b.window, crowd(b.data, p, i, i), l) >= 32 ==> skip == 0
            &&& forall|k: int| 0 <= k < skip ==> toks[k] is Literal
        }),
{
    let c = entered_all(b, c0, s);
    let h = lz::hash_at(b.data, i, b.hash_bits);
    let j = choose|j: int| 0 <= j < s.len() && s[j] == p;
    assert(0 <= s[j] < i);
    lemma_same_hash(b.data, p, i, l, b.hash_bits);
    lz::lemma_hash(b.data, i, b.hash_bits);
    lemma_tables(b, c0, s, i);
    lemma_latest(b, s, h, i, p, i);
    let q = latest(b, s, h, i)->0;
    assert(c.head[h as int] == Some((b.base + q) as nat));
    lemma_rivals_crowd(b, s, p, i, i);
    assert(s.push(i).drop_last() =~= s);
    assert(entered_all(b, c0, s.push(i)) == b.entered(c, i));
    lemma_tries(b.window);
    lemma_walk(b, c0, s, i, p, l, q, 0, b.chain(), (0, 0));
    let (best, c1) = b.best_at(c, i);
    let sure = sure_len(b.window, crowd(b.data, p, i, i), l);
    assert(best.0 >= sure && sure >= 4);
    // the repeat that is emitted is no shorter
    lemma_entered_fresh(b, c0, s, i);
    lz::lemma_best_at(b, c, i);
    lz::lemma_better_at(b, c1, i, best);
    match b.better_at(c1, i, best) {
        None => {},
        Some(b1) => {
            let d1 = b.entered(c1, i + 1);
            lz::lemma_fresh_later(b, c1, i + 1, i + 2);
            lz::lemma_entered(b, c1, i + 1, i + 2);
            lz::lemma_better_at(b, d1, i + 1, b1);
        },
    }
    let (skip, found, c2) = b.deferred(c1, i, best);
    assert(found.0 >= best.0 && skip <= 2);
    let toks = b.step(c, i).0;
    assert(toks == b.literals(i, skip).push(Token::Repeat(found.0, found.1)));
}

proof fn lemma_entered_fresh(b: Block, c0: Chains, s: Seq<int>, i: int)
    requires
        searchable(b),
        b.fresh(c0, 0),
        rising(s, i),
        0 <= i <= b.data.len(),
    ensures
        b.fresh(entered_all(b, c0, s), i),
    decreases s.len(),
{
    if s.len() == 0 {
        lz::lemma_fresh_later(b, c0, 0, i);
    } else {
        lemma_rising_less(s, i);
        lemma_entered_fresh(b, c0, s.drop_last(), i);
        lz::lemma_entered(b, entered_all(b, c0, s.drop_last()), s.last(), i);
    }
}

// ---- from step to step ----

/// How many bytes a token stands for.
pub open spec fn span(t: Token) -> nat {
    match t {
        Token::Literal(_) => 1,
        Token::Repeat(len, _) => len,
    }
}

/// How many bytes the first `k` tokens stand for.
pub open spec fn place(toks: Seq<Token>, k: nat) -> nat
    decreases k,
{
    if k == 0 {
        0
    } else {
        place(toks, (k - 1) as nat) + span(toks[k - 1])
    }
}

proof fn lemma_place_concat(a: Seq<Token>, b: Seq<Token>, k: nat)
    ensures
        k <= a.len() ==> place(a + b, k) == place(a, k),
        k <= b.len() ==> place(a + b, a.len() + k) == place(a, a.len()) + place(b, k),
    decreases k,
{
    if k > 0 {
        lemma_place_concat(a, b, (k - 1) as nat);
    } else {
        lemma_place_front(a, b, a.len());
    }
}

proof fn lemma_place_front(a: Seq<Token>, b: Seq<Token>, k: nat)
    requires
        k <= a.len(),
    ensures
        place(a + b, k) == place(a, k),
    decreases k,
{
    if k > 0 {
        lemma_place_front(a, b, (k - 1) as nat);
    }
}

proof fn lemma_place_literals(toks: Seq<Token>, k: nat)
    requires
        k <= toks.len(),
        forall|j: int| 0 <= j < k ==> (#[trigger] toks[j]) is Literal,
    ensures
        place(toks, k) == k,
    decreases k,
{
    if k > 0 {
        lemma_place_literals(toks, (k - 1) as nat);
    }
}

proof fn lemma_rising_push(s: Seq<int>, x: int)
    requires
        rising(s, x),
        0 <= x,
    ensures
        rising(s.push(x), x + 1),
{
    let all = s.push(x);
    assert forall|k: int, m: int| 0 <= k < m < all.len() implies #[trigger] all[k]
        < #[trigger] all[m] by {
        if m < s.len() {
            assert(s[k] < s[m]);
        } else {
            assert(s[k] < x);
        }
    }
    assert forall|k: int| 0 <= k < all.len() implies 0 <= #[trigger] all[k] < x + 1 by {
        if k < s.len() {
            assert(s[k] < x);
        }
    }
}

proof fn lemma_rising_later(s: Seq<int>, x: int, y: int)
    requires
        rising(s, x),
        x <= y,
    ensures
        rising(s, y),
{
    assert forall|k: int| 0 <= k < s.len() implies 0 <= #[trigger] s[k] < y by {
        assert(s[k] < x);
    }
}

/// All of `a` is in `b`.
spec fn within(a: Seq<int>, b: Seq<int>) -> bool {
    forall|x: int| a.contains(x) ==> #[trigger] b.contains(x)
}

proof fn lemma_within_push(s: Seq<int>, x: int)
    ensures
        within(s, s.push(x)),
        s.push(x).contains(x),
{
    let all = s.push(x);
    assert(all[s.len() as int] == x);
    assert forall|y: int| s.contains(y) implies #[trigger] all.contains(y) by {
        let j = choose|j: int| 0 <= j < s.len() && s[j] == y;
        assert(all[j] == y);
    }
}

proof fn lemma_run_tables(
    b: Block,
    c0: Chains,
    s: Seq<int>,
    i: int,
    len: nat,
    j: nat,
    step: nat,
) -> (r: Seq<int>)
    requires
        step == 1 || step == 4,
        0 <= i,
        j >= 1,
        rising(s, i + j),
        rising(s, i + len),
    ensures
        b.entered_run(entered_all(b, c0, s), i, len, j, step) == entered_all(b, c0, r),
        rising(r, i + len),
        within(s, r),
        forall|x: int|
            i + j <= x < i + len && x + 3 <= b.data.len() && (x - i - j) % (step as int) == 0
                ==> #[trigger] r.contains(x),
    decreases
            if j < len {
                len - j
            } else {
                0
            },
{
    if j >= len {
        s
    } else {
        let x0 = i + j;
        let s2 = if x0 + 3 <= b.data.len() {
            lemma_rising_push(s, x0);
            lemma_within_push(s, x0);
            assert(s.push(x0).drop_last() =~= s);
            s.push(x0)
        } else {
            s
        };
        lemma_rising_later(s, x0, x0 + 1);
        lemma_rising_later(s2, x0 + 1, i + len);
        lemma_rising_later(s2, x0 + 1, i + j + step);
        let r = lemma_run_tables(b, c0, s2, i, len, j + step, step);
        assert forall|x: int|
            i + j <= x < i + len && x + 3 <= b.data.len() && (x - i - j) % (step as int)
                == 0 implies #[trigger] r.contains(x) by {
            if x == x0 {
                assert(s2.contains(x));
            } else {
                assert((x - i - (j + step)) % (step as int) == 0);
                assert(x >= i + j + step);
            }
        }
        assert forall|x: int| s.contains(x) implies #[trigger] r.contains(x) by {
            assert(s2.contains(x));
        }
        r
    }
}

/// The byte at `x`, which a token that stands for the bytes from `a` on covers, is found again: it
/// is a single byte, or in a repeat of less than 64 bytes, or one of each four in a longer one.
pub open spec fn kept(t: Token, a: int, x: int) -> bool {
    &&& a <= x < a + span(t)
    &&& t is Literal || span(t) < 64 || x == a || (x - a) % 4 == 1
}

/// The byte at `x` is found again, by the tokens for the bytes from `i` on.
pub open spec fn known(toks: Seq<Token>, i: int, x: int) -> bool {
    exists|j: nat| j < toks.len() && kept(toks[j as int], i + #[trigger] place(toks, j), x)
}

/// After a step the tables tell of the positions before it and of those that its tokens keep.
#[verifier::rlimit(60)]
#[verifier::spinoff_prover]
proof fn lemma_step_tables(b: Block, c0: Chains, s: Seq<int>, i: int) -> (r: Seq<int>)
    requires
        searchable(b),
        b.fresh(c0, 0),
        0 <= i < b.data.len(),
        rising(s, i),
    ensures
        ({
            let (toks, c2, used) = b.step(entered_all(b, c0, s), i);
            &&& c2 == entered_all(b, c0, r)
            &&& rising(r, i + used)
            &&& within(s, r)
            &&& used == place(toks, toks.len())
            &&& 1 <= used <= b.data.len() - i
            &&& forall|x: int|
                #[trigger] known(toks, i, x) && x + 3 <= b.data.len() ==> r.contains(x)
            &&& toks.len() == 1 || (toks.len() <= 3 && toks.last() is Repeat)
            &&& toks.len() >= 1
            &&& toks.last() is Repeat ==> toks.last()->Repeat_0 >= 3
            &&& forall|k: int| 0 <= k < toks.len() - 1 ==> (#[trigger] toks[k]) is Literal
        }),
{
    let c = entered_all(b, c0, s);
    lemma_entered_fresh(b, c0, s, i);
    lz::lemma_step(b, c, i);
    lz::lemma_best_at(b, c, i);
    let (best, c1) = b.best_at(c, i);
    let (toks, c2, used) = b.step(c, i);
    if best.0 >= 3 {
        lz::lemma_deferred(b, c1, i, best);
        lz::lemma_better_at(b, c1, i, best);
        let (skip, found, cd) = b.deferred(c1, i, best);
        let s1 = s.push(i);
        assert(s1.drop_last() =~= s);
        lemma_rising_push(s, i);
        lemma_within_push(s, i);
        let s2 = s1.push(i + 1);
        assert(s2.drop_last() =~= s1);
        lemma_rising_push(s1, i + 1);
        lemma_within_push(s1, i + 1);
        let s3 = s2.push(i + 2);
        assert(s3.drop_last() =~= s2);
        lemma_rising_push(s2, i + 2);
        lemma_within_push(s2, i + 2);
        let sd = if skip == 0 {
            s1
        } else if skip == 1 {
            s2
        } else {
            s3
        };
        assert(entered_all(b, c0, s1) == b.entered(c, i));
        assert(c1 == b.entered(c, i));
        assert(entered_all(b, c0, s2) == b.entered(c1, i + 1));
        assert(entered_all(b, c0, s3) == b.entered(b.entered(c1, i + 1), i + 2));
        assert(cd == entered_all(b, c0, sd));
        assert(rising(sd, i + skip + 1));
        let stride: nat = if found.0 >= 64 {
            4
        } else {
            1
        };
        lemma_rising_later(sd, i + skip + 1, i + skip + found.0);
        let r = lemma_run_tables(b, c0, sd, i + skip, found.0, 1, stride);
        let n = toks.len();
        assert(toks == b.literals(i, skip).push(Token::Repeat(found.0, found.1)));
        lemma_place_literals(toks, skip);
        assert(place(toks, n) == skip + found.0);
        assert forall|x: int| #[trigger]
            known(toks, i, x) && x + 3 <= b.data.len() implies r.contains(x) by {
            let j = choose|j: nat|
                j < toks.len() && kept(toks[j as int], i + #[trigger] place(toks, j), x);
            lemma_place_literals(toks, if j <= skip { j } else { skip });
            let a = i + skip;
            if x <= a {
                assert(sd.contains(x));
            } else {
                assert(j == skip);
                if stride == 4 {
                    assert((x - a - 1) % 4 == 0);
                } else {
                    assert((x - a - 1) % 1 == 0);
                }
            }
        }
        assert forall|x: int| s.contains(x) implies #[trigger] r.contains(x) by {
            assert(s1.contains(x));
            assert(s2.contains(x));
            assert(s3.contains(x));
            assert(sd.contains(x));
        }
        r
    } else {
        assert(toks == b.literals(i, 1));
        lemma_place_literals(toks, 1);
        let r = if i + 3 <= b.data.len() {
            lemma_rising_push(s, i);
            lemma_within_push(s, i);
            assert(s.push(i).drop_last() =~= s);
            s.push(i)
        } else {
            lemma_rising_later(s, i, i + 1);
            s
        };
        assert forall|x: int| #[trigger]
            known(toks, i, x) && x + 3 <= b.data.len() implies r.contains(x) by {
            let j = choose|j: nat|
                j < toks.len() && kept(toks[j as int], i + #[trigger] place(toks, j), x);
            assert(j == 0);
        }
        r
    }
}

/// Among the tokens from the `k`-th on, the first repeat comes behind at most two single bytes, and
/// is no shorter than `least`.
pub open spec fn repeats_soon(toks: Seq<Token>, k: int, least: nat) -> bool {
    exists|d: int|
        0 <= d <= 2 && k + d < toks.len() && (#[trigger] toks[k + d]) is Repeat
            && toks[k + d]->Repeat_0 >= least && forall|e: int|
            0 <= e < d ==> (#[trigger] toks[k + e]) is Literal
}

#[verifier::rlimit(60)]
#[verifier::spinoff_prover]
proof fn lemma_found_from(
    b: Block,
    c0: Chains,
    s: Seq<int>,
    i: int,
    k: int,
    p: int,
    l: nat,
)
    requires
        searchable(b),
        b.fresh(c0, 0),
        0 <= i <= b.data.len(),
        rising(s, i),
        ({
            let toks = b.tokens_from(entered_all(b, c0, s), i).0;
            let x = i + place(toks, k as nat);
            &&& 0 <= k < toks.len()
            &&& 0 <= p < x
            &&& s.contains(p) || known(toks, i, p)
            &&& x - p <= b.window
            &&& x - p <= 65536
            &&& 4 <= l <= 258
            &&& x + l <= b.data.len()
            &&& alike(b.data, p, x, l)
            &&& crowd(b.data, p, x, x) < tries(b.window)
            &&& b.base + x + 1 < b.modulus
        }),
    ensures
        ({
            let toks = b.tokens_from(entered_all(b, c0, s), i).0;
            let x = i + place(toks, k as nat);
            let sure = sure_len(b.window, crowd(b.data, p, x, x), l);
            &&& repeats_soon(toks, k, 3)
            &&& k == 0 || toks[k - 1] is Repeat ==> {
                &&& repeats_soon(toks, k, sure)
                &&& sure >= 32 ==> toks[k] is Repeat && toks[k]->Repeat_0 >= sure
            }
        }),
    decreases b.data.len() - i,
{
    let c = entered_all(b, c0, s);
    let toks = b.tokens_from(c, i).0;
    let x = i + place(toks, k as nat);
    if i < b.data.len() {
        let (head, c2, used) = b.step(c, i);
        let r = lemma_step_tables(b, c0, s, i);
        let tail = b.tokens_from(c2, i + used).0;
        let n = head.len() as int;
        assert(toks == head + tail);
        if k < n {
            lemma_place_front(head, tail, k as nat);
            let sure = sure_len(b.window, crowd(b.data, p, x, x), l);
            if k == 0 {
                assert(x == i);
                if known(toks, i, p) {
                    assert(p >= i);
                }
                lemma_step_finds(b, c0, s, i, p, l);
                lemma_soon_front(head, tail, 0, sure);
                assert(toks[0] == head[0]);
            } else {
                assert(toks[k - 1] == head[k - 1]);
            }
            lemma_soon_front(head, tail, k, 3);
        } else {
            let k2 = k - n;
            lemma_place_concat(head, tail, k2 as nat);
            assert(x == i + used + place(tail, k2 as nat));
            lemma_known_later(head, tail, i, used as int, p, s, r, b.data.len() as int);
            lemma_found_from(b, c0, r, i + used, k2, p, l);
            lemma_soon_shift(head, tail, k2, 3);
            let sure = sure_len(b.window, crowd(b.data, p, x, x), l);
            if k == 0 || toks[k - 1] is Repeat {
                if k2 > 0 {
                    assert(toks[k - 1] == tail[k2 - 1]);
                }
                lemma_soon_shift(head, tail, k2, sure);
                assert(toks[k] == tail[k2]);
            }
        }
    }
}

/// The repeat at the end of a step comes soon.
proof fn lemma_soon_front(head: Seq<Token>, tail: Seq<Token>, k: int, least: nat)
    requires
        0 <= k < head.len() <= 3,
        head.last() is Repeat,
        head.last()->Repeat_0 >= least,
        forall|j: int| 0 <= j < head.len() - 1 ==> (#[trigger] head[j]) is Literal,
    ensures
        repeats_soon(head + tail, k, least),
{
    let toks = head + tail;
    let d = head.len() - 1 - k;
    assert(toks[k + d] == head[head.len() - 1]);
    assert forall|e: int| 0 <= e < d implies (#[trigger] toks[k + e]) is Literal by {
        assert(toks[k + e] == head[k + e]);
    }
}

proof fn lemma_soon_shift(a: Seq<Token>, b: Seq<Token>, k: int, least: nat)
    requires
        0 <= k,
        repeats_soon(b, k, least),
    ensures
        repeats_soon(a + b, a.len() + k, least),
{
    let all = a + b;
    let d = choose|d: int|
        0 <= d <= 2 && k + d < b.len() && (#[trigger] b[k + d]) is Repeat && b[k + d]->Repeat_0
            >= least && forall|e: int| 0 <= e < d ==> (#[trigger] b[k + e]) is Literal;
    assert(all[a.len() + k + d] == b[k + d]);
    assert forall|e: int| 0 <= e < d implies (#[trigger] all[a.len() + k + e]) is Literal by {
        assert(all[a.len() + k + e] == b[k + e]);
    }
}

/// No repeat is missed. Take the tokens of a block, and a token that stands for the bytes from `x`
/// on. If four bytes or more at `x` are alike to those at `p`, no further back than the window and
/// 64 KiB reach, `p` was kept, and not too many positions between them have the same mark, then a
/// repeat comes now or behind at most two single bytes. If the token before was a repeat, or there
/// was none, the repeat that comes is as long as the bytes are alike, as far as `sure_len` says, and
/// comes at once from 32 bytes on.
pub proof fn lemma_no_repeat_missed(b: Block, c0: Chains, k: int, p: int, l: nat)
    requires
        searchable(b),
        b.fresh(c0, 0),
        ({
            let toks = b.tokens_from(c0, 0).0;
            let x = place(toks, k as nat) as int;
            &&& 0 <= k < toks.len()
            &&& 0 <= p < x
            &&& known(toks, 0, p)
            &&& x - p <= b.window
            &&& x - p <= 65536
            &&& 4 <= l <= 258
            &&& x + l <= b.data.len()
            &&& alike(b.data, p, x, l)
            &&& crowd(b.data, p, x, x) < tries(b.window)
            &&& b.base + x + 1 < b.modulus
        }),
    ensures
        ({
            let toks = b.tokens_from(c0, 0).0;
            let x = place(toks, k as nat) as int;
            let sure = sure_len(b.window, crowd(b.data, p, x, x), l);
            &&& repeats_soon(toks, k, 3)
            &&& k == 0 || toks[k - 1] is Repeat ==> {
                &&& repeats_soon(toks, k, sure)
                &&& sure >= 32 ==> toks[k] is Repeat && toks[k]->Repeat_0 >= sure
            }
        }),
{
    let s = Seq::<int>::empty();
    assert(entered_all(b, c0, s) == c0);
    lemma_found_from(b, c0, s, 0, k, p, l);
}

// ---- a better repeat one byte on ----

/// A repeat of `l` bytes that starts `d` bytes back is better than another: it is longer, or as
/// long and less than a quarter as far.
pub open spec fn beats(l: nat, d: int, len: nat, dist: nat) -> bool {
    l > len || (l == len && d < dist as int / 4)
}

#[verifier::rlimit(50)]
#[verifier::spinoff_prover]
proof fn lemma_better_walk(
    b: Block,
    c0: Chains,
    s: Seq<int>,
    j: int,
    p: int,
    l: nat,
    q: int,
    tried: nat,
    best: (nat, nat),
)
    requires
        searchable(b),
        c0.head.len() >= bits::p2(b.hash_bits),
        c0.prev.len() >= b.window,
        0 <= j < b.data.len(),
        rising(s, j),
        b.base + j < b.modulus,
        s.contains(p),
        s.contains(q),
        p <= q < j,
        lz::hash_at(b.data, p, b.hash_bits) == lz::hash_at(b.data, j, b.hash_bits),
        lz::hash_at(b.data, q, b.hash_bits) == lz::hash_at(b.data, j, b.hash_bits),
        j - p <= b.window,
        j - p <= 65536,
        l <= 258,
        j + l <= b.data.len(),
        alike(b.data, p, j, l),
        best.0 >= 1,
        beats(l, j - p, best.0, best.1),
        tried + rivals(b, s, lz::hash_at(b.data, j, b.hash_bits), p, q) < tries(b.window) / 2,
    ensures
        b.better_from(
            entered_all(b, c0, s).prev,
            j,
            Some((b.base + q) as nat),
            tried,
            best,
        ) is Some,
    decreases q - p,
{
    let prev = entered_all(b, c0, s).prev;
    let h = lz::hash_at(b.data, j, b.hash_bits);
    lemma_tries(b.window);
    let limit = b.longest(j);
    let lq = lz::common(b.data, q, j, 0, limit);
    lz::lemma_common(b.data, q, j, 0, limit);
    assert(b.base + q >= b.min_pos(j));
    if q == p {
        lemma_common_least(b.data, p, j, l, 0, limit);
        assert(b.data[p + 0] == b.data[j + 0]);
        assert(b.data[p + (best.0 - 1)] == b.data[j + (best.0 - 1)]);
    } else {
        lemma_latest(b, s, h, q, p, j);
        let q2 = latest(b, s, h, q)->0;
        lemma_rivals_less(b, s, h, p, q, j);
        lemma_tables(b, c0, s, j);
        let m = choose|m: int| 0 <= m < s.len() && s[m] == q;
        assert(s.last() == s[s.len() - 1]);
        assert(s.last() < j);
        assert(s.last() - s[m] < b.window);
        assert(prev[lz::ring_slot(b.window, (b.base + q) as nat)] == Some((b.base + q2) as nat));
        lemma_better_walk(b, c0, s, j, p, l, q2, tried + 1, best);
    }
}

/// The tables know `p`, and at `j` stands what stands at `p`.
spec fn stands_again(b: Block, s: Seq<int>, j: int, p: int, l: nat) -> bool {
    &&& s.contains(p)
    &&& j - p <= b.window
    &&& j - p <= 65536
    &&& 4 <= l <= 258
    &&& j + l <= b.data.len()
    &&& alike(b.data, p, j, l)
    &&& crowd(b.data, p, j, j) < tries(b.window) / 2
}

proof fn lemma_better_found(
    b: Block,
    c0: Chains,
    s: Seq<int>,
    i: int,
    p: int,
    l: nat,
    best: (nat, nat),
)
    requires
        searchable(b),
        b.fresh(c0, 0),
        0 <= i,
        rising(s, i + 1),
        b.base + i + 1 < b.modulus,
        stands_again(b, s, i + 1, p, l),
        1 <= best.0 < 32,
        beats(l, i + 1 - p, best.0, best.1),
    ensures
        b.better_at(entered_all(b, c0, s), i, best) is Some,
{
    let j = i + 1;
    let c = entered_all(b, c0, s);
    let h = lz::hash_at(b.data, j, b.hash_bits);
    let k = choose|k: int| 0 <= k < s.len() && s[k] == p;
    assert(0 <= s[k] < j);
    lemma_same_hash(b.data, p, j, l, b.hash_bits);
    lz::lemma_hash(b.data, j, b.hash_bits);
    lemma_tables(b, c0, s, j);
    lemma_latest(b, s, h, j, p, j);
    let q = latest(b, s, h, j)->0;
    assert(c.head[h as int] == Some((b.base + q) as nat));
    lemma_rivals_crowd(b, s, p, j, j);
    lemma_better_walk(b, c0, s, j, p, l, q, 0, best);
}

/// The positions that are known when the repeat of a step at `a` starts.
spec fn known_at(s: Seq<int>, i: int, a: int) -> Seq<int> {
    if a == i {
        s.push(i)
    } else {
        s.push(i).push(i + 1)
    }
}

#[verifier::rlimit(40)]
#[verifier::spinoff_prover]
proof fn lemma_step_lazy(b: Block, c0: Chains, s: Seq<int>, i: int, p: int, l: nat)
    requires
        searchable(b),
        b.fresh(c0, 0),
        0 <= i < b.data.len(),
        rising(s, i),
        ({
            let toks = b.step(entered_all(b, c0, s), i).0;
            let a = i + toks.len() - 1;
            &&& 1 <= toks.len() <= 2
            &&& toks.last() is Repeat
            &&& toks.last()->Repeat_0 < 32
            &&& b.base + a + 1 < b.modulus
            &&& stands_again(b, known_at(s, i, a), a + 1, p, l)
        }),
    ensures
        ({
            let toks = b.step(entered_all(b, c0, s), i).0;
            let a = i + toks.len() - 1;
            !beats(l, a + 1 - p, toks.last()->Repeat_0, toks.last()->Repeat_1)
        }),
{
    let c = entered_all(b, c0, s);
    let toks = b.step(c, i).0;
    let a = i + toks.len() - 1;
    let s1 = s.push(i);
    let s2 = s1.push(i + 1);
    assert(s1.drop_last() =~= s);
    assert(s2.drop_last() =~= s1);
    lemma_rising_push(s, i);
    lemma_rising_push(s1, i + 1);
    let (best, c1) = b.best_at(c, i);
    assert(best.0 >= 3) by {
        if best.0 < 3 {
            assert(toks == b.literals(i, 1));
            assert(toks.last() is Literal);
        }
    }
    assert(c1 == entered_all(b, c0, s1));
    let (skip, found, c2) = b.deferred(c1, i, best);
    assert(toks == b.literals(i, skip).push(Token::Repeat(found.0, found.1)));
    assert(entered_all(b, c0, s2) == b.entered(c1, i + 1));
    if beats(l, a + 1 - p, found.0, found.1) {
        lemma_entered_fresh(b, c0, s, i);
        lz::lemma_best_at(b, c, i);
        lz::lemma_better_at(b, c1, i, best);
        if toks.len() == 1 {
            lemma_better_found(b, c0, s1, i, p, l, best);
        } else {
            lemma_better_found(b, c0, s2, i + 1, p, l, found);
        }
    }
}

/// The token at `k` is a repeat of less than 32 bytes with less than two single bytes before it.
pub open spec fn taken_early(toks: Seq<Token>, k: int) -> bool {
    &&& 0 <= k < toks.len()
    &&& toks[k] is Repeat
    &&& toks[k]->Repeat_0 < 32
    &&& k < 2 || toks[k - 1] is Repeat || toks[k - 2] is Repeat
}

#[verifier::rlimit(60)]
#[verifier::spinoff_prover]
proof fn lemma_lazy_from(b: Block, c0: Chains, s: Seq<int>, i: int, k: int, p: int, l: nat)
    requires
        searchable(b),
        b.fresh(c0, 0),
        0 <= i <= b.data.len(),
        rising(s, i),
        ({
            let toks = b.tokens_from(entered_all(b, c0, s), i).0;
            let x = i + place(toks, k as nat);
            &&& taken_early(toks, k)
            &&& 0 <= p <= x
            &&& s.contains(p) || known(toks, i, p)
            &&& x + 1 - p <= b.window
            &&& x + 1 - p <= 65536
            &&& 4 <= l <= 258
            &&& x + 1 + l <= b.data.len()
            &&& alike(b.data, p, x + 1, l)
            &&& crowd(b.data, p, x + 1, x + 1) < tries(b.window) / 2
            &&& b.base + x + 1 < b.modulus
        }),
    ensures
        ({
            let toks = b.tokens_from(entered_all(b, c0, s), i).0;
            let x = i + place(toks, k as nat);
            !beats(l, x + 1 - p, toks[k]->Repeat_0, toks[k]->Repeat_1)
        }),
    decreases b.data.len() - i,
{
    let c = entered_all(b, c0, s);
    let toks = b.tokens_from(c, i).0;
    let x = i + place(toks, k as nat);
    if i < b.data.len() {
        let (head, c2, used) = b.step(c, i);
        let r = lemma_step_tables(b, c0, s, i);
        let tail = b.tokens_from(c2, i + used).0;
        let n = head.len() as int;
        assert(toks == head + tail);
        if k < n {
            lemma_place_front(head, tail, k as nat);
            assert(toks[k] == head[k]);
            assert(k == n - 1);
            lemma_place_literals(head, k as nat);
            assert(x == i + k);
            assert(n <= 2) by {
                if n == 3 {
                    assert(toks[k - 1] == head[k - 1]);
                    assert(toks[k - 2] == head[k - 2]);
                }
            }
            let all = known_at(s, i, x);
            lemma_within_push(s, i);
            lemma_within_push(s.push(i), i + 1);
            assert(all.contains(p)) by {
                if s.contains(p) {
                    assert(s.push(i).contains(p));
                    assert(s.push(i).push(i + 1).contains(p));
                } else {
                    assert(known(toks, i, p));
                    assert(i <= p <= x);
                    assert(s.push(i).contains(i));
                    assert(s.push(i).push(i + 1).contains(i));
                    assert(s.push(i).push(i + 1).contains(i + 1));
                }
            }
            lemma_step_lazy(b, c0, s, i, p, l);
        } else {
            let k2 = k - n;
            lemma_place_concat(head, tail, k2 as nat);
            assert(toks[k] == tail[k2]);
            assert(taken_early(tail, k2)) by {
                if k2 >= 2 {
                    assert(toks[k - 1] == tail[k2 - 1]);
                    assert(toks[k - 2] == tail[k2 - 2]);
                }
            }
            lemma_known_later(head, tail, i, used as int, p, s, r, b.data.len() as int);
            lemma_lazy_from(b, c0, r, i + used, k2, p, l);
        }
    }
}

/// What is known stays known.
proof fn lemma_known_later(
    head: Seq<Token>,
    tail: Seq<Token>,
    i: int,
    used: int,
    p: int,
    s: Seq<int>,
    r: Seq<int>,
    n: int,
)
    requires
        s.contains(p) || known(head + tail, i, p),
        used == place(head, head.len()),
        within(s, r),
        p + 3 <= n,
        forall|x: int| #[trigger] known(head, i, x) && x + 3 <= n ==> r.contains(x),
    ensures
        r.contains(p) || known(tail, i + used, p),
{
    let toks = head + tail;
    let m = head.len() as int;
    if s.contains(p) {
        assert(r.contains(p));
    } else {
        let j = choose|j: nat|
            j < toks.len() && kept(toks[j as int], i + #[trigger] place(toks, j), p);
        if j < m {
            lemma_place_front(head, tail, j);
            assert(toks[j as int] == head[j as int]);
            assert(known(head, i, p));
        } else {
            let e = (j - m) as nat;
            lemma_place_concat(head, tail, e);
            assert(toks[j as int] == tail[e as int]);
            assert(kept(tail[e as int], i + used + place(tail, e), p));
            assert(known(tail, i + used, p));
        }
    }
}

// ---- data that comes twice ----

/// No 64 bytes that start in the first `m` of the data stood before.
pub open spec fn no_long_repeats(data: Seq<u8>, m: int) -> bool {
    forall|p: int, i: int|
        0 <= p < i < m && i + 64 <= data.len() ==> !#[trigger] alike(data, p, i, 64)
}

/// The marks are spread well enough: of the `m` positions before one, less than an eighth of those
/// that are looked at have its mark.
pub open spec fn spread_marks(data: Seq<u8>, m: int, window: nat) -> bool {
    forall|i: int|
        m <= i < data.len() ==> #[trigger] crowd(data, i - m, i, i) < tries(window) / 8
}

/// What tokens cost at most, in bits: 15 for a symbol, and for a repeat 8 for the distance and 19
/// extra bits.
spec fn bits_most(toks: Seq<Token>) -> nat
    decreases toks.len(),
{
    if toks.len() == 0 {
        0
    } else {
        bits_most(toks.drop_last()) + match toks.last() {
            Token::Literal(_) => 15,
            Token::Repeat(_, _) => 42nat,
        }
    }
}

proof fn lemma_bits_most_concat(a: Seq<Token>, b: Seq<Token>)
    ensures
        bits_most(a + b) == bits_most(a) + bits_most(b),
    decreases b.len(),
{
    if b.len() == 0 {
        assert(a + b =~= a);
    } else {
        assert((a + b).drop_last() =~= a + b.drop_last());
        lemma_bits_most_concat(a, b.drop_last());
    }
}

proof fn lemma_bits_most_each(toks: Seq<Token>)
    ensures
        bits_most(toks) <= 42 * toks.len(),
    decreases toks.len(),
{
    if toks.len() > 0 {
        lemma_bits_most_each(toks.drop_last());
    }
}

proof fn lemma_bits_most_literals(toks: Seq<Token>)
    requires
        forall|k: int| 0 <= k < toks.len() ==> (#[trigger] toks[k]) is Literal,
    ensures
        bits_most(toks) == 15 * toks.len(),
    decreases toks.len(),
{
    if toks.len() > 0 {
        let q = toks.drop_last();
        assert forall|k: int| 0 <= k < q.len() implies (#[trigger] q[k]) is Literal by {
            assert(toks[k] is Literal);
        }
        lemma_bits_most_literals(q);
        assert(toks[toks.len() - 1] is Literal);
    }
}

/// A step in data without long repeats: its tokens are no more than its bytes, are cheap, and keep
/// all positions before `m`.
#[verifier::rlimit(40)]
#[verifier::spinoff_prover]
proof fn lemma_step_new(b: Block, c0: Chains, s: Seq<int>, m: int, i: int) -> (r: Seq<int>)
    requires
        searchable(b),
        b.fresh(c0, 0),
        no_long_repeats(b.data, m),
        0 <= i < m,
        m + 64 <= b.data.len(),
        rising(s, i),
        forall|p: int| 0 <= p < i ==> #[trigger] s.contains(p),
    ensures
        ({
            let (head, c2, used) = b.step(entered_all(b, c0, s), i);
            &&& c2 == entered_all(b, c0, r)
            &&& rising(r, i + used)
            &&& forall|p: int| 0 <= p < i + used && p < m ==> #[trigger] r.contains(p)
            &&& 1 <= used <= b.data.len() - i
            &&& 1 <= head.len() <= 3
            &&& head.len() <= used
            &&& i + used <= m ==> bits_most(head) <= 15 * used
            &&& bits_most(head) <= 72
            &&& i + used <= m ==> used <= 64 * head.len()
            &&& i + used > m ==> m - i <= 64 * head.len()
        }),
{
    let c = entered_all(b, c0, s);
    let (head, c2, used) = b.step(c, i);
    let r = lemma_step_tables(b, c0, s, i);
    let n = head.len();
    lemma_entered_fresh(b, c0, s, i);
    lz::lemma_best_at(b, c, i);
    let (best, c1) = b.best_at(c, i);
    let front = head.drop_last();
    assert forall|k: int| 0 <= k < front.len() implies (#[trigger] front[k]) is Literal by {
        assert(front[k] == head[k]);
    }
    lemma_bits_most_literals(front);
    lemma_place_literals(head, (n - 1) as nat);
    let a = i + n - 1;
    if best.0 >= 3 {
        lz::lemma_deferred(b, c1, i, best);
        let (skip, found, cd) = b.deferred(c1, i, best);
        assert(head == b.literals(i, skip).push(Token::Repeat(found.0, found.1)));
        if a < m && found.0 >= 64 {
            let p = a - found.1;
            assert(alike(b.data, p, a, 64)) by {
                assert forall|k: int| 0 <= k < 64 implies #[trigger] b.data[p + k] == b.data[a
                    + k] by {
                    assert(b.data[a + k] == b.data[(a + k) - found.1]);
                }
            }
        }
    } else {
        assert(head == b.literals(i, 1));
    }
    assert forall|p: int| 0 <= p < i + used && p < m implies #[trigger] r.contains(p) by {
        if p < i {
            assert(s.contains(p));
        } else {
            let j: nat = if p < a {
                (p - i) as nat
            } else {
                (n - 1) as nat
            };
            lemma_place_literals(head, j);
            assert(kept(head[j as int], i + place(head, j), p));
            assert(known(head, i, p));
        }
    }
    r
}

proof fn lemma_twice_alike(x: Seq<u8>, i: int, l: nat)
    requires
        x.len() <= i,
        i + l <= 2 * x.len(),
    ensures
        alike(x + x, i - x.len(), i, l),
{
    let data = x + x;
    let m = x.len() as int;
    assert forall|k: int| 0 <= k < l implies #[trigger] data[i - m + k] == data[i + k] by {}
}

#[verifier::rlimit(60)]
#[verifier::spinoff_prover]
proof fn lemma_second_time(b: Block, c0: Chains, s: Seq<int>, x: Seq<u8>, i: int)
    requires
        searchable(b),
        b.fresh(c0, 0),
        b.data == x + x,
        4 <= x.len() <= b.window,
        x.len() <= 65536,
        spread_marks(b.data, x.len() as int, b.window),
        b.base + b.data.len() <= b.modulus,
        x.len() <= i <= b.data.len(),
        rising(s, i),
        forall|p: int| 0 <= p < x.len() ==> #[trigger] s.contains(p),
    ensures
        b.tokens_from(entered_all(b, c0, s), i).0.len() <= (b.data.len() - i) / 258 + 3,
    decreases b.data.len() - i,
{
    let c = entered_all(b, c0, s);
    let n = b.data.len() as int;
    let left = n - i;
    lemma_entered_fresh(b, c0, s, i);
    lz::lemma_tokens(b, c, i);
    if left >= 4 {
        let m = x.len() as int;
        let l: nat = if left <= 258 {
            left as nat
        } else {
            258
        };
        let p = i - m;
        lemma_twice_alike(x, i, l);
        assert(s.contains(p));
        assert(crowd(b.data, p, i, i) < tries(b.window) / 8);
        lemma_step_finds(b, c0, s, i, p, l);
        let r = lemma_step_tables(b, c0, s, i);
        let (head, c2, used) = b.step(c, i);
        let tail = b.tokens_from(c2, i + used).0;
        let k = head.len() as int;
        assert(sure_len(b.window, crowd(b.data, p, i, i), l) == l);
        assert(place(head, head.len()) == place(head, (head.len() - 1) as nat) + span(head[k - 1]));
        assert(used >= l);
        assert(b.tokens_from(c, i).0 == head + tail);
        lemma_second_time(b, c0, r, x, i + used);
    }
}

#[verifier::rlimit(40)]
#[verifier::spinoff_prover]
proof fn lemma_first_time(b: Block, c0: Chains, s: Seq<int>, x: Seq<u8>, i: int)
    requires
        searchable(b),
        b.fresh(c0, 0),
        b.data == x + x,
        64 <= x.len() <= b.window,
        x.len() <= 65536,
        no_long_repeats(b.data, x.len() as int),
        spread_marks(b.data, x.len() as int, b.window),
        b.base + b.data.len() <= b.modulus,
        0 <= i <= b.data.len(),
        rising(s, i),
        forall|p: int| 0 <= p < i && p < x.len() ==> #[trigger] s.contains(p),
    ensures
        ({
            let toks = b.tokens_from(entered_all(b, c0, s), i).0;
            let m = x.len() as int;
            let left = if i < m {
                m - i
            } else {
                0
            };
            &&& toks.len() <= left + m / 258 + 5
            &&& bits_most(toks) <= 15 * left + 42 * (m / 258) + 198
            &&& left <= 64 * toks.len()
        }),
    decreases b.data.len() - i,
{
    let m = x.len() as int;
    let c = entered_all(b, c0, s);
    let toks = b.tokens_from(c, i).0;
    if i >= m {
        lemma_second_time(b, c0, s, x, i);
        lemma_bits_most_each(toks);
        let left = b.data.len() - i;
        assert(left / 258 <= m / 258);
    } else {
        let r = lemma_step_new(b, c0, s, m, i);
        let (head, c2, used) = b.step(c, i);
        let tail = b.tokens_from(c2, i + used).0;
        assert(toks == head + tail);
        lemma_bits_most_concat(head, tail);
        if i + used <= m {
            lemma_first_time(b, c0, r, x, i + used);
        } else {
            lemma_second_time(b, c0, r, x, i + used);
            lemma_bits_most_each(tail);
            let left = b.data.len() - i - used;
            assert(left / 258 <= m / 258);
        }
    }
}

/// The tokens of data that is coded as a block of its own.
pub open spec fn tokens_alone(data: Seq<u8>, window: nat) -> Seq<Token> {
    deflate::lone_block(data, window).tokens_from(
        deflate::no_chains(lz::hash_params(window).1, window),
        0,
    ).0
}

proof fn lemma_alone_searchable(data: Seq<u8>, window: nat)
    requires
        exists|e: nat| e < 64 && window == bits::p2(e),
        window <= usize::MAX,
        data.len() < 0x1_0000_0000,
    ensures
        searchable(deflate::lone_block(data, window)),
        deflate::lone_block(data, window).fresh(
            deflate::no_chains(lz::hash_params(window).1, window),
            0,
        ),
        data.len() <= deflate::lone_block(data, window).modulus,
{
    let e = choose|e: nat| e < 64 && window == bits::p2(e);
    bits::lemma_p2_pos(e);
    let b = deflate::lone_block(data, window);
    assert(b.wf());
}

proof fn lemma_twice_all(x: Seq<u8>, window: nat)
    requires
        exists|e: nat| e < 64 && window == bits::p2(e),
        window <= usize::MAX,
        64 <= x.len() <= window,
        x.len() <= 65536,
        no_long_repeats(x + x, x.len() as int),
        spread_marks(x + x, x.len() as int, window),
    ensures
        ({
            let toks = tokens_alone(x + x, window);
            let m = x.len() as int;
            &&& toks.len() <= m + m / 258 + 5
            &&& bits_most(toks) <= 15 * m + 42 * (m / 258) + 198
            &&& m <= 64 * toks.len()
        }),
{
    let b = deflate::lone_block(x + x, window);
    let c0 = deflate::no_chains(lz::hash_params(window).1, window);
    let none = Seq::<int>::empty();
    lemma_alone_searchable(x + x, window);
    assert(entered_all(b, c0, none) == c0);
    lemma_first_time(b, c0, none, x, 0);
}

/// Data that comes a second time costs next to nothing. Where `x` is no longer than the window and
/// 64 KiB, no 64 bytes come twice in it, and its marks are spread, `x` and `x` again are no more
/// tokens than `x` has bytes, one for each 258 of them, and five.
pub proof fn lemma_twice(x: Seq<u8>, window: nat)
    requires
        exists|e: nat| e < 64 && window == bits::p2(e),
        window <= usize::MAX,
        64 <= x.len() <= window,
        x.len() <= 65536,
        no_long_repeats(x + x, x.len() as int),
        spread_marks(x + x, x.len() as int, window),
    ensures
        tokens_alone(x + x, window).len() <= x.len() + x.len() as int / 258 + 5,
{
    lemma_twice_all(x, window);
}

/// What the parts of the tokens take.
proof fn lemma_parts_most(toks: Seq<Token>)
    requires
        forall|k: int| 0 <= k < toks.len() ==> #[trigger] lz::fits_codes(toks[k]),
    ensures
        15 * toks.len() + 8 * deflate::dists_of(toks).len() + deflate::extras_of(toks).len()
            <= bits_most(toks),
    decreases toks.len(),
{
    if toks.len() > 0 {
        let q = toks.drop_last();
        assert(lz::fits_codes(toks[toks.len() - 1]));
        assert forall|k: int| 0 <= k < q.len() implies #[trigger] lz::fits_codes(q[k]) by {
            assert(lz::fits_codes(toks[k]));
        }
        lemma_parts_most(q);
        match toks.last() {
            Token::Literal(_) => {},
            Token::Repeat(len, dist) => {
                symbols::lemma_len_code(len);
                symbols::lemma_dist_code((dist - 1) as nat);
                symbols::lemma_len_ranges(symbols::len_code(len));
                symbols::lemma_dist_ranges(symbols::dist_code((dist - 1) as nat));
            },
        }
    }
}

/// Where all tokens are single bytes, they are the bytes.
proof fn lemma_only_literals(b: Block, c: Chains, i: int)
    requires
        b.wf(),
        b.fresh(c, i),
        0 <= i <= b.data.len(),
        forall|k: int|
            0 <= k < b.tokens_from(c, i).0.len() ==> (#[trigger] b.tokens_from(
                c,
                i,
            ).0[k]) is Literal,
    ensures
        b.tokens_from(c, i).0.len() == b.data.len() - i,
        forall|k: int|
            0 <= k < b.tokens_from(c, i).0.len() ==> (#[trigger] b.tokens_from(c, i).0[k])
                == Token::Literal(b.data[i + k]),
    decreases b.data.len() - i,
{
    if i < b.data.len() {
        let (head, c2, used) = b.step(c, i);
        let tail = b.tokens_from(c2, i + used).0;
        let toks = b.tokens_from(c, i).0;
        lz::lemma_step(b, c, i);
        assert(toks == head + tail);
        let (best, c1) = b.best_at(c, i);
        if best.0 >= 3 {
            assert(toks[head.len() - 1] == head.last());
            assert(toks[head.len() - 1] is Literal);
        }
        assert forall|k: int| 0 <= k < tail.len() implies (#[trigger] tail[k]) is Literal by {
            assert(toks[head.len() + k] is Literal);
        }
        lemma_only_literals(b, c2, i + used);
        assert forall|k: int| 0 <= k < toks.len() implies (#[trigger] toks[k]) == Token::Literal(
            b.data[i + k],
        ) by {
            if k > 0 {
                assert(toks[k] == tail[k - 1]);
            }
        }
    }
}

/// The tokens of data that is not all the same byte are not all the same symbol.
proof fn lemma_two_symbols(b: Block, c: Chains)
    requires
        b.wf(),
        b.fresh(c, 0),
        b.data.len() >= 65,
        !alike(b.data, 0, 1, 64),
    ensures
        ({
            let toks = b.tokens_from(c, 0).0;
            exists|i: int, j: int|
                0 <= i < j < toks.len() && deflate::symbol_of(#[trigger] toks[i])
                    != deflate::symbol_of(#[trigger] toks[j])
        }),
{
    let toks = b.tokens_from(c, 0).0;
    lz::lemma_tokens(b, c, 0);
    lz::lemma_best_at(b, c, 0);
    let (head, c2, used) = b.step(c, 0);
    let tail = b.tokens_from(c2, used as int).0;
    lz::lemma_step(b, c, 0);
    assert(head == b.literals(0, 1));
    assert(toks == head + tail);
    assert(toks[0] == Token::Literal(b.data[0]));
    if forall|j: int|
        0 < j < toks.len() ==> deflate::symbol_of(toks[0]) == deflate::symbol_of(
            #[trigger] toks[j],
        ) {
        assert forall|k: int| 0 <= k < toks.len() implies (#[trigger] toks[k]) is Literal by {
            assert(lz::fits_codes(toks[k]));
            deflate::lemma_symbol_range(toks[k]);
        }
        lemma_only_literals(b, c, 0);
        assert(alike(b.data, 0, 1, 64)) by {
            assert forall|k: int| 0 <= k < 64 implies #[trigger] b.data[0 + k] == b.data[1 + k] by {
                assert(toks[k] == Token::Literal(b.data[0 + k]));
                assert(toks[k + 1] == Token::Literal(b.data[0 + (k + 1)]));
            }
        }
    } else {
        let j = choose|j: int|
            0 < j < toks.len() && deflate::symbol_of(toks[0]) != deflate::symbol_of(
                #[trigger] toks[j],
            );
        assert(deflate::symbol_of(toks[0]) != deflate::symbol_of(toks[j]));
    }
}

proof fn lemma_stream_most(lens: Seq<u8>, max_bits: nat, data: Seq<int>)
    requires
        forall|s: int| 0 <= s < lens.len() ==> #[trigger] lens[s] <= 15,
        forall|i: int| 0 <= i < data.len() ==> 0 <= #[trigger] data[i] < lens.len(),
    ensures
        huffman::stream_bits(lens, max_bits, data).len() <= 15 * data.len(),
    decreases data.len(),
{
    if data.len() > 0 {
        let q = data.drop_last();
        assert(data[data.len() - 1] == data.last());
        assert forall|i: int| 0 <= i < q.len() implies 0 <= #[trigger] q[i] < lens.len() by {
            assert(q[i] == data[i]);
        }
        lemma_stream_most(lens, max_bits, q);
        assert(lens[data.last()] <= 15);
    }
}

/// Symbols of which there are two kinds are coded in less than 16 bits each, behind less than 190
/// bytes.
proof fn lemma_symbols_most(data: Seq<int>, wide: bool)
    requires
        256 <= data.len() <= usize::MAX,
        forall|i: int| 0 <= i < data.len() ==> 0 <= #[trigger] data[i] < 286,
        exists|i: int, j: int|
            0 <= i < j < data.len() && #[trigger] data[i] != #[trigger] data[j],
    ensures
        huffman::huff_encoded(data, 286, wide) is Some,
        8 * huffman::huff_encoded(data, 286, wide)->0.len() <= 15 * data.len() + 1500,
{
    let lens = huffman::lens_for(data, 286);
    huffman::lemma_coded(data, 286, wide);
    huffman::lemma_lens_for(data, 286);
    lemma_stream_most(lens, canon::max_len(lens), data);
    rle::lemma_rle_len(lens, 0, None);
}

/// Data that comes twice becomes shorter. Where `x` is from 16 KiB to 64 KiB and no longer than the
/// window, no 64 bytes come twice in it, and its marks are spread, `x` and `x` again are coded.
pub proof fn lemma_twice_shrinks(x: Seq<u8>, window: nat, version: u8)
    requires
        exists|e: nat| e < 64 && window == bits::p2(e),
        window <= usize::MAX,
        16384 <= x.len() <= window,
        x.len() <= 65536,
        no_long_repeats(x + x, x.len() as int),
        spread_marks(x + x, x.len() as int, window),
    ensures
        deflate::deflated_alone(x + x, window, version) is Some,
{
    let data = x + x;
    let b = deflate::lone_block(data, window);
    let c0 = deflate::no_chains(lz::hash_params(window).1, window);
    let toks = tokens_alone(data, window);
    lemma_twice_all(x, window);
    lemma_alone_searchable(data, window);
    lz::lemma_tokens(b, c0, 0);
    lemma_parts_most(toks);
    let syms = Seq::new(toks.len(), |i: int| deflate::symbol_of(toks[i]));
    assert forall|i: int| 0 <= i < syms.len() implies 0 <= #[trigger] syms[i] < 286 by {
        assert(lz::fits_codes(toks[i]));
        deflate::lemma_symbol_range(toks[i]);
    }
    assert(!alike(data, 0, 1, 64));
    lemma_two_symbols(b, c0);
    let (i, j) = choose|i: int, j: int|
        0 <= i < j < toks.len() && deflate::symbol_of(#[trigger] toks[i]) != deflate::symbol_of(
            #[trigger] toks[j],
        );
    assert(syms[i] != syms[j]);
    lemma_symbols_most(syms, version >= 2);
    let dists = deflate::dists_of(toks);
    deflate::lemma_dists_range(toks);
    let ints = Seq::new(dists.len(), |i: int| dists[i] as int);
    assert(ints =~= huffman::ints8(dists));
    if huffman::huff_encoded(ints, 256, false) is Some {
        cost::lemma_coded_shorter(dists);
    }
    deflate::lemma_coded_if_shorter(b, c0, version);
}

/// No repeat is missed in data that is coded as a block of its own.
pub proof fn lemma_none_missed_alone(data: Seq<u8>, window: nat, k: int, p: int, l: nat)
    requires
        exists|e: nat| e < 64 && window == bits::p2(e),
        window <= usize::MAX,
        data.len() < 0x1_0000_0000,
        0 <= k < tokens_alone(data, window).len(),
        ({
            let toks = tokens_alone(data, window);
            let x = place(toks, k as nat) as int;
            &&& 0 <= p < x
            &&& known(toks, 0, p)
            &&& x - p <= window
            &&& x - p <= 65536
            &&& 4 <= l <= 258
            &&& x + l <= data.len()
            &&& alike(data, p, x, l)
            &&& crowd(data, p, x, x) < tries(window)
        }),
    ensures
        ({
            let toks = tokens_alone(data, window);
            let x = place(toks, k as nat) as int;
            let sure = sure_len(window, crowd(data, p, x, x), l);
            &&& repeats_soon(toks, k, 3)
            &&& k == 0 || toks[k - 1] is Repeat ==> {
                &&& repeats_soon(toks, k, sure)
                &&& sure >= 32 ==> toks[k] is Repeat && toks[k]->Repeat_0 >= sure
            }
        }),
{
    lemma_alone_searchable(data, window);
    lemma_no_repeat_missed(
        deflate::lone_block(data, window),
        deflate::no_chains(lz::hash_params(window).1, window),
        k,
        p,
        l,
    );
}

/// A short repeat waits for a better one. Where a repeat of less than 32 bytes is taken behind less
/// than two single bytes, no repeat that is better starts one byte further, unless too many
/// positions with its mark come before it.
pub proof fn lemma_none_better_alone(data: Seq<u8>, window: nat, k: int, p: int, l: nat)
    requires
        exists|e: nat| e < 64 && window == bits::p2(e),
        window <= usize::MAX,
        data.len() < 0x1_0000_0000,
        taken_early(tokens_alone(data, window), k),
        ({
            let toks = tokens_alone(data, window);
            let x = place(toks, k as nat) as int;
            &&& 0 <= p <= x
            &&& known(toks, 0, p)
            &&& x + 1 - p <= window
            &&& x + 1 - p <= 65536
            &&& 4 <= l <= 258
            &&& x + 1 + l <= data.len()
            &&& alike(data, p, x + 1, l)
            &&& crowd(data, p, x + 1, x + 1) < tries(window) / 2
        }),
    ensures
        ({
            let toks = tokens_alone(data, window);
            let x = place(toks, k as nat) as int;
            !beats(l, x + 1 - p, toks[k]->Repeat_0, toks[k]->Repeat_1)
        }),
{
    let b = deflate::lone_block(data, window);
    let c0 = deflate::no_chains(lz::hash_params(window).1, window);
    lemma_alone_searchable(data, window);
    assert(entered_all(b, c0, Seq::<int>::empty()) == c0);
    lemma_lazy_from(b, c0, Seq::empty(), 0, k, p, l);
}

/// Three bytes are not worth a repeat from further back than 4096.
pub proof fn lemma_near_threes(data: Seq<u8>, window: nat, k: int)
    requires
        exists|e: nat| e < 64 && window == bits::p2(e),
        window <= usize::MAX,
        data.len() < 0x1_0000_0000,
        0 <= k < tokens_alone(data, window).len(),
        tokens_alone(data, window)[k] is Repeat,
    ensures
        tokens_alone(data, window)[k]->Repeat_0 >= 3,
        tokens_alone(data, window)[k]->Repeat_0 == 3 ==> tokens_alone(data, window)[k]->Repeat_1
            <= 4096,
{
    let b = deflate::lone_block(data, window);
    let c0 = deflate::no_chains(lz::hash_params(window).1, window);
    lemma_alone_searchable(data, window);
    lemma_threes_from(b, c0, 0, k);
}

proof fn lemma_step_threes(b: Block, c: Chains, i: int)
    requires
        b.wf(),
        b.fresh(c, i),
        0 <= i < b.data.len(),
    ensures
        forall|k: int|
            0 <= k < b.step(c, i).0.len() ==> ((#[trigger] b.step(c, i).0[k]) matches Token::Repeat(
                len,
                dist,
            ) ==> len >= 3 && (len == 3 ==> dist <= 4096)),
{
    lz::lemma_best_at(b, c, i);
    let (best, c1) = b.best_at(c, i);
    if best.0 >= 3 {
        lz::lemma_better_at(b, c1, i, best);
        lemma_better_near(b, c1, i, best);
        match b.better_at(c1, i, best) {
            None => {},
            Some(b1) => {
                let d1 = b.entered(c1, i + 1);
                lz::lemma_fresh_later(b, c1, i + 1, i + 2);
                lz::lemma_entered(b, c1, i + 1, i + 2);
                lz::lemma_better_at(b, d1, i + 1, b1);
                lemma_better_near(b, d1, i + 1, b1);
            },
        }
    }
}

/// What is better is longer, or nearer.
proof fn lemma_better_near(b: Block, c: Chains, i: int, best: (nat, nat))
    ensures
        b.better_at(c, i, best) matches Some(r) ==> r.0 > best.0 || (r.0 == best.0 && r.1
            <= best.1),
{
    if best.0 < 32 && i + 4 <= b.data.len() {
        lemma_better_near_from(
            b,
            c.prev,
            i + 1,
            c.head[lz::hash_at(b.data, i + 1, b.hash_bits) as int],
            0,
            best,
        );
    }
}

proof fn lemma_better_near_from(
    b: Block,
    prev: Seq<Option<nat>>,
    j: int,
    pos: Option<nat>,
    tried: nat,
    best: (nat, nat),
)
    ensures
        b.better_from(prev, j, pos, tried, best) matches Some(r) ==> r.0 > best.0 || (r.0 == best.0
            && r.1 <= best.1),
    decreases b.chain() - tried,
{
    if !(tried >= b.chain() / 2 || pos is None || pos->0 < b.min_pos(j)) {
        lemma_better_near_from(
            b,
            prev,
            j,
            prev[lz::ring_slot(b.window, pos->0)],
            tried + 1,
            best,
        );
    }
}

proof fn lemma_threes_from(b: Block, c: Chains, i: int, k: int)
    requires
        b.wf(),
        b.fresh(c, i),
        0 <= i <= b.data.len(),
        0 <= k < b.tokens_from(c, i).0.len(),
        b.tokens_from(c, i).0[k] is Repeat,
    ensures
        b.tokens_from(c, i).0[k]->Repeat_0 >= 3,
        b.tokens_from(c, i).0[k]->Repeat_0 == 3 ==> b.tokens_from(c, i).0[k]->Repeat_1 <= 4096,
    decreases b.data.len() - i,
{
    if i < b.data.len() {
        let (head, c2, used) = b.step(c, i);
        lz::lemma_step(b, c, i);
        lemma_step_threes(b, c, i);
        let tail = b.tokens_from(c2, i + used).0;
        let toks = b.tokens_from(c, i).0;
        assert(toks == head + tail);
        if k < head.len() {
            assert(toks[k] == head[k]);
        } else {
            assert(toks[k] == tail[k - head.len()]);
            lemma_threes_from(b, c2, i + used, k - head.len());
        }
    }
}

/// These are the tokens that data is coded as where it is a block of its own.
pub proof fn lemma_alone_tokens(data: Seq<u8>, window: nat, version: u8)
    requires
        data.len() >= 128,
    ensures
        deflate::deflated_alone(data, window, version) == deflate::packed(
            tokens_alone(data, window),
            data.len(),
            version,
        ),
{
}

} // verus!
