//! How many codes there are of each length, and the Kraft sum over them.

use crate::codec::bits;
use vstd::prelude::*;

verus! {

/// How many of the first `k` lengths are `b`.
pub open spec fn len_count(lens: Seq<nat>, k: nat, b: nat) -> nat
    decreases k,
{
    if k == 0 {
        0
    } else {
        len_count(lens, (k - 1) as nat, b) + if lens[k - 1] == b {
            1nat
        } else {
            0nat
        }
    }
}

/// The number of lengths `b` among the first `k`, for every `b` up to `m`.
pub open spec fn len_counts(lens: Seq<nat>, k: nat, m: nat) -> Seq<nat> {
    Seq::new(m + 1, |b: int| len_count(lens, k, b as nat))
}

/// The share of the 2^`m` words of `m` bits that codes of up to `b` bits cover.
pub open spec fn kraft(counts: Seq<nat>, b: nat, m: nat) -> nat
    decreases b,
{
    if b == 0 {
        0
    } else {
        kraft(counts, (b - 1) as nat, m) + counts[b as int] * bits::p2((m - b) as nat)
    }
}

/// The share that one code covers.
pub open spec fn code_share(len: nat, m: nat) -> nat {
    if len == 0 {
        0
    } else {
        bits::p2((m - len) as nat)
    }
}

/// The share that the codes of the first `k` symbols cover.
pub open spec fn kraft_lens(lens: Seq<nat>, k: nat, m: nat) -> nat
    decreases k,
{
    if k == 0 {
        0
    } else {
        kraft_lens(lens, (k - 1) as nat, m) + code_share(lens[k - 1], m)
    }
}

/// How many codes have from 1 to `b` bits.
pub open spec fn count_sum(counts: Seq<nat>, b: nat) -> nat
    decreases b,
{
    if b == 0 {
        0
    } else {
        count_sum(counts, (b - 1) as nat) + counts[b as int]
    }
}

pub proof fn lemma_kraft_update(counts: Seq<nat>, j: nat, v: nat, b: nat, m: nat)
    requires
        j < counts.len(),
        b < counts.len(),
    ensures
        kraft(counts.update(j as int, v), b, m) - kraft(counts, b, m) == if 1 <= j <= b {
            (v - counts[j as int]) * bits::p2((m - j) as nat)
        } else {
            0
        },
        count_sum(counts.update(j as int, v), b) - count_sum(counts, b) == if 1 <= j <= b {
            v - counts[j as int]
        } else {
            0
        },
    decreases b,
{
    if b > 0 {
        lemma_kraft_update(counts, j, v, (b - 1) as nat, m);
        if j == b {
            let p = bits::p2((m - j) as nat);
            let old_count = counts[j as int];
            assert((v - old_count) * p == v * p - old_count * p) by (nonlinear_arith);
        }
    }
}

/// Summing by length or by symbol is the same.
pub proof fn lemma_kraft_exchange(lens: Seq<nat>, k: nat, m: nat)
    requires
        k <= lens.len(),
        forall|i: int| 0 <= i < lens.len() ==> #[trigger] lens[i] <= m,
    ensures
        kraft(len_counts(lens, k, m), m, m) == kraft_lens(lens, k, m),
    decreases k,
{
    if k == 0 {
        lemma_kraft_zero(len_counts(lens, 0, m), m, m);
    } else {
        let before = len_counts(lens, (k - 1) as nat, m);
        lemma_kraft_exchange(lens, (k - 1) as nat, m);
        let l = lens[k - 1];
        assert(len_counts(lens, k, m) =~= before.update(l as int, (before[l as int] + 1) as nat));
        lemma_kraft_update(before, l, (before[l as int] + 1) as nat, m, m);
        let c = before[l as int];
        let p = bits::p2((m - l) as nat);
        assert((c + 1 - c) * p == p) by (nonlinear_arith);
    }
}

proof fn lemma_kraft_zero(counts: Seq<nat>, b: nat, m: nat)
    requires
        b < counts.len(),
        forall|i: int| 0 <= i < counts.len() ==> counts[i] == 0,
    ensures
        kraft(counts, b, m) == 0,
        count_sum(counts, b) == 0,
    decreases b,
{
    if b > 0 {
        lemma_kraft_zero(counts, (b - 1) as nat, m);
    }
}

/// Longer codes are no smaller a share.
pub proof fn lemma_kraft_mono(counts: Seq<nat>, a: nat, b: nat, m: nat)
    requires
        a <= b,
    ensures
        kraft(counts, a, m) <= kraft(counts, b, m),
        count_sum(counts, a) <= count_sum(counts, b),
    decreases b,
{
    if a < b {
        lemma_kraft_mono(counts, a, (b - 1) as nat, m);
    }
}

/// The share of codes that are all `m` bits long.
pub proof fn lemma_kraft_single(counts: Seq<nat>, b: nat, m: nat)
    requires
        b < counts.len(),
        forall|i: int| 1 <= i <= b ==> counts[i] == 0,
    ensures
        kraft(counts, b, m) == 0,
        count_sum(counts, b) == 0,
    decreases b,
{
    if b > 0 {
        lemma_kraft_single(counts, (b - 1) as nat, m);
    }
}

pub proof fn lemma_len_count(lens: Seq<nat>, k: nat, b: nat)
    ensures
        len_count(lens, k, b) <= k,
    decreases k,
{
    if k > 0 {
        lemma_len_count(lens, (k - 1) as nat, b);
    }
}

pub proof fn lemma_count_in(counts: Seq<nat>, i: nat, b: nat)
    requires
        1 <= i <= b,
    ensures
        counts[i as int] <= count_sum(counts, b),
    decreases b,
{
    if i < b {
        lemma_count_in(counts, i, (b - 1) as nat);
    }
}

// ---- the length of a rank ----

/// The length that the `r`-th symbol gets when the first ones get the longest.
pub open spec fn rank_len(counts: Seq<nat>, b: nat, r: nat) -> nat
    decreases b,
{
    if b == 0 {
        0
    } else if r < counts[b as int] {
        b
    } else {
        rank_len(counts, (b - 1) as nat, (r - counts[b as int]) as nat)
    }
}

pub open spec fn rank_kraft(counts: Seq<nat>, b: nat, m: nat, k: nat) -> nat
    decreases k,
{
    if k == 0 {
        0
    } else {
        rank_kraft(counts, b, m, (k - 1) as nat) + code_share(
            rank_len(counts, b, (k - 1) as nat),
            m,
        )
    }
}

proof fn lemma_rank_kraft_split(counts: Seq<nat>, b: nat, m: nat, k: nat)
    requires
        b > 0,
    ensures
        rank_kraft(counts, b, m, k) == if k <= counts[b as int] {
            k * bits::p2((m - b) as nat)
        } else {
            counts[b as int] * bits::p2((m - b) as nat) + rank_kraft(
                counts,
                (b - 1) as nat,
                m,
                (k - counts[b as int]) as nat,
            )
        },
    decreases k,
{
    let p = bits::p2((m - b) as nat);
    let c = counts[b as int];
    if k > 0 {
        lemma_rank_kraft_split(counts, b, m, (k - 1) as nat);
        if k <= c {
            assert(k * p == (k - 1) * p + p) by (nonlinear_arith);
        } else if k - 1 == c {
            assert(rank_kraft(counts, (b - 1) as nat, m, 0) == 0);
            assert(rank_kraft(counts, (b - 1) as nat, m, 1) == code_share(
                rank_len(counts, (b - 1) as nat, 0),
                m,
            ));
        }
    } else {
        assert(0 * p == 0) by (nonlinear_arith);
    }
}

/// Handing out the lengths by rank covers what the counts cover.
pub proof fn lemma_rank_kraft(counts: Seq<nat>, b: nat, m: nat)
    ensures
        rank_kraft(counts, b, m, count_sum(counts, b)) == kraft(counts, b, m),
    decreases b,
{
    if b > 0 {
        let k = count_sum(counts, b);
        lemma_rank_kraft(counts, (b - 1) as nat, m);
        lemma_rank_kraft_split(counts, b, m, k);
        if k <= counts[b as int] {
            assert(k == counts[b as int]);
            assert(count_sum(counts, (b - 1) as nat) == 0);
        }
    }
}

pub proof fn lemma_rank_len(counts: Seq<nat>, b: nat, r: nat)
    requires
        r < count_sum(counts, b),
    ensures
        1 <= rank_len(counts, b, r) <= b,
        counts[rank_len(counts, b, r) as int] > 0,
    decreases b,
{
    if b > 0 && r >= counts[b as int] {
        lemma_rank_len(counts, (b - 1) as nat, (r - counts[b as int]) as nat);
    }
}

/// A later rank gets no longer a code.
pub proof fn lemma_rank_len_mono(counts: Seq<nat>, b: nat, r: nat, t: nat)
    requires
        r <= t,
    ensures
        rank_len(counts, b, r) >= rank_len(counts, b, t),
    decreases b,
{
    if b > 0 {
        if t >= counts[b as int] {
            lemma_rank_len_bound(counts, (b - 1) as nat, (t - counts[b as int]) as nat);
            if r >= counts[b as int] {
                lemma_rank_len_mono(
                    counts,
                    (b - 1) as nat,
                    (r - counts[b as int]) as nat,
                    (t - counts[b as int]) as nat,
                );
            }
        }
    }
}

pub proof fn lemma_rank_len_bound(counts: Seq<nat>, b: nat, r: nat)
    ensures
        rank_len(counts, b, r) <= b,
    decreases b,
{
    if b > 0 && r >= counts[b as int] {
        lemma_rank_len_bound(counts, (b - 1) as nat, (r - counts[b as int]) as nat);
    }
}

// ---- shortening codes that are too long ----

/// The longest length in use from `b` down to 1, or 0.
pub open spec fn last_used(counts: Seq<nat>, b: nat) -> nat
    decreases b,
{
    if b == 0 {
        0
    } else if counts[b as int] > 0 {
        b
    } else {
        last_used(counts, (b - 1) as nat)
    }
}

/// One step: a code shorter than `m` bits is made one bit longer, which gives
/// room for a second code of that length, and that is taken from `m` bits.
pub open spec fn spread_step(counts: Seq<nat>, m: nat) -> Seq<nat> {
    let b = last_used(counts, (m - 1) as nat) as int;
    let one = counts.update(b, (counts[b] - 1) as nat);
    let two = one.update(b + 1, (one[b + 1] + 2) as nat);
    two.update(m as int, (two[m as int] - 1) as nat)
}

/// `excess` such steps, or as many as there are shorter codes for.
pub open spec fn spread(counts: Seq<nat>, m: nat, excess: nat) -> Seq<nat>
    decreases excess,
{
    if excess == 0 || last_used(counts, (m - 1) as nat) == 0 {
        counts
    } else {
        spread(spread_step(counts, m), m, (excess - 1) as nat)
    }
}

pub proof fn lemma_last_used(counts: Seq<nat>, b: nat)
    ensures
        last_used(counts, b) <= b,
        last_used(counts, b) > 0 ==> counts[last_used(counts, b) as int] > 0,
        forall|i: int| last_used(counts, b) < i <= b ==> counts[i] == 0,
    decreases b,
{
    if b > 0 && counts[b as int] == 0 {
        lemma_last_used(counts, (b - 1) as nat);
    }
}

/// A step takes one word off the Kraft sum and keeps the number of codes.
pub proof fn lemma_spread_step(counts: Seq<nat>, m: nat)
    requires
        counts.len() == m + 1,
        m >= 1,
        last_used(counts, (m - 1) as nat) > 0,
        counts[m as int] >= 1,
    ensures
        ({
            let r = spread_step(counts, m);
            &&& r.len() == counts.len()
            &&& kraft(r, m, m) + 1 == kraft(counts, m, m)
            &&& count_sum(r, m) == count_sum(counts, m)
            &&& r[m as int] >= counts[m as int] - 1
        }),
{
    lemma_last_used(counts, (m - 1) as nat);
    let b = last_used(counts, (m - 1) as nat);
    let bi = b as int;
    let one = counts.update(bi, (counts[bi] - 1) as nat);
    let two = one.update(bi + 1, (one[bi + 1] + 2) as nat);
    let r = spread_step(counts, m);
    lemma_kraft_update(counts, b, (counts[bi] - 1) as nat, m, m);
    lemma_kraft_update(one, b + 1, (one[bi + 1] + 2) as nat, m, m);
    assert(two[m as int] >= 1);
    lemma_kraft_update(two, m, (two[m as int] - 1) as nat, m, m);
    let p = bits::p2((m - b) as nat);
    let q = bits::p2((m - (b + 1)) as nat);
    assert(p == 2 * q);
    assert((counts[bi] - 1 - counts[bi]) * p == -p) by (nonlinear_arith);
    assert((one[bi + 1] + 2 - one[bi + 1]) * q == 2 * q) by (nonlinear_arith);
    assert(bits::p2(0) == 1);
    assert((two[m as int] - 1 - two[m as int]) * bits::p2((m - m) as nat) == -1)
        by (nonlinear_arith)
        requires
            bits::p2((m - m) as nat) == 1,
    ;
}

/// With fewer than 2^`m` codes the shortening succeeds in full.
pub proof fn lemma_spread(counts: Seq<nat>, m: nat, excess: nat)
    requires
        counts.len() == m + 1,
        m >= 1,
        kraft(counts, m, m) == bits::p2(m) + excess,
        counts[m as int] >= excess,
        count_sum(counts, m) <= bits::p2(m),
    ensures
        spread(counts, m, excess).len() == m + 1,
        kraft(spread(counts, m, excess), m, m) == bits::p2(m),
        count_sum(spread(counts, m, excess), m) == count_sum(counts, m),
    decreases excess,
{
    if excess > 0 {
        lemma_last_used(counts, (m - 1) as nat);
        if last_used(counts, (m - 1) as nat) == 0 {
            lemma_kraft_single(counts, (m - 1) as nat, m);
            assert(bits::p2(0) == 1);
            assert(counts[m as int] * bits::p2((m - m) as nat) == counts[m as int])
                by (nonlinear_arith)
                requires
                    bits::p2((m - m) as nat) == 1,
            ;
            assert(false);
        }
        lemma_spread_step(counts, m);
        lemma_spread(spread_step(counts, m), m, (excess - 1) as nat);
    }
}

} // verus!
