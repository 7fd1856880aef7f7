//! How many bits Huffman coded symbols take.
//!
//! A tree is built by joining the two lightest of `m` trees, which weigh at most
//! two `m`-th parts of all. So the bits of `n` symbols of at most 32 kinds are
//! at most `n` times the sum of 2/32, 2/31, ... 2/2, and not much more where
//! codes had to be shortened to 15 bits.

use crate::codec::bits;
use crate::codec::canon;
use crate::codec::huffman;
use crate::codec::kraft;
use crate::codec::lengths;
use crate::codec::rle;
use crate::codec::tree;
use crate::codec::tree::Tree;
use vstd::prelude::*;

verus! {

// ---- the bits of a Huffman tree ----

/// The summed weights of the inner nodes.
spec fn inner(t: Tree, freq: Seq<usize>) -> nat
    decreases t,
{
    match t {
        Tree::Leaf(x) => 0,
        Tree::Node(l, r) => tree::weight(t, freq) + inner(*l, freq) + inner(*r, freq),
    }
}

spec fn inner_all(q: Seq<Tree>, freq: Seq<usize>) -> nat
    decreases q.len(),
{
    if q.len() == 0 {
        0
    } else {
        inner(q[0], freq) + inner_all(q.drop_first(), freq)
    }
}

/// The bits that the occurrences of a symbol at depth `d` take.
spec fn leaf_bits(freq: Seq<usize>) -> spec_fn(int, nat) -> nat {
    |s: int, d: nat| freq[s] as nat * d
}

proof fn lemma_leaf_bits(t: Tree, d: nat, freq: Seq<usize>)
    ensures
        tree::leaf_sum(t, d, leaf_bits(freq)) == inner(t, freq) + d * tree::weight(t, freq),
    decreases t,
{
    match t {
        Tree::Leaf(x) => {
            assert(freq[x] as nat * d == d * freq[x] as nat) by (nonlinear_arith);
        },
        Tree::Node(l, r) => {
            lemma_leaf_bits(*l, d + 1, freq);
            lemma_leaf_bits(*r, d + 1, freq);
            let a = tree::weight(*l, freq);
            let b = tree::weight(*r, freq);
            assert((d + 1) * a + (d + 1) * b == (a + b) + d * (a + b)) by (nonlinear_arith);
        },
    }
}

/// The sum of 2/2, 2/3, ... 2/`m` in parts of 10000, each rounded up.
pub open spec fn harmonic(m: nat) -> nat
    decreases m,
{
    if m <= 1 {
        0
    } else {
        harmonic((m - 1) as nat) + (20000 + m - 1) as nat / m
    }
}

proof fn lemma_inner_push(q: Seq<Tree>, t: Tree, freq: Seq<usize>)
    ensures
        inner_all(q.push(t), freq) == inner_all(q, freq) + inner(t, freq),
    decreases q.len(),
{
    reveal_with_fuel(inner_all, 2);
    if q.len() == 0 {
        assert(q.push(t).drop_first() =~= q);
    } else {
        lemma_inner_push(q.drop_first(), t, freq);
        assert(q.push(t).drop_first() =~= q.drop_first().push(t));
    }
}

proof fn lemma_inner_pop(q1: Seq<Tree>, q2: Seq<Tree>, freq: Seq<usize>)
    requires
        q1.len() + q2.len() >= 1,
    ensures
        ({
            let (a, r1, r2) = tree::pop(q1, q2, freq);
            inner(a, freq) + inner_all(r1, freq) + inner_all(r2, freq) == inner_all(q1, freq)
                + inner_all(q2, freq)
        }),
{
}

/// Trees that all weigh `x` at least.
proof fn lemma_weight_least(q: Seq<Tree>, freq: Seq<usize>, x: nat)
    requires
        forall|i: int| 0 <= i < q.len() ==> tree::weight(#[trigger] q[i], freq) >= x,
    ensures
        tree::weight_all(q, freq) >= q.len() * x,
    decreases q.len(),
{
    if q.len() == 0 {
        assert(q.len() * x == 0) by (nonlinear_arith)
            requires
                q.len() == 0,
        ;
    } else {
        let rest = q.drop_first();
        assert forall|i: int| 0 <= i < rest.len() implies tree::weight(#[trigger] rest[i], freq)
            >= x by {
            assert(rest[i] == q[i + 1]);
        }
        lemma_weight_least(rest, freq, x);
        assert(tree::weight(q[0], freq) >= x);
        assert(q.len() * x == (q.len() - 1) * x + x) by (nonlinear_arith);
    }
}

/// The two lightest of `m` trees weigh at most two `m`-th parts of all.
proof fn lemma_two_lightest(q1: Seq<Tree>, q2: Seq<Tree>, freq: Seq<usize>)
    requires
        tree::queued(q1, q2, freq),
        q1.len() + q2.len() >= 2,
    ensures
        ({
            let (a, r1, r2) = tree::pop(q1, q2, freq);
            let (b, s1, s2) = tree::pop(r1, r2, freq);
            (q1.len() + q2.len()) * (tree::weight(a, freq) + tree::weight(b, freq)) <= 2 * (
            tree::weight_all(q1, freq) + tree::weight_all(q2, freq))
        }),
{
    let (a, r1, r2) = tree::pop(q1, q2, freq);
    let (b, s1, s2) = tree::pop(r1, r2, freq);
    tree::lemma_pop(q1, q2, freq);
    tree::lemma_pop(r1, r2, freq);
    tree::lemma_pop_keeps(q1, q2, freq, 0);
    tree::lemma_pop_keeps(r1, r2, freq, 0);
    let wa = tree::weight(a, freq);
    let wb = tree::weight(b, freq);
    assert(wb >= wa) by {
        if r1.len() > 0 && (r2.len() == 0 || tree::weight(r1[0], freq) <= tree::weight(
            r2[0],
            freq,
        )) {
            assert(b == r1[0]);
        } else {
            assert(b == r2[0]);
        }
    }
    lemma_weight_least(s1, freq, wb);
    lemma_weight_least(s2, freq, wb);
    let x = s1.len();
    let y = s2.len();
    let m = q1.len() + q2.len();
    let total = tree::weight_all(q1, freq) + tree::weight_all(q2, freq);
    assert(m * (wa + wb) <= 2 * total) by (nonlinear_arith)
        requires
            m == x + y + 2,
            total >= wa + wb + x * wb + y * wb,
            wb >= wa,
    ;
}

proof fn lemma_build_inner(q1: Seq<Tree>, q2: Seq<Tree>, freq: Seq<usize>)
    requires
        tree::queued(q1, q2, freq),
        q1.len() + q2.len() >= 1,
    ensures
        10000 * inner(tree::build(q1, q2, freq), freq) <= 10000 * (inner_all(q1, freq) + inner_all(
            q2,
            freq,
        )) + (tree::weight_all(q1, freq) + tree::weight_all(q2, freq)) * harmonic(
            q1.len() + q2.len(),
        ),
    decreases q1.len() + q2.len(),
{
    let m = q1.len() + q2.len();
    let total = tree::weight_all(q1, freq) + tree::weight_all(q2, freq);
    if m == 1 {
        reveal_with_fuel(inner_all, 2);
        assert(total * 0 == 0) by (nonlinear_arith);
    } else {
        let (a, r1, r2) = tree::pop(q1, q2, freq);
        let (b, t1, t2) = tree::pop(r1, r2, freq);
        let (s1, s2) = tree::join(q1, q2, freq);
        let joined = Tree::Node(Box::new(a), Box::new(b));
        lemma_two_lightest(q1, q2, freq);
        tree::lemma_join_queued(q1, q2, freq);
        tree::lemma_join_keeps(q1, q2, freq, 0);
        lemma_inner_pop(q1, q2, freq);
        lemma_inner_pop(r1, r2, freq);
        lemma_inner_push(t2, joined, freq);
        lemma_build_inner(s1, s2, freq);
        let w = tree::weight(a, freq) + tree::weight(b, freq);
        let h = harmonic((m - 1) as nat);
        let g = (20000 + m - 1) as nat / m;
        assert(m * g >= 20000) by (nonlinear_arith)
            requires
                m >= 1,
                g == (20000 + m - 1) as nat / m,
        ;
        assert(10000 * w <= total * g) by (nonlinear_arith)
            requires
                m * w <= 2 * total,
                m * g >= 20000,
                m >= 1,
        ;
        assert(total * (h + g) == total * h + total * g) by (nonlinear_arith);
    }
}

proof fn lemma_harmonic_mono(a: nat, b: nat)
    requires
        a <= b,
    ensures
        harmonic(a) <= harmonic(b),
    decreases b,
{
    if a < b {
        lemma_harmonic_mono(a, (b - 1) as nat);
    }
}

proof fn lemma_harmonic_32()
    ensures
        harmonic(32) <= 61250,
{
    assert(harmonic(1) == 0);
    assert(harmonic(2) == 10000) by {
        assert(20001nat / 2nat == 10000);
    }
    assert(harmonic(3) == 16667) by {
        assert(20002nat / 3nat == 6667);
    }
    assert(harmonic(4) == 21667) by {
        assert(20003nat / 4nat == 5000);
    }
    assert(harmonic(5) == 25667) by {
        assert(20004nat / 5nat == 4000);
    }
    assert(harmonic(6) == 29001) by {
        assert(20005nat / 6nat == 3334);
    }
    assert(harmonic(7) == 31859) by {
        assert(20006nat / 7nat == 2858);
    }
    assert(harmonic(8) == 34359) by {
        assert(20007nat / 8nat == 2500);
    }
    assert(harmonic(9) == 36582) by {
        assert(20008nat / 9nat == 2223);
    }
    assert(harmonic(10) == 38582) by {
        assert(20009nat / 10nat == 2000);
    }
    assert(harmonic(11) == 40401) by {
        assert(20010nat / 11nat == 1819);
    }
    assert(harmonic(12) == 42068) by {
        assert(20011nat / 12nat == 1667);
    }
    assert(harmonic(13) == 43607) by {
        assert(20012nat / 13nat == 1539);
    }
    assert(harmonic(14) == 45036) by {
        assert(20013nat / 14nat == 1429);
    }
    assert(harmonic(15) == 46370) by {
        assert(20014nat / 15nat == 1334);
    }
    assert(harmonic(16) == 47620) by {
        assert(20015nat / 16nat == 1250);
    }
    assert(harmonic(17) == 48797) by {
        assert(20016nat / 17nat == 1177);
    }
    assert(harmonic(18) == 49909) by {
        assert(20017nat / 18nat == 1112);
    }
    assert(harmonic(19) == 50962) by {
        assert(20018nat / 19nat == 1053);
    }
    assert(harmonic(20) == 51962) by {
        assert(20019nat / 20nat == 1000);
    }
    assert(harmonic(21) == 52915) by {
        assert(20020nat / 21nat == 953);
    }
    assert(harmonic(22) == 53825) by {
        assert(20021nat / 22nat == 910);
    }
    assert(harmonic(23) == 54695) by {
        assert(20022nat / 23nat == 870);
    }
    assert(harmonic(24) == 55529) by {
        assert(20023nat / 24nat == 834);
    }
    assert(harmonic(25) == 56329) by {
        assert(20024nat / 25nat == 800);
    }
    assert(harmonic(26) == 57099) by {
        assert(20025nat / 26nat == 770);
    }
    assert(harmonic(27) == 57840) by {
        assert(20026nat / 27nat == 741);
    }
    assert(harmonic(28) == 58555) by {
        assert(20027nat / 28nat == 715);
    }
    assert(harmonic(29) == 59245) by {
        assert(20028nat / 29nat == 690);
    }
    assert(harmonic(30) == 59912) by {
        assert(20029nat / 30nat == 667);
    }
    assert(harmonic(31) == 60558) by {
        assert(20030nat / 31nat == 646);
    }
    assert(harmonic(32) == 61183) by {
        assert(20031nat / 32nat == 625);
    }
}

// ---- the bits by rank ----

/// The frequency of each rank.
spec fn ranked(freq: Seq<usize>, n: nat) -> Seq<nat> {
    let order = tree::by_freq(freq, n);
    Seq::new(order.len(), |r: int| freq[order[r]] as nat)
}

spec fn rising(f: Seq<nat>) -> bool {
    forall|i: int, j: int| 0 <= i <= j < f.len() ==> #[trigger] f[i] <= #[trigger] f[j]
}

proof fn lemma_ranked(freq: Seq<usize>, n: nat)
    requires
        n <= freq.len(),
    ensures
        rising(ranked(freq, n)),
{
    tree::lemma_by_freq(freq, n);
    let order = tree::by_freq(freq, n);
    let f = ranked(freq, n);
    assert forall|i: int, j: int| 0 <= i <= j < f.len() implies #[trigger] f[i]
        <= #[trigger] f[j] by {
        assert(freq[order[i]] <= freq[order[j]]);
    }
}

/// The sum of the first `k` frequencies.
spec fn least(f: Seq<nat>, k: nat) -> nat
    decreases k,
{
    if k == 0 {
        0
    } else {
        least(f, (k - 1) as nat) + f[k - 1]
    }
}

/// The bits of the first `k` ranks with lengths `l`, lengths over `j` as `j`.
spec fn bits_upto(f: Seq<nat>, l: spec_fn(int) -> nat, j: nat, k: nat) -> nat
    decreases k,
{
    if k == 0 {
        0
    } else {
        bits_upto(f, l, j, (k - 1) as nat) + f[k - 1] * lengths::cap(l(k - 1), j)
    }
}

/// The frequencies of the ranks whose length is `j` or more.
spec fn layer(f: Seq<nat>, l: spec_fn(int) -> nat, j: nat, k: nat) -> nat
    decreases k,
{
    if k == 0 {
        0
    } else {
        layer(f, l, j, (k - 1) as nat) + if l(k - 1) >= j {
            f[k - 1]
        } else {
            0
        }
    }
}

/// How many ranks have a length of `j` or more.
spec fn layer_count(l: spec_fn(int) -> nat, j: nat, k: nat) -> nat
    decreases k,
{
    if k == 0 {
        0
    } else {
        layer_count(l, j, (k - 1) as nat) + if l(k - 1) >= j {
            1nat
        } else {
            0nat
        }
    }
}

proof fn lemma_bits_layer(f: Seq<nat>, l: spec_fn(int) -> nat, j: nat, k: nat)
    requires
        j > 0,
    ensures
        bits_upto(f, l, j, k) == bits_upto(f, l, (j - 1) as nat, k) + layer(f, l, j, k),
    decreases k,
{
    if k > 0 {
        lemma_bits_layer(f, l, j, (k - 1) as nat);
        let x = f[k - 1];
        let a = lengths::cap(l(k - 1), j);
        let b = lengths::cap(l(k - 1), (j - 1) as nat);
        if l(k - 1) >= j {
            assert(x * a == x * b + x) by (nonlinear_arith)
                requires
                    a == b + 1,
            ;
        }
    }
}

/// Any ranks weigh at least as much as the first ones, as many.
proof fn lemma_layer_least(f: Seq<nat>, l: spec_fn(int) -> nat, j: nat, k: nat)
    requires
        rising(f),
        k <= f.len(),
    ensures
        layer(f, l, j, k) >= least(f, layer_count(l, j, k)),
        layer_count(l, j, k) <= k,
    decreases k,
{
    if k > 0 {
        lemma_layer_least(f, l, j, (k - 1) as nat);
        if l(k - 1) >= j {
            let c = layer_count(l, j, (k - 1) as nat);
            assert(f[c as int] <= f[k - 1]);
        }
    }
}

/// Where lengths fall along the ranks, the layers are the first ranks.
proof fn lemma_layer_sorted(f: Seq<nat>, l: spec_fn(int) -> nat, j: nat, k: nat)
    requires
        forall|i: int, m: int| 0 <= i <= m < k ==> #[trigger] l(i) >= #[trigger] l(m),
    ensures
        layer(f, l, j, k) == least(f, layer_count(l, j, k)),
        layer_count(l, j, k) == k || (k > 0 && l(k - 1) < j),
        layer_count(l, j, k) <= k,
    decreases k,
{
    if k > 0 {
        lemma_layer_sorted(f, l, j, (k - 1) as nat);
        if l(k - 1) >= j && k > 1 {
            assert(l(k - 2) >= l(k - 1));
        }
    }
}

/// Lengths that fall along the ranks take the fewest bits.
proof fn lemma_sorted_best(
    f: Seq<nat>,
    l: spec_fn(int) -> nat,
    sorted: spec_fn(int) -> nat,
    j: nat,
    k: nat,
)
    requires
        rising(f),
        k <= f.len(),
        forall|i: int, m: int| 0 <= i <= m < k ==> #[trigger] sorted(i) >= #[trigger] sorted(m),
        forall|i: nat|
            1 <= i <= j ==> #[trigger] layer_count(l, i, k) == layer_count(sorted, i, k),
    ensures
        bits_upto(f, sorted, j, k) <= bits_upto(f, l, j, k),
    decreases j,
{
    if j > 0 {
        lemma_sorted_best(f, l, sorted, (j - 1) as nat, k);
        lemma_bits_layer(f, l, j, k);
        lemma_bits_layer(f, sorted, j, k);
        lemma_layer_least(f, l, j, k);
        lemma_layer_sorted(f, sorted, j, k);
        assert(layer_count(l, j, k) == layer_count(sorted, j, k));
    } else {
        lemma_bits_zero(f, l, k);
        lemma_bits_zero(f, sorted, k);
    }
}

proof fn lemma_bits_zero(f: Seq<nat>, l: spec_fn(int) -> nat, k: nat)
    ensures
        bits_upto(f, l, 0, k) == 0,
    decreases k,
{
    if k > 0 {
        lemma_bits_zero(f, l, (k - 1) as nat);
        assert(f[k - 1] * 0 == 0) by (nonlinear_arith);
    }
}

// ---- handing lengths out by rank ----

/// A rank has a length of `j` or more if and only if it is not among those with
/// shorter ones, which come last.
proof fn lemma_rank_cut(c: Seq<nat>, b: nat, r: nat, j: nat)
    requires
        1 <= j <= b + 1,
    ensures
        kraft::rank_len(c, b, r) >= j <==> r + kraft::count_sum(c, (j - 1) as nat)
            < kraft::count_sum(c, b),
    decreases b,
{
    if j == b + 1 {
        kraft::lemma_rank_len_bound(c, b, r);
    } else {
        kraft::lemma_kraft_mono(c, (j - 1) as nat, (b - 1) as nat, 0);
        if r >= c[b as int] {
            lemma_rank_cut(c, (b - 1) as nat, (r - c[b as int]) as nat, j);
        }
    }
}

proof fn lemma_rank_layer_count(c: Seq<nat>, m: nat, j: nat, k: nat)
    requires
        1 <= j <= m + 1,
    ensures
        layer_count(|r: int| kraft::rank_len(c, m, r as nat), j, k) == if k
            + kraft::count_sum(c, (j - 1) as nat) <= kraft::count_sum(c, m) {
            k as int
        } else if kraft::count_sum(c, (j - 1) as nat) <= kraft::count_sum(c, m) {
            kraft::count_sum(c, m) - kraft::count_sum(c, (j - 1) as nat)
        } else {
            0
        },
    decreases k,
{
    kraft::lemma_kraft_mono(c, (j - 1) as nat, m, 0);
    if k > 0 {
        lemma_rank_layer_count(c, m, j, (k - 1) as nat);
        lemma_rank_cut(c, m, (k - 1) as nat, j);
    }
}

/// A step of shortening makes one code longer by one bit, no other longer.
proof fn lemma_step_rank(c: Seq<nat>, r: nat)
    requires
        c.len() == 16,
        c[15] >= 1,
        kraft::last_used(c, 14) >= 1,
    ensures
        kraft::rank_len(kraft::spread_step(c, 15), 15, r) <= kraft::rank_len(c, 15, r) + if r
            == c[15] {
            1int
        } else {
            0int
        },
        kraft::rank_len(c, 15, c[15]) == kraft::last_used(c, 14),
{
    let b = kraft::last_used(c, 14);
    let d = kraft::spread_step(c, 15);
    kraft::lemma_last_used(c, 14);
    lemma_rank_gap(c, 14, b, 0);
    assert(kraft::rank_len(c, b, 0) == b);
    if r > c[15] {
        let y = (r - c[15]) as nat;
        let cb = c[b as int];
        lemma_rank_gap(c, 14, b, y);
        assert(kraft::rank_len(c, 15, r) == kraft::rank_len(c, b, y));
        if b == 14 {
            assert(d[15] == c[15] + 1 && d[14] == cb - 1);
            assert(kraft::rank_len(d, 15, r) == kraft::rank_len(d, 14, (y - 1) as nat));
        } else {
            assert(d[15] == c[15] - 1 && d[b as int + 1] == 2 && d[b as int] == cb - 1);
            lemma_rank_gap(d, 14, b + 1, y + 1);
            assert(kraft::rank_len(d, 15, r) == kraft::rank_len(d, 14, y + 1));
            assert(kraft::rank_len(d, b + 1, y + 1) == kraft::rank_len(d, b, (y - 1) as nat));
        }
        assert(kraft::rank_len(d, 15, r) == kraft::rank_len(d, b, (y - 1) as nat));
        if y >= cb {
            lemma_rank_same(c, d, (b - 1) as nat, (y - cb) as nat);
            assert(kraft::rank_len(d, b, (y - 1) as nat) == kraft::rank_len(
                d,
                (b - 1) as nat,
                (y - cb) as nat,
            ));
        }
    } else if r == c[15] {
        assert(kraft::rank_len(c, 15, r) == b);
        if b < 14 {
            assert(d[15] == c[15] - 1 && d[b as int + 1] == 2);
            lemma_rank_gap(d, 14, b + 1, 1);
        }
    } else {
        kraft::lemma_rank_len_bound(d, 15, r);
    }
}

/// Lengths that nothing has are passed over.
proof fn lemma_rank_gap(c: Seq<nat>, top: nat, b: nat, r: nat)
    requires
        1 <= b <= top < c.len(),
        forall|i: int| b < i <= top ==> c[i] == 0,
    ensures
        kraft::rank_len(c, top, r) == kraft::rank_len(c, b, r),
    decreases top,
{
    if b < top {
        lemma_rank_gap(c, (top - 1) as nat, b, r);
        assert(c[top as int] == 0);
    }
}

proof fn lemma_rank_same(c: Seq<nat>, d: Seq<nat>, b: nat, r: nat)
    requires
        forall|i: int| 1 <= i <= b ==> c[i] == d[i],
    ensures
        kraft::rank_len(c, b, r) == kraft::rank_len(d, b, r),
    decreases b,
{
    if b > 0 && r >= c[b as int] {
        lemma_rank_same(c, d, (b - 1) as nat, (r - c[b as int]) as nat);
    }
}

// ---- the natural lengths ----

spec fn natural_by_rank(freq: Seq<usize>, n: nat) -> spec_fn(int) -> nat {
    |r: int| lengths::natural_len(freq, n, tree::by_freq(freq, n)[r])
}

spec fn natural_bits(freq: Seq<usize>, n: nat) -> spec_fn(int) -> nat {
    |s: int| freq[s] as nat * lengths::natural_len(freq, n, s)
}

spec fn is_short(freq: Seq<usize>, n: nat, b: nat) -> spec_fn(int) -> nat {
    |s: int|
        if lengths::natural_len(freq, n, s) <= b {
            1nat
        } else {
            0nat
        }
}

proof fn lemma_natural_rank_bits(freq: Seq<usize>, n: nat, k: nat)
    requires
        k <= tree::by_freq(freq, n).len(),
    ensures
        bits_upto(ranked(freq, n), natural_by_rank(freq, n), 15, k) <= tree::order_sum(
            tree::by_freq(freq, n).take(k as int),
            natural_bits(freq, n),
        ),
    decreases k,
{
    let order = tree::by_freq(freq, n);
    if k > 0 {
        lemma_natural_rank_bits(freq, n, (k - 1) as nat);
        assert(order.take(k as int).drop_last() =~= order.take(k - 1));
        let x = freq[order[k - 1]] as nat;
        let l = lengths::natural_len(freq, n, order[k - 1]);
        let c = lengths::cap(l, 15);
        assert(x * c <= x * l) by (nonlinear_arith)
            requires
                c <= l,
        ;
    }
}

proof fn lemma_natural_symbol_bits(freq: Seq<usize>, n: nat, k: nat)
    requires
        k <= n <= freq.len(),
        tree::by_freq(freq, n).len() >= 2,
    ensures
        tree::active_sum(freq, k, natural_bits(freq, n)) == tree::symbol_sum(
            tree::huffman_tree(freq, n),
            0,
            leaf_bits(freq),
            k,
        ),
    decreases k,
{
    if k > 0 {
        lemma_natural_symbol_bits(freq, n, (k - 1) as nat);
        tree::lemma_huffman_occ(freq, n, k - 1);
    }
}

/// The bits with the natural lengths, in parts of 10000.
proof fn lemma_natural_bits(freq: Seq<usize>, n: nat)
    requires
        n <= freq.len(),
        tree::by_freq(freq, n).len() >= 2,
    ensures
        10000 * tree::active_sum(freq, n, natural_bits(freq, n)) <= tree::total(freq, n)
            * harmonic(tree::by_freq(freq, n).len()),
{
    let t = tree::huffman_tree(freq, n);
    let q = tree::leaves(tree::by_freq(freq, n));
    let none = Seq::<Tree>::empty();
    lemma_natural_symbol_bits(freq, n, n);
    assert forall|s: int| #[trigger] tree::occ(t, s) <= 1 && (tree::occ(t, s) > 0 ==> 0 <= s < n) by {
        tree::lemma_huffman_occ(freq, n, s);
    }
    tree::lemma_symbol_sum(t, 0, leaf_bits(freq), n);
    lemma_leaf_bits(t, 0, freq);
    assert(0 * tree::weight(t, freq) == 0) by (nonlinear_arith);
    tree::lemma_leaves_queued(freq, n);
    tree::lemma_leaves_total(freq, n);
    lemma_build_inner(q, none, freq);
    lemma_leaves_inner(tree::by_freq(freq, n), freq);
}

proof fn lemma_leaves_inner(order: Seq<int>, freq: Seq<usize>)
    ensures
        inner_all(tree::leaves(order), freq) == 0,
    decreases order.len(),
{
    if order.len() > 0 {
        let q = tree::leaves(order);
        assert(q.drop_first() =~= tree::leaves(order.drop_first()));
        lemma_leaves_inner(order.drop_first(), freq);
    }
}

/// Codes of up to `b` bits, counted by symbol.
proof fn lemma_short_count(freq: Seq<usize>, n: nat, b: nat, k: nat)
    requires
        k <= n <= freq.len(),
        b < 15,
    ensures
        kraft::count_sum(kraft::len_counts(lengths::capped_lens(freq, n, 15), k, 15), b)
            == tree::active_sum(freq, k, is_short(freq, n, b)),
    decreases k,
{
    let lens = lengths::capped_lens(freq, n, 15);
    let counts = kraft::len_counts(lens, k, 15);
    if k == 0 {
        kraft::lemma_kraft_single(counts, b, 15);
    } else {
        lemma_short_count(freq, n, b, (k - 1) as nat);
        lengths::lemma_natural_len(freq, n, k - 1);
        let before = kraft::len_counts(lens, (k - 1) as nat, 15);
        let l = lens[k - 1];
        assert(counts =~= before.update(l as int, (before[l as int] + 1) as nat));
        kraft::lemma_kraft_update(before, l, (before[l as int] + 1) as nat, b, 15);
    }
}

/// The ranks that have more than `j - 1` bits are those that do not have fewer.
proof fn lemma_natural_layer(freq: Seq<usize>, n: nat, j: nat, k: nat)
    requires
        j >= 1,
        k <= tree::by_freq(freq, n).len(),
    ensures
        layer_count(natural_by_rank(freq, n), j, k) + tree::order_sum(
            tree::by_freq(freq, n).take(k as int),
            is_short(freq, n, (j - 1) as nat),
        ) == k,
    decreases k,
{
    let order = tree::by_freq(freq, n);
    if k > 0 {
        lemma_natural_layer(freq, n, j, (k - 1) as nat);
        assert(order.take(k as int).drop_last() =~= order.take(k - 1));
    }
}

/// Handing the capped lengths out by rank takes no more bits than the tree.
proof fn lemma_capped_bits(freq: Seq<usize>, n: nat)
    requires
        n <= freq.len(),
        tree::by_freq(freq, n).len() >= 2,
    ensures
        ({
            let c = kraft::len_counts(lengths::capped_lens(freq, n, 15), n, 15);
            let k = tree::by_freq(freq, n).len();
            bits_upto(ranked(freq, n), |r: int| kraft::rank_len(c, 15, r as nat), 15, k)
                <= tree::active_sum(freq, n, natural_bits(freq, n))
        }),
{
    let c = kraft::len_counts(lengths::capped_lens(freq, n, 15), n, 15);
    let order = tree::by_freq(freq, n);
    let k = order.len();
    let f = ranked(freq, n);
    let l = natural_by_rank(freq, n);
    let sorted = |r: int| kraft::rank_len(c, 15, r as nat);
    assert(order.take(k as int) =~= order);
    lemma_ranked(freq, n);
    bits::lemma_p2_small();
    lengths::lemma_capped(freq, n, 15);
    assert forall|i: int, m: int| 0 <= i <= m < k implies #[trigger] sorted(i)
        >= #[trigger] sorted(m) by {
        kraft::lemma_rank_len_mono(c, 15, i as nat, m as nat);
    }
    assert forall|j: nat| 1 <= j <= 15 implies #[trigger] layer_count(l, j, k) == layer_count(
        sorted,
        j,
        k,
    ) by {
        lemma_natural_layer(freq, n, j, k);
        lemma_rank_layer_count(c, 15, j, k);
        tree::lemma_order_sum(freq, n, is_short(freq, n, (j - 1) as nat));
        lemma_short_count(freq, n, (j - 1) as nat, n);
        kraft::lemma_kraft_mono(c, (j - 1) as nat, 15, 0);
    }
    lemma_sorted_best(f, l, sorted, 15, k);
    lemma_natural_rank_bits(freq, n, k);
    tree::lemma_order_sum(freq, n, natural_bits(freq, n));
}

// ---- the limited lengths ----

proof fn lemma_step_bits(f: Seq<nat>, c: Seq<nat>, k: nat)
    requires
        k <= f.len(),
        c.len() == 16,
        c[15] >= 1,
        kraft::last_used(c, 14) >= 1,
    ensures
        bits_upto(
            f,
            |r: int| kraft::rank_len(kraft::spread_step(c, 15), 15, r as nat),
            15,
            k,
        ) <= bits_upto(f, |r: int| kraft::rank_len(c, 15, r as nat), 15, k) + if c[15] < k {
            f[c[15] as int] as int
        } else {
            0
        },
    decreases k,
{
    if k > 0 {
        lemma_step_bits(f, c, (k - 1) as nat);
        let r = (k - 1) as nat;
        lemma_step_rank(c, r);
        let d = kraft::spread_step(c, 15);
        kraft::lemma_rank_len_bound(c, 15, r);
        kraft::lemma_rank_len_bound(d, 15, r);
        let x = f[k - 1];
        let a = kraft::rank_len(c, 15, r);
        let b = kraft::rank_len(d, 15, r);
        if r == c[15] {
            assert(x * b <= x * a + x) by (nonlinear_arith)
                requires
                    b <= a + 1,
            ;
        } else {
            assert(x * b <= x * a) by (nonlinear_arith)
                requires
                    b <= a,
            ;
        }
    }
}

/// How many of the ranks from `a` to before `k` have at most `b` bits.
proof fn lemma_all_short(freq: Seq<usize>, n: nat, b: nat, a: nat, k: nat)
    requires
        a <= k <= tree::by_freq(freq, n).len(),
        forall|r: int|
            a <= r < k ==> lengths::natural_len(freq, n, #[trigger] tree::by_freq(freq, n)[r]) <= b,
    ensures
        tree::order_sum(tree::by_freq(freq, n).take(k as int), is_short(freq, n, b)) >= k - a,
    decreases k,
{
    let order = tree::by_freq(freq, n);
    if k > a {
        lemma_all_short(freq, n, b, a, (k - 1) as nat);
        assert(order.take(k as int).drop_last() =~= order.take(k - 1));
        assert(lengths::natural_len(freq, n, order[k - 1]) <= b);
    }
}

/// A rank before those of at most 9 bits is rare.
proof fn lemma_rare(freq: Seq<usize>, n: nat, a: nat)
    requires
        n <= freq.len(),
        tree::by_freq(freq, n).len() >= 2,
        a + tree::active_sum(freq, n, is_short(freq, n, 9)) < tree::by_freq(freq, n).len(),
    ensures
        89 * ranked(freq, n)[a as int] <= tree::total(freq, n),
{
    let order = tree::by_freq(freq, n);
    let k = order.len();
    let t = tree::huffman_tree(freq, n);
    tree::lemma_order_sum(freq, n, is_short(freq, n, 9));
    assert(order.take(k as int) =~= order);
    if forall|r: int| a <= r < k ==> lengths::natural_len(freq, n, #[trigger] order[r]) <= 9 {
        lemma_all_short(freq, n, 9, a, k);
        assert(false);
    }
    let r = choose|r: int| a <= r < k && lengths::natural_len(freq, n, #[trigger] order[r]) > 9;
    let s = order[r];
    tree::lemma_by_freq(freq, n);
    tree::lemma_huffman_steep(freq, n);
    tree::lemma_huffman_occ(freq, n, s);
    tree::lemma_steep_symbol(t, freq, 0, s);
    let d = tree::depth(t, 0, s);
    tree::lemma_fib_mono(11, d + 1);
    tree::lemma_fib_11();
    let x = freq[s] as nat;
    let g = tree::fib(d + 1);
    assert(89 * x <= g * x) by (nonlinear_arith)
        requires
            89 <= g,
    ;
    lemma_ranked(freq, n);
    assert(ranked(freq, n)[a as int] <= ranked(freq, n)[r]);
}

/// What codes of up to 9 bits cover is a multiple of 64 words.
proof fn lemma_kraft_64(c: Seq<nat>, b: nat)
    requires
        b <= 9,
    ensures
        kraft::kraft(c, b, 15) % 64 == 0,
    decreases b,
{
    if b > 0 {
        lemma_kraft_64(c, (b - 1) as nat);
        let p = bits::p2((15 - b) as nat);
        bits::lemma_p2_add((9 - b) as nat, 6);
        bits::lemma_p2_small();
        let h = bits::p2((9 - b) as nat);
        let x = c[b as int];
        assert(p == h * 64);
        assert(x * p == (x * h) * 64) by (nonlinear_arith)
            requires
                p == h * 64,
        ;
    }
}

proof fn lemma_kraft_same(c: Seq<nat>, d: Seq<nat>, b: nat)
    requires
        forall|i: int| 1 <= i <= b ==> c[i] == d[i],
    ensures
        kraft::kraft(c, b, 15) == kraft::kraft(d, b, 15),
        kraft::count_sum(c, b) == kraft::count_sum(d, b),
    decreases b,
{
    if b > 0 {
        lemma_kraft_same(c, d, (b - 1) as nat);
    }
}

proof fn lemma_kraft_skip(c: Seq<nat>, a: nat, b: nat)
    requires
        a <= b < c.len(),
        forall|i: int| a < i <= b ==> c[i] == 0,
    ensures
        kraft::kraft(c, b, 15) == kraft::kraft(c, a, 15),
        kraft::count_sum(c, b) == kraft::count_sum(c, a),
    decreases b,
{
    if a < b {
        lemma_kraft_skip(c, a, (b - 1) as nat);
        assert(c[b as int] == 0);
        assert(0 * bits::p2((15 - b) as nat) == 0) by (nonlinear_arith);
    }
}

/// While there is too much, some code has from 10 to 14 bits.
proof fn lemma_step_level(c0: Seq<nat>, c: Seq<nat>, excess: nat)
    requires
        c.len() == 16,
        kraft::kraft(c, 15, 15) == bits::p2(15) + excess,
        excess > 0,
        excess <= c[15] <= 32,
        forall|i: int| 1 <= i <= 9 ==> c[i] == c0[i],
        kraft::kraft(c0, 9, 15) < bits::p2(15),
    ensures
        10 <= kraft::last_used(c, 14) <= 14,
{
    bits::lemma_p2_small();
    kraft::lemma_last_used(c, 14);
    let b = kraft::last_used(c, 14);
    if b < 10 {
        lemma_kraft_skip(c, 9, 14);
        lemma_kraft_same(c, c0, 9);
        lemma_kraft_64(c0, 9);
        let x = c[15];
        let one = bits::p2((15 - 15) as nat);
        assert(one == 1);
        assert(x * one == x) by (nonlinear_arith)
            requires
                one == 1,
        ;
        assert(kraft::kraft(c, 15, 15) == kraft::kraft(c, 14, 15) + x * one);
        assert(false);
    }
}

proof fn lemma_spread_bits(freq: Seq<usize>, n: nat, c0: Seq<nat>, c: Seq<nat>, excess: nat)
    requires
        n <= freq.len(),
        2 <= tree::by_freq(freq, n).len() <= 32,
        c.len() == 16,
        kraft::kraft(c, 15, 15) == bits::p2(15) + excess,
        excess <= c[15],
        kraft::count_sum(c, 15) == tree::by_freq(freq, n).len(),
        forall|i: int| 1 <= i <= 9 ==> c[i] == c0[i],
        kraft::kraft(c0, 9, 15) < bits::p2(15),
        kraft::count_sum(c0, 9) == tree::active_sum(freq, n, is_short(freq, n, 9)),
    ensures
        ({
            let k = tree::by_freq(freq, n).len();
            let d = kraft::spread(c, 15, excess);
            89 * bits_upto(ranked(freq, n), |r: int| kraft::rank_len(d, 15, r as nat), 15, k) <= 89
                * bits_upto(ranked(freq, n), |r: int| kraft::rank_len(c, 15, r as nat), 15, k)
                + excess * tree::total(freq, n)
        }),
    decreases excess,
{
    let k = tree::by_freq(freq, n).len();
    let total = tree::total(freq, n);
    let f = ranked(freq, n);
    if excess == 0 {
        assert(0 * total == 0) by (nonlinear_arith);
    } else {
        let d = kraft::spread_step(c, 15);
        kraft::lemma_count_in(c, 15, 15);
        lemma_step_level(c0, c, excess);
        kraft::lemma_last_used(c, 14);
        kraft::lemma_spread_step(c, 15);
        lemma_step_bits(f, c, k);
        let b = kraft::last_used(c, 14);
        // The rank that gets longer lies before those of at most 9 bits.
        lemma_kraft_same(c, c0, 9);
        kraft::lemma_kraft_mono(c, 9, (b - 1) as nat, 15);
        kraft::lemma_kraft_mono(c, b, 14, 15);
        assert(kraft::count_sum(c, b) == kraft::count_sum(c, (b - 1) as nat) + c[b as int]);
        assert(kraft::count_sum(c, 15) == kraft::count_sum(c, 14) + c[15]);
        lemma_rare(freq, n, c[15]);
        assert forall|i: int| 1 <= i <= 9 implies d[i] == c0[i] by {
            assert(c[i] == c0[i]);
        }
        lemma_spread_bits(freq, n, c0, d, (excess - 1) as nat);
        assert(excess * total == (excess - 1) * total + total) by (nonlinear_arith);
    }
}

spec fn code_bits_of(freq: Seq<usize>, n: nat) -> spec_fn(int) -> nat {
    |s: int| freq[s] as nat * lengths::code_len(freq, n, 15, s)
}

proof fn lemma_limited_rank_bits(freq: Seq<usize>, n: nat, k: nat)
    requires
        n <= freq.len(),
        !lengths::fits(freq, n, 15),
        k <= tree::by_freq(freq, n).len(),
    ensures
        tree::order_sum(tree::by_freq(freq, n).take(k as int), code_bits_of(freq, n)) == bits_upto(
            ranked(freq, n),
            |r: int| kraft::rank_len(lengths::limited_counts(freq, n, 15), 15, r as nat),
            15,
            k,
        ),
    decreases k,
{
    let order = tree::by_freq(freq, n);
    if k > 0 {
        lemma_limited_rank_bits(freq, n, (k - 1) as nat);
        assert(order.take(k as int).drop_last() =~= order.take(k - 1));
        tree::lemma_by_freq(freq, n);
        lengths::lemma_rank_of(order, k - 1);
        assert(freq[order[k - 1]] > 0);
        kraft::lemma_rank_len_bound(
            lengths::limited_counts(freq, n, 15),
            15,
            (k - 1) as nat,
        );
    }
}

proof fn lemma_same_sum(
    freq: Seq<usize>,
    k: nat,
    f: spec_fn(int) -> nat,
    g: spec_fn(int) -> nat,
)
    requires
        forall|s: int| 0 <= s < k ==> #[trigger] f(s) == g(s),
    ensures
        tree::active_sum(freq, k, f) == tree::active_sum(freq, k, g),
    decreases k,
{
    if k > 0 {
        lemma_same_sum(freq, (k - 1) as nat, f, g);
        assert(f(k - 1) == g(k - 1));
    }
}

/// Symbols of at most 32 kinds take at most 7 bits each.
proof fn lemma_code_bits(freq: Seq<usize>, n: nat)
    requires
        n <= freq.len(),
        n <= 32768,
        2 <= tree::by_freq(freq, n).len() <= 32,
    ensures
        tree::active_sum(freq, n, code_bits_of(freq, n)) <= 7 * tree::total(freq, n),
{
    let order = tree::by_freq(freq, n);
    let k = order.len();
    let total = tree::total(freq, n);
    let natural = tree::active_sum(freq, n, natural_bits(freq, n));
    bits::lemma_p2_small();
    lemma_natural_bits(freq, n);
    lemma_harmonic_mono(k, 32);
    lemma_harmonic_32();
    let h = harmonic(k);
    assert(total * h <= total * 61250) by (nonlinear_arith)
        requires
            h <= 61250,
    ;
    if lengths::fits(freq, n, 15) {
        assert forall|s: int| 0 <= s < n implies #[trigger] code_bits_of(freq, n)(s)
            == natural_bits(freq, n)(s) by {}
        lemma_same_sum(freq, n, code_bits_of(freq, n), natural_bits(freq, n));
    } else {
        let c = kraft::len_counts(lengths::capped_lens(freq, n, 15), n, 15);
        let excess = (kraft::kraft(c, 15, 15) - bits::p2(15)) as nat;
        lengths::lemma_capped(freq, n, 15);
        lemma_capped_bits(freq, n);
        lemma_short_count(freq, n, 9, n);
        kraft::lemma_kraft_mono(c, 9, 14, 15);
        let x = c[15];
        let one = bits::p2((15 - 15) as nat);
        assert(one == 1);
        assert(x * one == x) by (nonlinear_arith)
            requires
                one == 1,
        ;
        assert(kraft::kraft(c, 15, 15) == kraft::kraft(c, 14, 15) + x * one);
        lemma_spread_bits(freq, n, c, c, excess);
        kraft::lemma_count_in(c, 15, 15);
        assert(excess * total <= 32 * total) by (nonlinear_arith)
            requires
                excess <= 32,
        ;
        lemma_limited_rank_bits(freq, n, k);
        assert(order.take(k as int) =~= order);
        tree::lemma_order_sum(freq, n, code_bits_of(freq, n));
    }
}

// ---- the size of coded symbols below 32 ----

spec fn weighted(freq: Seq<usize>, lens: Seq<u8>, k: nat) -> nat
    decreases k,
{
    if k == 0 {
        0
    } else {
        weighted(freq, lens, (k - 1) as nat) + freq[k - 1] as nat * lens[k - 1] as nat
    }
}

proof fn lemma_weighted_update(freq: Seq<usize>, lens: Seq<u8>, x: int, v: usize, k: nat)
    requires
        0 <= x < freq.len(),
        k <= freq.len(),
        v == freq[x] + 1,
    ensures
        weighted(freq.update(x, v), lens, k) == weighted(freq, lens, k) + if x < k {
            lens[x] as nat
        } else {
            0nat
        },
    decreases k,
{
    if k > 0 {
        lemma_weighted_update(freq, lens, x, v, (k - 1) as nat);
        if x == k - 1 {
            let a = freq[x] as nat;
            let l = lens[x] as nat;
            assert((a + 1) * l == a * l + l) by (nonlinear_arith);
        }
    }
}

proof fn lemma_weighted_zero(freq: Seq<usize>, lens: Seq<u8>, k: nat)
    requires
        k <= freq.len(),
        forall|s: int| 0 <= s < freq.len() ==> freq[s] == 0,
    ensures
        weighted(freq, lens, k) == 0,
    decreases k,
{
    if k > 0 {
        lemma_weighted_zero(freq, lens, (k - 1) as nat);
        assert(freq[k - 1] == 0);
        assert(0 * lens[k - 1] as nat == 0) by (nonlinear_arith);
    }
}

proof fn lemma_stream_len(lens: Seq<u8>, max_bits: nat, data: Seq<int>, n: nat)
    requires
        data.len() <= usize::MAX,
        forall|i: int| 0 <= i < data.len() ==> 0 <= #[trigger] data[i] < n,
    ensures
        huffman::stream_bits(lens, max_bits, data).len() == weighted(
            huffman::frequencies(data, n),
            lens,
            n,
        ),
    decreases data.len(),
{
    if data.len() == 0 {
        lemma_weighted_zero(huffman::frequencies(data, n), lens, n);
    } else {
        let q = data.drop_last();
        let x = data.last();
        assert(data[data.len() - 1] == x);
        assert forall|i: int| 0 <= i < q.len() implies 0 <= #[trigger] q[i] < n by {
            assert(q[i] == data[i]);
        }
        lemma_stream_len(lens, max_bits, q, n);
        assert(data =~= q.push(x));
        huffman::lemma_frequencies_push(q, x, n);
        lemma_weighted_update(
            huffman::frequencies(q, n),
            lens,
            x,
            (huffman::frequencies(q, n)[x] + 1) as usize,
            n,
        );
    }
}

proof fn lemma_weighted_active(freq: Seq<usize>, n: nat, lens: Seq<u8>, k: nat)
    requires
        k <= n,
        forall|s: int| 0 <= s < n ==> #[trigger] lens[s] == lengths::code_len(freq, n, 15, s),
    ensures
        weighted(freq, lens, k) == tree::active_sum(freq, k, code_bits_of(freq, n)),
    decreases k,
{
    if k > 0 {
        lemma_weighted_active(freq, n, lens, (k - 1) as nat);
        assert(lens[k - 1] == lengths::code_len(freq, n, 15, k - 1));
        if freq[k - 1] == 0 {
            assert(0 * lens[k - 1] as nat == 0) by (nonlinear_arith);
        }
    }
}

proof fn lemma_few_kinds(freq: Seq<usize>, k: nat)
    requires
        k <= freq.len(),
        forall|s: int| 32 <= s < freq.len() ==> freq[s] == 0,
    ensures
        tree::active_sum(freq, k, |s: int| 1nat) <= if k <= 32 {
            k
        } else {
            32
        },
    decreases k,
{
    if k > 0 {
        lemma_few_kinds(freq, (k - 1) as nat);
    }
}

/// A run of up to 276 zeros takes at most 24 bits.
proof fn lemma_zero_bits_short(r: nat)
    requires
        r <= 276,
    ensures
        rle::zero_bits(r).len() <= 24,
{
    reveal_with_fuel(rle::zero_bits, 4);
}

/// Lengths that are 0 from `k` on.
proof fn lemma_rle_tail(lens: Seq<u8>, i: int, prev: Option<u8>, k: int)
    requires
        0 <= i <= lens.len(),
        0 <= k <= lens.len() <= 276,
        forall|j: int| k <= j < lens.len() ==> #[trigger] lens[j] == 0,
    ensures
        rle::rle_bits(lens, i, prev).len() <= 24 + if i <= k {
            5 * (k - i)
        } else {
            0
        },
    decreases lens.len() - i,
{
    if i < lens.len() {
        let v = lens[i];
        let r = rle::run(lens, i, v);
        rle::lemma_run(lens, i, v);
        if v == 0 {
            if i + r < lens.len() {
                assert(lens[i + r] != 0);
                assert(i + r < k);
                rle::lemma_zero_bits_len(r);
                lemma_rle_tail(lens, i + r, Some(0u8), k);
            } else {
                lemma_zero_bits_short(r);
                assert(rle::rle_bits(lens, i + r, Some(0u8)).len() == 0);
            }
        } else {
            assert(i < k);
            if prev == Some(v) && r >= 3 {
                let c = if r <= 6 {
                    r
                } else {
                    6
                };
                assert(lens[i + c - 1] != 0);
                assert(i + c <= k);
                lemma_rle_tail(lens, i + c, prev, k);
            } else {
                lemma_rle_tail(lens, i + 1, Some(v), k);
            }
        }
    }
}

/// Coded symbols below 32 are shorter than the symbols.
pub proof fn lemma_coded_shorter(data: Seq<u8>)
    requires
        data.len() <= usize::MAX,
        forall|i: int| 0 <= i < data.len() ==> #[trigger] data[i] < 32,
        huffman::huff_encoded(huffman::ints8(data), 256, false) is Some,
    ensures
        huffman::huff_encoded(huffman::ints8(data), 256, false)->0.len() < data.len(),
{
    let ints = huffman::ints8(data);
    let freq = huffman::frequencies(ints, 256);
    let lens = huffman::lens_for(ints, 256);
    let max_bits = canon::max_len(lens);
    assert forall|i: int| 0 <= i < ints.len() implies 0 <= #[trigger] ints[i] < 32 by {
        assert(data[i] < 32);
    }
    bits::lemma_p2_small();
    lengths::lemma_code_lens(freq, 256, 15);
    lengths::lemma_kinds(freq, 256);
    assert forall|s: int| 32 <= s < 256 implies freq[s] == 0 && #[trigger] lens[s] == 0 by {
        huffman::lemma_occurrences(ints, s);
        assert(lengths::code_len(freq, 256, 15, s) > 0 <==> freq[s] > 0);
        if ints.contains(s) {
            let i = choose|i: int| 0 <= i < ints.len() && ints[i] == s;
            assert(0 <= ints[i] < 32);
        }
    }
    assert forall|s: int| 0 <= s < 256 implies #[trigger] lens[s] == lengths::code_len(
        freq,
        256,
        15,
        s,
    ) by {
        assert(lengths::code_len(freq, 256, 15, s) <= 15);
    }
    assert forall|s: int| 32 <= s < freq.len() implies freq[s] == 0 by {
        assert(lens[s] == 0);
    }
    lemma_few_kinds(freq, 256);
    lemma_code_bits(freq, 256);
    huffman::lemma_total(ints, 256);
    lemma_stream_len(lens, max_bits, ints, 256);
    lemma_weighted_active(freq, 256, lens, 256);
    lemma_rle_tail(lens, 0, None, 32);
}

/// No symbol that occurs is rarer than one in 1597.
pub open spec fn none_rare(data: Seq<int>) -> bool {
    forall|i: int|
        0 <= i < data.len() ==> data.len() < 1597 * huffman::occurrences(data, #[trigger] data[i])
}

proof fn lemma_fits(data: Seq<int>, n: nat)
    requires
        n <= 32768,
        data.len() <= usize::MAX,
        forall|i: int| 0 <= i < data.len() ==> 0 <= #[trigger] data[i] < n,
        huffman::kinds(data, n) >= 2,
        none_rare(data),
    ensures
        lengths::fits(huffman::frequencies(data, n), n, 15),
        forall|s: int|
            0 <= s < n && huffman::occurrences(data, s) > 0 ==> tree::fib(
                #[trigger] lengths::natural_len(huffman::frequencies(data, n), n, s) + 1,
            ) * huffman::occurrences(data, s) <= data.len(),
{
    let freq = huffman::frequencies(data, n);
    let t = tree::huffman_tree(freq, n);
    lengths::lemma_kinds(freq, n);
    tree::lemma_huffman_steep(freq, n);
    huffman::lemma_total(data, n);
    tree::lemma_fib_11();
    assert(tree::fib(17) == 1597) by {
        reveal_with_fuel(tree::fib, 7);
    }
    assert forall|s: int| 0 <= s < n implies #[trigger] lengths::natural_len(freq, n, s) <= 15 && (
    huffman::occurrences(data, s) > 0 ==> tree::fib(lengths::natural_len(freq, n, s) + 1)
        * huffman::occurrences(data, s) <= data.len()) by {
        huffman::lemma_occurrences(data, s);
        if freq[s] > 0 {
            let occ = huffman::occurrences(data, s);
            tree::lemma_huffman_occ(freq, n, s);
            tree::lemma_steep_symbol(t, freq, 0, s);
            let k = lengths::natural_len(freq, n, s);
            assert(k == tree::depth(t, 0, s));
            assert(tree::weight(t, freq) >= tree::fib(k + 1) * freq[s]);
            let i = choose|i: int| 0 <= i < data.len() && data[i] == s;
            assert(data.len() < 1597 * huffman::occurrences(data, data[i]));
            if k >= 16 {
                tree::lemma_fib_mono(17, k + 1);
                let f = tree::fib(k + 1);
                assert(f * occ >= 1597 * occ) by (nonlinear_arith)
                    requires
                        f >= 1597,
                ;
            }
        }
    }
}

/// Where no symbol is too rare, symbols are coded well: one that makes up more than one in
/// `fib(b + 2)` of all has a code of `b` bits or less, and all codes together take no more bits
/// than `2/2 + 2/3 + 2/4 + ...` of the number of symbols, with one part for each kind but the first.
pub proof fn lemma_coded_well(data: Seq<int>, n: nat)
    requires
        n <= 32768,
        data.len() <= usize::MAX,
        forall|i: int| 0 <= i < data.len() ==> 0 <= #[trigger] data[i] < n,
        huffman::kinds(data, n) >= 2,
        none_rare(data),
    ensures
        forall|i: int, b: nat|
            0 <= i < data.len() && data.len() < #[trigger] tree::fib(b + 2)
                * huffman::occurrences(data, #[trigger] data[i]) ==> huffman::lens_for(
                data,
                n,
            )[data[i]] <= b,
        ({
            let lens = huffman::lens_for(data, n);
            10000 * huffman::stream_bits(lens, canon::max_len(lens), data).len() <= data.len()
                * harmonic(huffman::kinds(data, n))
        }),
{
    let freq = huffman::frequencies(data, n);
    let lens = huffman::lens_for(data, n);
    let max_bits = canon::max_len(lens);
    bits::lemma_p2_small();
    lengths::lemma_code_lens(freq, n, 15);
    lengths::lemma_kinds(freq, n);
    lemma_fits(data, n);
    assert forall|s: int| 0 <= s < n implies #[trigger] lens[s] == lengths::code_len(
        freq,
        n,
        15,
        s,
    ) by {
        assert(lengths::code_len(freq, n, 15, s) <= 15);
    }
    assert forall|i: int, b: nat|
        0 <= i < data.len() && data.len() < #[trigger] tree::fib(b + 2) * huffman::occurrences(
            data,
            #[trigger] data[i],
        ) implies lens[data[i]] <= b by {
        let s = data[i];
        huffman::lemma_occurrences(data, s);
        let k = lengths::natural_len(freq, n, s);
        let occ = huffman::occurrences(data, s);
        if k > b {
            tree::lemma_fib_mono(b + 2, k + 1);
            let f = tree::fib(b + 2);
            let g = tree::fib(k + 1);
            assert(f * occ <= g * occ) by (nonlinear_arith)
                requires
                    f <= g,
            ;
        }
    }
    assert forall|s: int| 0 <= s < n implies #[trigger] code_bits_of(freq, n)(s) == natural_bits(
        freq,
        n,
    )(s) by {}
    lemma_same_sum(freq, n, code_bits_of(freq, n), natural_bits(freq, n));
    lemma_natural_bits(freq, n);
    huffman::lemma_total(data, n);
    lemma_stream_len(lens, max_bits, data, n);
    lemma_weighted_active(freq, n, lens, n);
}

} // verus!
