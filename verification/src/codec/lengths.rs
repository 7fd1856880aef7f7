//! Code lengths by frequency.

use crate::codec::bits;
use crate::codec::kraft;
use crate::codec::tree;
use crate::codec::tree::Tree;
use vstd::prelude::*;

verus! {

/// The depth of a symbol in the Huffman tree; 1 for a symbol that is alone, 0
/// for one that does not occur.
pub open spec fn natural_len(freq: Seq<usize>, n: nat, s: int) -> nat {
    if !(0 <= s < n && freq[s] > 0) {
        0
    } else if tree::by_freq(freq, n).len() == 1 {
        1
    } else {
        tree::depth(tree::huffman_tree(freq, n), 0, s)
    }
}

/// No symbol lies deeper than `m`.
pub open spec fn fits(freq: Seq<usize>, n: nat, m: nat) -> bool {
    forall|s: int| 0 <= s < n ==> #[trigger] natural_len(freq, n, s) <= m
}

pub open spec fn cap(len: nat, m: nat) -> nat {
    if len <= m {
        len
    } else {
        m
    }
}

/// The natural lengths, those over `m` cut down to `m`.
pub open spec fn capped_lens(freq: Seq<usize>, n: nat, m: nat) -> Seq<nat> {
    Seq::new(n, |s: int| cap(natural_len(freq, n, s), m))
}

/// How many codes there are of each length once they all fit in `m` bits.
pub open spec fn limited_counts(freq: Seq<usize>, n: nat, m: nat) -> Seq<nat> {
    let counts = kraft::len_counts(capped_lens(freq, n, m), n, m);
    kraft::spread(counts, m, (kraft::kraft(counts, m, m) - bits::p2(m)) as nat)
}

/// The code length of a symbol: its depth in the Huffman tree, or, where that
/// tree is too deep, the limited lengths handed out by rising frequency.
pub open spec fn code_len(freq: Seq<usize>, n: nat, m: nat, s: int) -> nat {
    if fits(freq, n, m) {
        natural_len(freq, n, s)
    } else if 0 <= s < n && freq[s] > 0 {
        kraft::rank_len(
            limited_counts(freq, n, m),
            m,
            tree::by_freq(freq, n).index_of(s) as nat,
        )
    } else {
        0
    }
}

pub open spec fn code_lens(freq: Seq<usize>, n: nat, m: nat) -> Seq<nat> {
    Seq::new(n, |s: int| code_len(freq, n, m, s))
}

// ---- the Kraft sum of a tree ----

/// What a leaf at depth `d` covers of the words of `m` bits, if it is cut there.
spec fn leaf_share(m: nat) -> spec_fn(int, nat) -> nat {
    |s: int, d: nat| bits::p2((m - cap(d, m)) as nat)
}

spec fn leaf_deep(m: nat) -> spec_fn(int, nat) -> nat {
    |s: int, d: nat|
        if d > m {
            1nat
        } else {
            0nat
        }
}

/// A tree covers its place exactly, but for leaves below depth `m`: those are
/// too many, by less than there are of them.
proof fn lemma_tree_share(t: Tree, d: nat, m: nat)
    ensures
        ({
            let share = tree::leaf_sum(t, d, leaf_share(m));
            let deep = tree::leaf_sum(t, d, leaf_deep(m));
            &&& d <= m ==> bits::p2((m - d) as nat) <= share <= bits::p2((m - d) as nat) + deep
            &&& d <= m && deep > 0 ==> share < bits::p2((m - d) as nat) + deep
            &&& d > m ==> share == deep && deep >= 1
        }),
    decreases t,
{
    match t {
        Tree::Leaf(x) => {
            assert(bits::p2(0) == 1);
        },
        Tree::Node(l, r) => {
            lemma_tree_share(*l, d + 1, m);
            lemma_tree_share(*r, d + 1, m);
            assert(bits::p2(0) == 1);
            if d < m {
                assert(bits::p2((m - d) as nat) == 2 * bits::p2((m - (d + 1)) as nat));
            }
        },
    }
}

/// Number of symbols among the first `k` that lie deeper than `m`.
spec fn deep_count(freq: Seq<usize>, n: nat, m: nat, k: nat) -> nat
    decreases k,
{
    if k == 0 {
        0
    } else {
        deep_count(freq, n, m, (k - 1) as nat) + if natural_len(freq, n, k - 1) > m {
            1nat
        } else {
            0nat
        }
    }
}

proof fn lemma_capped_sums(freq: Seq<usize>, n: nat, m: nat, k: nat)
    requires
        k <= n <= freq.len(),
        tree::by_freq(freq, n).len() >= 2,
        m >= 1,
    ensures
        kraft::kraft_lens(capped_lens(freq, n, m), k, m) == tree::symbol_sum(
            tree::huffman_tree(freq, n),
            0,
            leaf_share(m),
            k,
        ),
        deep_count(freq, n, m, k) == tree::symbol_sum(
            tree::huffman_tree(freq, n),
            0,
            leaf_deep(m),
            k,
        ),
        deep_count(freq, n, m, k) <= kraft::len_count(capped_lens(freq, n, m), k, m),
    decreases k,
{
    if k > 0 {
        lemma_capped_sums(freq, n, m, (k - 1) as nat);
        let t = tree::huffman_tree(freq, n);
        let s = k - 1;
        tree::lemma_huffman_occ(freq, n, s);
        if freq[s] > 0 {
            lemma_huffman_node(freq, n);
            tree::lemma_depth(t, 0, s);
            assert(capped_lens(freq, n, m)[s] == cap(tree::depth(t, 0, s), m));
        } else {
            assert(capped_lens(freq, n, m)[s] == 0);
        }
    }
}

proof fn lemma_build_node(q1: Seq<Tree>, q2: Seq<Tree>, freq: Seq<usize>)
    requires
        q1.len() + q2.len() >= 1,
        forall|i: int| 0 <= i < q2.len() ==> #[trigger] q2[i] is Node,
        q1.len() + q2.len() == 1 ==> q2.len() == 1,
    ensures
        tree::build(q1, q2, freq) is Node,
    decreases q1.len() + q2.len(),
{
    if q1.len() + q2.len() > 1 {
        let (s1, s2) = tree::join(q1, q2, freq);
        tree::lemma_join_keeps(q1, q2, freq, 0);
        lemma_build_node(s1, s2, freq);
    } else {
        assert(q2[0] is Node);
    }
}

proof fn lemma_huffman_node(freq: Seq<usize>, n: nat)
    requires
        tree::by_freq(freq, n).len() >= 2,
    ensures
        tree::huffman_tree(freq, n) is Node,
{
    lemma_build_node(tree::leaves(tree::by_freq(freq, n)), Seq::empty(), freq);
}

/// Cut at `m`, the lengths cover at least all words, and too much by less than
/// the number of codes that were cut.
pub proof fn lemma_capped(freq: Seq<usize>, n: nat, m: nat)
    requires
        n <= freq.len(),
        tree::by_freq(freq, n).len() >= 2,
        m >= 1,
    ensures
        ({
            let counts = kraft::len_counts(capped_lens(freq, n, m), n, m);
            let share = kraft::kraft(counts, m, m);
            &&& share >= bits::p2(m)
            &&& share - bits::p2(m) <= counts[m as int]
            &&& fits(freq, n, m) ==> share == bits::p2(m)
            &&& !fits(freq, n, m) ==> share - bits::p2(m) < counts[m as int]
            &&& kraft::count_sum(counts, m) == tree::by_freq(freq, n).len()
        }),
{
    let t = tree::huffman_tree(freq, n);
    let lens = capped_lens(freq, n, m);
    let counts = kraft::len_counts(lens, n, m);
    lemma_capped_sums(freq, n, m, n);
    kraft::lemma_kraft_exchange(lens, n, m);
    assert forall|s: int| #[trigger] tree::occ(t, s) <= 1 && (tree::occ(t, s) > 0 ==> 0 <= s < n) by {
        tree::lemma_huffman_occ(freq, n, s);
    }
    tree::lemma_symbol_sum(t, 0, leaf_share(m), n);
    tree::lemma_symbol_sum(t, 0, leaf_deep(m), n);
    lemma_tree_share(t, 0, m);
    if fits(freq, n, m) {
        lemma_no_deep(freq, n, m, n);
    } else {
        let s = choose|s: int| 0 <= s < n && natural_len(freq, n, s) > m;
        lemma_some_deep(freq, n, m, n, s);
    }
    assert forall|s: int| 0 <= s < n implies #[trigger] lens[s] <= m && (lens[s] > 0 <==> freq[s]
        > 0) by {
        lemma_natural_len(freq, n, s);
    }
    lemma_active_count(freq, n, m, lens, n);
    tree::lemma_order_sum(freq, n, |s: int| 1nat);
    lemma_order_len(tree::by_freq(freq, n));
}

/// A symbol has a code if and only if it occurs.
pub proof fn lemma_natural_len(freq: Seq<usize>, n: nat, s: int)
    requires
        n <= freq.len(),
        0 <= s < n,
    ensures
        natural_len(freq, n, s) > 0 <==> freq[s] > 0,
{
    if freq[s] > 0 {
        tree::lemma_by_freq(freq, n);
        assert(tree::by_freq(freq, n).contains(s));
        if tree::by_freq(freq, n).len() != 1 {
            lemma_huffman_node(freq, n);
            tree::lemma_huffman_occ(freq, n, s);
            tree::lemma_depth(tree::huffman_tree(freq, n), 0, s);
        }
    }
}

proof fn lemma_no_deep(freq: Seq<usize>, n: nat, m: nat, k: nat)
    requires
        k <= n,
        fits(freq, n, m),
    ensures
        deep_count(freq, n, m, k) == 0,
    decreases k,
{
    if k > 0 {
        lemma_no_deep(freq, n, m, (k - 1) as nat);
        assert(natural_len(freq, n, k - 1) <= m);
    }
}

proof fn lemma_some_deep(freq: Seq<usize>, n: nat, m: nat, k: nat, s: int)
    requires
        0 <= s < k,
        natural_len(freq, n, s) > m,
    ensures
        deep_count(freq, n, m, k) > 0,
    decreases k,
{
    if s < k - 1 {
        lemma_some_deep(freq, n, m, (k - 1) as nat, s);
    }
}

proof fn lemma_order_len(order: Seq<int>)
    ensures
        tree::order_sum(order, |s: int| 1nat) == order.len(),
    decreases order.len(),
{
    if order.len() > 0 {
        lemma_order_len(order.drop_last());
    }
}

/// As many symbols are ranked as occur.
pub proof fn lemma_kinds(freq: Seq<usize>, n: nat)
    ensures
        tree::by_freq(freq, n).len() == tree::active_sum(freq, n, |s: int| 1nat),
{
    tree::lemma_order_sum(freq, n, |s: int| 1nat);
    lemma_order_len(tree::by_freq(freq, n));
}

/// The codes counted by length are the symbols that occur.
proof fn lemma_active_count(freq: Seq<usize>, n: nat, m: nat, lens: Seq<nat>, k: nat)
    requires
        k <= n <= freq.len(),
        lens.len() == n,
        forall|s: int| 0 <= s < n ==> #[trigger] lens[s] <= m && (lens[s] > 0 <==> freq[s] > 0),
    ensures
        kraft::count_sum(kraft::len_counts(lens, k, m), m) == tree::active_sum(
            freq,
            k,
            |s: int| 1nat,
        ),
    decreases k,
{
    let counts = kraft::len_counts(lens, k, m);
    if k == 0 {
        kraft::lemma_kraft_single(counts, m, m);
    } else {
        lemma_active_count(freq, n, m, lens, (k - 1) as nat);
        let before = kraft::len_counts(lens, (k - 1) as nat, m);
        let l = lens[k - 1];
        assert(counts =~= before.update(l as int, (before[l as int] + 1) as nat));
        kraft::lemma_kraft_update(before, l, (before[l as int] + 1) as nat, m, m);
    }
}

/// Where the natural lengths do not fit, the limited ones cover all words.
pub proof fn lemma_limited(freq: Seq<usize>, n: nat, m: nat)
    requires
        n <= freq.len(),
        n <= bits::p2(m),
        m >= 1,
        !fits(freq, n, m),
    ensures
        tree::by_freq(freq, n).len() >= 2,
        limited_counts(freq, n, m).len() == m + 1,
        kraft::kraft(limited_counts(freq, n, m), m, m) == bits::p2(m),
        kraft::count_sum(limited_counts(freq, n, m), m) == tree::by_freq(freq, n).len(),
{
    tree::lemma_by_freq(freq, n);
    let order = tree::by_freq(freq, n);
    let s = choose|s: int| 0 <= s < n && natural_len(freq, n, s) > m;
    assert(freq[s] > 0);
    assert(order.contains(s));
    lemma_capped(freq, n, m);
    let counts = kraft::len_counts(capped_lens(freq, n, m), n, m);
    kraft::lemma_spread(counts, m, (kraft::kraft(counts, m, m) - bits::p2(m)) as nat);
}

proof fn lemma_rank_sum(order: Seq<int>, counts: Seq<nat>, m: nat, k: nat, f: spec_fn(int) -> nat)
    requires
        k <= order.len(),
        forall|i: int|
            0 <= i < order.len() ==> #[trigger] f(order[i]) == kraft::code_share(
                kraft::rank_len(counts, m, i as nat),
                m,
            ),
    ensures
        tree::order_sum(order.take(k as int), f) == kraft::rank_kraft(counts, m, m, k),
    decreases k,
{
    if k > 0 {
        lemma_rank_sum(order, counts, m, (k - 1) as nat, f);
        assert(order.take(k as int).drop_last() =~= order.take(k - 1));
        assert(f(order[k - 1]) == kraft::code_share(
            kraft::rank_len(counts, m, (k - 1) as nat),
            m,
        ));
    }
}

proof fn lemma_active_kraft(
    freq: Seq<usize>,
    n: nat,
    m: nat,
    lens: Seq<nat>,
    k: nat,
    f: spec_fn(int) -> nat,
)
    requires
        k <= n <= freq.len(),
        lens.len() == n,
        forall|s: int| 0 <= s < n ==> (#[trigger] lens[s] > 0 <==> freq[s] > 0),
        forall|s: int| 0 <= s < n ==> #[trigger] f(s) == kraft::code_share(lens[s], m),
    ensures
        tree::active_sum(freq, k, f) == kraft::kraft_lens(lens, k, m),
    decreases k,
{
    if k > 0 {
        lemma_active_kraft(freq, n, m, lens, (k - 1) as nat, f);
        assert(lens[k - 1] > 0 <==> freq[k - 1] > 0);
        assert(f(k - 1) == kraft::code_share(lens[k - 1], m));
    }
}

/// The rank of the `i`-th symbol is `i`.
pub proof fn lemma_rank_of(order: Seq<int>, i: int)
    requires
        0 <= i < order.len(),
        forall|i: int, j: int|
            0 <= i < j < order.len() ==> #[trigger] order[i] != #[trigger] order[j],
    ensures
        order.index_of(order[i]) == i,
{
    let j = order.index_of(order[i]);
    assert(order.contains(order[i]));
    assert(order[j] == order[i] && 0 <= j < order.len());
}

/// The code lengths are what a prefix code needs: a symbol has a code if and
/// only if it occurs, no code is longer than `m` bits, and with two symbols or
/// more the codes cover all words of `m` bits, neither more nor less.
pub proof fn lemma_code_lens(freq: Seq<usize>, n: nat, m: nat)
    requires
        n <= freq.len(),
        n <= bits::p2(m),
        m >= 1,
    ensures
        forall|s: int|
            0 <= s < n ==> {
                &&& #[trigger] code_len(freq, n, m, s) <= m
                &&& code_len(freq, n, m, s) > 0 <==> freq[s] > 0
            },
        tree::by_freq(freq, n).len() >= 2 ==> kraft::kraft(
            kraft::len_counts(code_lens(freq, n, m), n, m),
            m,
            m,
        ) == bits::p2(m),
{
    let order = tree::by_freq(freq, n);
    let lens = code_lens(freq, n, m);
    tree::lemma_by_freq(freq, n);
    if fits(freq, n, m) {
        assert forall|s: int| 0 <= s < n implies {
            &&& #[trigger] code_len(freq, n, m, s) <= m
            &&& code_len(freq, n, m, s) > 0 <==> freq[s] > 0
        } by {
            lemma_natural_len(freq, n, s);
            assert(natural_len(freq, n, s) <= m);
        }
        if order.len() >= 2 {
            lemma_capped(freq, n, m);
            assert forall|s: int| 0 <= s < n implies lens[s] == capped_lens(freq, n, m)[s] by {
                assert(natural_len(freq, n, s) <= m);
            }
            assert(lens =~= capped_lens(freq, n, m));
        }
    } else {
        lemma_limited(freq, n, m);
        let counts = limited_counts(freq, n, m);
        assert forall|i: int| 0 <= i < order.len() implies #[trigger] code_len(
            freq,
            n,
            m,
            order[i],
        ) == kraft::rank_len(counts, m, i as nat) by {
            lemma_rank_of(order, i);
        }
        assert forall|s: int| 0 <= s < n implies {
            &&& #[trigger] code_len(freq, n, m, s) <= m
            &&& code_len(freq, n, m, s) > 0 <==> freq[s] > 0
        } by {
            if freq[s] > 0 {
                assert(order.contains(s));
                let i = choose|i: int| 0 <= i < order.len() && order[i] == s;
                assert(code_len(freq, n, m, order[i]) == kraft::rank_len(counts, m, i as nat));
                kraft::lemma_rank_len(counts, m, i as nat);
            }
        }
        let f = |s: int| kraft::code_share(code_len(freq, n, m, s), m);
        lemma_rank_sum(order, counts, m, order.len(), f);
        assert(order.take(order.len() as int) =~= order);
        kraft::lemma_rank_kraft(counts, m, m);
        tree::lemma_order_sum(freq, n, f);
        lemma_active_kraft(freq, n, m, lens, n, f);
        kraft::lemma_kraft_exchange(lens, n, m);
    }
}

// ---- the computation ----

pub open spec fn ints(v: Seq<usize>) -> Seq<int> {
    Seq::new(v.len(), |i: int| v[i] as int)
}

pub open spec fn nats(v: Seq<usize>) -> Seq<nat> {
    Seq::new(v.len(), |i: int| v[i] as nat)
}

/// Sorts the occurring symbols by rising frequency, then by number.
fn sort_by_freq(freq: &[usize], n: usize) -> (order: Vec<usize>)
    requires
        n <= freq@.len(),
    ensures
        ints(order@) == tree::by_freq(freq@, n as nat),
{
    let mut order: Vec<usize> = Vec::new();
    let mut s: usize = 0;
    while s < n
        invariant
            s <= n <= freq@.len(),
            ints(order@) == tree::by_freq(freq@, s as nat),
        decreases n - s,
    {
        if freq[s] > 0 {
            proof {
                tree::lemma_by_freq(freq@, s as nat);
                assert forall|i: int| 0 <= i < order@.len() implies #[trigger] order@[i] < s by {
                    assert(ints(order@)[i] < s);
                }
            }
            let mut k: usize = order.len();
            while k > 0 && freq[order[k - 1]] > freq[s]
                invariant
                    s < n <= freq@.len(),
                    k <= order@.len(),
                    forall|i: int| 0 <= i < order@.len() ==> #[trigger] order@[i] < s,
                    forall|i: int|
                        k <= i < order@.len() ==> freq@[#[trigger] order@[i] as int] > freq@[s as int],
                    ints(order@) == tree::by_freq(freq@, s as nat),
                    tree::ordered(ints(order@), freq@, s as int),
                decreases k,
            {
                k = k - 1;
            }
            proof {
                assert forall|i: int| k <= i < ints(order@).len() implies freq@[#[trigger] ints(
                    order@,
                )[i]] > freq@[s as int] by {
                    assert(freq@[order@[i] as int] > freq@[s as int]);
                }
                tree::lemma_insert_at(ints(order@), freq@, s as int, k as int);
                assert(ints(order@).insert(k as int, s as int) =~= ints(
                    order@.insert(k as int, s),
                ));
            }
            order.insert(k, s);
        }
        s = s + 1;
    }
    order
}

/// What the forest looks like in the arrays: the leaves first, by rank, then
/// the joined trees in the order in which they were made.
spec fn forest(trees: Seq<Tree>, w: Seq<usize>, order: Seq<int>, freq: Seq<usize>) -> bool {
    &&& trees.len() == w.len()
    &&& w.len() >= order.len()
    &&& forall|i: int| 0 <= i < w.len() ==> #[trigger] w[i] == tree::weight(trees[i], freq)
    &&& forall|i: int| 0 <= i < order.len() ==> #[trigger] trees[i] == Tree::Leaf(order[i])
}

/// `p` is a parent of tree `i`.
spec fn is_parent(trees: Seq<Tree>, p: int, i: int) -> bool {
    match trees[p] {
        Tree::Node(l, r) => *l == trees[i] || *r == trees[i],
        Tree::Leaf(x) => false,
    }
}

/// Picks the lighter of the two queue heads, the leaf where they are alike.
fn pop_min(w: &Vec<usize>, k: usize, h1: usize, h2: usize, Ghost(trees): Ghost<Seq<Tree>>, Ghost(
    freq,
): Ghost<Seq<usize>>) -> (r: (usize, usize, usize))
    requires
        h1 <= k <= h2 <= w@.len(),
        h1 < k || h2 < w@.len(),
        trees.len() == w@.len(),
        forall|i: int| 0 <= i < w@.len() ==> #[trigger] w@[i] == tree::weight(trees[i], freq),
    ensures
        ({
            let q1 = trees.subrange(h1 as int, k as int);
            let q2 = trees.subrange(h2 as int, w@.len() as int);
            &&& tree::pop(q1, q2, freq) == (
                trees[r.0 as int],
                trees.subrange(r.1 as int, k as int),
                trees.subrange(r.2 as int, w@.len() as int),
            )
            &&& r.1 <= k <= r.2 <= w@.len()
            &&& (r.0 == h1 && h1 < k && r.1 == h1 + 1 && r.2 == h2) || (r.0 == h2 && h2 < w@.len()
                && r.1 == h1 && r.2 == h2 + 1)
        }),
{
    let ghost q1 = trees.subrange(h1 as int, k as int);
    let ghost q2 = trees.subrange(h2 as int, w@.len() as int);
    proof {
        if h1 < k {
            assert(q1[0] == trees[h1 as int]);
            assert(w@[h1 as int] == tree::weight(trees[h1 as int], freq));
            assert(q1.drop_first() =~= trees.subrange(h1 + 1, k as int));
        }
        if h2 < w@.len() {
            assert(q2[0] == trees[h2 as int]);
            assert(w@[h2 as int] == tree::weight(trees[h2 as int], freq));
            assert(q2.drop_first() =~= trees.subrange(h2 + 1, w@.len() as int));
        }
    }
    let end: usize = w.len();
    if h1 < k && (h2 >= end || w[h1] <= w[h2]) {
        (h1, h1 + 1, h2)
    } else {
        (h2, h1, h2 + 1)
    }
}

/// The depth of each symbol in the Huffman tree, by rank.
#[verifier::rlimit(60)]
fn tree_depths(freq: &[usize], n: usize, order: &Vec<usize>) -> (depths: Vec<usize>)
    requires
        n <= freq@.len(),
        ints(order@) == tree::by_freq(freq@, n as nat),
        order@.len() >= 2,
        tree::total(freq@, n as nat) <= usize::MAX,
        2 * order@.len() <= usize::MAX,
    ensures
        depths@.len() == order@.len(),
        forall|i: int|
            0 <= i < order@.len() ==> #[trigger] depths@[i] == tree::depth(
                tree::huffman_tree(freq@, n as nat),
                0,
                order@[i] as int,
            ),
{
    let k: usize = order.len();
    let ghost ord = ints(order@);
    let ghost mut trees: Seq<Tree> = tree::leaves(ord);
    proof {
        tree::lemma_by_freq(freq@, n as nat);
        tree::lemma_leaves_total(freq@, n as nat);
    }
    let mut w: Vec<usize> = Vec::new();
    let mut parent: Vec<usize> = Vec::new();
    let mut i: usize = 0;
    while i < k
        invariant
            i <= k == order@.len(),
            ord == ints(order@),
            tree::ordered(ord, freq@, n as int),
            n <= freq@.len(),
            w@.len() == i,
            parent@.len() == i,
            trees == tree::leaves(ord),
            forall|j: int| 0 <= j < i ==> #[trigger] w@[j] == tree::weight(trees[j], freq@),
        decreases k - i,
    {
        assert(ord[i as int] == order@[i as int]);
        w.push(freq[order[i]]);
        parent.push(0);
        i = i + 1;
    }
    let mut h1: usize = 0;
    let mut h2: usize = k;
    proof {
        assert(trees.subrange(0, k as int) =~= trees);
        assert(trees.subrange(k as int, k as int) =~= Seq::<Tree>::empty());
    }
    while (k - h1) + (w.len() - h2) > 1
        invariant
            h1 <= k <= h2 <= w@.len(),
            k == order@.len(),
            k >= 2,
            ord == ints(order@),
            parent@.len() == w@.len(),
            w@.len() + (k - h1) + (w@.len() - h2) == 2 * k,
            2 * k <= usize::MAX,
            (k - h1) + (w@.len() - h2) >= 1,
            w@.len() > k ==> h2 < w@.len(),
            forest(trees, w@, ord, freq@),
            tree::build(
                trees.subrange(h1 as int, k as int),
                trees.subrange(h2 as int, w@.len() as int),
                freq@,
            ) == tree::huffman_tree(freq@, n as nat),
            tree::weight_all(trees.subrange(h1 as int, k as int), freq@) + tree::weight_all(
                trees.subrange(h2 as int, w@.len() as int),
                freq@,
            ) <= usize::MAX,
            forall|x: int|
                (0 <= x < h1 || k <= x < h2) ==> x < #[trigger] parent@[x] < w@.len() && is_parent(
                    trees,
                    parent@[x] as int,
                    x,
                ),
        decreases (k - h1) + (w@.len() - h2),
    {
        let ghost q1 = trees.subrange(h1 as int, k as int);
        let ghost q2 = trees.subrange(h2 as int, w@.len() as int);
        let (a, g1, g2) = pop_min(&w, k, h1, h2, Ghost(trees), Ghost(freq@));
        let (b, n1, n2) = pop_min(&w, k, g1, g2, Ghost(trees), Ghost(freq@));
        proof {
            tree::lemma_join_keeps(q1, q2, freq@, 0);
            tree::lemma_pop_keeps(q1, q2, freq@, 0);
            tree::lemma_pop_keeps(
                trees.subrange(g1 as int, k as int),
                trees.subrange(g2 as int, w@.len() as int),
                freq@,
                0,
            );
            assert(w@[a as int] == tree::weight(trees[a as int], freq@));
            assert(w@[b as int] == tree::weight(trees[b as int], freq@));
        }
        let ghost old_trees = trees;
        let ghost t = Tree::Node(Box::new(trees[a as int]), Box::new(trees[b as int]));
        let id: usize = w.len();
        let sum: usize = w[a] + w[b];
        parent.set(a, id);
        parent.set(b, id);
        w.push(sum);
        parent.push(0);
        proof {
            trees = trees.push(t);
            assert(trees.subrange(n1 as int, k as int) =~= old_trees.subrange(n1 as int, k as int));
            assert(trees.subrange(n2 as int, w@.len() as int) =~= old_trees.subrange(
                n2 as int,
                id as int,
            ).push(t));
            assert forall|x: int| (0 <= x < n1 || k <= x < n2) implies x < #[trigger] parent@[x]
                < w@.len() && is_parent(trees, parent@[x] as int, x) by {
                if x == a || x == b {
                    assert(trees[id as int] == t);
                }
            }
        }
        h1 = n1;
        h2 = n2;
    }
    let root: usize = w.len() - 1;
    let ghost t = tree::huffman_tree(freq@, n as nat);
    proof {
        assert(h1 == k && h2 == root);
        assert(trees.subrange(root as int, w@.len() as int)[0] == trees[root as int]);
        assert(trees[root as int] == t);
        tree::lemma_by_freq(freq@, n as nat);
        assert forall|s: int| #[trigger] tree::occ(t, s) <= 1 by {
            tree::lemma_huffman_occ(freq@, n as nat, s);
        }
    }
    let mut depth: Vec<usize> = vec![0usize; w.len()];
    let mut id: usize = root;
    while id > 0
        invariant
            id <= root < usize::MAX,
            root + 1 == w@.len(),
            depth@.len() == w@.len(),
            parent@.len() == w@.len(),
            trees.len() == w@.len(),
            t == tree::huffman_tree(freq@, n as nat),
            forall|s: int| #[trigger] tree::occ(t, s) <= 1,
            forall|x: int|
                0 <= x < root ==> x < #[trigger] parent@[x] < w@.len() && is_parent(
                    trees,
                    parent@[x] as int,
                    x,
                ),
            forall|x: int| id <= x <= root ==> #[trigger] depth@[x] <= root - x,
            forall|x: int, s: int|
                id <= x <= root && #[trigger] tree::occ(trees[x], s) > 0 ==> {
                    &&& tree::occ(trees[x], s) <= 1
                    &&& tree::depth(t, 0, s) == tree::depth(trees[x], depth@[x] as nat, s)
                },
        decreases id,
    {
        let x: usize = id - 1;
        assert(x < parent@[x as int] < w@.len());
        let p: usize = parent[x];
        let d: usize = depth[p] + 1;
        let ghost before = depth@;
        depth.set(x, d);
        proof {
            assert forall|y: int, s: int|
                x <= y <= root && #[trigger] tree::occ(trees[y], s) > 0 implies {
                &&& tree::occ(trees[y], s) <= 1
                &&& tree::depth(t, 0, s) == tree::depth(trees[y], depth@[y] as nat, s)
            } by {
                if y == x {
                    assert(is_parent(trees, p as int, x as int));
                    assert(tree::occ(trees[p as int], s) > 0);
                }
            }
        }
        id = x;
    }
    proof {
        assert forall|i: int| 0 <= i < order@.len() implies #[trigger] depth@[i] == tree::depth(
            tree::huffman_tree(freq@, n as nat),
            0,
            order@[i] as int,
        ) by {
            assert(trees[i] == Tree::Leaf(ord[i]));
            assert(tree::occ(trees[i], order@[i] as int) > 0);
        }
    }
    depth.truncate(k);
    depth
}

/// Counts the symbols of each length, lengths over 15 as 15.
fn count_capped(freq: Ghost<Seq<usize>>, n: usize, lens: &[u8]) -> (counts: Vec<usize>)
    requires
        n <= lens@.len(),
        n <= 32768,
        forall|s: int| 0 <= s < n ==> #[trigger] lens@[s] == natural_len(freq@, n as nat, s),
    ensures
        nats(counts@) == kraft::len_counts(capped_lens(freq@, n as nat, 15), n as nat, 15),
{
    let mut counts: Vec<usize> = vec![0usize; 16];
    let ghost capped = capped_lens(freq@, n as nat, 15);
    let mut s: usize = 0;
    proof {
        assert(nats(counts@) =~= kraft::len_counts(capped, 0, 15));
    }
    while s < n
        invariant
            s <= n <= lens@.len(),
            n <= 32768,
            counts@.len() == 16,
            capped == capped_lens(freq@, n as nat, 15),
            forall|s: int| 0 <= s < n ==> #[trigger] lens@[s] == natural_len(freq@, n as nat, s),
            nats(counts@) == kraft::len_counts(capped, s as nat, 15),
            forall|b: int| 0 <= b < 16 ==> #[trigger] counts@[b] <= s,
        decreases n - s,
    {
        let mut l: usize = lens[s] as usize;
        if l > 15 {
            l = 15;
        }
        let ghost before = counts@;
        assert(counts@[l as int] <= s);
        assert(capped[s as int] == l);
        let c: usize = counts[l];
        counts.set(l, c + 1);
        s = s + 1;
        proof {
            assert forall|b: int| 0 <= b < 16 implies nats(counts@)[b] == kraft::len_counts(
                capped,
                s as nat,
                15,
            )[b] by {
                assert(nats(before)[b] == kraft::len_count(capped, (s - 1) as nat, b as nat));
            }
            assert(nats(counts@) =~= kraft::len_counts(capped, s as nat, 15));
        }
    }
    counts
}

/// By how many words the codes of these lengths cover more than there are.
fn kraft_excess(counts: &Vec<usize>) -> (excess: u64)
    requires
        counts@.len() == 16,
        forall|b: int| 0 <= b < 16 ==> #[trigger] counts@[b] <= 32768,
        kraft::kraft(nats(counts@), 15, 15) >= 32768,
    ensures
        excess == kraft::kraft(nats(counts@), 15, 15) - 32768,
{
    let mut share: u64 = 0;
    let mut p: u64 = 16384;
    let mut b: usize = 1;
    proof {
        bits::lemma_p2_small();
    }
    while b <= 15
        invariant
            1 <= b <= 16,
            counts@.len() == 16,
            forall|b: int| 0 <= b < 16 ==> #[trigger] counts@[b] <= 32768,
            b <= 15 ==> p == bits::p2((15 - b) as nat),
            p <= 16384,
            share == kraft::kraft(nats(counts@), (b - 1) as nat, 15),
            share <= (b - 1) * 536870912,
        decreases 16 - b,
    {
        let c: u64 = counts[b] as u64;
        assert(counts@[b as int] <= 32768);
        assert(0 <= c * p <= 536870912) by (nonlinear_arith)
            requires
                c <= 32768,
                p <= 16384,
        ;
        assert(nats(counts@)[b as int] == c);
        share = share + c * p;
        if b < 15 {
            assert(bits::p2((15 - b) as nat) == 2 * bits::p2((15 - (b + 1)) as nat));
        }
        p = p / 2;
        b = b + 1;
    }
    share - 32768
}

/// Shortens codes until those of 15 bits at most cover no more than there is.
fn spread_counts(counts: &mut Vec<usize>, excess: u64)
    requires
        old(counts)@.len() == 16,
        kraft::kraft(nats(old(counts)@), 15, 15) == 32768 + excess,
        nats(old(counts)@)[15] >= excess,
        kraft::count_sum(nats(old(counts)@), 15) <= 32768,
    ensures
        nats(final(counts)@) == kraft::spread(nats(old(counts)@), 15, excess as nat),
{
    let mut e: u64 = excess;
    let ghost target = kraft::spread(nats(counts@), 15, excess as nat);
    while e > 0
        invariant_except_break
            target == kraft::spread(nats(counts@), 15, e as nat),
        invariant
            counts@.len() == 16,
            nats(counts@)[15] >= e,
            kraft::count_sum(nats(counts@), 15) <= 32768,
        ensures
            target == nats(counts@),
        decreases e,
    {
        let mut b: usize = 14;
        while b > 0 && counts[b] == 0
            invariant
                b <= 14,
                counts@.len() == 16,
                kraft::last_used(nats(counts@), 14) == kraft::last_used(nats(counts@), b as nat),
            decreases b,
        {
            assert(nats(counts@)[b as int] == 0);
            b = b - 1;
        }
        proof {
            if b > 0 {
                assert(nats(counts@)[b as int] > 0);
            }
            assert(kraft::last_used(nats(counts@), 14) == b);
        }
        if b == 0 {
            break;
        }
        let ghost before = nats(counts@);
        proof {
            kraft::lemma_spread_step(before, 15);
            kraft::lemma_count_in(before, b as nat, 15);
            kraft::lemma_count_in(before, (b + 1) as nat, 15);
            kraft::lemma_count_in(before, 15, 15);
            assert(before[b as int] == counts@[b as int]);
            assert(before[b + 1] == counts@[b + 1]);
            assert(before[15] == counts@[15]);
        }
        let c: usize = counts[b];
        counts.set(b, c - 1);
        let c: usize = counts[b + 1];
        counts.set(b + 1, c + 2);
        let c: usize = counts[15];
        counts.set(15, c - 1);
        proof {
            assert(nats(counts@) =~= kraft::spread_step(before, 15));
        }
        e = e - 1;
    }
}

/// From rank `i` on the lengths are those from `b` down, of which `used` of `b`
/// bits were handed out.
spec fn hands_on(c: Seq<nat>, i: nat, b: nat, used: nat) -> bool {
    forall|r: nat|
        i <= r ==> #[trigger] kraft::rank_len(c, 15, r) == kraft::rank_len(
            c,
            b,
            (used + (r - i)) as nat,
        )
}

proof fn lemma_hands_on_shorter(c: Seq<nat>, i: nat, b: nat, used: nat)
    requires
        hands_on(c, i, b, used),
        b > 0,
        used >= c[b as int],
    ensures
        hands_on(c, i, (b - 1) as nat, (used - c[b as int]) as nat),
{
    assert forall|r: nat| i <= r implies #[trigger] kraft::rank_len(c, 15, r) == kraft::rank_len(
        c,
        (b - 1) as nat,
        ((used - c[b as int]) as nat + (r - i)) as nat,
    ) by {
        assert(kraft::rank_len(c, 15, r) == kraft::rank_len(c, b, (used + (r - i)) as nat));
        assert(((used + (r - i)) as nat - c[b as int]) as nat == ((used - c[b as int]) as nat + (r
            - i)) as nat);
    }
}

proof fn lemma_hands_on_next(c: Seq<nat>, i: nat, b: nat, used: nat)
    requires
        hands_on(c, i, b, used),
        b > 0,
        used < c[b as int],
    ensures
        kraft::rank_len(c, 15, i) == b,
        hands_on(c, i + 1, b, used + 1),
{
    assert(kraft::rank_len(c, 15, i) == kraft::rank_len(c, b, (used + (i - i)) as nat));
    assert forall|r: nat| i + 1 <= r implies #[trigger] kraft::rank_len(c, 15, r)
        == kraft::rank_len(c, b, ((used + 1) + (r - (i + 1))) as nat) by {
        assert(kraft::rank_len(c, 15, r) == kraft::rank_len(c, b, (used + (r - i)) as nat));
    }
}

/// Gives each occurring symbol of the first `alphabet_size` its code length and
/// every other 0.
pub fn huff_assign_lengths(
    max_bits: usize,
    alphabet_size: usize,
    freq: &[usize],
    code_lens: &mut [u8],
)
    requires
        alphabet_size <= freq@.len(),
        alphabet_size <= old(code_lens)@.len(),
        alphabet_size <= 32768,
        tree::total(freq@, alphabet_size as nat) <= usize::MAX,
        max_bits == 15 || fits(freq@, alphabet_size as nat, max_bits as nat),
        forall|s: int| alphabet_size <= s < old(code_lens)@.len() ==> old(code_lens)@[s] == 0,
    ensures
        final(code_lens)@.len() == old(code_lens)@.len(),
        forall|s: int|
            0 <= s < alphabet_size ==> #[trigger] final(code_lens)@[s] == code_len(
                freq@,
                alphabet_size as nat,
                max_bits as nat,
                s,
            ),
        forall|s: int|
            alphabet_size <= s < old(code_lens)@.len() ==> #[trigger] final(code_lens)@[s] == 0,
{
    let n: usize = alphabet_size;
    let ghost f = freq@;
    let ghost first = code_lens@;
    let mut i: usize = 0;
    while i < n
        invariant
            i <= n <= code_lens@.len(),
            code_lens@.len() == first.len(),
            forall|s: int| 0 <= s < i ==> #[trigger] code_lens@[s] == 0,
            forall|s: int| n <= s < first.len() ==> #[trigger] code_lens@[s] == first[s],
        decreases n - i,
    {
        code_lens[i] = 0;
        i = i + 1;
    }
    let order = sort_by_freq(freq, n);
    let k: usize = order.len();
    proof {
        tree::lemma_by_freq(f, n as nat);
        assert(tree::by_freq(f, n as nat).len() == k);
    }
    if k == 0 {
        proof {
            assert forall|s: int| 0 <= s < n implies #[trigger] natural_len(f, n as nat, s) == 0 by {
                assert(!tree::by_freq(f, n as nat).contains(s));
            }
        }
        return;
    }
    let ghost ord = ints(order@);
    if k == 1 {
        assert(ord[0] == order@[0]);
        code_lens[order[0]] = 1;
        proof {
            assert forall|s: int| 0 <= s < n implies #[trigger] code_lens@[s] == natural_len(
                f,
                n as nat,
                s,
            ) by {
                if f[s] > 0 {
                    assert(ord.contains(s));
                }
            }
            bits::lemma_p2_small();
            assert(max_bits > 0) by {
                assert(natural_len(f, n as nat, ord[0]) == 1);
            }
            assert(fits(f, n as nat, max_bits as nat));
        }
        return;
    }
    let depths = tree_depths(freq, n, &order);
    let mut max_len: usize = 0;
    let mut i: usize = 0;
    proof {
        tree::lemma_huffman_height(f, n as nat);
        assert forall|i: int| 0 <= i < k implies #[trigger] depths@[i] == natural_len(
            f,
            n as nat,
            order@[i] as int,
        ) by {
            assert(ord[i] == order@[i]);
            assert(f[ord[i]] > 0);
        }
        assert forall|i: int| 0 <= i < k implies #[trigger] depths@[i] <= 91 && order@[i] < n by {
            assert(ord[i] == order@[i]);
            assert(f[ord[i]] > 0);
            tree::lemma_huffman_occ(f, n as nat, ord[i]);
            tree::lemma_depth(tree::huffman_tree(f, n as nat), 0, ord[i]);
        }
    }
    while i < k
        invariant
            i <= k == order@.len(),
            k == depths@.len(),
            n <= code_lens@.len(),
            code_lens@.len() == first.len(),
            ord == ints(order@),
            tree::ordered(ord, f, n as int),
            forall|s: int| n <= s < first.len() ==> #[trigger] code_lens@[s] == first[s],
            forall|i: int|
                0 <= i < k ==> #[trigger] depths@[i] == natural_len(f, n as nat, order@[i] as int),
            forall|i: int| 0 <= i < k ==> #[trigger] depths@[i] <= 91 && order@[i] < n,
            forall|s: int| 0 <= s < n && f[s] == 0 ==> #[trigger] code_lens@[s] == 0,
            forall|j: int|
                0 <= j < i ==> code_lens@[#[trigger] order@[j] as int] == natural_len(
                    f,
                    n as nat,
                    order@[j] as int,
                ),
            forall|j: int| 0 <= j < i ==> #[trigger] depths@[j] <= max_len,
            max_len > 0 ==> exists|j: int| 0 <= j < i && #[trigger] depths@[j] == max_len,
        decreases k - i,
    {
        let d: usize = depths[i];
        assert(ord[i as int] == order@[i as int]);
        assert(f[ord[i as int]] > 0);
        code_lens[order[i]] = d as u8;
        if d > max_len {
            max_len = d;
        }
        proof {
            assert forall|j: int| 0 <= j <= i implies code_lens@[#[trigger] order@[j] as int]
                == natural_len(f, n as nat, order@[j] as int) by {
                if j < i {
                    assert(ord[j] != ord[i as int]);
                    assert(ord[j] == order@[j]);
                }
            }
        }
        i = i + 1;
    }
    proof {
        assert forall|s: int| 0 <= s < n implies #[trigger] code_lens@[s] == natural_len(
            f,
            n as nat,
            s,
        ) by {
            if f[s] > 0 {
                assert(ord.contains(s));
                let j = choose|j: int| 0 <= j < ord.len() && ord[j] == s;
                assert(ord[j] == order@[j]);
            }
        }
    }
    if max_len <= max_bits {
        proof {
            assert forall|s: int| 0 <= s < n implies #[trigger] natural_len(f, n as nat, s)
                <= max_bits by {
                if f[s] > 0 {
                    assert(ord.contains(s));
                    let j = choose|j: int| 0 <= j < ord.len() && ord[j] == s;
                    assert(ord[j] == order@[j]);
                    assert(depths@[j] <= max_len);
                }
            }
        }
        return;
    }
    proof {
        let j = choose|j: int| 0 <= j < k && #[trigger] depths@[j] == max_len;
        assert(natural_len(f, n as nat, order@[j] as int) > max_bits);
        assert(!fits(f, n as nat, max_bits as nat));
        bits::lemma_p2_small();
        lemma_capped(f, n as nat, 15);
        lemma_limited(f, n as nat, 15);
    }
    let mut counts = count_capped(Ghost(f), n, code_lens);
    proof {
        assert forall|b: int| 0 <= b < 16 implies #[trigger] counts@[b] <= 32768 by {
            assert(nats(counts@)[b] == kraft::len_count(
                capped_lens(f, n as nat, 15),
                n as nat,
                b as nat,
            ));
            kraft::lemma_len_count(capped_lens(f, n as nat, 15), n as nat, b as nat);
        }
    }
    let excess = kraft_excess(&counts);
    spread_counts(&mut counts, excess);
    let ghost c = nats(counts@);
    let mut b: usize = 15;
    let mut used: usize = 0;
    let mut i: usize = 0;
    while i < k
        invariant
            i <= k == order@.len(),
            n <= code_lens@.len(),
            code_lens@.len() == first.len(),
            ord == ints(order@),
            tree::ordered(ord, f, n as int),
            c == nats(counts@),
            counts@.len() == 16,
            b <= 15,
            used + (k - i) == kraft::count_sum(c, b as nat),
            hands_on(c, i as nat, b as nat, used as nat),
            forall|s: int| n <= s < first.len() ==> #[trigger] code_lens@[s] == first[s],
            forall|s: int| 0 <= s < n && f[s] == 0 ==> #[trigger] code_lens@[s] == 0,
            forall|j: int|
                0 <= j < i ==> code_lens@[#[trigger] order@[j] as int] == kraft::rank_len(
                    c,
                    15,
                    j as nat,
                ),
        decreases k - i, b,
    {
        assert(b > 0);
        assert(c[b as int] == counts@[b as int]);
        if used >= counts[b] {
            proof {
                lemma_hands_on_shorter(c, i as nat, b as nat, used as nat);
            }
            used = used - counts[b];
            b = b - 1;
        } else {
            assert(ord[i as int] == order@[i as int]);
            proof {
                lemma_hands_on_next(c, i as nat, b as nat, used as nat);
            }
            code_lens[order[i]] = b as u8;
            proof {
                assert forall|j: int| 0 <= j <= i implies code_lens@[#[trigger] order@[j] as int]
                    == kraft::rank_len(c, 15, j as nat) by {
                    if j < i {
                        assert(ord[j] != ord[i as int]);
                        assert(ord[j] == order@[j]);
                    }
                }
            }
            used = used + 1;
            i = i + 1;
        }
    }
    proof {
        assert forall|s: int| 0 <= s < n implies #[trigger] code_lens@[s] == code_len(
            f,
            n as nat,
            15,
            s,
        ) by {
            if f[s] > 0 {
                assert(ord.contains(s));
                let j = choose|j: int| 0 <= j < ord.len() && ord[j] == s;
                assert(ord[j] == order@[j]);
                lemma_rank_of(ord, j);
            }
        }
    }
}

/// Where codes have to be cut to `m` bits, a symbol that is more frequent than another has no longer
/// code.
pub proof fn lemma_limited_order(freq: Seq<usize>, n: nat, m: nat, a: int, b: int)
    requires
        n <= freq.len(),
        !fits(freq, n, m),
        0 <= a < n,
        0 <= b < n,
        freq[a] > freq[b] > 0,
    ensures
        code_len(freq, n, m, a) <= code_len(freq, n, m, b),
{
    let order = tree::by_freq(freq, n);
    tree::lemma_by_freq(freq, n);
    assert(order.contains(a) && order.contains(b));
    let i = choose|i: int| 0 <= i < order.len() && order[i] == a;
    let j = choose|j: int| 0 <= j < order.len() && order[j] == b;
    lemma_rank_of(order, i);
    lemma_rank_of(order, j);
    if i <= j {
        assert(freq[order[i]] <= freq[order[j]]);
    }
    kraft::lemma_rank_len_mono(limited_counts(freq, n, m), m, j as nat, i as nat);
}

} // verus!
