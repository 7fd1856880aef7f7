//! Huffman trees.
//!
//! The tree of a frequency table is built by joining the two lightest trees of
//! a forest until one is left. The forest is kept in two queues, the leaves by
//! rising frequency and the joined trees in the order in which they were made.

use vstd::prelude::*;

verus! {

/// A binary tree with a symbol at each leaf.
pub enum Tree {
    Leaf(int),
    Node(Box<Tree>, Box<Tree>),
}

/// The summed frequency of the symbols of a tree.
pub open spec fn weight(t: Tree, freq: Seq<usize>) -> nat
    decreases t,
{
    match t {
        Tree::Leaf(s) => freq[s] as nat,
        Tree::Node(l, r) => weight(*l, freq) + weight(*r, freq),
    }
}

/// How often symbol `s` occurs in a tree.
pub open spec fn occ(t: Tree, s: int) -> nat
    decreases t,
{
    match t {
        Tree::Leaf(x) => if x == s {
            1
        } else {
            0
        },
        Tree::Node(l, r) => occ(*l, s) + occ(*r, s),
    }
}

/// How deep symbol `s` lies when the root lies at depth `d`.
pub open spec fn depth(t: Tree, d: nat, s: int) -> nat
    decreases t,
{
    match t {
        Tree::Leaf(x) => d,
        Tree::Node(l, r) => if occ(*l, s) > 0 {
            depth(*l, d + 1, s)
        } else {
            depth(*r, d + 1, s)
        },
    }
}

pub open spec fn height(t: Tree) -> nat
    decreases t,
{
    match t {
        Tree::Leaf(x) => 0,
        Tree::Node(l, r) => 1 + if height(*l) >= height(*r) {
            height(*l)
        } else {
            height(*r)
        },
    }
}

/// The heavier of the two children's weights.
pub open spec fn kid(t: Tree, freq: Seq<usize>) -> nat {
    match t {
        Tree::Leaf(x) => 0,
        Tree::Node(l, r) => if weight(*l, freq) >= weight(*r, freq) {
            weight(*l, freq)
        } else {
            weight(*r, freq)
        },
    }
}

/// Takes the lightest tree of the two queues, a leaf where there is a choice.
pub open spec fn pop(q1: Seq<Tree>, q2: Seq<Tree>, freq: Seq<usize>) -> (
    Tree,
    Seq<Tree>,
    Seq<Tree>,
) {
    if q1.len() > 0 && (q2.len() == 0 || weight(q1[0], freq) <= weight(q2[0], freq)) {
        (q1[0], q1.drop_first(), q2)
    } else {
        (q2[0], q1, q2.drop_first())
    }
}

/// One step: joins the two lightest trees and queues the result.
pub open spec fn join(q1: Seq<Tree>, q2: Seq<Tree>, freq: Seq<usize>) -> (Seq<Tree>, Seq<Tree>) {
    let (a, r1, r2) = pop(q1, q2, freq);
    let (b, s1, s2) = pop(r1, r2, freq);
    (s1, s2.push(Tree::Node(Box::new(a), Box::new(b))))
}

/// Joins the trees of both queues into one.
pub open spec fn build(q1: Seq<Tree>, q2: Seq<Tree>, freq: Seq<usize>) -> Tree
    decreases q1.len() + q2.len(),
{
    if q1.len() + q2.len() <= 1 {
        if q1.len() > 0 {
            q1[0]
        } else {
            q2[0]
        }
    } else {
        let (s1, s2) = join(q1, q2, freq);
        build(s1, s2, freq)
    }
}

/// `order` with symbol `s` put behind all symbols that are not more frequent.
pub open spec fn insert_by_freq(order: Seq<int>, freq: Seq<usize>, s: int) -> Seq<int>
    decreases order.len(),
{
    if order.len() == 0 || freq[order.last()] <= freq[s] {
        order.push(s)
    } else {
        insert_by_freq(order.drop_last(), freq, s).push(order.last())
    }
}

/// The symbols below `n` that occur, by rising frequency, then by number.
pub open spec fn by_freq(freq: Seq<usize>, n: nat) -> Seq<int>
    decreases n,
{
    if n == 0 {
        Seq::empty()
    } else {
        let rest = by_freq(freq, (n - 1) as nat);
        if freq[n - 1] > 0 {
            insert_by_freq(rest, freq, n - 1)
        } else {
            rest
        }
    }
}

pub open spec fn leaves(order: Seq<int>) -> Seq<Tree> {
    Seq::new(order.len(), |i: int| Tree::Leaf(order[i]))
}

/// The Huffman tree of the symbols below `n`.
pub open spec fn huffman_tree(freq: Seq<usize>, n: nat) -> Tree {
    build(leaves(by_freq(freq, n)), Seq::empty(), freq)
}

pub open spec fn total(freq: Seq<usize>, n: nat) -> nat
    decreases n,
{
    if n == 0 {
        0
    } else {
        total(freq, (n - 1) as nat) + freq[n - 1] as nat
    }
}

pub open spec fn occ_all(q: Seq<Tree>, s: int) -> nat
    decreases q.len(),
{
    if q.len() == 0 {
        0
    } else {
        occ(q[0], s) + occ_all(q.drop_first(), s)
    }
}

pub open spec fn weight_all(q: Seq<Tree>, freq: Seq<usize>) -> nat
    decreases q.len(),
{
    if q.len() == 0 {
        0
    } else {
        weight(q[0], freq) + weight_all(q.drop_first(), freq)
    }
}

proof fn lemma_all_push(q: Seq<Tree>, t: Tree, freq: Seq<usize>, s: int)
    ensures
        occ_all(q.push(t), s) == occ_all(q, s) + occ(t, s),
        weight_all(q.push(t), freq) == weight_all(q, freq) + weight(t, freq),
    decreases q.len(),
{
    reveal_with_fuel(occ_all, 2);
    reveal_with_fuel(weight_all, 2);
    if q.len() == 0 {
        assert(q.push(t).drop_first() =~= q);
    } else {
        lemma_all_push(q.drop_first(), t, freq, s);
        assert(q.push(t).drop_first() =~= q.drop_first().push(t));
    }
}

pub proof fn lemma_pop_keeps(q1: Seq<Tree>, q2: Seq<Tree>, freq: Seq<usize>, s: int)
    requires
        q1.len() + q2.len() >= 1,
    ensures
        ({
            let (a, r1, r2) = pop(q1, q2, freq);
            &&& occ(a, s) + occ_all(r1, s) + occ_all(r2, s) == occ_all(q1, s) + occ_all(q2, s)
            &&& weight(a, freq) + weight_all(r1, freq) + weight_all(r2, freq) == weight_all(
                q1,
                freq,
            ) + weight_all(q2, freq)
        }),
{
}

/// Joining keeps every symbol and the summed weight.
pub proof fn lemma_join_keeps(q1: Seq<Tree>, q2: Seq<Tree>, freq: Seq<usize>, s: int)
    requires
        q1.len() + q2.len() >= 2,
    ensures
        ({
            let (s1, s2) = join(q1, q2, freq);
            &&& occ_all(s1, s) + occ_all(s2, s) == occ_all(q1, s) + occ_all(q2, s)
            &&& weight_all(s1, freq) + weight_all(s2, freq) == weight_all(q1, freq) + weight_all(
                q2,
                freq,
            )
            &&& s1.len() + s2.len() == q1.len() + q2.len() - 1
        }),
{
    let (a, r1, r2) = pop(q1, q2, freq);
    let (b, s1, s2) = pop(r1, r2, freq);
    lemma_pop_keeps(q1, q2, freq, s);
    lemma_pop_keeps(r1, r2, freq, s);
    lemma_all_push(s2, Tree::Node(Box::new(a), Box::new(b)), freq, s);
}

pub proof fn lemma_build_keeps(q1: Seq<Tree>, q2: Seq<Tree>, freq: Seq<usize>, s: int)
    requires
        q1.len() + q2.len() >= 1,
    ensures
        occ(build(q1, q2, freq), s) == occ_all(q1, s) + occ_all(q2, s),
        weight(build(q1, q2, freq), freq) == weight_all(q1, freq) + weight_all(q2, freq),
    decreases q1.len() + q2.len(),
{
    if q1.len() + q2.len() <= 1 {
        reveal_with_fuel(occ_all, 2);
        reveal_with_fuel(weight_all, 2);
    } else {
        lemma_join_keeps(q1, q2, freq, s);
        let (s1, s2) = join(q1, q2, freq);
        lemma_build_keeps(s1, s2, freq, s);
    }
}

// ---- the order of the symbols ----

/// `order` holds each occurring symbol below `n` once, by rising frequency.
pub open spec fn ordered(order: Seq<int>, freq: Seq<usize>, n: int) -> bool {
    &&& forall|i: int| 0 <= i < order.len() ==> 0 <= #[trigger] order[i] < n && freq[order[i]] > 0
    &&& forall|i: int, j: int|
        0 <= i < j < order.len() ==> #[trigger] order[i] != #[trigger] order[j]
    &&& forall|i: int, j: int|
        0 <= i <= j < order.len() ==> freq[#[trigger] order[i]] <= freq[#[trigger] order[j]]
    &&& forall|s: int| 0 <= s < n && freq[s] > 0 ==> #[trigger] order.contains(s)
}

proof fn lemma_insert_by_freq(order: Seq<int>, freq: Seq<usize>, s: int)
    requires
        forall|i: int, j: int|
            0 <= i <= j < order.len() ==> freq[#[trigger] order[i]] <= freq[#[trigger] order[j]],
    ensures
        ({
            let r = insert_by_freq(order, freq, s);
            &&& r.len() == order.len() + 1
            &&& exists|k: int|
                #![trigger order.insert(k, s)]
                0 <= k <= order.len() && r == order.insert(k, s) && (forall|i: int|
                    0 <= i < k ==> freq[#[trigger] order[i]] <= freq[s]) && (forall|i: int|
                    k <= i < order.len() ==> freq[#[trigger] order[i]] > freq[s])
        }),
    decreases order.len(),
{
    let r = insert_by_freq(order, freq, s);
    if order.len() == 0 || freq[order.last()] <= freq[s] {
        let k = order.len() as int;
        assert(r =~= order.insert(k, s));
        assert forall|i: int| 0 <= i < k implies freq[#[trigger] order[i]] <= freq[s] by {
            assert(freq[order[i]] <= freq[order[k - 1]]);
        }
    } else {
        let q = order.drop_last();
        assert forall|i: int, j: int| 0 <= i <= j < q.len() implies freq[#[trigger] q[i]]
            <= freq[#[trigger] q[j]] by {
            assert(q[i] == order[i] && q[j] == order[j]);
        }
        lemma_insert_by_freq(q, freq, s);
        let k = choose|k: int|
            #![trigger q.insert(k, s)]
            0 <= k <= q.len() && insert_by_freq(q, freq, s) == q.insert(k, s) && (forall|i: int|
                0 <= i < k ==> freq[#[trigger] q[i]] <= freq[s]) && (forall|i: int|
                k <= i < q.len() ==> freq[#[trigger] q[i]] > freq[s]);
        assert(r =~= order.insert(k, s));
        assert forall|i: int| 0 <= i < k implies freq[#[trigger] order[i]] <= freq[s] by {
            assert(q[i] == order[i]);
        }
        assert forall|i: int| k <= i < order.len() implies freq[#[trigger] order[i]] > freq[s] by {
            if i < q.len() {
                assert(q[i] == order[i]);
            }
        }
    }
}

/// The place where a symbol of frequency `freq[s]` is put, found from the back.
pub proof fn lemma_insert_at(order: Seq<int>, freq: Seq<usize>, s: int, k: int)
    requires
        0 <= k <= order.len(),
        k > 0 ==> freq[order[k - 1]] <= freq[s],
        forall|i: int| k <= i < order.len() ==> freq[#[trigger] order[i]] > freq[s],
    ensures
        insert_by_freq(order, freq, s) == order.insert(k, s),
    decreases order.len(),
{
    if k == order.len() {
        assert(order.push(s) =~= order.insert(k, s));
    } else {
        let q = order.drop_last();
        assert(freq[order[order.len() - 1]] > freq[s]);
        lemma_insert_at(q, freq, s, k);
        assert(q.insert(k, s).push(order.last()) =~= order.insert(k, s));
    }
}

pub proof fn lemma_by_freq(freq: Seq<usize>, n: nat)
    requires
        n <= freq.len(),
    ensures
        ordered(by_freq(freq, n), freq, n as int),
        by_freq(freq, n).len() <= n,
    decreases n,
{
    if n > 0 {
        let q = by_freq(freq, (n - 1) as nat);
        lemma_by_freq(freq, (n - 1) as nat);
        if freq[n - 1] > 0 {
            let s = n - 1;
            lemma_insert_by_freq(q, freq, s);
            let r = insert_by_freq(q, freq, s);
            let k = choose|k: int|
                #![trigger q.insert(k, s)]
                0 <= k <= q.len() && r == q.insert(k, s) && (forall|i: int|
                    0 <= i < k ==> freq[#[trigger] q[i]] <= freq[s]) && (forall|i: int|
                    k <= i < q.len() ==> freq[#[trigger] q[i]] > freq[s]);
            assert forall|x: int| 0 <= x < n && freq[x] > 0 implies #[trigger] r.contains(x) by {
                if x == s {
                    assert(r[k] == s);
                } else {
                    assert(q.contains(x));
                    let i = choose|i: int| 0 <= i < q.len() && q[i] == x;
                    if i < k {
                        assert(r[i] == x);
                    } else {
                        assert(r[i + 1] == x);
                    }
                }
            }
            assert forall|i: int| 0 <= i < r.len() implies 0 <= #[trigger] r[i] < n && freq[r[i]]
                > 0 by {
                if i < k {
                    assert(r[i] == q[i]);
                } else if i > k {
                    assert(r[i] == q[i - 1]);
                }
            }
            assert forall|i: int, j: int| 0 <= i < j < r.len() implies #[trigger] r[i]
                != #[trigger] r[j] by {
                let a = if i < k {
                    i
                } else {
                    i - 1
                };
                let b = if j < k {
                    j
                } else {
                    j - 1
                };
                if i != k && j != k {
                    assert(r[i] == q[a] && r[j] == q[b]);
                } else if i == k {
                    assert(r[j] == q[b]);
                } else {
                    assert(r[i] == q[a]);
                }
            }
            assert forall|i: int, j: int| 0 <= i <= j < r.len() implies freq[#[trigger] r[i]]
                <= freq[#[trigger] r[j]] by {
                let a = if i < k {
                    i
                } else {
                    i - 1
                };
                let b = if j < k {
                    j
                } else {
                    j - 1
                };
                if i != k && j != k {
                    assert(r[i] == q[a] && r[j] == q[b]);
                } else if i == k && j != k {
                    assert(r[j] == q[b]);
                } else if j == k && i != k {
                    assert(r[i] == q[a]);
                }
            }
        } else {
            assert forall|x: int| 0 <= x < n && freq[x] > 0 implies #[trigger] q.contains(x) by {
                assert(x < n - 1);
            }
        }
    }
}

/// Each symbol of `order` is one leaf.
proof fn lemma_leaves_occ(order: Seq<int>, s: int)
    requires
        forall|i: int, j: int|
            0 <= i < j < order.len() ==> #[trigger] order[i] != #[trigger] order[j],
    ensures
        occ_all(leaves(order), s) == if order.contains(s) {
            1nat
        } else {
            0nat
        },
    decreases order.len(),
{
    let q = leaves(order);
    if order.len() > 0 {
        let rest = order.drop_first();
        assert(q.drop_first() =~= leaves(rest));
        assert forall|i: int, j: int| 0 <= i < j < rest.len() implies #[trigger] rest[i]
            != #[trigger] rest[j] by {
            assert(rest[i] == order[i + 1] && rest[j] == order[j + 1]);
        }
        lemma_leaves_occ(rest, s);
        if order.contains(s) {
            let i = choose|i: int| 0 <= i < order.len() && order[i] == s;
            if i > 0 {
                assert(rest[i - 1] == s);
                assert(order[0] != order[i]);
            } else if rest.contains(s) {
                let j = choose|j: int| 0 <= j < rest.len() && rest[j] == s;
                assert(order[0] != order[j + 1]);
            }
        } else if rest.contains(s) {
            let j = choose|j: int| 0 <= j < rest.len() && rest[j] == s;
            assert(order[j + 1] == s);
        }
        assert(order[0] == s ==> order.contains(s));
    }
}

/// The Huffman tree holds exactly the occurring symbols, each once.
pub proof fn lemma_huffman_occ(freq: Seq<usize>, n: nat, s: int)
    requires
        n <= freq.len(),
        by_freq(freq, n).len() >= 1,
    ensures
        occ(huffman_tree(freq, n), s) == if 0 <= s < n && freq[s] > 0 {
            1nat
        } else {
            0nat
        },
{
    let order = by_freq(freq, n);
    lemma_by_freq(freq, n);
    lemma_leaves_occ(order, s);
    lemma_build_keeps(leaves(order), Seq::empty(), freq, s);
    if order.contains(s) {
        let i = choose|i: int| 0 <= i < order.len() && order[i] == s;
        assert(0 <= order[i] < n && freq[order[i]] > 0);
    }
}

/// The sum of `f` over the symbols of `order`.
pub open spec fn order_sum(order: Seq<int>, f: spec_fn(int) -> nat) -> nat
    decreases order.len(),
{
    if order.len() == 0 {
        0
    } else {
        order_sum(order.drop_last(), f) + f(order.last())
    }
}

/// The sum of `f` over the symbols below `n` that occur.
pub open spec fn active_sum(freq: Seq<usize>, n: nat, f: spec_fn(int) -> nat) -> nat
    decreases n,
{
    if n == 0 {
        0
    } else {
        active_sum(freq, (n - 1) as nat, f) + if freq[n - 1] > 0 {
            f(n - 1)
        } else {
            0
        }
    }
}

proof fn lemma_leaves_weight(order: Seq<int>, freq: Seq<usize>)
    ensures
        weight_all(leaves(order), freq) == order_sum(order, |s: int| freq[s] as nat),
    decreases order.len(),
{
    if order.len() > 0 {
        let q = order.drop_last();
        lemma_leaves_weight(q, freq);
        lemma_all_push(leaves(q), Tree::Leaf(order.last()), freq, 0);
        assert(leaves(order) =~= leaves(q).push(Tree::Leaf(order.last())));
    }
}

proof fn lemma_insert_sum(order: Seq<int>, freq: Seq<usize>, s: int, f: spec_fn(int) -> nat)
    ensures
        order_sum(insert_by_freq(order, freq, s), f) == order_sum(order, f) + f(s),
    decreases order.len(),
{
    let r = insert_by_freq(order, freq, s);
    if order.len() == 0 || freq[order.last()] <= freq[s] {
        assert(r.drop_last() =~= order);
    } else {
        lemma_insert_sum(order.drop_last(), freq, s, f);
        assert(r.drop_last() =~= insert_by_freq(order.drop_last(), freq, s));
    }
}

/// Summing by rank or by symbol is the same.
pub proof fn lemma_order_sum(freq: Seq<usize>, n: nat, f: spec_fn(int) -> nat)
    ensures
        order_sum(by_freq(freq, n), f) == active_sum(freq, n, f),
    decreases n,
{
    if n > 0 {
        let rest = by_freq(freq, (n - 1) as nat);
        lemma_order_sum(freq, (n - 1) as nat, f);
        if freq[n - 1] > 0 {
            lemma_insert_sum(rest, freq, n - 1, f);
        }
    }
}

proof fn lemma_active_total(freq: Seq<usize>, n: nat)
    ensures
        active_sum(freq, n, |s: int| freq[s] as nat) == total(freq, n),
    decreases n,
{
    if n > 0 {
        lemma_active_total(freq, (n - 1) as nat);
    }
}

/// The queue of leaves weighs as much as the whole table.
pub proof fn lemma_leaves_total(freq: Seq<usize>, n: nat)
    ensures
        weight_all(leaves(by_freq(freq, n)), freq) == total(freq, n),
{
    lemma_leaves_weight(by_freq(freq, n), freq);
    lemma_order_sum(freq, n, |s: int| freq[s] as nat);
    lemma_active_total(freq, n);
}

/// A tree of a queue weighs no more than the queue.
pub proof fn lemma_weight_in(q: Seq<Tree>, freq: Seq<usize>, i: int)
    requires
        0 <= i < q.len(),
    ensures
        weight(q[i], freq) <= weight_all(q, freq),
    decreases q.len(),
{
    if i > 0 {
        lemma_weight_in(q.drop_first(), freq, i - 1);
    }
}

// ---- how deep a Huffman tree can be ----

pub open spec fn fib(n: nat) -> nat
    decreases n,
{
    if n == 0 {
        0
    } else if n == 1 {
        1
    } else {
        fib((n - 1) as nat) + fib((n - 2) as nat)
    }
}

/// No tree is lighter than the grandchildren on its sibling's side.
pub open spec fn steep(t: Tree, freq: Seq<usize>) -> bool
    decreases t,
{
    match t {
        Tree::Leaf(x) => freq[x] > 0,
        Tree::Node(l, r) => {
            &&& steep(*l, freq)
            &&& steep(*r, freq)
            &&& weight(*l, freq) >= kid(*r, freq)
            &&& weight(*r, freq) >= kid(*l, freq)
        },
    }
}

/// A steep tree grows at least as fast as the Fibonacci numbers.
pub proof fn lemma_steep_height(t: Tree, freq: Seq<usize>)
    requires
        steep(t, freq),
    ensures
        weight(t, freq) >= fib(height(t) + 2),
        t is Node ==> kid(t, freq) >= fib(height(t) + 1),
    decreases t,
{
    match t {
        Tree::Leaf(x) => {
            assert(fib(2) == 1) by {
                reveal_with_fuel(fib, 3);
            }
        },
        Tree::Node(l, r) => {
            lemma_steep_height(*l, freq);
            lemma_steep_height(*r, freq);
            let h = height(t);
            assert(fib(h + 2) == fib(h + 1) + fib(h));
            assert(fib(1) == 1 && fib(2) == 1) by {
                reveal_with_fuel(fib, 3);
            }
            if height(*l) >= height(*r) {
                assert(weight(*l, freq) >= fib(h + 1));
                if *l is Node {
                    assert(kid(*l, freq) >= fib(h));
                }
            } else {
                assert(weight(*r, freq) >= fib(h + 1));
                assert(*r is Node);
                assert(kid(*r, freq) >= fib(h));
            }
        },
    }
}

/// A symbol `d` deep in a steep tree is so much rarer than the tree is heavy.
pub proof fn lemma_steep_symbol(t: Tree, freq: Seq<usize>, d: nat, s: int)
    requires
        steep(t, freq),
        occ(t, s) > 0,
    ensures
        ({
            let k = (depth(t, d, s) - d) as nat;
            &&& depth(t, d, s) >= d
            &&& weight(t, freq) >= fib(k + 1) * freq[s]
            &&& t is Node ==> k >= 1 && kid(t, freq) >= fib(k) * freq[s]
        }),
    decreases t,
{
    let f = freq[s] as nat;
    match t {
        Tree::Leaf(x) => {
            assert(fib(1) == 1);
            assert(1 * f == f) by (nonlinear_arith);
        },
        Tree::Node(l, r) => {
            let u = if occ(*l, s) > 0 {
                *l
            } else {
                *r
            };
            lemma_steep_symbol(u, freq, d + 1, s);
            let k = (depth(t, d, s) - d) as nat;
            assert(depth(t, d, s) == depth(u, d + 1, s));
            assert(kid(t, freq) >= weight(u, freq));
            if u is Node {
                assert(fib(k + 1) == fib(k) + fib((k - 1) as nat));
                let a = fib(k);
                let b = fib((k - 1) as nat);
                assert((a + b) * f == a * f + b * f) by (nonlinear_arith);
            } else {
                assert(k == 1);
                assert(fib(1) == 1 && fib(2) == 1) by {
                    reveal_with_fuel(fib, 3);
                }
            }
        },
    }
}

pub proof fn lemma_fib_mono(a: nat, b: nat)
    requires
        a <= b,
    ensures
        fib(a) <= fib(b),
    decreases b,
{
    if a < b {
        if b >= 2 {
            lemma_fib_mono(a, (b - 1) as nat);
        }
    }
}

proof fn lemma_fib_ahead(k: nat)
    ensures
        fib(k + 4) == 2 * fib(k) + 3 * fib(k + 1),
        fib(k + 10) == 34 * fib(k) + 55 * fib(k + 1),
        fib(k + 11) == 55 * fib(k) + 89 * fib(k + 1),
{
    assert(fib(k + 2) == fib(k + 1) + fib(k));
    assert(fib(k + 3) == fib(k + 2) + fib(k + 1));
    assert(fib(k + 4) == fib(k + 3) + fib(k + 2));
    assert(fib(k + 5) == fib(k + 4) + fib(k + 3));
    assert(fib(k + 6) == fib(k + 5) + fib(k + 4));
    assert(fib(k + 7) == fib(k + 6) + fib(k + 5));
    assert(fib(k + 8) == fib(k + 7) + fib(k + 6));
    assert(fib(k + 9) == fib(k + 8) + fib(k + 7));
    assert(fib(k + 10) == fib(k + 9) + fib(k + 8));
    assert(fib(k + 11) == fib(k + 10) + fib(k + 9));
}

pub proof fn lemma_fib_11()
    ensures
        fib(11) == 89,
{
    assert(fib(0) == 0 && fib(1) == 1);
    lemma_fib_ahead(0);
}

proof fn lemma_fib_94()
    ensures
        fib(94) == 19740274219868223167,
{
    assert(fib(0) == 0 && fib(1) == 1);
    lemma_fib_ahead(0);
    lemma_fib_ahead(10);
    lemma_fib_ahead(20);
    lemma_fib_ahead(30);
    lemma_fib_ahead(40);
    lemma_fib_ahead(50);
    lemma_fib_ahead(60);
    lemma_fib_ahead(70);
    lemma_fib_ahead(80);
    lemma_fib_ahead(90);
}

/// What the two queues keep while the tree is built.
pub open spec fn queued(q1: Seq<Tree>, q2: Seq<Tree>, freq: Seq<usize>) -> bool {
    &&& forall|i: int, j: int|
        0 <= i <= j < q1.len() ==> weight(#[trigger] q1[i], freq) <= weight(
            #[trigger] q1[j],
            freq,
        )
    &&& forall|i: int, j: int|
        0 <= i <= j < q2.len() ==> weight(#[trigger] q2[i], freq) <= weight(
            #[trigger] q2[j],
            freq,
        )
    &&& forall|i: int| 0 <= i < q1.len() ==> #[trigger] q1[i] is Leaf && steep(q1[i], freq)
    &&& forall|i: int| 0 <= i < q2.len() ==> #[trigger] q2[i] is Node && steep(q2[i], freq)
    &&& forall|i: int, j: int|
        0 <= i < q1.len() && 0 <= j < q2.len() ==> weight(#[trigger] q1[i], freq) >= kid(
            #[trigger] q2[j],
            freq,
        )
    &&& forall|i: int, j: int|
        0 <= i < q2.len() && 0 <= j < q2.len() && i != j ==> weight(#[trigger] q2[i], freq) >= kid(
            #[trigger] q2[j],
            freq,
        )
}

pub proof fn lemma_pop(q1: Seq<Tree>, q2: Seq<Tree>, freq: Seq<usize>)
    requires
        queued(q1, q2, freq),
        q1.len() + q2.len() >= 1,
    ensures
        ({
            let (a, r1, r2) = pop(q1, q2, freq);
            &&& queued(r1, r2, freq)
            &&& steep(a, freq)
            &&& forall|i: int|
                0 <= i < r1.len() ==> {
                    &&& weight(#[trigger] r1[i], freq) >= weight(a, freq)
                    &&& weight(r1[i], freq) >= kid(a, freq)
                    &&& kid(r1[i], freq) == 0
                }
            &&& forall|i: int|
                0 <= i < r2.len() ==> {
                    &&& weight(#[trigger] r2[i], freq) >= weight(a, freq)
                    &&& weight(r2[i], freq) >= kid(a, freq)
                    &&& weight(a, freq) >= kid(r2[i], freq)
                }
            &&& r1.len() + r2.len() == q1.len() + q2.len() - 1
        }),
{
    let (a, r1, r2) = pop(q1, q2, freq);
    if q1.len() > 0 && (q2.len() == 0 || weight(q1[0], freq) <= weight(q2[0], freq)) {
        assert forall|i: int| 0 <= i < r1.len() implies r1[i] == #[trigger] q1[i + 1] by {}
        assert forall|i: int| 0 <= i < r1.len() implies {
            &&& weight(#[trigger] r1[i], freq) >= weight(a, freq)
            &&& weight(r1[i], freq) >= kid(a, freq)
            &&& kid(r1[i], freq) == 0
        } by {
            assert(r1[i] == q1[i + 1]);
            assert(weight(q1[0], freq) <= weight(q1[i + 1], freq));
            assert(q1[0] is Leaf);
        }
        assert forall|i: int| 0 <= i < r2.len() implies {
            &&& weight(#[trigger] r2[i], freq) >= weight(a, freq)
            &&& weight(r2[i], freq) >= kid(a, freq)
            &&& weight(a, freq) >= kid(r2[i], freq)
        } by {
            assert(weight(q2[0], freq) <= weight(q2[i], freq));
            assert(q1[0] is Leaf);
        }
    } else {
        assert forall|i: int| 0 <= i < r1.len() implies {
            &&& weight(#[trigger] r1[i], freq) >= weight(a, freq)
            &&& weight(r1[i], freq) >= kid(a, freq)
            &&& kid(r1[i], freq) == 0
        } by {
            assert(weight(q1[0], freq) <= weight(q1[i], freq));
            assert(q1[i] is Leaf);
        }
        assert forall|i: int| 0 <= i < r2.len() implies {
            &&& weight(#[trigger] r2[i], freq) >= weight(a, freq)
            &&& weight(r2[i], freq) >= kid(a, freq)
            &&& weight(a, freq) >= kid(r2[i], freq)
        } by {
            assert(r2[i] == q2[i + 1]);
            assert(weight(q2[0], freq) <= weight(q2[i + 1], freq));
        }
        assert forall|i: int| 0 <= i < r2.len() implies #[trigger] r2[i] is Node && steep(r2[i], freq) by {
            assert(r2[i] == q2[i + 1]);
            assert(steep(q2[i + 1], freq));
        }
        assert(steep(q2[0], freq));
    }
}

/// Joining two trees keeps what the queues keep.
pub proof fn lemma_join_queued(q1: Seq<Tree>, q2: Seq<Tree>, freq: Seq<usize>)
    requires
        queued(q1, q2, freq),
        q1.len() + q2.len() >= 2,
    ensures
        queued(join(q1, q2, freq).0, join(q1, q2, freq).1, freq),
{
    let (a, r1, r2) = pop(q1, q2, freq);
    let (b, s1, s2) = pop(r1, r2, freq);
    lemma_pop(q1, q2, freq);
    lemma_pop(r1, r2, freq);
    let t = Tree::Node(Box::new(a), Box::new(b));
    let p2 = s2.push(t);
    assert(weight(b, freq) >= weight(a, freq));
    assert(weight(b, freq) >= kid(a, freq) && weight(a, freq) >= kid(b, freq)) by {
        if r1.len() > 0 && (r2.len() == 0 || weight(r1[0], freq) <= weight(r2[0], freq)) {
            assert(b == r1[0]);
        } else {
            assert(b == r2[0]);
        }
    }
    assert(steep(t, freq));
    assert(kid(t, freq) == weight(b, freq));
    assert forall|i: int| 0 <= i < s2.len() implies #[trigger] weight(s2[i], freq) <= weight(t, freq)
        && weight(t, freq) >= kid(s2[i], freq) by {
        // A queued tree has children no heavier than the two that were popped.
        assert(exists|j: int| 0 <= j < r2.len() && #[trigger] r2[j] == s2[i]) by {
            if r1.len() > 0 && (r2.len() == 0 || weight(r1[0], freq) <= weight(r2[0], freq)) {
                assert(r2[i] == s2[i]);
            } else {
                assert(r2[i + 1] == s2[i]);
            }
        }
        let j = choose|j: int| 0 <= j < r2.len() && #[trigger] r2[j] == s2[i];
        assert(weight(a, freq) >= kid(r2[j], freq));
        assert(weight(b, freq) >= kid(s2[i], freq));
        assert(steep(s2[i], freq));
        match s2[i] {
            Tree::Leaf(x) => {
                assert(weight(s2[i], freq) >= weight(b, freq));
            },
            Tree::Node(l, r) => {},
        }
    }
    assert forall|i: int| 0 <= i < p2.len() implies #[trigger] p2[i] is Node && steep(p2[i], freq) by {
        if i < s2.len() {
            assert(p2[i] == s2[i]);
            assert(steep(s2[i], freq));
        }
    }
}

proof fn lemma_build_steep(q1: Seq<Tree>, q2: Seq<Tree>, freq: Seq<usize>)
    requires
        queued(q1, q2, freq),
        q1.len() + q2.len() >= 1,
    ensures
        steep(build(q1, q2, freq), freq),
    decreases q1.len() + q2.len(),
{
    if q1.len() + q2.len() > 1 {
        lemma_join_queued(q1, q2, freq);
        lemma_join_keeps(q1, q2, freq, 0);
        let (s1, s2) = join(q1, q2, freq);
        lemma_build_steep(s1, s2, freq);
    } else if q1.len() > 0 {
        assert(q1[0] is Leaf);
    } else {
        assert(q2[0] is Node);
    }
}

/// The leaves in order are queues as they should be.
pub proof fn lemma_leaves_queued(freq: Seq<usize>, n: nat)
    requires
        n <= freq.len(),
    ensures
        queued(leaves(by_freq(freq, n)), Seq::empty(), freq),
{
    lemma_by_freq(freq, n);
    let order = by_freq(freq, n);
    let q = leaves(order);
    assert forall|i: int, j: int| 0 <= i <= j < q.len() implies weight(#[trigger] q[i], freq)
        <= weight(#[trigger] q[j], freq) by {
        assert(freq[order[i]] <= freq[order[j]]);
    }
    assert forall|i: int| 0 <= i < q.len() implies #[trigger] q[i] is Leaf && steep(
        q[i],
        freq,
    ) by {
        assert(freq[order[i]] > 0);
    }
}

/// A Huffman tree is steep.
pub proof fn lemma_huffman_steep(freq: Seq<usize>, n: nat)
    requires
        n <= freq.len(),
        by_freq(freq, n).len() >= 1,
    ensures
        steep(huffman_tree(freq, n), freq),
        weight(huffman_tree(freq, n), freq) == total(freq, n),
{
    let q = leaves(by_freq(freq, n));
    lemma_leaves_queued(freq, n);
    lemma_build_steep(q, Seq::empty(), freq);
    lemma_leaves_total(freq, n);
    lemma_build_keeps(q, Seq::empty(), freq, 0);
}

/// A Huffman tree over counts that sum to less than 2^64 is at most 91 deep.
pub proof fn lemma_huffman_height(freq: Seq<usize>, n: nat)
    requires
        n <= freq.len(),
        by_freq(freq, n).len() >= 1,
        total(freq, n) <= u64::MAX,
    ensures
        height(huffman_tree(freq, n)) <= 91,
{
    let t = huffman_tree(freq, n);
    lemma_huffman_steep(freq, n);
    lemma_steep_height(t, freq);
    if height(t) > 91 {
        lemma_fib_mono(94, height(t) + 2);
        lemma_fib_94();
    }
}

// ---- sums over the leaves ----

/// The sum of `f` over the leaves, of their symbol and their depth.
pub open spec fn leaf_sum(t: Tree, d: nat, f: spec_fn(int, nat) -> nat) -> nat
    decreases t,
{
    match t {
        Tree::Leaf(s) => f(s, d),
        Tree::Node(l, r) => leaf_sum(*l, d + 1, f) + leaf_sum(*r, d + 1, f),
    }
}

/// The same sum, over the symbols below `n` that occur.
pub open spec fn symbol_sum(t: Tree, d: nat, f: spec_fn(int, nat) -> nat, n: nat) -> nat
    decreases n,
{
    if n == 0 {
        0
    } else {
        symbol_sum(t, d, f, (n - 1) as nat) + if occ(t, n - 1) > 0 {
            f(n - 1, depth(t, d, n - 1))
        } else {
            0
        }
    }
}

pub proof fn lemma_symbol_sum(t: Tree, d: nat, f: spec_fn(int, nat) -> nat, n: nat)
    requires
        forall|s: int| #[trigger] occ(t, s) <= 1,
        forall|s: int| #[trigger] occ(t, s) > 0 ==> 0 <= s < n,
    ensures
        symbol_sum(t, d, f, n) == leaf_sum(t, d, f),
    decreases t,
{
    match t {
        Tree::Leaf(x) => {
            assert(occ(t, x) == 1);
            lemma_leaf_symbol_sum(x, d, f, n);
        },
        Tree::Node(l, r) => {
            assert forall|s: int| #[trigger] occ(*l, s) <= 1 && (occ(*l, s) > 0 ==> 0 <= s
                < n) by {
                assert(occ(t, s) == occ(*l, s) + occ(*r, s));
            }
            assert forall|s: int| #[trigger] occ(*r, s) <= 1 && (occ(*r, s) > 0 ==> 0 <= s
                < n) by {
                assert(occ(t, s) == occ(*l, s) + occ(*r, s));
            }
            lemma_symbol_sum(*l, d + 1, f, n);
            lemma_symbol_sum(*r, d + 1, f, n);
            assert forall|s: int| occ(*l, s) + occ(*r, s) <= 1 by {
                assert(occ(t, s) == occ(*l, s) + occ(*r, s));
            }
            lemma_node_symbol_sum(*l, *r, d, f, n);
        },
    }
}

proof fn lemma_leaf_symbol_sum(x: int, d: nat, f: spec_fn(int, nat) -> nat, n: nat)
    requires
        0 <= x,
    ensures
        symbol_sum(Tree::Leaf(x), d, f, n) == if x < n {
            f(x, d)
        } else {
            0
        },
    decreases n,
{
    if n > 0 {
        lemma_leaf_symbol_sum(x, d, f, (n - 1) as nat);
    }
}

proof fn lemma_node_symbol_sum(l: Tree, r: Tree, d: nat, f: spec_fn(int, nat) -> nat, n: nat)
    requires
        forall|s: int| occ(l, s) + occ(r, s) <= 1,
    ensures
        symbol_sum(Tree::Node(Box::new(l), Box::new(r)), d, f, n) == symbol_sum(l, d + 1, f, n)
            + symbol_sum(r, d + 1, f, n),
    decreases n,
{
    if n > 0 {
        lemma_node_symbol_sum(l, r, d, f, (n - 1) as nat);
        assert(occ(l, n - 1) + occ(r, n - 1) <= 1);
    }
}

/// No symbol lies deeper than the tree is high, and none but a lone one at 0.
pub proof fn lemma_depth(t: Tree, d: nat, s: int)
    requires
        occ(t, s) > 0,
    ensures
        d <= depth(t, d, s) <= d + height(t),
        t is Node ==> depth(t, d, s) > d,
    decreases t,
{
    match t {
        Tree::Leaf(x) => {},
        Tree::Node(l, r) => {
            if occ(*l, s) > 0 {
                lemma_depth(*l, d + 1, s);
            } else {
                lemma_depth(*r, d + 1, s);
            }
        },
    }
}

} // verus!
