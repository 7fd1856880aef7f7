//! A block is coded by its bytes alone.
//!
//! Tables go on from block to block, but entries of earlier blocks end a chain
//! as no entry does. So what a block is coded to does not depend on what came
//! before it, as long as the positions fit in the table entries. This is what
//! lets equal blocks of two files have equal coded forms.

use crate::codec::bits;
use crate::codec::deflate;
use crate::codec::lz;
use crate::codec::lz::{Block, Chains};
use vstd::prelude::*;

verus! {

/// The same block at the start of a session.
pub open spec fn moved(b: Block) -> Block {
    Block { base: 0, ..b }
}

/// `x` is the entry `e` as it would be if the block started at 0.
spec fn same_entry(base: nat, e: Option<nat>, x: Option<nat>) -> bool {
    if e is Some && e->0 >= base {
        x == Some((e->0 - base) as nat)
    } else {
        x is None
    }
}

/// The tables `d` are the tables `c` as they would be if the block started at 0.
spec fn same_chains(b: Block, c: Chains, d: Chains) -> bool {
    &&& c.head.len() >= bits::p2(b.hash_bits)
    &&& d.head.len() >= bits::p2(b.hash_bits)
    &&& c.prev.len() >= b.window
    &&& d.prev.len() >= b.window
    &&& forall|h: int|
        0 <= h < bits::p2(b.hash_bits) ==> same_entry(b.base, #[trigger] c.head[h], d.head[h])
    &&& forall|x: nat|
        x < b.data.len() ==> same_entry(
            b.base,
            c.prev[#[trigger] lz::ring_slot(b.window, b.base + x)],
            d.prev[lz::ring_slot(b.window, x)],
        )
}

/// The window is a power of two, and the positions fit in the entries.
pub open spec fn movable(b: Block) -> bool {
    &&& b.wf()
    &&& exists|k: nat| k < 64 && b.window == bits::p2(k)
    &&& b.base + b.data.len() < b.modulus
}

/// In a ring of a power of two, positions share a slot if and only if they are a
/// multiple of its size apart.
pub proof fn lemma_ring_mod(window: nat, q: nat)
    requires
        exists|k: nat| k < 64 && window == bits::p2(k),
        1 <= window <= usize::MAX,
        q <= usize::MAX,
    ensures
        lz::ring_slot(window, q) == q % window,
{
    let k = choose|k: nat| k < 64 && window == bits::p2(k);
    let a = q as usize;
    let m = (window - 1) as usize;
    lz::lemma_pow2_is_p2(k);
    assert(k < usize::BITS) by {
        assert(usize::BITS == 64 || usize::BITS == 32);
        if usize::BITS == 32 && k >= 32 {
            bits::lemma_p2_mono(32, k);
            bits::lemma_p2_small();
            bits::lemma_p2_add(16, 16);
            assert(usize::MAX == 0xffff_ffff);
        }
    }
    vstd::bits::lemma_usize_low_bits_mask_is_mod(a, k);
}

/// Positions that share a slot after the move shared one before.
proof fn lemma_ring_moved(b: Block, x: nat, y: nat)
    requires
        movable(b),
        x < b.data.len(),
        y < b.data.len(),
    ensures
        lz::ring_slot(b.window, b.base + x) == lz::ring_slot(b.window, b.base + y)
            <==> lz::ring_slot(b.window, x) == lz::ring_slot(b.window, y),
{
    lemma_ring_mod(b.window, b.base + x);
    lemma_ring_mod(b.window, b.base + y);
    lemma_ring_mod(b.window, x);
    lemma_ring_mod(b.window, y);
    let w = b.window as int;
    let p = b.base as int;
    vstd::arithmetic::div_mod::lemma_mod_equivalence(p + x, p + y, w);
    vstd::arithmetic::div_mod::lemma_mod_equivalence(x as int, y as int, w);
}

proof fn lemma_same_entered(b: Block, c: Chains, d: Chains, i: int)
    requires
        movable(b),
        same_chains(b, c, d),
        0 <= i < b.data.len(),
    ensures
        same_chains(b, b.entered(c, i), moved(b).entered(d, i)),
{
    let c2 = b.entered(c, i);
    let d2 = moved(b).entered(d, i);
    let h = lz::hash_at(b.data, i, b.hash_bits) as int;
    lz::lemma_hash(b.data, i, b.hash_bits);
    let v = (b.base + i) as nat;
    lz::lemma_ring_slot(b.window, v);
    lz::lemma_ring_slot(b.window, i as nat);
    assert(v % b.modulus == v) by {
        vstd::arithmetic::div_mod::lemma_small_mod(v, b.modulus);
    }
    assert(i as nat % b.modulus == i) by {
        vstd::arithmetic::div_mod::lemma_small_mod(i as nat, b.modulus);
    }
    assert forall|k: int| 0 <= k < bits::p2(b.hash_bits) implies same_entry(
        b.base,
        #[trigger] c2.head[k],
        d2.head[k],
    ) by {
        if k != h {
            assert(c2.head[k] == c.head[k]);
            assert(d2.head[k] == d.head[k]);
        }
    }
    assert forall|x: nat| x < b.data.len() implies same_entry(
        b.base,
        c2.prev[#[trigger] lz::ring_slot(b.window, b.base + x)],
        d2.prev[lz::ring_slot(b.window, x)],
    ) by {
        lemma_ring_moved(b, x, i as nat);
        lz::lemma_ring_slot(b.window, b.base + x);
        lz::lemma_ring_slot(b.window, x);
        assert(b.base + i as nat == v);
        assert(same_entry(b.base, c.head[h], d.head[h]));
        assert(same_entry(
            b.base,
            c.prev[lz::ring_slot(b.window, b.base + x)],
            d.prev[lz::ring_slot(b.window, x)],
        ));
    }
}

/// The link behind an entry of this block.
proof fn lemma_same_next(b: Block, c: Chains, d: Chains, q: nat)
    requires
        movable(b),
        same_chains(b, c, d),
        b.base <= q < b.base + b.data.len(),
    ensures
        same_entry(
            b.base,
            c.prev[lz::ring_slot(b.window, q)],
            d.prev[lz::ring_slot(b.window, (q - b.base) as nat)],
        ),
{
    let x = (q - b.base) as nat;
    assert(b.base + x == q);
    assert(same_entry(
        b.base,
        c.prev[lz::ring_slot(b.window, b.base + x)],
        d.prev[lz::ring_slot(b.window, x)],
    ));
}

proof fn lemma_same_best(
    b: Block,
    c: Chains,
    d: Chains,
    i: int,
    pos: Option<nat>,
    at: Option<nat>,
    tried: nat,
    depth: nat,
    best: (nat, nat),
)
    requires
        movable(b),
        same_chains(b, c, d),
        0 <= i < b.data.len(),
        same_entry(b.base, pos, at),
    ensures
        b.best_from(c.prev, i, pos, tried, depth, best) == moved(b).best_from(
            d.prev,
            i,
            at,
            tried,
            depth,
            best,
        ),
    decreases b.chain() - tried,
{
    let m = moved(b);
    if pos is Some && pos->0 >= b.base && !(tried >= depth || tried >= b.chain() || pos->0
        < b.min_pos(i)) {
        let q = pos->0;
        let p = q - b.base;
        if p < i {
            lemma_same_next(b, c, d, q);
            let next = c.prev[lz::ring_slot(b.window, q)];
            let then = d.prev[lz::ring_slot(b.window, p as nat)];
            let limit = b.longest(i);
            let l = lz::common(b.data, p, i, 0, limit);
            if best.0 < limit && b.data[p] == b.data[i] && b.data[p + best.0] == b.data[i + best.0]
                && l > best.0 {
                let found = (l, (i - p) as nat);
                let depth2 = if l >= 32 {
                    b.chain() / 8
                } else if l >= 8 {
                    b.chain() / 2
                } else {
                    depth
                };
                lemma_same_best(b, c, d, i, next, then, tried + 1, depth2, found);
            } else {
                lemma_same_best(b, c, d, i, next, then, tried + 1, depth, best);
            }
        }
    }
}

proof fn lemma_same_better(
    b: Block,
    c: Chains,
    d: Chains,
    j: int,
    pos: Option<nat>,
    at: Option<nat>,
    tried: nat,
    best: (nat, nat),
)
    requires
        movable(b),
        same_chains(b, c, d),
        0 <= j < b.data.len(),
        c.prev.len() >= b.window,
        lz::below(c.prev, b.base + j),
        pos is Some ==> pos->0 < b.base + j,
        same_entry(b.base, pos, at),
    ensures
        b.better_from(c.prev, j, pos, tried, best) == moved(b).better_from(
            d.prev,
            j,
            at,
            tried,
            best,
        ),
    decreases b.chain() - tried,
{
    if pos is Some && pos->0 >= b.base && !(tried >= b.chain() / 2 || pos->0 < b.min_pos(j)) {
        let q = pos->0;
        let p = q - b.base;
        lemma_same_next(b, c, d, q);
        lz::lemma_ring_slot(b.window, q);
        let next = c.prev[lz::ring_slot(b.window, q)];
        let then = d.prev[lz::ring_slot(b.window, p as nat)];
        lemma_same_better(b, c, d, j, next, then, tried + 1, best);
    }
}

proof fn lemma_same_better_at(b: Block, c: Chains, d: Chains, i: int, best: (nat, nat))
    requires
        movable(b),
        same_chains(b, c, d),
        b.fresh(c, i + 1),
        0 <= i,
    ensures
        b.better_at(c, i, best) == moved(b).better_at(d, i, best),
{
    if best.0 < 32 && i + 4 <= b.data.len() {
        let h = lz::hash_at(b.data, i + 1, b.hash_bits) as int;
        lz::lemma_hash(b.data, i + 1, b.hash_bits);
        assert(same_entry(b.base, c.head[h], d.head[h]));
        assert(c.head[h] is Some ==> c.head[h]->0 < b.base + i + 1);
        lemma_same_better(b, c, d, i + 1, c.head[h], d.head[h], 0, best);
    }
}

proof fn lemma_same_run(b: Block, c: Chains, d: Chains, i: int, len: nat, j: nat, step: nat)
    requires
        movable(b),
        same_chains(b, c, d),
        0 <= i,
    ensures
        same_chains(
            b,
            b.entered_run(c, i, len, j, step),
            moved(b).entered_run(d, i, len, j, step),
        ),
    decreases
            if j < len {
                len - j
            } else {
                0
            },
{
    if j < len && step > 0 {
        if i + j + 3 <= b.data.len() {
            lemma_same_entered(b, c, d, i + j);
            lemma_same_run(
                b,
                b.entered(c, i + j),
                moved(b).entered(d, i + j),
                i,
                len,
                j + step,
                step,
            );
        } else {
            lemma_same_run(b, c, d, i, len, j + step, step);
        }
    }
}

proof fn lemma_same_step(b: Block, c: Chains, d: Chains, i: int)
    requires
        movable(b),
        same_chains(b, c, d),
        b.fresh(c, i),
        0 <= i < b.data.len(),
    ensures
        b.step(c, i).0 == moved(b).step(d, i).0,
        b.step(c, i).2 == moved(b).step(d, i).2,
        same_chains(b, b.step(c, i).1, moved(b).step(d, i).1),
{
    let m = moved(b);
    lz::lemma_best_at(b, c, i);
    if i + 3 <= b.data.len() {
        let h = lz::hash_at(b.data, i, b.hash_bits) as int;
        lz::lemma_hash(b.data, i, b.hash_bits);
        lemma_same_entered(b, c, d, i);
        assert(same_entry(b.base, c.head[h], d.head[h]));
        lemma_same_best(
            b,
            b.entered(c, i),
            m.entered(d, i),
            i,
            c.head[h],
            d.head[h],
            0,
            b.chain(),
            (0, 0),
        );
    }
    let (best, c1) = b.best_at(c, i);
    let (best2, d1) = m.best_at(d, i);
    assert(best == best2);
    assert(same_chains(b, c1, d1));
    if best.0 >= 3 {
        lz::lemma_deferred(b, c1, i, best);
        lemma_same_better_at(b, c1, d1, i, best);
        match b.better_at(c1, i, best) {
            None => {},
            Some(b1) => {
                let c2 = b.entered(c1, i + 1);
                let d2 = m.entered(d1, i + 1);
                lz::lemma_better_at(b, c1, i, best);
                lz::lemma_fresh_later(b, c1, i + 1, i + 2);
                lz::lemma_entered(b, c1, i + 1, i + 2);
                lemma_same_entered(b, c1, d1, i + 1);
                lemma_same_better_at(b, c2, d2, i + 1, b1);
                match b.better_at(c2, i + 1, b1) {
                    None => {},
                    Some(b2) => {
                        lz::lemma_better_at(b, c2, i + 1, b1);
                        lemma_same_entered(b, c2, d2, i + 2);
                    },
                }
            },
        }
        let (skip, found, c3) = b.deferred(c1, i, best);
        let (skip2, found2, d3) = m.deferred(d1, i, best);
        assert(skip == skip2 && found == found2 && same_chains(b, c3, d3));
        let stride: nat = if found.0 >= 64 {
            4
        } else {
            1
        };
        lemma_same_run(b, c3, d3, i + skip, found.0, 1, stride);
        assert(b.literals(i, skip) =~= m.literals(i, skip));
    }
}

proof fn lemma_same_tokens(b: Block, c: Chains, d: Chains, i: int)
    requires
        movable(b),
        same_chains(b, c, d),
        b.fresh(c, i),
        0 <= i <= b.data.len(),
    ensures
        b.tokens_from(c, i).0 == moved(b).tokens_from(d, i).0,
    decreases b.data.len() - i,
{
    if i < b.data.len() {
        lemma_same_step(b, c, d, i);
        lz::lemma_step(b, c, i);
        let (toks, c2, used) = b.step(c, i);
        lemma_same_tokens(b, c2, moved(b).step(d, i).1, i + used);
    }
}

/// What a block is coded to is what it is coded to on its own, whatever the
/// tables know of blocks before it.
pub proof fn lemma_coded_alone(b: Block, c: Chains, version: u8)
    requires
        movable(b),
        b.fresh(c, 0),
    ensures
        deflate::deflated(b, c, version) == deflate::deflated(
            moved(b),
            deflate::no_chains(bits::p2(b.hash_bits), b.window),
            version,
        ),
{
    let d = deflate::no_chains(bits::p2(b.hash_bits), b.window);
    assert forall|x: nat| x < b.data.len() implies same_entry(
        b.base,
        c.prev[#[trigger] lz::ring_slot(b.window, b.base + x)],
        d.prev[lz::ring_slot(b.window, x)],
    ) by {
        lz::lemma_ring_slot(b.window, b.base + x);
        lz::lemma_ring_slot(b.window, x);
    }
    lemma_same_tokens(b, c, d, 0);
}

} // verus!
