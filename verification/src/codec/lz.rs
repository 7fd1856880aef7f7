//! Repeats in a block of data.
//!
//! Positions are chained by a hash of the bytes that stand there: `head` holds
//! the latest position of each hash and `prev`, a ring as large as the window,
//! the position before each. Positions count from the first block of a session;
//! `base` is where the block at hand starts. A repeat never reaches back over
//! the start of its block.

use crate::codec::bits;
use vstd::prelude::*;

verus! {

pub const LZV2_WINDOW_SIZE: usize = 65536;

pub const LZV2_HASH_BITS: usize = 16;

pub const LZV2_HASH_SIZE: usize = 65536;

pub const LZV2_MIN_MATCH: usize = 3;

pub const LZV2_MAX_MATCH: usize = 258;

/// From this length on a repeat is taken without looking for a better one.
pub const GOOD_MATCH: usize = 32;

// ---- entries of the tables ----

/// What a table keeps of position `v`: `v` modulo `m`, or nothing where that is
/// the value that stands for no position.
pub open spec fn stored(m: nat, v: nat) -> Option<nat> {
    if v % m == m - 1 {
        None
    } else {
        Some((v % m) as nat)
    }
}

/// An integer type that tables keep positions in.
pub trait TableIndex: Copy {
    /// Positions are kept modulo this number; the largest remainder means none.
    spec fn modulus() -> nat;

    /// The largest position that may be kept.
    spec fn limit() -> nat;

    /// The position.
    spec fn position(self) -> Option<nat>;

    proof fn lemma_modulus()
        ensures
            Self::modulus() >= 2,
    ;

    fn sentinel() -> (r: Self)
        ensures
            r.position() is None,
    ;

    fn to_usize(self) -> (r: usize)
        requires
            self.position() is Some,
        ensures
            self.position() == Some(r as nat),
    ;

    fn from_usize(val: usize) -> (r: Self)
        requires
            val <= Self::limit(),
        ensures
            r.position() == stored(Self::modulus(), val as nat),
    ;

    fn is_sentinel(self) -> (r: bool)
        ensures
            r == (self.position() is None),
    ;
}

impl TableIndex for u16 {
    open spec fn modulus() -> nat {
        0x1_0000
    }

    open spec fn limit() -> nat {
        usize::MAX as nat
    }

    open spec fn position(self) -> Option<nat> {
        if self == 0xffff {
            None
        } else {
            Some(self as nat)
        }
    }

    proof fn lemma_modulus() {
    }

    fn sentinel() -> (r: Self) {
        0xffff
    }

    fn to_usize(self) -> (r: usize) {
        self as usize
    }

    fn from_usize(val: usize) -> (r: Self) {
        (val % 0x1_0000) as u16
    }

    fn is_sentinel(self) -> (r: bool) {
        self == 0xffff
    }
}

impl TableIndex for u32 {
    open spec fn modulus() -> nat {
        0x1_0000_0000
    }

    open spec fn limit() -> nat {
        usize::MAX as nat
    }

    open spec fn position(self) -> Option<nat> {
        if self == 0xffff_ffff {
            None
        } else {
            Some(self as nat)
        }
    }

    proof fn lemma_modulus() {
    }

    fn sentinel() -> (r: Self) {
        0xffff_ffff
    }

    fn to_usize(self) -> (r: usize) {
        self as usize
    }

    fn from_usize(val: usize) -> (r: Self) {
        (val as u64 % 0x1_0000_0000) as u32
    }

    fn is_sentinel(self) -> (r: bool) {
        self == 0xffff_ffff
    }
}

impl TableIndex for i32 {
    open spec fn modulus() -> nat {
        0x1_0000_0000
    }

    open spec fn limit() -> nat {
        0x7fff_ffff
    }

    open spec fn position(self) -> Option<nat> {
        if self < 0 {
            None
        } else {
            Some(self as nat)
        }
    }

    proof fn lemma_modulus() {
    }

    fn sentinel() -> (r: Self) {
        -1
    }

    fn to_usize(self) -> (r: usize) {
        self as usize
    }

    fn from_usize(val: usize) -> (r: Self) {
        assert(val as nat % 0x1_0000_0000 == val);
        val as i32
    }

    fn is_sentinel(self) -> (r: bool) {
        self < 0
    }
}

// ---- the search ----

/// A literal byte, or a repeat of `len` bytes that stand `dist` bytes back.
pub enum Token {
    Literal(u8),
    Repeat(nat, nat),
}

/// The tables.
pub struct Chains {
    pub head: Seq<Option<nat>>,
    pub prev: Seq<Option<nat>>,
}

/// What stays the same while a block is searched.
pub struct Block {
    pub data: Seq<u8>,
    /// The modulus of the table entries.
    pub modulus: nat,
    pub window: nat,
    pub base: nat,
    pub hash_bits: nat,
}

/// How many positions of a chain are tried at most.
pub open spec fn chain_limit(window: nat) -> nat {
    if window <= 65536 {
        128
    } else if window == 131072 {
        256
    } else if window == 262144 {
        512
    } else if window == 524288 {
        1024
    } else if window == 1048576 {
        1536
    } else if window == 2097152 {
        2048
    } else if window == 4194304 {
        3072
    } else {
        4096
    }
}

/// Up to four bytes at `pos` as a number, the first the lowest.
pub open spec fn word_at(data: Seq<u8>, pos: int) -> nat {
    let byte = |k: int|
        if pos + k < data.len() {
            data[pos + k] as nat
        } else {
            0
        };
    byte(0) + 256 * byte(1) + 65536 * byte(2) + 16777216 * byte(3)
}

/// The top `hash_bits` bits of the product of the word with a constant.
pub open spec fn hash_at(data: Seq<u8>, pos: int, hash_bits: nat) -> nat {
    ((word_at(data, pos) * 0x1E35A7BD) % 0x1_0000_0000) / bits::p2((32 - hash_bits) as nat)
}

/// Where the ring keeps what is known of position `q`.
pub open spec fn ring_slot(window: nat, q: nat) -> int {
    ((q as usize) & ((window - 1) as usize)) as int
}

/// How many bytes at `p` and at `i` are alike, from the `l`-th on, up to `limit`.
pub open spec fn common(data: Seq<u8>, p: int, i: int, l: nat, limit: nat) -> nat
    decreases limit - l,
{
    if l < limit && data[p + l] == data[i + l] {
        common(data, p, i, l + 1, limit)
    } else {
        l
    }
}

/// The first position that a repeat at `i` may reach back to.
pub open spec fn earliest(window: nat, base: nat, i: int) -> int {
    let reach = if window <= 65536 {
        window as int
    } else {
        65536
    };
    if i <= reach {
        base as int
    } else {
        base + i - reach
    }
}

pub open spec fn literals_at(data: Seq<u8>, i: int, k: nat) -> Seq<Token> {
    Seq::new(k, |j: int| Token::Literal(data[i + j]))
}

/// `skip` literals at `i`, and a repeat behind them unless `len` is 0.
pub open spec fn emitted(data: Seq<u8>, i: int, skip: nat, len: nat, dist: nat) -> Seq<Token> {
    if len == 0 {
        literals_at(data, i, skip)
    } else {
        literals_at(data, i, skip).push(Token::Repeat(len, dist))
    }
}

impl Block {
    pub open spec fn chain(self) -> nat {
        chain_limit(self.window)
    }

    pub open spec fn min_pos(self, i: int) -> int {
        earliest(self.window, self.base, i)
    }

    /// The longest repeat at `i` that there can be.
    pub open spec fn longest(self, i: int) -> nat {
        if self.data.len() - i <= 258 {
            (self.data.len() - i) as nat
        } else {
            258
        }
    }

    /// The tables once position `i` of the block was entered.
    pub open spec fn entered(self, c: Chains, i: int) -> Chains {
        let h = hash_at(self.data, i, self.hash_bits) as int;
        Chains {
            head: c.head.update(h, stored(self.modulus, (self.base + i) as nat)),
            prev: c.prev.update(ring_slot(self.window, (self.base + i) as nat), c.head[h]),
        }
    }

    /// The best repeat at `i` (length and distance) down a chain from `pos`, of
    /// which `tried` were tried and at most `depth` are.
    pub open spec fn best_from(
        self,
        prev: Seq<Option<nat>>,
        i: int,
        pos: Option<nat>,
        tried: nat,
        depth: nat,
        best: (nat, nat),
    ) -> (nat, nat)
        decreases self.chain() - tried,
    {
        if tried >= depth || tried >= self.chain() || pos is None || pos->0 < self.min_pos(i) {
            best
        } else {
            let q = pos->0;
            let p = q - self.base;
            let next = prev[ring_slot(self.window, q)];
            let limit = self.longest(i);
            if p >= i {
                best
            } else if best.0 < limit && self.data[p] == self.data[i] && self.data[p + best.0]
                == self.data[i + best.0] && common(self.data, p, i, 0, limit) > best.0 {
                let l = common(self.data, p, i, 0, limit);
                let found = (l, (i - p) as nat);
                if l == 258 {
                    found
                } else {
                    let depth2 = if l >= 32 {
                        self.chain() / 8
                    } else if l >= 8 {
                        self.chain() / 2
                    } else {
                        depth
                    };
                    self.best_from(prev, i, next, tried + 1, depth2, found)
                }
            } else {
                self.best_from(prev, i, next, tried + 1, depth, best)
            }
        }
    }

    /// The first repeat at `j` down a chain that is longer than `best`, or as
    /// long and less than a quarter as far.
    pub open spec fn better_from(
        self,
        prev: Seq<Option<nat>>,
        j: int,
        pos: Option<nat>,
        tried: nat,
        best: (nat, nat),
    ) -> Option<(nat, nat)>
        decreases self.chain() - tried,
    {
        if tried >= self.chain() / 2 || pos is None || pos->0 < self.min_pos(j) {
            None
        } else {
            let q = pos->0;
            let p = q - self.base;
            let next = prev[ring_slot(self.window, q)];
            let limit = self.longest(j);
            let l = common(self.data, p, j, 0, limit);
            let d = (j - p) as nat;
            if best.0 <= limit && self.data[p] == self.data[j] && self.data[p + best.0 - 1]
                == self.data[j + best.0 - 1] && (l > best.0 || (l == best.0 && d < best.1 / 4)) {
                Some((l, d))
            } else {
                self.better_from(prev, j, next, tried + 1, best)
            }
        }
    }

    /// A better repeat one byte on, where it is worth looking for one.
    pub open spec fn better_at(self, c: Chains, i: int, best: (nat, nat)) -> Option<(nat, nat)> {
        if best.0 < 32 && i + 4 <= self.data.len() {
            self.better_from(
                c.prev,
                i + 1,
                c.head[hash_at(self.data, i + 1, self.hash_bits) as int],
                0,
                best,
            )
        } else {
            None
        }
    }

    /// The tables once the positions behind the start of a repeat at `i` of
    /// `len` bytes were entered, from the `j`-th on, each `step`-th of them.
    pub open spec fn entered_run(self, c: Chains, i: int, len: nat, j: nat, step: nat) -> Chains
        decreases
                if j < len {
                    len - j
                } else {
                    0
                },
    {
        if j >= len || step == 0 {
            c
        } else {
            let c2 = if i + j + 3 <= self.data.len() {
                self.entered(c, i + j)
            } else {
                c
            };
            self.entered_run(c2, i, len, j + step, step)
        }
    }

    /// The best repeat at `i` and the tables with `i` entered.
    pub open spec fn best_at(self, c: Chains, i: int) -> ((nat, nat), Chains) {
        if i + 3 <= self.data.len() {
            let first = c.head[hash_at(self.data, i, self.hash_bits) as int];
            let c2 = self.entered(c, i);
            let best = self.best_from(c2.prev, i, first, 0, self.chain(), (0, 0));
            if best.0 == 3 && best.1 > 4096 {
                ((0, best.1), c2)
            } else {
                (best, c2)
            }
        } else {
            ((0, 0), c)
        }
    }

    /// How many bytes, none to two, are passed over in favour of a better repeat
    /// behind them; that repeat; and the tables then.
    pub open spec fn deferred(self, c: Chains, i: int, best: (nat, nat)) -> (
        nat,
        (nat, nat),
        Chains,
    ) {
        match self.better_at(c, i, best) {
            None => (0, best, c),
            Some(b1) => {
                let c1 = self.entered(c, i + 1);
                match self.better_at(c1, i + 1, b1) {
                    None => (1, b1, c1),
                    Some(b2) => (2, b2, self.entered(c1, i + 2)),
                }
            },
        }
    }

    pub open spec fn literals(self, i: int, k: nat) -> Seq<Token> {
        literals_at(self.data, i, k)
    }

    /// The tokens that come next at `i`, the tables after them, and how many
    /// bytes they stand for.
    pub open spec fn step(self, c: Chains, i: int) -> (Seq<Token>, Chains, nat) {
        let (best, c1) = self.best_at(c, i);
        if best.0 >= 3 {
            let (skip, found, c2) = self.deferred(c1, i, best);
            let stride = if found.0 >= 64 {
                4
            } else {
                1
            };
            (
                self.literals(i, skip).push(Token::Repeat(found.0, found.1)),
                self.entered_run(c2, i + skip, found.0, 1, stride),
                skip + found.0,
            )
        } else {
            (self.literals(i, 1), c1, 1)
        }
    }

    /// The tokens from `i` on, and the tables at the end.
    pub open spec fn tokens_from(self, c: Chains, i: int) -> (Seq<Token>, Chains)
        decreases
                if i < self.data.len() {
                    self.data.len() - i
                } else {
                    0
                },
    {
        if i >= self.data.len() {
            (Seq::empty(), c)
        } else {
            let (head, c2, used) = self.step(c, i);
            if used == 0 {
                (head, c2)
            } else {
                let (tail, c3) = self.tokens_from(c2, i + used);
                (head + tail, c3)
            }
        }
    }
}

// ---- what the search finds ----

/// The `len` bytes at `i` stand `dist` bytes further back as well.
pub open spec fn valid_repeat(data: Seq<u8>, i: int, len: nat, dist: nat) -> bool {
    &&& 1 <= dist <= i
    &&& dist <= 65536
    &&& len <= 258
    &&& i + len <= data.len()
    &&& forall|k: int| i <= k < i + len ==> data[k] == #[trigger] data[k - dist]
}

/// Every entry is a position before `bound`.
pub open spec fn below(entries: Seq<Option<nat>>, bound: int) -> bool {
    forall|k: int|
        0 <= k < entries.len() && (#[trigger] entries[k]) is Some ==> entries[k]->0 < bound
}

impl Block {
    pub open spec fn wf(self) -> bool {
        &&& self.modulus >= 2
        &&& 1 <= self.window <= usize::MAX
        &&& 1 <= self.hash_bits <= 32
        &&& self.base + self.data.len() <= usize::MAX
    }

    /// The tables are large enough and know positions before `i` only.
    pub open spec fn fresh(self, c: Chains, i: int) -> bool {
        &&& c.head.len() >= bits::p2(self.hash_bits)
        &&& c.prev.len() >= self.window
        &&& below(c.head, self.base + i)
        &&& below(c.prev, self.base + i)
    }
}

pub proof fn lemma_common(data: Seq<u8>, p: int, i: int, l: nat, limit: nat)
    requires
        l <= limit,
    ensures
        l <= common(data, p, i, l, limit) <= limit,
        forall|k: int|
            l <= k < common(data, p, i, l, limit) ==> #[trigger] data[p + k] == data[i + k],
    decreases limit - l,
{
    if l < limit && data[p + l] == data[i + l] {
        lemma_common(data, p, i, l + 1, limit);
    }
}

proof fn lemma_common_repeat(data: Seq<u8>, p: int, i: int, limit: nat)
    requires
        0 <= p < i,
        i - p <= 65536,
        limit <= 258,
        i + limit <= data.len(),
    ensures
        valid_repeat(data, i, common(data, p, i, 0, limit), (i - p) as nat),
{
    lemma_common(data, p, i, 0, limit);
    let l = common(data, p, i, 0, limit);
    assert forall|k: int| i <= k < i + l implies data[k] == #[trigger] data[k - (i - p)] by {
        assert(data[p + (k - i)] == data[i + (k - i)]);
    }
}

pub proof fn lemma_ring_slot(window: nat, q: nat)
    requires
        1 <= window <= usize::MAX,
    ensures
        0 <= ring_slot(window, q) < window,
{
    let a = q as usize;
    let b = (window - 1) as usize;
    assert(a & b <= b) by (bit_vector);
}

pub proof fn lemma_hash(data: Seq<u8>, pos: int, hash_bits: nat)
    requires
        1 <= hash_bits <= 32,
    ensures
        hash_at(data, pos, hash_bits) < bits::p2(hash_bits),
{
    let x = ((word_at(data, pos) * 0x1E35A7BD) % 0x1_0000_0000) as nat;
    let d = bits::p2((32 - hash_bits) as nat);
    let h = bits::p2(hash_bits);
    bits::lemma_p2_add(hash_bits, (32 - hash_bits) as nat);
    bits::lemma_p2_pos((32 - hash_bits) as nat);
    assert(bits::p2(32) == 0x1_0000_0000) by {
        bits::lemma_p2_small();
        bits::lemma_p2_add(16, 16);
    }
    assert(x / d < h) by (nonlinear_arith)
        requires
            x < h * d,
            d >= 1,
    ;
}

/// Entering a position keeps the tables before any bound behind it.
pub proof fn lemma_entered(b: Block, c: Chains, i: int, bound: int)
    requires
        b.wf(),
        b.fresh(c, bound),
        0 <= i < bound,
    ensures
        b.fresh(b.entered(c, i), bound),
        b.entered(c, i).head.len() == c.head.len(),
        b.entered(c, i).prev.len() == c.prev.len(),
{
    let c2 = b.entered(c, i);
    let h = hash_at(b.data, i, b.hash_bits) as int;
    let v = (b.base + i) as nat;
    lemma_hash(b.data, i, b.hash_bits);
    lemma_ring_slot(b.window, v);
    assert(v % b.modulus <= v) by (nonlinear_arith)
        requires
            b.modulus >= 2,
    ;
    assert forall|k: int| 0 <= k < c2.head.len() && (#[trigger] c2.head[k]) is Some implies c2.head[k]->0
        < b.base + bound by {
        if k != h {
            assert(c2.head[k] == c.head[k]);
        }
    }
    assert forall|k: int| 0 <= k < c2.prev.len() && (#[trigger] c2.prev[k]) is Some implies c2.prev[k]->0
        < b.base + bound by {
        if k != ring_slot(b.window, v) {
            assert(c2.prev[k] == c.prev[k]);
        } else {
            assert(c2.prev[k] == c.head[h]);
        }
    }
}

/// Entries that are before a bound are before a later one.
pub proof fn lemma_fresh_later(b: Block, c: Chains, i: int, j: int)
    requires
        b.fresh(c, i),
        i <= j,
    ensures
        b.fresh(c, j),
{
}

/// What the search down a chain finds is a repeat.
pub proof fn lemma_best_from(
    b: Block,
    prev: Seq<Option<nat>>,
    i: int,
    pos: Option<nat>,
    tried: nat,
    depth: nat,
    best: (nat, nat),
)
    requires
        0 <= i < b.data.len(),
        best.0 > 0 ==> valid_repeat(b.data, i, best.0, best.1),
    ensures
        ({
            let r = b.best_from(prev, i, pos, tried, depth, best);
            r.0 > 0 ==> valid_repeat(b.data, i, r.0, r.1)
        }),
    decreases b.chain() - tried,
{
    if !(tried >= depth || tried >= b.chain() || pos is None || pos->0 < b.min_pos(i)) {
        let q = pos->0;
        let p = q - b.base;
        let next = prev[ring_slot(b.window, q)];
        let limit = b.longest(i);
        if p < i {
            lemma_common_repeat(b.data, p, i, limit);
            let l = common(b.data, p, i, 0, limit);
            if best.0 < limit && b.data[p] == b.data[i] && b.data[p + best.0] == b.data[i + best.0]
                && l > best.0 {
                let found = (l, (i - p) as nat);
                if l != 258 {
                    let depth2 = if l >= 32 {
                        b.chain() / 8
                    } else if l >= 8 {
                        b.chain() / 2
                    } else {
                        depth
                    };
                    lemma_best_from(b, prev, i, next, tried + 1, depth2, found);
                }
            } else {
                lemma_best_from(b, prev, i, next, tried + 1, depth, best);
            }
        }
    }
}

pub proof fn lemma_better_from(
    b: Block,
    prev: Seq<Option<nat>>,
    j: int,
    pos: Option<nat>,
    tried: nat,
    best: (nat, nat),
)
    requires
        b.wf(),
        0 <= j < b.data.len(),
        prev.len() >= b.window,
        below(prev, b.base + j),
        pos is Some ==> pos->0 < b.base + j,
    ensures
        match b.better_from(prev, j, pos, tried, best) {
            None => true,
            Some(r) => r.0 >= best.0 && valid_repeat(b.data, j, r.0, r.1),
        },
    decreases b.chain() - tried,
{
    if !(tried >= b.chain() / 2 || pos is None || pos->0 < b.min_pos(j)) {
        let q = pos->0;
        let p = q - b.base;
        let limit = b.longest(j);
        lemma_ring_slot(b.window, q);
        lemma_common_repeat(b.data, p, j, limit);
        lemma_better_from(b, prev, j, prev[ring_slot(b.window, q)], tried + 1, best);
    }
}

pub proof fn lemma_better_at(b: Block, c: Chains, i: int, best: (nat, nat))
    requires
        b.wf(),
        b.fresh(c, i + 1),
        0 <= i,
    ensures
        match b.better_at(c, i, best) {
            None => true,
            Some(r) => r.0 >= best.0 && valid_repeat(b.data, i + 1, r.0, r.1) && i + 4
                <= b.data.len(),
        },
{
    if best.0 < 32 && i + 4 <= b.data.len() {
        let h = hash_at(b.data, i + 1, b.hash_bits) as int;
        lemma_hash(b.data, i + 1, b.hash_bits);
        assert(c.head[h] is Some ==> c.head[h]->0 < b.base + i + 1);
        lemma_better_from(b, c.prev, i + 1, c.head[h], 0, best);
    }
}

pub proof fn lemma_best_at(b: Block, c: Chains, i: int)
    requires
        b.wf(),
        b.fresh(c, i),
        0 <= i < b.data.len(),
    ensures
        b.fresh(b.best_at(c, i).1, i + 1),
        b.best_at(c, i).0.0 > 0 ==> valid_repeat(
            b.data,
            i,
            b.best_at(c, i).0.0,
            b.best_at(c, i).0.1,
        ),
{
    if i + 3 <= b.data.len() {
        let first = c.head[hash_at(b.data, i, b.hash_bits) as int];
        lemma_fresh_later(b, c, i, i + 1);
        lemma_entered(b, c, i, i + 1);
        lemma_best_from(b, b.entered(c, i).prev, i, first, 0, b.chain(), (0, 0));
    } else {
        lemma_fresh_later(b, c, i, i + 1);
    }
}

pub proof fn lemma_deferred(b: Block, c: Chains, i: int, best: (nat, nat))
    requires
        b.wf(),
        b.fresh(c, i + 1),
        0 <= i < b.data.len(),
        best.0 >= 3,
        valid_repeat(b.data, i, best.0, best.1),
    ensures
        ({
            let (skip, found, c2) = b.deferred(c, i, best);
            &&& skip <= 2
            &&& b.fresh(c2, i + skip + 1)
            &&& found.0 >= 3
            &&& valid_repeat(b.data, i + skip, found.0, found.1)
        }),
{
    lemma_better_at(b, c, i, best);
    match b.better_at(c, i, best) {
        None => {},
        Some(b1) => {
            let c1 = b.entered(c, i + 1);
            lemma_fresh_later(b, c, i + 1, i + 2);
            lemma_entered(b, c, i + 1, i + 2);
            lemma_better_at(b, c1, i + 1, b1);
            match b.better_at(c1, i + 1, b1) {
                None => {},
                Some(b2) => {
                    lemma_fresh_later(b, c1, i + 2, i + 3);
                    lemma_entered(b, c1, i + 2, i + 3);
                },
            }
        },
    }
}

pub proof fn lemma_entered_run(b: Block, c: Chains, i: int, len: nat, j: nat, step: nat)
    requires
        b.wf(),
        b.fresh(c, i + len),
        0 <= i,
    ensures
        b.fresh(b.entered_run(c, i, len, j, step), i + len),
    decreases
            if j < len {
                len - j
            } else {
                0
            },
{
    if j < len && step > 0 {
        let c2 = if i + j + 3 <= b.data.len() {
            lemma_entered(b, c, i + j, i + len);
            b.entered(c, i + j)
        } else {
            c
        };
        lemma_entered_run(b, c2, i, len, j + step, step);
    }
}

/// The tokens at `i` stand for at least one byte, repeats are valid, and the
/// tables know positions before the next byte only.
pub proof fn lemma_step(b: Block, c: Chains, i: int)
    requires
        b.wf(),
        b.fresh(c, i),
        0 <= i < b.data.len(),
    ensures
        ({
            let (toks, c2, used) = b.step(c, i);
            &&& 1 <= used <= b.data.len() - i
            &&& b.fresh(c2, i + used)
            &&& expand(b.data.take(i), toks) == b.data.take(i + used)
            &&& toks.len() <= used
            &&& reachable(b.data.take(i), toks)
            &&& forall|k: int| 0 <= k < toks.len() ==> #[trigger] fits_codes(toks[k])
        }),
{
    lemma_best_at(b, c, i);
    let (best, c1) = b.best_at(c, i);
    let (toks, c2, used) = b.step(c, i);
    if best.0 >= 3 {
        lemma_deferred(b, c1, i, best);
        let (skip, found, c3) = b.deferred(c1, i, best);
        let stride: nat = if found.0 >= 64 {
            4
        } else {
            1
        };
        lemma_fresh_later(b, c3, i + skip + 1, i + skip + found.0);
        lemma_entered_run(b, c3, i + skip, found.0, 1, stride);
        lemma_literals(b, i, skip);
        lemma_copy(b.data, i + skip, found.0, found.1, found.0);
        assert(toks.drop_last() =~= b.literals(i, skip));
        assert(toks.take(skip as int) =~= b.literals(i, skip));
        assert(b.data.take(i + skip + found.0) =~= b.data.take(i + used));
    } else {
        lemma_literals(b, i, 1);
    }
}

proof fn lemma_literals(b: Block, i: int, k: nat)
    requires
        0 <= i,
        i + k <= b.data.len(),
    ensures
        expand(b.data.take(i), b.literals(i, k)) == b.data.take(i + k),
    decreases k,
{
    let toks = b.literals(i, k);
    if k > 0 {
        lemma_literals(b, i, (k - 1) as nat);
        assert(toks.drop_last() =~= b.literals(i, (k - 1) as nat));
        assert(b.data.take(i + k - 1).push(b.data[i + k - 1]) =~= b.data.take(i + k));
    }
}

// ---- what tokens stand for ----

/// `out` with `len` more bytes, each as the one `dist` bytes before it.
pub open spec fn copied(out: Seq<u8>, dist: nat, len: nat) -> Seq<u8>
    decreases len,
{
    if len == 0 {
        out
    } else {
        let head = copied(out, dist, (len - 1) as nat);
        head.push(head[head.len() - dist])
    }
}

pub open spec fn applied(out: Seq<u8>, t: Token) -> Seq<u8> {
    match t {
        Token::Literal(x) => out.push(x),
        Token::Repeat(len, dist) => copied(out, dist, len),
    }
}

/// `out` with the bytes that the tokens stand for behind it.
pub open spec fn expand(out: Seq<u8>, toks: Seq<Token>) -> Seq<u8>
    decreases toks.len(),
{
    if toks.len() == 0 {
        out
    } else {
        applied(expand(out, toks.drop_last()), toks.last())
    }
}

/// Repeats that reach back no further than there is output.
pub open spec fn reachable(out: Seq<u8>, toks: Seq<Token>) -> bool {
    forall|k: int|
        0 <= k < toks.len() && (#[trigger] toks[k]) is Repeat ==> toks[k]->Repeat_1 <= expand(
            out,
            toks.take(k),
        ).len()
}

/// The token is one that there are codes for.
pub open spec fn fits_codes(t: Token) -> bool {
    match t {
        Token::Literal(x) => true,
        Token::Repeat(len, dist) => 3 <= len <= 258 && 1 <= dist <= 65536,
    }
}

pub proof fn lemma_copied(out: Seq<u8>, dist: nat, len: nat)
    ensures
        copied(out, dist, len).len() == out.len() + len,
    decreases len,
{
    if len > 0 {
        lemma_copied(out, dist, (len - 1) as nat);
    }
}

proof fn lemma_copy(data: Seq<u8>, i: int, len: nat, dist: nat, k: nat)
    requires
        valid_repeat(data, i, len, dist),
        k <= len,
    ensures
        copied(data.take(i), dist, k) == data.take(i + k),
    decreases k,
{
    if k > 0 {
        lemma_copy(data, i, len, dist, (k - 1) as nat);
        let head = data.take(i + k - 1);
        assert(data[i + k - 1] == data[i + k - 1 - dist]);
        assert(head.push(data[i + k - 1]) =~= data.take(i + k));
    }
}

pub proof fn lemma_expand_concat(out: Seq<u8>, a: Seq<Token>, b: Seq<Token>)
    ensures
        expand(out, a + b) == expand(expand(out, a), b),
    decreases b.len(),
{
    if b.len() == 0 {
        assert(a + b =~= a);
    } else {
        lemma_expand_concat(out, a, b.drop_last());
        assert((a + b).drop_last() =~= a + b.drop_last());
    }
}

proof fn lemma_reachable_concat(out: Seq<u8>, a: Seq<Token>, b: Seq<Token>)
    requires
        reachable(out, a),
        reachable(expand(out, a), b),
    ensures
        reachable(out, a + b),
{
    let all = a + b;
    assert forall|k: int| 0 <= k < all.len() && (#[trigger] all[k]) is Repeat implies all[k]->Repeat_1
        <= expand(out, all.take(k)).len() by {
        if k < a.len() {
            assert(all[k] == a[k]);
            assert(all.take(k) =~= a.take(k));
        } else {
            assert(all[k] == b[k - a.len()]);
            assert(all.take(k) =~= a + b.take(k - a.len()));
            lemma_expand_concat(out, a, b.take(k - a.len()));
        }
    }
}

/// The tokens of a block stand for its bytes.
pub proof fn lemma_tokens(b: Block, c: Chains, i: int)
    requires
        b.wf(),
        b.fresh(c, i),
        0 <= i <= b.data.len(),
    ensures
        expand(b.data.take(i), b.tokens_from(c, i).0) == b.data,
        b.tokens_from(c, i).0.len() <= b.data.len() - i,
        reachable(b.data.take(i), b.tokens_from(c, i).0),
        b.fresh(b.tokens_from(c, i).1, b.data.len() as int),
        forall|k: int|
            0 <= k < b.tokens_from(c, i).0.len() ==> #[trigger] fits_codes(
                b.tokens_from(c, i).0[k],
            ),
    decreases b.data.len() - i,
{
    if i < b.data.len() {
        lemma_step(b, c, i);
        let (head, c2, used) = b.step(c, i);
        lemma_tokens(b, c2, i + used);
        let tail = b.tokens_from(c2, i + used).0;
        lemma_expand_concat(b.data.take(i), head, tail);
        lemma_reachable_concat(b.data.take(i), head, tail);
        let all = b.tokens_from(c, i).0;
        assert(all == head + tail);
        assert forall|k: int| 0 <= k < all.len() implies #[trigger] fits_codes(all[k]) by {
            if k < head.len() {
                assert(fits_codes(head[k]));
                assert(all[k] == head[k]);
            } else {
                assert(fits_codes(tail[k - head.len()]));
                assert(all[k] == tail[k - head.len()]);
            }
        }
    } else {
        assert(b.data.take(i) =~= b.data);
    }
}

// ---- the computation ----

/// The window size decides the number of hash bits and the size of the table.
pub open spec fn hash_params(window: nat) -> (nat, nat) {
    let hash_bits: nat = if window <= 65536 {
        16
    } else if window == 131072 {
        17
    } else if window == 262144 {
        18
    } else if window == 524288 {
        19
    } else {
        20
    };
    (hash_bits, bits::p2(hash_bits))
}

pub fn get_hash_params(window_size: usize) -> (r: (usize, usize))
    ensures
        (r.0 as nat, r.1 as nat) == hash_params(window_size as nat),
        16 <= r.0 <= 20,
{
    proof {
        bits::lemma_p2_small();
        assert(bits::p2(17) == 131072);
        assert(bits::p2(18) == 262144);
        assert(bits::p2(19) == 524288);
        assert(bits::p2(20) == 1048576);
    }
    if window_size <= 65536 {
        (16, 65536)
    } else if window_size == 131072 {
        (17, 131072)
    } else if window_size == 262144 {
        (18, 262144)
    } else if window_size == 524288 {
        (19, 524288)
    } else {
        (20, 1048576)
    }
}

fn get_chain_limit(window: usize) -> (r: usize)
    ensures
        r == chain_limit(window as nat),
{
    if window <= 65536 {
        128
    } else if window == 131072 {
        256
    } else if window == 262144 {
        512
    } else if window == 524288 {
        1024
    } else if window == 1048576 {
        1536
    } else if window == 2097152 {
        2048
    } else if window == 4194304 {
        3072
    } else {
        4096
    }
}

pub proof fn lemma_pow2_is_p2(n: nat)
    ensures
        vstd::arithmetic::power2::pow2(n) == bits::p2(n),
    decreases n,
{
    if n == 0 {
        vstd::arithmetic::power2::lemma2_to64();
    } else {
        lemma_pow2_is_p2((n - 1) as nat);
        vstd::arithmetic::power2::lemma_pow2_unfold(n);
    }
}

/// The hash of up to four bytes at `pos`.
pub fn lzv2_hash(data: &[u8], pos: usize, hash_bits: usize) -> (h: u32)
    requires
        pos <= data@.len(),
        1 <= hash_bits <= 32,
    ensures
        h == hash_at(data@, pos as int, hash_bits as nat),
        h < bits::p2(hash_bits as nat),
{
    let rem: usize = data.len() - pos;
    let mut val: u32 = 0;
    if rem >= 4 {
        val = data[pos] as u32 + 256 * (data[pos + 1] as u32) + 65536 * (data[pos + 2] as u32)
            + 16777216 * (data[pos + 3] as u32);
    } else if rem == 3 {
        val = data[pos] as u32 + 256 * (data[pos + 1] as u32) + 65536 * (data[pos + 2] as u32);
    } else if rem == 2 {
        val = data[pos] as u32 + 256 * (data[pos + 1] as u32);
    } else if rem == 1 {
        val = data[pos] as u32;
    }
    assert(val == word_at(data@, pos as int));
    let x: u32 = val.wrapping_mul(0x1E35A7BD);
    let shift: u32 = 32 - hash_bits as u32;
    proof {
        lemma_hash(data@, pos as int, hash_bits as nat);
        if shift < 32 {
            vstd::bits::lemma_u32_shr_is_div(x, shift);
            lemma_pow2_is_p2(shift as nat);
        }
    }
    x >> shift
}

/// How many bytes at `p` and `i` are alike, up to `limit`.
pub fn match_len_u64(data: &[u8], p: usize, i: usize, limit: usize) -> (l: usize)
    requires
        p + limit <= data@.len(),
        i + limit <= data@.len(),
    ensures
        l == common(data@, p as int, i as int, 0, limit as nat),
{
    let end: usize = data.len();
    let mut l: usize = 0;
    while l < limit && data[p + l] == data[i + l]
        invariant
            l <= limit,
            end == data@.len(),
            p + limit <= end,
            i + limit <= end,
            common(data@, p as int, i as int, 0, limit as nat) == common(
                data@,
                p as int,
                i as int,
                l as nat,
                limit as nat,
            ),
        decreases limit - l,
    {
        l = l + 1;
    }
    l
}

pub open spec fn positions<T: TableIndex>(entries: Seq<T>) -> Seq<Option<nat>> {
    Seq::new(entries.len(), |k: int| entries[k].position())
}

/// The tables that two arrays hold.
pub open spec fn chains<T: TableIndex>(head: Seq<T>, prev: Seq<T>) -> Chains {
    Chains { head: positions(head), prev: positions(prev) }
}

/// A block that is searched with tables of type `T`.
pub open spec fn block_of<T: TableIndex>(
    data: Seq<u8>,
    window: nat,
    base: nat,
    hash_bits: nat,
) -> Block {
    Block { data, modulus: T::modulus(), window, base, hash_bits }
}

/// A block and how it is searched.
pub struct Search<'a> {
    pub data: &'a [u8],
    pub window: usize,
    pub base: usize,
    pub hash_bits: usize,
}

impl<'a> Search<'a> {
    pub open spec fn block<T: TableIndex>(&self) -> Block {
        block_of::<T>(
            self.data@,
            self.window as nat,
            self.base as nat,
            self.hash_bits as nat,
        )
    }

    pub open spec fn wf<T: TableIndex>(&self) -> bool {
        &&& self.window >= 1
        &&& 1 <= self.hash_bits <= 32
        &&& self.base + self.data@.len() <= usize::MAX
        &&& self.base + self.data@.len() <= T::limit() + 1
    }

    fn ring(&self, q: usize) -> (slot: usize)
        requires
            self.window >= 1,
        ensures
            slot == ring_slot(self.window as nat, q as nat),
            slot < self.window,
    {
        proof {
            lemma_ring_slot(self.window as nat, q as nat);
        }
        q & (self.window - 1)
    }

    fn first_pos(&self, i: usize) -> (m: usize)
        requires
            self.base + i <= usize::MAX,
        ensures
            m == earliest(self.window as nat, self.base as nat, i as int),
    {
        let reach: usize = if self.window <= 65536 {
            self.window
        } else {
            65536
        };
        if i <= reach {
            self.base
        } else {
            self.base + (i - reach)
        }
    }

    fn max_len(&self, i: usize) -> (l: usize)
        requires
            i <= self.data@.len(),
        ensures
            l <= 258,
            i + l <= self.data@.len(),
            self.data@.len() - i <= 258 ==> l == self.data@.len() - i,
            self.data@.len() - i > 258 ==> l == 258,
    {
        let left: usize = self.data.len() - i;
        if left > LZV2_MAX_MATCH {
            LZV2_MAX_MATCH
        } else {
            left
        }
    }

    /// Enters position `i`.
    pub fn enter<T: TableIndex>(&self, head: &mut [T], prev: &mut [T], i: usize, bound: Ghost<int>)
        requires
            self.wf::<T>(),
            i < self.data@.len(),
            i < bound@,
            self.block::<T>().fresh(chains(old(head)@, old(prev)@), bound@),
        ensures
            chains(final(head)@, final(prev)@) == self.block::<T>().entered(
                chains(old(head)@, old(prev)@),
                i as int,
            ),
            self.block::<T>().fresh(chains(final(head)@, final(prev)@), bound@),
            final(head)@.len() == old(head)@.len(),
            final(prev)@.len() == old(prev)@.len(),
    {
        let ghost c = chains(head@, prev@);
        let ghost b = self.block::<T>();
        proof {
            T::lemma_modulus();
            lemma_entered(b, c, i as int, bound@);
        }
        let h: usize = lzv2_hash(self.data, i, self.hash_bits) as usize;
        let slot: usize = self.ring(self.base + i);
        prev[slot] = head[h];
        head[h] = T::from_usize(self.base + i);
        proof {
            assert(positions(head@) =~= b.entered(c, i as int).head);
            assert(positions(prev@) =~= b.entered(c, i as int).prev);
        }
    }

    /// The best repeat at `i` down the chain from `first`.
    fn find_best<T: TableIndex>(&self, prev: &[T], i: usize, first: T) -> (r: (usize, usize))
        requires
            self.wf::<T>(),
            i < self.data@.len(),
            prev@.len() >= self.window,
        ensures
            (r.0 as nat, r.1 as nat) == self.block::<T>().best_from(
                positions(prev@),
                i as int,
                first.position(),
                0,
                chain_limit(self.window as nat),
                (0, 0),
            ),
    {
        let ghost b = self.block::<T>();
        let ghost ring = positions(prev@);
        let data = self.data;
        let chain: usize = get_chain_limit(self.window);
        let min_pos: usize = self.first_pos(i);
        let limit: usize = self.max_len(i);
        let mut pos: T = first;
        let mut best_len: usize = 0;
        let mut best_dist: usize = 0;
        let mut tried: usize = 0;
        let mut depth: usize = chain;
        let ghost want = b.best_from(
            ring,
            i as int,
            first.position(),
            0,
            chain_limit(self.window as nat),
            (0, 0),
        );
        while !pos.is_sentinel() && pos.to_usize() >= min_pos && tried < depth
            invariant_except_break
                want == b.best_from(
                    ring,
                    i as int,
                    pos.position(),
                    tried as nat,
                    depth as nat,
                    (best_len as nat, best_dist as nat),
                ),
            invariant
                self.wf::<T>(),
                b == self.block::<T>(),
                ring == positions(prev@),
                prev@.len() >= self.window,
                data@ == self.data@,
                i < data@.len(),
                chain == b.chain(),
                min_pos == b.min_pos(i as int),
                limit == b.longest(i as int),
                i + limit <= data@.len(),
                tried <= chain,
                depth <= chain <= 4096,
                best_len <= limit,
            ensures
                want == (best_len as nat, best_dist as nat),
            decreases chain - tried,
        {
            let q: usize = pos.to_usize();
            let p: usize = q - self.base;
            if p >= i {
                break;
            }
            let slot: usize = self.ring(q);
            let next: T = prev[slot];
            assert(next.position() == ring[ring_slot(b.window, q as nat)]);
            if best_len < limit && data[p] == data[i] && data[p + best_len] == data[i + best_len] {
                let l: usize = match_len_u64(data, p, i, limit);
                proof {
                    lemma_common(data@, p as int, i as int, 0, limit as nat);
                }
                if l > best_len {
                    best_len = l;
                    best_dist = i - p;
                    if l == LZV2_MAX_MATCH {
                        break;
                    }
                    if l >= 32 {
                        depth = chain / 8;
                    } else if l >= 8 {
                        depth = chain / 2;
                    }
                }
            }
            pos = next;
            tried = tried + 1;
        }
        (best_len, best_dist)
    }

    /// The first repeat at `j` down the chain from `first` that is better than
    /// the one of `len` bytes at distance `dist`.
    fn find_better<T: TableIndex>(
        &self,
        prev: &[T],
        j: usize,
        first: T,
        len: usize,
        dist: usize,
    ) -> (r: Option<(usize, usize)>)
        requires
            self.wf::<T>(),
            j < self.data@.len(),
            prev@.len() >= self.window,
            below(positions(prev@), self.base + j),
            first.position() is Some ==> first.position()->0 < self.base + j,
            len >= 1,
        ensures
            match (r, self.block::<T>().better_from(
                positions(prev@),
                j as int,
                first.position(),
                0,
                (len as nat, dist as nat),
            )) {
                (None, None) => true,
                (Some(x), Some(y)) => (x.0 as nat, x.1 as nat) == y,
                _ => false,
            },
    {
        let ghost b = self.block::<T>();
        let ghost ring = positions(prev@);
        let data = self.data;
        let half: usize = get_chain_limit(self.window) / 2;
        let min_pos: usize = self.first_pos(j);
        let limit: usize = self.max_len(j);
        let mut pos: T = first;
        let mut tried: usize = 0;
        let ghost want = b.better_from(
            ring,
            j as int,
            first.position(),
            0,
            (len as nat, dist as nat),
        );
        while !pos.is_sentinel() && pos.to_usize() >= min_pos && tried < half
            invariant
                self.wf::<T>(),
                b == self.block::<T>(),
                ring == positions(prev@),
                prev@.len() >= self.window,
                below(ring, self.base + j),
                pos.position() is Some ==> pos.position()->0 < self.base + j,
                data@ == self.data@,
                j < data@.len(),
                len >= 1,
                half == b.chain() / 2,
                min_pos == b.min_pos(j as int),
                limit == b.longest(j as int),
                j + limit <= data@.len(),
                tried <= half,
                want == b.better_from(
                    ring,
                    j as int,
                    first.position(),
                    0,
                    (len as nat, dist as nat),
                ),
                want == b.better_from(
                    ring,
                    j as int,
                    pos.position(),
                    tried as nat,
                    (len as nat, dist as nat),
                ),
            decreases half - tried,
        {
            let q: usize = pos.to_usize();
            let p: usize = q - self.base;
            let slot: usize = self.ring(q);
            let next: T = prev[slot];
            assert(next.position() == ring[ring_slot(b.window, q as nat)]);
            if len <= limit && data[p] == data[j] && data[p + len - 1] == data[j + len - 1] {
                let l: usize = match_len_u64(data, p, j, limit);
                let d: usize = j - p;
                if l > len || (l == len && d < dist / 4) {
                    return Some((l, d));
                }
            }
            pos = next;
            tried = tried + 1;
        }
        None
    }

    /// A better repeat one byte on, where it is worth looking for one.
    fn look_ahead<T: TableIndex>(
        &self,
        head: &[T],
        prev: &[T],
        i: usize,
        len: usize,
        dist: usize,
    ) -> (r: Option<(usize, usize)>)
        requires
            self.wf::<T>(),
            i < self.data@.len(),
            self.block::<T>().fresh(chains(head@, prev@), i + 1),
            len >= 1,
        ensures
            match (r, self.block::<T>().better_at(
                chains(head@, prev@),
                i as int,
                (len as nat, dist as nat),
            )) {
                (None, None) => true,
                (Some(x), Some(y)) => (x.0 as nat, x.1 as nat) == y,
                _ => false,
            },
    {
        if len < GOOD_MATCH && self.data.len() - i >= 4 {
            let h: usize = lzv2_hash(self.data, i + 1, self.hash_bits) as usize;
            proof {
                let e = positions(head@)[h as int];
                assert(e is Some ==> e->0 < self.base + i + 1);
            }
            self.find_better(prev, i + 1, head[h], len, dist)
        } else {
            None
        }
    }

    /// Enters the positions behind the start of a repeat of `len` bytes at `i`.
    fn enter_run<T: TableIndex>(&self, head: &mut [T], prev: &mut [T], i: usize, len: usize)
        requires
            self.wf::<T>(),
            1 <= len <= 258,
            i + len <= self.data@.len(),
            self.block::<T>().fresh(chains(old(head)@, old(prev)@), i + len),
        ensures
            chains(final(head)@, final(prev)@) == self.block::<T>().entered_run(
                chains(old(head)@, old(prev)@),
                i as int,
                len as nat,
                1,
                if len >= 64 {
                    4
                } else {
                    1
                },
            ),
            self.block::<T>().fresh(chains(final(head)@, final(prev)@), i + len),
            final(head)@.len() == old(head)@.len(),
            final(prev)@.len() == old(prev)@.len(),
    {
        let ghost b = self.block::<T>();
        let step: usize = if len >= 64 {
            4
        } else {
            1
        };
        let n: usize = self.data.len();
        let ghost want = b.entered_run(chains(head@, prev@), i as int, len as nat, 1, step as nat);
        let mut j: usize = 1;
        while j < len
            invariant
                self.wf::<T>(),
                b == self.block::<T>(),
                1 <= len <= 258,
                1 <= step <= 4,
                1 <= j <= len + 4,
                n == self.data@.len(),
                i + len <= n,
                b.fresh(chains(head@, prev@), i + len),
                head@.len() == old(head)@.len(),
                prev@.len() == old(prev)@.len(),
                want == b.entered_run(
                    chains(head@, prev@),
                    i as int,
                    len as nat,
                    j as nat,
                    step as nat,
                ),
            decreases len + 4 - j,
        {
            if n - i - j >= LZV2_MIN_MATCH {
                self.enter(head, prev, i + j, Ghost(i + len));
            }
            j = j + step;
        }
    }

    /// Finds the tokens at `i` and brings the tables up to behind them: how many
    /// bytes stand for themselves, and the repeat behind them. A repeat of
    /// length 0 is none.
    pub fn step<T: TableIndex>(&self, head: &mut [T], prev: &mut [T], i: usize) -> (r: (
        usize,
        usize,
        usize,
    ))
        requires
            self.wf::<T>(),
            i < self.data@.len(),
            self.block::<T>().fresh(chains(old(head)@, old(prev)@), i as int),
        ensures
            ({
                let b = self.block::<T>();
                let (toks, c, used) = b.step(chains(old(head)@, old(prev)@), i as int);
                &&& chains(final(head)@, final(prev)@) == c
                &&& used == r.0 + r.1
                &&& toks == emitted(self.data@, i as int, r.0 as nat, r.1 as nat, r.2 as nat)
                &&& r.0 <= 2
                &&& r.1 > 0 ==> 3 <= r.1 <= 258 && 1 <= r.2 <= 65536
                &&& i + used <= self.data@.len()
            }),
            final(head)@.len() == old(head)@.len(),
            final(prev)@.len() == old(prev)@.len(),
    {
        let ghost b = self.block::<T>();
        let ghost c = chains(head@, prev@);
        proof {
            T::lemma_modulus();
            lemma_step(b, c, i as int);
            lemma_best_at(b, c, i as int);
        }
        let n: usize = self.data.len();
        let mut len: usize = 0;
        let mut dist: usize = 0;
        if n - i >= LZV2_MIN_MATCH {
            let h: usize = lzv2_hash(self.data, i, self.hash_bits) as usize;
            let first: T = head[h];
            proof {
                lemma_fresh_later(b, c, i as int, i + 1);
                assert(first.position() == c.head[h as int]);
            }
            self.enter(head, prev, i, Ghost(i + 1));
            let found = self.find_best(prev, i, first);
            len = found.0;
            dist = found.1;
        }
        if len == 3 && dist > 4096 {
            len = 0;
        }
        let ghost c1 = chains(head@, prev@);
        assert(((len as nat, dist as nat), c1) == b.best_at(c, i as int));
        if len < LZV2_MIN_MATCH {
            return (1, 0, 0);
        }
        let ghost best = (len as nat, dist as nat);
        proof {
            lemma_deferred(b, c1, i as int, best);
            lemma_better_at(b, c1, i as int, best);
        }
        let mut skip: usize = 0;
        match self.look_ahead(head, prev, i, len, dist) {
            None => {},
            Some((l1, d1)) => {
                skip = 1;
                len = l1;
                dist = d1;
                proof {
                    lemma_fresh_later(b, c1, i + 1, i + 2);
                }
                self.enter(head, prev, i + 1, Ghost(i + 2));
                proof {
                    lemma_better_at(
                        b,
                        chains(head@, prev@),
                        i + 1,
                        (l1 as nat, d1 as nat),
                    );
                }
                let ghost c2 = chains(head@, prev@);
                match self.look_ahead(head, prev, i + 1, len, dist) {
                    None => {},
                    Some((l2, d2)) => {
                        skip = 2;
                        len = l2;
                        dist = d2;
                        proof {
                            lemma_fresh_later(b, c2, i + 2, i + 3);
                        }
                        self.enter(head, prev, i + 2, Ghost(i + 3));
                    },
                }
            },
        }
        let ghost c3 = chains(head@, prev@);
        assert((skip as nat, (len as nat, dist as nat), c3) == b.deferred(c1, i as int, best));
        proof {
            lemma_fresh_later(b, c3, i + skip + 1, i + skip + len);
        }
        self.enter_run(head, prev, i + skip, len);
        (skip, len, dist)
    }
}

} // verus!
