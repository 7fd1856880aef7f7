//! Tables that find a symbol by the next 15 bits of a stream.
//!
//! The root table is indexed by the first 11 bits. Codes of up to 11 bits fill
//! the entries that start with them. Longer codes share a table of 16 entries
//! for each 11-bit prefix, to which the root entry points.

use crate::codec::bits;
use crate::codec::canon;
use vstd::prelude::*;

verus! {

/// The number of bits that marks a pointer to a table of the second level.
pub const SUB_TABLE_INDICATOR: u8 = 127;

/// Symbol `s` has a code of at most 11 bits that the 11 bits `p` start with.
pub open spec fn in_root(lens: Seq<u8>, max_bits: nat, s: int, p: int) -> bool {
    let c = canon::code_of(lens, max_bits, s);
    let w = bits::p2((11 - lens[s]) as nat);
    1 <= lens[s] <= 11 && c * w <= p < c * w + w
}

/// The first 11 bits of a code of more bits.
pub open spec fn prefix(lens: Seq<u8>, max_bits: nat, s: int) -> int {
    canon::code_of(lens, max_bits, s) as int / bits::p2((lens[s] - 11) as nat) as int
}

pub open spec fn has_prefix(lens: Seq<u8>, max_bits: nat, s: int, p: int) -> bool {
    lens[s] >= 12 && prefix(lens, max_bits, s) == p
}

/// The rest of the code of symbol `s` behind its prefix is what the 4 bits `j`
/// start with.
pub open spec fn in_sub(lens: Seq<u8>, max_bits: nat, s: int, j: int) -> bool {
    let c = canon::code_of(lens, max_bits, s) as int % bits::p2((lens[s] - 11) as nat) as int;
    let w = bits::p2((15 - lens[s]) as nat);
    c * w <= j < c * w + w
}

/// One of the first `k` symbols has a long code with prefix `p`.
pub open spec fn seen(lens: Seq<u8>, max_bits: nat, p: int, k: nat) -> bool {
    exists|t: int| 0 <= t < k && #[trigger] has_prefix(lens, max_bits, t, p)
}

/// What the root table holds at an index.
pub enum Slot {
    Empty,
    Symbol(int),
    Sub,
}

/// The root table at `p` once the first `k` symbols were entered.
pub open spec fn root_at(lens: Seq<u8>, max_bits: nat, p: int, k: nat) -> Slot
    decreases k,
{
    if k == 0 {
        Slot::Empty
    } else if in_root(lens, max_bits, k - 1, p) {
        Slot::Symbol(k - 1)
    } else if has_prefix(lens, max_bits, k - 1, p) && !seen(lens, max_bits, p, (k - 1) as nat) {
        Slot::Sub
    } else {
        root_at(lens, max_bits, p, (k - 1) as nat)
    }
}

/// The symbol in the table behind `p` at `j`.
pub open spec fn sub_at(lens: Seq<u8>, max_bits: nat, p: int, j: int, k: nat) -> Option<int>
    decreases k,
{
    if k == 0 {
        None
    } else if has_prefix(lens, max_bits, k - 1, p) && in_sub(lens, max_bits, k - 1, j) {
        Some(k - 1)
    } else {
        sub_at(lens, max_bits, p, j, (k - 1) as nat)
    }
}

/// The symbol that the 15 bits `v` are taken for.
pub open spec fn lookup(lens: Seq<u8>, max_bits: nat, v: int) -> Option<int> {
    match root_at(lens, max_bits, v / 16, lens.len()) {
        Slot::Empty => None,
        Slot::Symbol(s) => Some(s),
        Slot::Sub => sub_at(lens, max_bits, v / 16, v % 16, lens.len()),
    }
}

/// Some code does not fit in its number of bits.
pub open spec fn oversubscribed(lens: Seq<u8>, max_bits: nat) -> bool {
    exists|s: int|
        0 <= s < lens.len() && lens[s] > 0 && #[trigger] canon::code_of(lens, max_bits, s)
            >= bits::p2(lens[s] as nat)
}

// ---- what the tables say of a prefix code ----

/// A short code covers a word if and only if the root entry of the word is its.
proof fn lemma_in_root(lens: Seq<u8>, max_bits: nat, s: int, v: nat)
    requires
        1 <= lens[s] <= 11,
    ensures
        in_root(lens, max_bits, s, v as int / 16) <==> canon::covers(lens, max_bits, s, v),
{
    let l = lens[s] as nat;
    let c = canon::code_of(lens, max_bits, s);
    let w = bits::p2((11 - l) as nat);
    let p = v as int / 16;
    bits::lemma_p2_add((11 - l) as nat, 4);
    bits::lemma_p2_small();
    let big = bits::p2((15 - l) as nat);
    assert(big == w * 16);
    assert(c * big == 16 * (c * w)) by (nonlinear_arith)
        requires
            big == w * 16,
    ;
    let x = c * w;
    assert(16 * p <= v < 16 * p + 16);
}

/// A long code covers a word if and only if it has the word's prefix and goes
/// on as the word does.
proof fn lemma_in_sub(lens: Seq<u8>, max_bits: nat, s: int, v: nat)
    requires
        12 <= lens[s] <= 15,
    ensures
        canon::covers(lens, max_bits, s, v) <==> has_prefix(lens, max_bits, s, v as int / 16)
            && in_sub(lens, max_bits, s, v as int % 16),
{
    let l = lens[s] as nat;
    let c = canon::code_of(lens, max_bits, s) as int;
    let h = bits::p2((l - 11) as nat) as int;
    let w = bits::p2((15 - l) as nat) as int;
    bits::lemma_p2_add((l - 11) as nat, (15 - l) as nat);
    bits::lemma_p2_small();
    bits::lemma_p2_pos((l - 11) as nat);
    bits::lemma_p2_pos((15 - l) as nat);
    assert(h * w == 16);
    let q = c / h;
    let r = c % h;
    assert(c == q * h + r && 0 <= r < h) by (nonlinear_arith)
        requires
            h >= 1,
            q == c / h,
            r == c % h,
    ;
    assert(c * w == 16 * q + r * w) by (nonlinear_arith)
        requires
            c == q * h + r,
            h * w == 16,
    ;
    assert(0 <= r * w && r * w + w <= 16) by (nonlinear_arith)
        requires
            0 <= r < h,
            h * w == 16,
            w >= 1,
    ;
}

/// In a prefix code a word is taken for the symbol whose code it starts with.
pub proof fn lemma_lookup(lens: Seq<u8>, max_bits: nat, s: int, v: nat)
    requires
        canon::prefix_lens(lens, max_bits),
        0 <= s < lens.len(),
        canon::covers(lens, max_bits, s, v),
    ensures
        lookup(lens, max_bits, v as int) == Some(s),
{
    let p = v as int / 16;
    let j = v as int % 16;
    assert(lens[s] <= max_bits);
    if lens[s] <= 11 {
        lemma_in_root(lens, max_bits, s, v);
        lemma_root_short(lens, max_bits, s, v, lens.len());
    } else {
        lemma_in_sub(lens, max_bits, s, v);
        lemma_root_long(lens, max_bits, s, v, lens.len());
        lemma_sub_long(lens, max_bits, s, v, lens.len());
    }
}

proof fn lemma_root_short(lens: Seq<u8>, max_bits: nat, s: int, v: nat, k: nat)
    requires
        canon::prefix_lens(lens, max_bits),
        0 <= s < k <= lens.len(),
        lens[s] <= 11,
        canon::covers(lens, max_bits, s, v),
    ensures
        root_at(lens, max_bits, v as int / 16, k) == Slot::Symbol(s),
    decreases k,
{
    let p = v as int / 16;
    lemma_in_root(lens, max_bits, s, v);
    if k > s + 1 {
        let t = k - 1;
        lemma_root_short(lens, max_bits, s, v, (k - 1) as nat);
        assert(lens[t] <= max_bits);
        if in_root(lens, max_bits, t, p) {
            lemma_in_root(lens, max_bits, t, v);
            canon::lemma_covers_unique(lens, max_bits, s, t, v);
        }
        if has_prefix(lens, max_bits, t, p) {
            // The first word of the long code lies in the block that `s` fills.
            let u = canon::low(lens, max_bits, t);
            bits::lemma_p2_pos((15 - lens[t]) as nat);
            assert(canon::covers(lens, max_bits, t, u));
            lemma_in_sub(lens, max_bits, t, u);
            assert(u as int / 16 == p);
            lemma_in_root(lens, max_bits, s, u);
            canon::lemma_covers_unique(lens, max_bits, s, t, u);
        }
    }
}

proof fn lemma_root_long(lens: Seq<u8>, max_bits: nat, s: int, v: nat, k: nat)
    requires
        canon::prefix_lens(lens, max_bits),
        0 <= s < lens.len(),
        k <= lens.len(),
        lens[s] >= 12,
        canon::covers(lens, max_bits, s, v),
    ensures
        root_at(lens, max_bits, v as int / 16, k) == if seen(lens, max_bits, v as int / 16, k) {
            Slot::Sub
        } else {
            Slot::Empty
        },
        s < k ==> seen(lens, max_bits, v as int / 16, k),
    decreases k,
{
    let p = v as int / 16;
    assert(lens[s] <= max_bits);
    lemma_in_sub(lens, max_bits, s, v);
    assert(has_prefix(lens, max_bits, s, p));
    if k > 0 {
        let t = k - 1;
        lemma_root_long(lens, max_bits, s, v, t as nat);
        if in_root(lens, max_bits, t, p) {
            lemma_in_root(lens, max_bits, t, v);
            canon::lemma_covers_unique(lens, max_bits, s, t, v);
        }
        if seen(lens, max_bits, p, t as nat) {
            let x = choose|x: int| 0 <= x < t && #[trigger] has_prefix(lens, max_bits, x, p);
            assert(has_prefix(lens, max_bits, x, p));
            assert(seen(lens, max_bits, p, k));
        } else if has_prefix(lens, max_bits, t, p) {
            assert(seen(lens, max_bits, p, k));
        } else if seen(lens, max_bits, p, k) {
            let x = choose|x: int| 0 <= x < k && #[trigger] has_prefix(lens, max_bits, x, p);
            assert(x == t);
        }
    }
}

proof fn lemma_sub_long(lens: Seq<u8>, max_bits: nat, s: int, v: nat, k: nat)
    requires
        canon::prefix_lens(lens, max_bits),
        0 <= s < k <= lens.len(),
        lens[s] >= 12,
        canon::covers(lens, max_bits, s, v),
    ensures
        sub_at(lens, max_bits, v as int / 16, v as int % 16, k) == Some(s),
    decreases k,
{
    let t = k - 1;
    assert(lens[s] <= max_bits);
    assert(lens[t] <= max_bits);
    lemma_in_sub(lens, max_bits, s, v);
    if t > s {
        lemma_sub_long(lens, max_bits, s, v, t as nat);
        if lens[t] >= 12 {
            lemma_in_sub(lens, max_bits, t, v);
            if canon::covers(lens, max_bits, t, v) {
                canon::lemma_covers_unique(lens, max_bits, s, t, v);
            }
        }
    }
}

/// A prefix code is not oversubscribed.
pub proof fn lemma_not_oversubscribed(lens: Seq<u8>, max_bits: nat)
    requires
        canon::prefix_lens(lens, max_bits),
    ensures
        !oversubscribed(lens, max_bits),
{
    assert forall|s: int| 0 <= s < lens.len() && lens[s] > 0 implies #[trigger] canon::code_of(
        lens,
        max_bits,
        s,
    ) < bits::p2(lens[s] as nat) by {
        canon::lemma_code_fits(lens, max_bits, s);
    }
}

// ---- the tables ----

/// An entry: the symbol in the low 9 bits, the number of bits above them.
pub fn pack_table_entry(sym: u16, bits: u8) -> (e: u16)
    requires
        sym < 512,
        bits < 128,
    ensures
        e == bits * 512 + sym,
{
    let b: u16 = bits as u16;
    assert(((b << 9u16) | sym) == b * 512 + sym) by (bit_vector)
        requires
            sym < 512,
            b < 128,
    ;
    (b << 9u16) | sym
}

pub fn unpack_table_entry(entry: u16) -> (r: (u16, u8))
    ensures
        r.0 == entry % 512,
        r.1 == entry / 512,
{
    assert((entry & 0x1FF) == entry % 512 && (entry >> 9u16) == entry / 512 && entry / 512 < 128)
        by (bit_vector);
    (entry & 0x1FF, (entry >> 9u16) as u8)
}

/// The entry of a symbol, 0 for none.
pub open spec fn entry_of(lens: Seq<u8>, sym: Option<int>) -> int {
    match sym {
        None => 0,
        Some(s) => lens[s] * 512 + s,
    }
}

pub struct Tables {
    pub root: Vec<u16>,
    pub sub: Vec<u16>,
}

impl Tables {
    /// The tables find for each word what `lookup` says.
    pub open spec fn wf(&self, lens: Seq<u8>, max_bits: nat) -> bool {
        &&& lens.len() <= 512
        &&& forall|s: int| 0 <= s < lens.len() ==> #[trigger] lens[s] <= 15
        &&& self.root@.len() == 2048
        &&& forall|v: int|
            0 <= v < 32768 ==> {
                let e = self.root@[v / 16] as int;
                let i = (e % 512) * 16 + v % 16;
                if e / 512 == 127 {
                    &&& i < self.sub@.len()
                    &&& self.sub@[i] == entry_of(lens, #[trigger] lookup(lens, max_bits, v))
                } else {
                    e == entry_of(lens, lookup(lens, max_bits, v))
                }
            }
    }

    /// The symbol at the front of the 15 bits `v` and the length of its code,
    /// which is 0 if there is none.
    pub fn find(&self, v: usize, lens: Ghost<Seq<u8>>, max_bits: Ghost<nat>) -> (r: (u16, u8))
        requires
            v < 32768,
            self.wf(lens@, max_bits@),
        ensures
            match lookup(lens@, max_bits@, v as int) {
                None => r.1 == 0,
                Some(s) => r.0 == s && r.1 == lens@[s] && 0 <= s < lens@.len() && lens@[s] > 0,
            },
    {
        proof {
            lemma_lookup_range(lens@, max_bits@, v as int);
        }
        let ghost found = lookup(lens@, max_bits@, v as int);
        let (sym, n) = unpack_table_entry(self.root[v / 16]);
        if n == SUB_TABLE_INDICATOR {
            unpack_table_entry(self.sub[sym as usize * 16 + v % 16])
        } else {
            (sym, n)
        }
    }
}

proof fn lemma_lookup_range(lens: Seq<u8>, max_bits: nat, v: int)
    ensures
        match lookup(lens, max_bits, v) {
            None => true,
            Some(s) => 0 <= s < lens.len() && lens[s] > 0,
        },
{
    lemma_root_range(lens, max_bits, v / 16, lens.len());
    lemma_sub_range(lens, max_bits, v / 16, v % 16, lens.len());
}

proof fn lemma_root_range(lens: Seq<u8>, max_bits: nat, p: int, k: nat)
    ensures
        match root_at(lens, max_bits, p, k) {
            Slot::Empty => true,
            Slot::Symbol(s) => 0 <= s < k && 1 <= lens[s] <= 11,
            Slot::Sub => seen(lens, max_bits, p, k),
        },
    decreases k,
{
    if k > 0 {
        lemma_root_range(lens, max_bits, p, (k - 1) as nat);
        lemma_seen(lens, max_bits, p, k);
    }
}

proof fn lemma_seen(lens: Seq<u8>, max_bits: nat, p: int, k: nat)
    requires
        k > 0,
    ensures
        seen(lens, max_bits, p, k) <==> seen(lens, max_bits, p, (k - 1) as nat) || has_prefix(
            lens,
            max_bits,
            k - 1,
            p,
        ),
{
    if seen(lens, max_bits, p, (k - 1) as nat) {
        let x = choose|x: int| 0 <= x < k - 1 && #[trigger] has_prefix(lens, max_bits, x, p);
        assert(has_prefix(lens, max_bits, x, p));
    }
    if seen(lens, max_bits, p, k) && !has_prefix(lens, max_bits, k - 1, p) {
        let x = choose|x: int| 0 <= x < k && #[trigger] has_prefix(lens, max_bits, x, p);
        assert(x < k - 1);
    }
}

proof fn lemma_sub_range(lens: Seq<u8>, max_bits: nat, p: int, j: int, k: nat)
    ensures
        match sub_at(lens, max_bits, p, j, k) {
            None => true,
            Some(s) => 0 <= s < k && lens[s] >= 12,
        },
        !seen(lens, max_bits, p, k) ==> sub_at(lens, max_bits, p, j, k) is None,
    decreases k,
{
    if k > 0 {
        lemma_sub_range(lens, max_bits, p, j, (k - 1) as nat);
        lemma_seen(lens, max_bits, p, k);
    }
}

/// No table for a prefix yet.
const NO_TABLE: u16 = 512;

spec fn slot_entry(lens: Seq<u8>, slot: Slot, table: u16) -> int {
    match slot {
        Slot::Empty => 0,
        Slot::Symbol(s) => lens[s] * 512 + s,
        Slot::Sub => 127 * 512 + table,
    }
}

/// The tables with the first `k` symbols in them; `map` says which table of the
/// second level belongs to a prefix.
spec fn built(
    root: Seq<u16>,
    sub: Seq<u16>,
    map: Seq<u16>,
    lens: Seq<u8>,
    max_bits: nat,
    k: nat,
) -> bool {
    &&& root.len() == 2048
    &&& map.len() == 2048
    &&& sub.len() % 16 == 0
    &&& sub.len() <= 16 * k
    &&& forall|p: int|
        0 <= p < 2048 ==> (#[trigger] map[p] == NO_TABLE <==> !seen(lens, max_bits, p, k))
    &&& forall|p: int|
        0 <= p < 2048 ==> #[trigger] map[p] == NO_TABLE || map[p] * 16 + 16 <= sub.len()
    &&& forall|p: int, q: int|
        0 <= p < 2048 && 0 <= q < 2048 && #[trigger] map[p] == #[trigger] map[q] && map[p]
            != NO_TABLE ==> p == q
    &&& forall|p: int|
        0 <= p < 2048 ==> #[trigger] root[p] == slot_entry(
            lens,
            root_at(lens, max_bits, p, k),
            map[p],
        )
    &&& forall|p: int, j: int|
        0 <= p < 2048 && 0 <= j < 16 && map[p] != NO_TABLE ==> sub[map[p] * 16 + j] == entry_of(
            lens,
            #[trigger] sub_at(lens, max_bits, p, j, k),
        )
}

/// `v` with `x` from `start` to before `end`.
spec fn filled(v: Seq<u16>, start: int, end: int, x: u16) -> Seq<u16> {
    Seq::new(
        v.len(),
        |i: int|
            if start <= i < end {
                x
            } else {
                v[i]
            },
    )
}

fn fill_range(v: &mut Vec<u16>, start: usize, end: usize, x: u16)
    requires
        start <= end <= old(v)@.len(),
    ensures
        final(v)@ == filled(old(v)@, start as int, end as int, x),
{
    let ghost before = v@;
    let mut i: usize = start;
    proof {
        assert(v@ =~= filled(before, start as int, start as int, x));
    }
    while i < end
        invariant
            start <= i <= end <= v@.len(),
            v@ == filled(before, start as int, i as int, x),
        decreases end - i,
    {
        v.set(i, x);
        i = i + 1;
        proof {
            assert(v@ =~= filled(before, start as int, i as int, x));
        }
    }
}

fn pow2(n: usize) -> (r: usize)
    requires
        n <= 15,
    ensures
        r == bits::p2(n as nat),
        1 <= r <= 32768,
{
    proof {
        bits::lemma_shl_p2(n as u64);
        bits::lemma_p2_pos(n as nat);
        bits::lemma_p2_mono(n as nat, 15);
        bits::lemma_p2_small();
    }
    (1u64 << (n as u64)) as usize
}

proof fn lemma_built_none(
    root: Seq<u16>,
    sub: Seq<u16>,
    map: Seq<u16>,
    lens: Seq<u8>,
    max_bits: nat,
    k: nat,
)
    requires
        built(root, sub, map, lens, max_bits, k),
        lens[k as int] == 0,
    ensures
        built(root, sub, map, lens, max_bits, k + 1),
{
    assert forall|p: int| 0 <= p < 2048 implies seen(lens, max_bits, p, k + 1) == seen(
        lens,
        max_bits,
        p,
        k,
    ) by {
        lemma_seen(lens, max_bits, p, k + 1);
    }
    assert forall|p: int, j: int| 0 <= p < 2048 && 0 <= j < 16 && map[p] != NO_TABLE implies sub[
        map[p] * 16 + j] == entry_of(lens, #[trigger] sub_at(lens, max_bits, p, j, k + 1)) by {
        assert(sub_at(lens, max_bits, p, j, k + 1) == sub_at(lens, max_bits, p, j, k));
    }
}

proof fn lemma_built_short(
    root: Seq<u16>,
    sub: Seq<u16>,
    map: Seq<u16>,
    lens: Seq<u8>,
    max_bits: nat,
    k: nat,
    start: int,
    end: int,
    x: u16,
)
    requires
        built(root, sub, map, lens, max_bits, k),
        1 <= lens[k as int] <= 11,
        x == lens[k as int] * 512 + k,
        start == canon::code_of(lens, max_bits, k as int) * bits::p2((11 - lens[k as int]) as nat),
        end == start + bits::p2((11 - lens[k as int]) as nat),
    ensures
        built(filled(root, start, end, x), sub, map, lens, max_bits, k + 1),
{
    assert forall|p: int| 0 <= p < 2048 implies seen(lens, max_bits, p, k + 1) == seen(
        lens,
        max_bits,
        p,
        k,
    ) by {
        lemma_seen(lens, max_bits, p, k + 1);
    }
    let root2 = filled(root, start, end, x);
    assert forall|p: int| 0 <= p < 2048 implies #[trigger] root2[p] == slot_entry(
        lens,
        root_at(lens, max_bits, p, k + 1),
        map[p],
    ) by {
        assert(in_root(lens, max_bits, k as int, p) <==> start <= p < end);
        assert(!has_prefix(lens, max_bits, k as int, p));
        assert(root[p] == slot_entry(lens, root_at(lens, max_bits, p, k), map[p]));
    }
    assert forall|p: int, j: int| 0 <= p < 2048 && 0 <= j < 16 && map[p] != NO_TABLE implies sub[
        map[p] * 16 + j] == entry_of(lens, #[trigger] sub_at(lens, max_bits, p, j, k + 1)) by {
        assert(sub_at(lens, max_bits, p, j, k + 1) == sub_at(lens, max_bits, p, j, k));
    }
}

/// A first code with prefix `q` gets a table.
proof fn lemma_built_new(
    root: Seq<u16>,
    sub: Seq<u16>,
    map: Seq<u16>,
    lens: Seq<u8>,
    max_bits: nat,
    k: nat,
    q: int,
    id: u16,
    start: int,
    end: int,
    x: u16,
)
    requires
        built(root, sub, map, lens, max_bits, k),
        12 <= lens[k as int] <= 15,
        0 <= q < 2048,
        q == prefix(lens, max_bits, k as int),
        map[q] == NO_TABLE,
        id * 16 == sub.len(),
        id < 512,
        x == lens[k as int] * 512 + k,
        0 <= start <= end <= 16,
        forall|j: int|
            0 <= j < 16 ==> (#[trigger] in_sub(lens, max_bits, k as int, j) <==> start <= j < end),
    ensures
        built(
            root.update(q, (127 * 512 + id) as u16),
            filled(sub + Seq::new(16, |i: int| 0u16), id * 16 + start, id * 16 + end, x),
            map.update(q, id),
            lens,
            max_bits,
            k + 1,
        ),
{
    let s1 = sub + Seq::new(16, |i: int| 0u16);
    let root2 = root.update(q, (127 * 512 + id) as u16);
    let sub2 = filled(s1, id * 16 + start, id * 16 + end, x);
    let map2 = map.update(q, id);
    assert forall|p: int| 0 <= p < 2048 implies seen(lens, max_bits, p, k + 1) == (seen(
        lens,
        max_bits,
        p,
        k,
    ) || p == q) by {
        lemma_seen(lens, max_bits, p, k + 1);
    }
    assert forall|p: int|
        0 <= p < 2048 implies #[trigger] map2[p] == NO_TABLE || map2[p] * 16 + 16 <= sub2.len() by {
        assert(map[p] == NO_TABLE || map[p] * 16 + 16 <= sub.len());
    }
    assert forall|p: int, r: int|
        0 <= p < 2048 && 0 <= r < 2048 && #[trigger] map2[p] == #[trigger] map2[r] && map2[p]
            != NO_TABLE implies p == r by {
        assert(map[p] == NO_TABLE || map[p] * 16 + 16 <= sub.len());
        assert(map[r] == NO_TABLE || map[r] * 16 + 16 <= sub.len());
    }
    assert forall|p: int| 0 <= p < 2048 implies #[trigger] root2[p] == slot_entry(
        lens,
        root_at(lens, max_bits, p, k + 1),
        map2[p],
    ) by {
        assert(root[p] == slot_entry(lens, root_at(lens, max_bits, p, k), map[p]));
        assert(map[p] == NO_TABLE <==> !seen(lens, max_bits, p, k));
        lemma_root_range(lens, max_bits, p, k);
    }
    assert forall|p: int, j: int|
        0 <= p < 2048 && 0 <= j < 16 && map2[p] != NO_TABLE implies sub2[map2[p] * 16 + j]
        == entry_of(lens, #[trigger] sub_at(lens, max_bits, p, j, k + 1)) by {
        if p == q {
            assert(in_sub(lens, max_bits, k as int, j) <==> start <= j < end);
            lemma_sub_range(lens, max_bits, p, j, k);
        } else {
            assert(map[p] * 16 + 16 <= sub.len());
            assert(sub[map[p] * 16 + j] == entry_of(lens, sub_at(lens, max_bits, p, j, k)));
        }
    }
}

/// A further code with prefix `q` goes to the table that is there.
proof fn lemma_built_more(
    root: Seq<u16>,
    sub: Seq<u16>,
    map: Seq<u16>,
    lens: Seq<u8>,
    max_bits: nat,
    k: nat,
    q: int,
    id: u16,
    start: int,
    end: int,
    x: u16,
)
    requires
        built(root, sub, map, lens, max_bits, k),
        12 <= lens[k as int] <= 15,
        0 <= q < 2048,
        q == prefix(lens, max_bits, k as int),
        map[q] == id,
        id != NO_TABLE,
        x == lens[k as int] * 512 + k,
        0 <= start <= end <= 16,
        forall|j: int|
            0 <= j < 16 ==> (#[trigger] in_sub(lens, max_bits, k as int, j) <==> start <= j < end),
    ensures
        built(
            root,
            filled(sub, id * 16 + start, id * 16 + end, x),
            map,
            lens,
            max_bits,
            k + 1,
        ),
{
    let sub2 = filled(sub, id * 16 + start, id * 16 + end, x);
    assert(map[q] == NO_TABLE <==> !seen(lens, max_bits, q, k));
    assert forall|p: int| 0 <= p < 2048 implies seen(lens, max_bits, p, k + 1) == seen(
        lens,
        max_bits,
        p,
        k,
    ) by {
        lemma_seen(lens, max_bits, p, k + 1);
    }
    assert forall|p: int| 0 <= p < 2048 implies #[trigger] root[p] == slot_entry(
        lens,
        root_at(lens, max_bits, p, k + 1),
        map[p],
    ) by {
        assert(root_at(lens, max_bits, p, k + 1) == root_at(lens, max_bits, p, k));
    }
    assert forall|p: int, j: int|
        0 <= p < 2048 && 0 <= j < 16 && map[p] != NO_TABLE implies sub2[map[p] * 16 + j]
        == entry_of(lens, #[trigger] sub_at(lens, max_bits, p, j, k + 1)) by {
        assert(map[p] * 16 + 16 <= sub.len());
        assert(sub[map[p] * 16 + j] == entry_of(lens, sub_at(lens, max_bits, p, j, k)));
        if p == q {
            assert(in_sub(lens, max_bits, k as int, j) <==> start <= j < end);
        } else {
            assert(map[p] != map[q]);
            assert(map[q] * 16 + 16 <= sub.len());
        }
    }
}

/// Builds the tables, unless a code does not fit in its number of bits.
pub fn build_tables(lens: &[u8], max_bits: usize) -> (r: Option<Tables>)
    requires
        lens@.len() <= 512,
        max_bits <= 15,
        forall|s: int| 0 <= s < lens@.len() ==> #[trigger] lens@[s] <= 15,
    ensures
        match r {
            None => oversubscribed(lens@, max_bits as nat),
            Some(t) => !oversubscribed(lens@, max_bits as nat) && t.wf(lens@, max_bits as nat),
        },
{
    let ghost mb = max_bits as nat;
    let codes = canon::assign_codes(lens, max_bits);
    let mut root: Vec<u16> = vec![0u16; 2048];
    let mut sub: Vec<u16> = Vec::new();
    let mut map: Vec<u16> = vec![NO_TABLE; 2048];
    let n: usize = lens.len();
    let mut k: usize = 0;
    while k < n
        invariant
            k <= n == lens@.len(),
            n <= 512,
            mb == max_bits,
            codes@.len() == n,
            forall|s: int| 0 <= s < lens@.len() ==> #[trigger] lens@[s] <= 15,
            forall|s: int|
                0 <= s < lens@.len() && lens@[s] > 0 ==> #[trigger] codes@[s] == canon::code_of(
                    lens@,
                    mb,
                    s,
                ),
            forall|s: int|
                0 <= s < k && lens@[s] > 0 ==> #[trigger] canon::code_of(lens@, mb, s) < bits::p2(
                    lens@[s] as nat,
                ),
            built(root@, sub@, map@, lens@, mb, k as nat),
        decreases n - k,
    {
        let l: usize = lens[k] as usize;
        assert(lens@[k as int] <= 15);
        if l == 0 {
            proof {
                lemma_built_none(root@, sub@, map@, lens@, mb, k as nat);
            }
        } else {
            let c: usize = codes[k] as usize;
            assert(codes@[k as int] == canon::code_of(lens@, mb, k as int));
            let limit: usize = pow2(l);
            if c >= limit {
                assert(oversubscribed(lens@, mb)) by {
                    assert(canon::code_of(lens@, mb, k as int) >= bits::p2(lens@[k as int] as nat));
                }
                return None;
            }
            let x: u16 = pack_table_entry(k as u16, l as u8);
            if l <= 11 {
                let w: usize = pow2(11 - l);
                proof {
                    bits::lemma_p2_add(l as nat, (11 - l) as nat);
                    bits::lemma_p2_small();
                    assert(limit * w == 2048);
                    assert(c * w + w <= 2048) by (nonlinear_arith)
                        requires
                            c + 1 <= limit,
                            limit * w == 2048,
                    ;
                    lemma_built_short(
                        root@,
                        sub@,
                        map@,
                        lens@,
                        mb,
                        k as nat,
                        c * w,
                        c * w + w,
                        x,
                    );
                }
                let start: usize = c * w;
                fill_range(&mut root, start, start + w, x);
            } else {
                let h: usize = pow2(l - 11);
                let w: usize = pow2(15 - l);
                let q: usize = c / h;
                let e: usize = c % h;
                proof {
                    bits::lemma_p2_add(11, (l - 11) as nat);
                    bits::lemma_p2_add((l - 11) as nat, (15 - l) as nat);
                    bits::lemma_p2_small();
                    assert(limit == 2048 * h);
                    assert(q < 2048) by (nonlinear_arith)
                        requires
                            c < 2048 * h,
                            q == c / h,
                            h >= 1,
                    ;
                    assert(h * w == 16);
                    assert(e * w + w <= 16) by (nonlinear_arith)
                        requires
                            e + 1 <= h,
                            h * w == 16,
                    ;
                }
                let start: usize = e * w;
                assert(forall|j: int|
                    0 <= j < 16 ==> (#[trigger] in_sub(lens@, mb, k as int, j) <==> start <= j
                        < start + w));
                if map[q] == NO_TABLE {
                    let id: usize = sub.len() / 16;
                    proof {
                        lemma_built_new(
                            root@,
                            sub@,
                            map@,
                            lens@,
                            mb,
                            k as nat,
                            q as int,
                            id as u16,
                            start as int,
                            start + w,
                            x,
                        );
                    }
                    let ghost sub0 = sub@;
                    let end: usize = sub.len() + 16;
                    sub.resize(end, 0u16);
                    assert(sub@ =~= sub0 + Seq::new(16, |i: int| 0u16));
                    map.set(q, id as u16);
                    let pointer: u16 = pack_table_entry(id as u16, SUB_TABLE_INDICATOR);
                    root.set(q, pointer);
                    fill_range(&mut sub, id * 16 + start, id * 16 + start + w, x);
                } else {
                    let id: usize = map[q] as usize;
                    proof {
                        lemma_built_more(
                            root@,
                            sub@,
                            map@,
                            lens@,
                            mb,
                            k as nat,
                            q as int,
                            id as u16,
                            start as int,
                            start + w,
                            x,
                        );
                        assert(map@[q as int] * 16 + 16 <= sub@.len());
                    }
                    fill_range(&mut sub, id * 16 + start, id * 16 + start + w, x);
                }
            }
        }
        k = k + 1;
    }
    let t = Tables { root, sub };
    proof {
        assert forall|v: int| 0 <= v < 32768 implies {
            let e = t.root@[v / 16] as int;
            let i = (e % 512) * 16 + v % 16;
            if e / 512 == 127 {
                &&& i < t.sub@.len()
                &&& t.sub@[i] == entry_of(lens@, #[trigger] lookup(lens@, mb, v))
            } else {
                e == entry_of(lens@, lookup(lens@, mb, v))
            }
        } by {
            let p = v / 16;
            let j = v % 16;
            assert(t.root@[p] == slot_entry(
                lens@,
                root_at(lens@, mb, p, n as nat),
                map@[p],
            ));
            lemma_root_range(lens@, mb, p, n as nat);
            assert(map@[p] == NO_TABLE <==> !seen(lens@, mb, p, n as nat));
            if map@[p] != NO_TABLE {
                assert(map@[p] * 16 + 16 <= t.sub@.len());
                assert(t.sub@[map@[p] * 16 + j] == entry_of(
                    lens@,
                    sub_at(lens@, mb, p, j, n as nat),
                ));
            }
        }
    }
    Some(t)
}

} // verus!
