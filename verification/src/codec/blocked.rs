//! Data in blocks that are coded one by one.
//!
//! A blocked stream is the number of blocks (four bytes) and the blocks. A block
//! has a header of ten bytes: the size of what is stored, the size of the data,
//! a flag that is 1 if the block is coded and 0 if it is stored as it is, and
//! the number of its lane.

use crate::bytes;
use crate::codec::alone;
use crate::codec::bits;
use crate::codec::cdc;
use crate::codec::deflate;
use crate::codec::deflate::CompressBuffers;
use crate::codec::lz;
use crate::codec::lz::{Block, Chains, TableIndex};
use crate::text;
use vstd::prelude::*;
use vstd::string::*;

verus! {

/// 128 KiB.
pub const BLOCK_SIZE: usize = 131072;

/// No block of data that is not shuffled is made larger than this.
pub const MAX_PLAIN_BLOCK_SIZE: usize = 8388608;

/// No block of shuffled data is made larger than this.
pub const MAX_SHUFFLE_BLOCK_SIZE: usize = 1048576;

/// What the surroundings decide.
#[derive(Clone, Copy)]
pub struct Settings {
    /// Cut blocks at fixed lengths and not by content.
    pub fixed_blocks: bool,
    /// How many workers there are. Blocks are dealt out to them in runs, and
    /// each starts with tables of its own.
    pub workers: usize,
}

/// Content-defined blocks, one worker.
pub open spec fn standard_settings() -> Settings {
    Settings { fixed_blocks: false, workers: 1 }
}

impl Settings {
    pub fn standard() -> (s: Settings)
        ensures
            s == standard_settings(),
    {
        Settings { fixed_blocks: false, workers: 1 }
    }
}

// ---- a block ----

/// A block with its header.
pub open spec fn record(block: Seq<u8>, coded: Option<Seq<u8>>, lane: nat) -> Seq<u8> {
    let tag = (lane % 256) as u8;
    if coded is Some && coded->0.len() < block.len() {
        bytes::le32(coded->0.len()) + bytes::le32(block.len()) + seq![1u8, tag] + coded->0
    } else {
        bytes::le32(block.len()) + bytes::le32(block.len()) + seq![0u8, tag] + block
    }
}

pub open spec fn bytes_of(v: Option<Vec<u8>>) -> Option<Seq<u8>> {
    match v {
        Some(x) => Some(x@),
        None => None,
    }
}

/// Puts the header in front of a block, of its coded form if that is shorter.
pub fn encode_block_result(block: &[u8], c_opt: Option<Vec<u8>>, lane: usize, _version: u8) -> (r:
    Vec<u8>)
    ensures
        r@ == record(block@, bytes_of(c_opt), lane as nat),
{
    let ghost coded = bytes_of(c_opt);
    let mut v: Vec<u8> = Vec::new();
    match c_opt {
        Some(c) => {
            if c.len() < block.len() {
                bytes::push_u32(&mut v, c.len() as u64);
                bytes::push_u32(&mut v, block.len() as u64);
                v.push(1);
                v.push((lane % 256) as u8);
                v.extend_from_slice(c.as_slice());
                assert(v@ =~= record(block@, Some(c@), lane as nat));
                return v;
            }
        },
        None => {},
    }
    bytes::push_u32(&mut v, block.len() as u64);
    bytes::push_u32(&mut v, block.len() as u64);
    v.push(0);
    v.push((lane % 256) as u8);
    v.extend_from_slice(block);
    assert(v@ =~= record(block@, coded, lane as nat));
    v
}

// ---- dealing out work ----

/// How many workers share `work` pieces of work.
pub open spec fn workers_for(available: nat, work: nat) -> nat {
    if work <= 1 || available <= 1 {
        1
    } else if available <= work {
        available
    } else {
        work
    }
}

pub fn num_threads(available: usize, work: usize) -> (r: usize)
    ensures
        r == workers_for(available as nat, work as nat),
        r >= 1,
{
    if work <= 1 || available <= 1 {
        1
    } else if available <= work {
        available
    } else {
        work
    }
}

/// There are as many workers as there are at hand and as there is work for, but at least one.
pub proof fn lemma_workers(available: nat, work: nat, n: nat)
    requires
        1 <= n,
    ensures
        workers_for(available, work) >= 1,
        n <= available && n <= work ==> n <= workers_for(available, work),
        available >= 1 && work >= 1 ==> workers_for(available, work) <= available && workers_for(
            available,
            work,
        ) <= work,
        available == 0 || work == 0 ==> workers_for(available, work) == 1,
{
}

/// How many of `work` pieces a worker takes in a run.
pub open spec fn run_len(available: nat, work: nat) -> nat {
    let w = workers_for(available, work);
    (work + w - 1) as nat / w
}

pub proof fn lemma_run_len(available: nat, work: nat)
    requires
        work >= 1,
    ensures
        1 <= run_len(available, work) <= work,
{
    let w = workers_for(available, work);
    let x = (work + w - 1) as nat;
    assert(1 <= x / w <= work) by (nonlinear_arith)
        requires
            x == work + w - 1,
            1 <= w <= work,
            work >= 1,
    ;
}

fn get_run_len(available: usize, work: usize) -> (r: usize)
    requires
        work >= 1,
    ensures
        r == run_len(available as nat, work as nat),
        1 <= r <= work,
{
    let w: usize = num_threads(available, work);
    proof {
        lemma_run_len(available as nat, work as nat);
        let x = (work + w - 1) as nat;
        let q = (work as nat / w as nat) as nat;
        let m = (work as nat % w as nat) as nat;
        assert(x / (w as nat) == if m == 0 {
            q
        } else {
            q + 1
        }) by {
            lemma_round_up(work as nat, w as nat);
        }
    }
    let q: usize = work / w;
    if work % w == 0 {
        q
    } else {
        q + 1
    }
}

proof fn lemma_round_up(a: nat, w: nat)
    requires
        w >= 1,
    ensures
        (a + w - 1) as nat / w == a / w + if a % w == 0 {
            0nat
        } else {
            1nat
        },
{
    let q = a / w;
    let m = a % w;
    vstd::arithmetic::div_mod::lemma_fundamental_div_mod(a as int, w as int);
    let x = (a + w - 1) as nat;
    if m == 0 {
        assert(x == q * w + (w - 1)) by (nonlinear_arith)
            requires
                a == w * q + m,
                m == 0,
                x == a + w - 1,
        ;
        vstd::arithmetic::div_mod::lemma_fundamental_div_mod_converse(
            x as int,
            w as int,
            q as int,
            w - 1,
        );
    } else {
        assert(x == (q + 1) * w + (m - 1)) by (nonlinear_arith)
            requires
                a == w * q + m,
                x == a + w - 1,
        ;
        assert(m < w);
        vstd::arithmetic::div_mod::lemma_fundamental_div_mod_converse(
            x as int,
            w as int,
            q as int + 1,
            m - 1,
        );
    }
}

// ---- a stream of blocks ----

/// How a stream is coded.
pub struct Plan {
    pub window: nat,
    pub modulus: nat,
    pub version: u8,
    /// How many blocks in a row share tables.
    pub run: nat,
}

impl Plan {
    pub open spec fn hash_bits(self) -> nat {
        lz::hash_params(self.window).0
    }

    pub open spec fn start_chains(self) -> Chains {
        deflate::no_chains(lz::hash_params(self.window).1, self.window)
    }

    /// Block `k` as it is searched: the first of a run starts with new tables.
    pub open spec fn block(self, data: Seq<u8>, k: nat, base: nat) -> Block {
        Block {
            data,
            modulus: self.modulus,
            window: self.window,
            base: if k % self.run == 0 {
                0
            } else {
                base
            },
            hash_bits: self.hash_bits(),
        }
    }

    pub open spec fn chains(self, k: nat, c: Chains) -> Chains {
        if k % self.run == 0 {
            self.start_chains()
        } else {
            c
        }
    }

    /// The records of the blocks from the `k`-th on.
    pub open spec fn records(
        self,
        data: Seq<u8>,
        bounds: Seq<(int, int)>,
        k: nat,
        c: Chains,
        base: nat,
    ) -> Seq<u8>
        decreases bounds.len() - k,
    {
        if k >= bounds.len() {
            Seq::empty()
        } else {
            let piece = data.subrange(bounds[k as int].0, bounds[k as int].1);
            let b = self.block(piece, k, base);
            let c0 = self.chains(k, c);
            record(piece, deflate::deflated(b, c0, self.version), 0) + self.records(
                data,
                bounds,
                k + 1,
                deflate::chains_after(b, c0),
                b.base + piece.len(),
            )
        }
    }
}

/// The plan for blocks of about `block_size` bytes, `count` of them.
pub open spec fn plan(
    window: nat,
    block_size: nat,
    version: u8,
    workers: nat,
    count: nat,
) -> Plan {
    Plan {
        window,
        modulus: deflate::table_modulus(window, block_size),
        version,
        run: run_len(workers, count),
    }
}

/// The blocked form of `data`, whether or not it is shorter.
pub open spec fn blocked_bytes(
    data: Seq<u8>,
    window: nat,
    block_size: nat,
    version: u8,
    s: Settings,
) -> Seq<u8> {
    let bounds = cdc::blocks(data, block_size, s.fixed_blocks);
    let p = plan(window, block_size, version, s.workers as nat, bounds.len());
    bytes::le32(bounds.len()) + p.records(data, bounds, 0, p.start_chains(), 0)
}

/// The blocked form of `data`, if it is shorter than the data.
pub open spec fn blocked(
    data: Seq<u8>,
    window: nat,
    block_size: nat,
    version: u8,
    s: Settings,
) -> Option<Seq<u8>> {
    let out = blocked_bytes(data, window, block_size, version, s);
    if data.len() < 128 || out.len() >= data.len() {
        None
    } else {
        Some(out)
    }
}

// ---- decoding ----

/// A block as it is found in a stream.
pub struct Found {
    pub stored: Seq<u8>,
    pub orig: nat,
    pub flag: u8,
}

/// The blocks from the `i`-th to the last of `count`, which `rest` starts with;
/// `off` bytes of output come before them.
pub open spec fn found_in(rest: Seq<u8>, i: nat, count: nat, off: nat, expected: nat) -> Result<
    (Seq<Found>, nat),
    Seq<char>,
>
    decreases count - i,
{
    if i >= count {
        Ok((Seq::empty(), off))
    } else if rest.len() < 10 {
        Err("blocked: block "@ + text::dec(i) + " header overrun"@)
    } else {
        let size = bytes::u32_at(rest, 0);
        let orig = bytes::u32_at(rest, 4);
        if rest.len() - 10 < size {
            Err("blocked: block "@ + text::dec(i) + " data overrun"@)
        } else if off + orig > expected {
            Err("blocked: output overrun"@)
        } else {
            let one = Found { stored: rest.subrange(10, 10 + size as int), orig, flag: rest[8] };
            match found_in(rest.skip(10 + size as int), i + 1, count, off + orig, expected) {
                Err(e) => Err(e),
                Ok((more, end)) => Ok((seq![one] + more, end)),
            }
        }
    }
}

/// What a block stands for.
pub open spec fn opened(f: Found, version: u8) -> Result<Seq<u8>, Seq<char>> {
    if f.flag == 0 {
        if f.stored.len() != f.orig {
            Err("blocked: raw block size mismatch"@)
        } else {
            Ok(f.stored)
        }
    } else {
        deflate::inflated(f.stored, f.orig, version)
    }
}

/// What the blocks from the `k`-th on stand for, behind `acc`.
pub open spec fn opened_all(found: Seq<Found>, k: nat, version: u8, acc: Seq<u8>) -> Result<
    Seq<u8>,
    Seq<char>,
>
    decreases found.len() - k,
{
    if k >= found.len() {
        Ok(acc)
    } else {
        match opened(found[k as int], version) {
            Err(e) => Err(e),
            Ok(piece) => opened_all(found, k + 1, version, acc + piece),
        }
    }
}

/// What a blocked stream stands for.
pub open spec fn unblocked(data: Seq<u8>, expected: nat, version: u8) -> Result<
    Seq<u8>,
    Seq<char>,
> {
    if data.len() < 4 {
        Err("blocked: too short"@)
    } else {
        match found_in(data.skip(4), 0, bytes::u32_at(data, 0), 0, expected) {
            Err(e) => Err(e),
            Ok((found, off)) => if off != expected {
                Err("blocked: got "@ + text::dec(off) + " want "@ + text::dec(expected))
            } else {
                opened_all(found, 0, version, Seq::empty())
            },
        }
    }
}

// ---- reading back what was written ----

/// The pieces from the `k`-th on, one after the other.
pub open spec fn joined(data: Seq<u8>, bounds: Seq<(int, int)>, k: nat) -> Seq<u8>
    decreases bounds.len() - k,
{
    if k >= bounds.len() {
        Seq::empty()
    } else {
        data.subrange(bounds[k as int].0, bounds[k as int].1) + joined(data, bounds, k + 1)
    }
}

/// Pieces that make up the data, joined, are the data.
pub proof fn lemma_joined(data: Seq<u8>, bounds: Seq<(int, int)>, k: nat, i: int)
    requires
        k <= bounds.len(),
        0 <= i <= data.len(),
        cdc::tiles(bounds.skip(k as int), i, data.len() as int),
    ensures
        joined(data, bounds, k) == data.skip(i),
    decreases bounds.len() - k,
{
    if k < bounds.len() {
        let rest = bounds.skip(k as int);
        assert(rest[0] == bounds[k as int]);
        assert(rest.drop_first() =~= bounds.skip(k as int + 1));
        let e = bounds[k as int].1;
        lemma_joined(data, bounds, k + 1, e);
        assert(data.subrange(i, e) + data.skip(e) =~= data.skip(i));
    } else {
        assert(bounds.skip(k as int).len() == 0);
        assert(data.skip(i) =~= Seq::<u8>::empty());
    }
}

/// A record is taken apart again.
pub proof fn lemma_record(block: Seq<u8>, coded: Option<Seq<u8>>, lane: nat, rest: Seq<u8>)
    requires
        block.len() <= u32::MAX,
    ensures
        ({
            let r = record(block, coded, lane);
            let all = r + rest;
            let size = bytes::u32_at(all, 0);
            &&& all.len() >= 10 + size
            &&& r.len() == 10 + size
            &&& bytes::u32_at(all, 4) == block.len()
            &&& all[9] == lane % 256
            &&& all.skip(10 + size as int) == rest
            &&& if coded is Some && coded->0.len() < block.len() {
                all[8] == 1 && all.subrange(10, 10 + size as int) == coded->0
            } else {
                all[8] == 0 && all.subrange(10, 10 + size as int) == block
            }
        }),
{
    let r = record(block, coded, lane);
    let all = r + rest;
    let body = if coded is Some && coded->0.len() < block.len() {
        coded->0
    } else {
        block
    };
    assert(all.subrange(0, 4) =~= bytes::le32(body.len()));
    bytes::lemma_u32_at(all, 0, body.len());
    assert(all.subrange(4, 8) =~= bytes::le32(block.len()));
    bytes::lemma_u32_at(all, 4, block.len());
    assert(all.subrange(10, 10 + body.len() as int) =~= body);
    assert(all.skip(10 + body.len() as int) =~= rest);
}

impl Plan {
    pub open spec fn wf(self) -> bool {
        &&& self.modulus >= 2
        &&& 1 <= self.window <= usize::MAX
        &&& self.run >= 1
    }
}

/// What block `k` of a stream is found as, and what it is opened to.
pub proof fn lemma_record_opened(
    p: Plan,
    piece: Seq<u8>,
    k: nat,
    c: Chains,
    base: nat,
    rest: Seq<u8>,
)
    requires
        p.wf(),
        piece.len() <= u32::MAX,
        p.block(piece, k, base).base + piece.len() <= usize::MAX,
        p.block(piece, k, base).fresh(p.chains(k, c), 0),
    ensures
        ({
            let b = p.block(piece, k, base);
            let r = record(piece, deflate::deflated(b, p.chains(k, c), p.version), 0);
            let all = r + rest;
            let size = bytes::u32_at(all, 0);
            let f = Found {
                stored: all.subrange(10, 10 + size as int),
                orig: bytes::u32_at(all, 4),
                flag: all[8],
            };
            &&& all.len() >= 10 + size
            &&& r.len() == 10 + size
            &&& all.skip(10 + size as int) == rest
            &&& f.orig == piece.len()
            &&& f.flag <= 1
            &&& opened(f, p.version) == Ok::<Seq<u8>, Seq<char>>(piece)
        }),
{
    let b = p.block(piece, k, base);
    let coded = deflate::deflated(b, p.chains(k, c), p.version);
    lemma_record(piece, coded, 0, rest);
    lemma_hash_bits(p.window);
    if coded is Some {
        deflate::lemma_deflate_roundtrip(b, p.chains(k, c), p.version);
    }
}

proof fn lemma_hash_bits(window: nat)
    ensures
        16 <= lz::hash_params(window).0 <= 20,
{
}

/// New tables know no position.
proof fn lemma_start_fresh(p: Plan, b: Block)
    requires
        p.wf(),
        b.window == p.window,
        b.hash_bits == p.hash_bits(),
    ensures
        b.fresh(p.start_chains(), 0),
{
}

/// The tables before block `k`, which starts at `i`, know earlier positions of
/// its run only.
pub open spec fn ready(p: Plan, k: nat, c: Chains, base: nat, i: int) -> bool {
    k % p.run != 0 ==> {
        &&& base <= i
        &&& c.head.len() >= lz::hash_params(p.window).1
        &&& c.prev.len() >= p.window
        &&& lz::below(c.head, base as int)
        &&& lz::below(c.prev, base as int)
    }
}

/// After a block the tables know positions up to its end only.
pub proof fn lemma_ready_next(p: Plan, piece: Seq<u8>, k: nat, c: Chains, base: nat, i: int)
    requires
        p.wf(),
        0 <= i,
        i + piece.len() <= usize::MAX,
        ready(p, k, c, base, i),
    ensures
        ({
            let b = p.block(piece, k, base);
            let c0 = p.chains(k, c);
            &&& b.wf()
            &&& b.fresh(c0, 0)
            &&& ready(
                p,
                k + 1,
                deflate::chains_after(b, c0),
                b.base + piece.len(),
                i + piece.len(),
            )
        }),
{
    let b = p.block(piece, k, base);
    let c0 = p.chains(k, c);
    lemma_hash_bits(p.window);
    if k % p.run == 0 {
        lemma_start_fresh(p, b);
    }
    assert(b.fresh(c0, 0));
    if piece.len() >= 128 {
        lz::lemma_tokens(b, c0, 0);
    } else {
        lz::lemma_fresh_later(b, c0, 0, piece.len() as int);
    }
}

/// One block is found in front of the others.
pub proof fn lemma_found_front(
    r: Seq<u8>,
    rest: Seq<u8>,
    k: nat,
    count: nat,
    off: nat,
    expected: nat,
    orig: nat,
)
    requires
        k < count,
        ({
            let all = r + rest;
            let size = bytes::u32_at(all, 0);
            &&& all.len() >= 10 + size
            &&& all.skip(10 + size as int) == rest
            &&& bytes::u32_at(all, 4) == orig
        }),
        off + orig <= expected,
        found_in(rest, k + 1, count, off + orig, expected) is Ok,
    ensures
        ({
            let all = r + rest;
            let size = bytes::u32_at(all, 0);
            let f = Found { stored: all.subrange(10, 10 + size as int), orig, flag: all[8] };
            let (more, end) = found_in(rest, k + 1, count, off + orig, expected)->Ok_0;
            found_in(all, k, count, off, expected) == Ok::<(Seq<Found>, nat), Seq<char>>(
                (seq![f] + more, end),
            )
        }),
{
}

/// The number of the blocks and the size of each fit in 32 bits.
pub open spec fn countable(bounds: Seq<(int, int)>) -> bool {
    &&& bounds.len() <= u32::MAX
    &&& forall|k: int|
        0 <= k < bounds.len() ==> (#[trigger] bounds[k]).1 - bounds[k].0 <= u32::MAX
}

/// The blocks of a stream are found and stand for the pieces.
proof fn lemma_records_found(
    p: Plan,
    data: Seq<u8>,
    bounds: Seq<(int, int)>,
    k: nat,
    c: Chains,
    base: nat,
    i: int,
    acc: Seq<u8>,
)
    requires
        p.wf(),
        data.len() <= usize::MAX,
        countable(bounds),
        k <= bounds.len(),
        0 <= i <= data.len(),
        cdc::tiles(bounds.skip(k as int), i, data.len() as int),
        ready(p, k, c, base, i),
    ensures
        match found_in(
            p.records(data, bounds, k, c, base),
            k,
            bounds.len(),
            i as nat,
            data.len(),
        ) {
            Err(e) => false,
            Ok((found, end)) => end == data.len() && opened_all(found, 0, p.version, acc) == Ok::<
                Seq<u8>,
                Seq<char>,
            >(acc + joined(data, bounds, k)),
        },
    decreases bounds.len() - k,
{
    let all = p.records(data, bounds, k, c, base);
    if k < bounds.len() {
        let tail = bounds.skip(k as int);
        assert(tail[0] == bounds[k as int]);
        assert(tail.drop_first() =~= bounds.skip(k as int + 1));
        let e = bounds[k as int].1;
        let piece = data.subrange(i, e);
        let b = p.block(piece, k, base);
        let c0 = p.chains(k, c);
        let r = record(piece, deflate::deflated(b, c0, p.version), 0);
        let c1 = deflate::chains_after(b, c0);
        let base1 = b.base + piece.len();
        let rest = p.records(data, bounds, k + 1, c1, base1);
        lemma_ready_next(p, piece, k, c, base, i);
        lemma_record_opened(p, piece, k, c, base, rest);
        lemma_records_found(p, data, bounds, k + 1, c1, base1, e, acc + piece);
        assert(all == r + rest);
        lemma_found_front(r, rest, k, bounds.len(), i as nat, data.len(), piece.len());
        let size = bytes::u32_at(all, 0);
        let f = Found {
            stored: all.subrange(10, 10 + size as int),
            orig: piece.len(),
            flag: all[8],
        };
        let more = found_in(rest, k + 1, bounds.len(), e as nat, data.len())->Ok_0.0;
        let found = seq![f] + more;
        assert(found.skip(1) =~= more.skip(0));
        lemma_opened_shift(found, 1, more, 0, p.version, acc + piece);
        assert(found[0] == f);
        assert(opened_all(found, 0, p.version, acc) == opened_all(
            found,
            1,
            p.version,
            acc + piece,
        ));
        assert((acc + piece) + joined(data, bounds, k + 1) =~= acc + (piece + joined(
            data,
            bounds,
            k + 1,
        )));
    } else {
        assert(bounds.skip(k as int).len() == 0);
        assert(acc + joined(data, bounds, k) =~= acc);
    }
}

/// Blocks that are alike from some place on stand for the same from there on.
pub proof fn lemma_opened_shift(
    a: Seq<Found>,
    i: nat,
    b: Seq<Found>,
    j: nat,
    version: u8,
    acc: Seq<u8>,
)
    requires
        i <= a.len(),
        j <= b.len(),
        a.skip(i as int) == b.skip(j as int),
    ensures
        opened_all(a, i, version, acc) == opened_all(b, j, version, acc),
    decreases a.len() - i,
{
    let x = a.skip(i as int);
    let y = b.skip(j as int);
    assert(x.len() == a.len() - i);
    assert(y.len() == b.len() - j);
    if i < a.len() {
        assert(a.skip(i as int)[0] == a[i as int]);
        assert(b.skip(j as int)[0] == b[j as int]);
        assert(a.skip(i as int + 1) =~= a.skip(i as int).drop_first());
        assert(b.skip(j as int + 1) =~= b.skip(j as int).drop_first());
        match opened(a[i as int], version) {
            Err(e) => {},
            Ok(piece) => {
                lemma_opened_shift(a, i + 1, b, j + 1, version, acc + piece);
            },
        }
    }
}

/// Data comes back from its blocked form, however its blocks were cut and dealt
/// out.
pub proof fn lemma_blocked_roundtrip(
    data: Seq<u8>,
    window: nat,
    block_size: nat,
    version: u8,
    s: Settings,
)
    requires
        1 <= window <= usize::MAX,
        cdc::blocks_allowed(block_size, s.fixed_blocks),
        1 <= data.len() <= usize::MAX,
        countable(cdc::blocks(data, block_size, s.fixed_blocks)),
    ensures
        unblocked(blocked_bytes(data, window, block_size, version, s), data.len(), version) == Ok::<
            Seq<u8>,
            Seq<char>,
        >(data),
{
    let bounds = cdc::blocks(data, block_size, s.fixed_blocks);
    let count = bounds.len();
    let p = plan(window, block_size, version, s.workers as nat, count);
    let body = p.records(data, bounds, 0, p.start_chains(), 0);
    let all = blocked_bytes(data, window, block_size, version, s);
    cdc::lemma_blocks_tile(data, block_size, s.fixed_blocks);
    assert(bounds.skip(0) =~= bounds);
    lemma_tiles_count(bounds, 0, data.len() as int);
    lemma_run_len(s.workers as nat, count);
    assert(0nat % p.run == 0);
    lemma_records_found(p, data, bounds, 0, p.start_chains(), 0, 0, Seq::empty());
    assert(all.subrange(0, 4) =~= bytes::le32(count));
    bytes::lemma_u32_at(all, 0, count);
    assert(all.skip(4) =~= body);
    lemma_joined(data, bounds, 0, 0);
    assert(data.skip(0) =~= data);
    assert(Seq::<u8>::empty() + data =~= data);
}

/// The blocks of data below 4 GiB can be counted. Where blocks are of moderate size, it is enough
/// that there are not too many.
pub proof fn lemma_countable(data: Seq<u8>, block_size: nat, fixed: bool)
    requires
        cdc::blocks_allowed(block_size, fixed),
    ensures
        data.len() <= u32::MAX ==> countable(cdc::blocks(data, block_size, fixed)),
        block_size <= MAX_PLAIN_BLOCK_SIZE && cdc::blocks(data, block_size, fixed).len()
            <= u32::MAX ==> countable(cdc::blocks(data, block_size, fixed)),
{
    let bounds = cdc::blocks(data, block_size, fixed);
    let n = data.len() as int;
    cdc::lemma_blocks_tile(data, block_size, fixed);
    lemma_tiles_count(bounds, 0, n);
    assert forall|k: int| 0 <= k < bounds.len() implies (#[trigger] bounds[k]).1 - bounds[k].0 <= n
        && (block_size <= MAX_PLAIN_BLOCK_SIZE ==> bounds[k].1 - bounds[k].0 <= u32::MAX) by {
        cdc::lemma_tile_at(bounds, 0, n, k);
        if block_size <= MAX_PLAIN_BLOCK_SIZE {
            cdc::lemma_block_len(data, block_size, fixed, k);
            cdc::lemma_doubled(1024, 8388608);
            cdc::lemma_doubled_mono(1024, block_size, 8388608);
        }
    }
}

/// There are at most as many pieces as bytes, and at least one.
pub proof fn lemma_tiles_count(bounds: Seq<(int, int)>, i: int, n: int)
    requires
        cdc::tiles(bounds, i, n),
        i <= n,
    ensures
        bounds.len() <= n - i,
        i < n ==> bounds.len() >= 1,
    decreases bounds.len(),
{
    if bounds.len() > 0 {
        lemma_tiles_count(bounds.drop_first(), bounds[0].1, n);
    }
}

// ---- blocks on their own ----

impl Plan {
    /// The record of a piece that is coded on its own.
    pub open spec fn record_alone(self, piece: Seq<u8>) -> Seq<u8> {
        record(
            piece,
            deflate::deflated(self.block(piece, 0, 0), self.start_chains(), self.version),
            0,
        )
    }

    /// The records of the pieces from the `k`-th on, each coded on its own.
    pub open spec fn records_alone(self, data: Seq<u8>, bounds: Seq<(int, int)>, k: nat) -> Seq<u8>
        decreases bounds.len() - k,
    {
        if k >= bounds.len() {
            Seq::empty()
        } else {
            self.record_alone(data.subrange(bounds[k as int].0, bounds[k as int].1))
                + self.records_alone(data, bounds, k + 1)
        }
    }
}

#[verifier::rlimit(50)]
#[verifier::spinoff_prover]
proof fn lemma_records_alone(
    p: Plan,
    data: Seq<u8>,
    bounds: Seq<(int, int)>,
    k: nat,
    c: Chains,
    base: nat,
    i: int,
)
    requires
        p.wf(),
        exists|e: nat| e < 64 && p.window == bits::p2(e),
        data.len() < p.modulus,
        data.len() <= usize::MAX,
        k <= bounds.len(),
        0 <= i <= data.len(),
        cdc::tiles(bounds.skip(k as int), i, data.len() as int),
        ready(p, k, c, base, i),
    ensures
        p.records(data, bounds, k, c, base) == p.records_alone(data, bounds, k),
    decreases bounds.len() - k,
{
    if k < bounds.len() {
        let tail = bounds.skip(k as int);
        assert(tail[0] == bounds[k as int]);
        assert(tail.drop_first() =~= bounds.skip(k as int + 1));
        let e = bounds[k as int].1;
        let piece = data.subrange(i, e);
        let b = p.block(piece, k, base);
        let c0 = p.chains(k, c);
        lemma_ready_next(p, piece, k, c, base, i);
        alone::lemma_coded_alone(b, c0, p.version);
        assert(0nat % p.run == 0) by {
            vstd::arithmetic::div_mod::lemma_small_mod(0, p.run);
        }
        assert(alone::moved(b) == p.block(piece, 0, 0));
        lemma_records_alone(
            p,
            data,
            bounds,
            k + 1,
            deflate::chains_after(b, c0),
            b.base + piece.len(),
            e,
        );
    }
}

/// Where the window is a power of two and positions fit in the tables, a stream
/// is the records of its blocks, each coded on its own. So blocks that are alike
/// are stored alike, wherever they stand.
pub proof fn lemma_blocks_alone(
    data: Seq<u8>,
    window: nat,
    block_size: nat,
    version: u8,
    s: Settings,
)
    requires
        1 <= window <= usize::MAX,
        exists|e: nat| e < 64 && window == bits::p2(e),
        cdc::blocks_allowed(block_size, s.fixed_blocks),
        1 <= data.len() <= usize::MAX,
        data.len() < deflate::table_modulus(window, block_size),
    ensures
        ({
            let bounds = cdc::blocks(data, block_size, s.fixed_blocks);
            let p = plan(window, block_size, version, s.workers as nat, bounds.len());
            blocked_bytes(data, window, block_size, version, s) == bytes::le32(bounds.len())
                + p.records_alone(data, bounds, 0)
        }),
{
    let bounds = cdc::blocks(data, block_size, s.fixed_blocks);
    let count = bounds.len();
    let p = plan(window, block_size, version, s.workers as nat, count);
    cdc::lemma_blocks_tile(data, block_size, s.fixed_blocks);
    lemma_tiles_count(bounds, 0, data.len() as int);
    lemma_run_len(s.workers as nat, count);
    assert(bounds.skip(0) =~= bounds);
    assert(0nat % p.run == 0) by {
        vstd::arithmetic::div_mod::lemma_small_mod(0, p.run);
    }
    lemma_records_alone(p, data, bounds, 0, p.start_chains(), 0, 0);
}

// ---- the computation ----

/// Codes the blocks of `data` with tables of type `T`.
pub fn deflate_blocked_encode_with_version_impl<T: TableIndex>(
    data: &[u8],
    window_size: usize,
    block_size: usize,
    version: u8,
    settings: Settings,
) -> (r: Option<Vec<u8>>)
    requires
        window_size >= 1,
        data@.len() >= 128,
        data@.len() <= T::limit() + 1,
        T::modulus() == deflate::table_modulus(window_size as nat, block_size as nat),
        cdc::blocks_allowed(block_size as nat, settings.fixed_blocks),
    ensures
        bytes_of(r) == blocked(
            data@,
            window_size as nat,
            block_size as nat,
            version,
            settings,
        ),
{
    let n: usize = data.len();
    let bounds = cdc::block_boundaries(data, block_size, settings.fixed_blocks);
    let ghost bs = cdc::pairs(bounds@);
    let count: usize = bounds.len();
    let ghost p = plan(
        window_size as nat,
        block_size as nat,
        version,
        settings.workers as nat,
        count as nat,
    );
    proof {
        T::lemma_modulus();
        cdc::lemma_blocks_tile(data@, block_size as nat, settings.fixed_blocks);
        lemma_tiles_count(bs, 0, n as int);
    }
    let run: usize = get_run_len(settings.workers, count);
    let (hash_bits, hash_size) = lz::get_hash_params(window_size);
    let (mut head, mut prev) = deflate::new_tables::<T>(hash_size, window_size);
    let mut buffers = CompressBuffers::new();
    let mut base: usize = 0;
    let mut out: Vec<u8> = Vec::new();
    bytes::push_u32(&mut out, count as u64);
    let ghost want = blocked_bytes(
        data@,
        window_size as nat,
        block_size as nat,
        version,
        settings,
    );
    let mut k: usize = 0;
    proof {
        assert(bs.skip(0) =~= bs);
        assert(out@ =~= bytes::le32(count as nat));
        assert(want == out@ + p.records(data@, bs, 0, p.start_chains(), 0));
    }
    let ghost mut i: int = 0;
    while k < count
        invariant
            k <= count == bounds@.len(),
            bs == cdc::pairs(bounds@),
            n == data@.len(),
            window_size >= 1,
            0 <= i <= n,
            base <= i,
            n <= T::limit() + 1,
            1 <= run == p.run,
            p.window == window_size,
            p.modulus == T::modulus(),
            p.version == version,
            p.wf(),
            hash_bits == p.hash_bits(),
            hash_size == lz::hash_params(window_size as nat).1,
            16 <= hash_bits <= 20,
            cdc::tiles(bs.skip(k as int), i, n as int),
            head@.len() == hash_size,
            prev@.len() == window_size,
            ready(p, k as nat, lz::chains(head@, prev@), base as nat, i),
            want == out@ + p.records(
                data@,
                bs,
                k as nat,
                lz::chains(head@, prev@),
                base as nat,
            ),
        decreases count - k,
    {
        let ghost tail = bs.skip(k as int);
        proof {
            assert(tail[0] == bs[k as int]);
            assert(tail.drop_first() =~= bs.skip(k as int + 1));
            assert(bs[k as int] == (bounds@[k as int].0 as int, bounds@[k as int].1 as int));
        }
        let (start, end) = bounds[k];
        let block = &data[start..end];
        let ghost c = lz::chains(head@, prev@);
        let ghost base0 = base as nat;
        if k % run == 0 {
            let (h, v) = deflate::new_tables::<T>(hash_size, window_size);
            head = h;
            prev = v;
            base = 0;
        }
        let ghost b = p.block(block@, k as nat, base0);
        let ghost c0 = p.chains(k as nat, c);
        proof {
            lemma_ready_next(p, block@, k as nat, c, base0, i);
            assert(lz::chains(head@, prev@) == c0);
            assert(b.base == base);
            assert(b == lz::block_of::<T>(
                block@,
                window_size as nat,
                base as nat,
                hash_bits as nat,
            ));
        }
        let coded = deflate::deflate_style_encode_with_buffers(
            block,
            head.as_mut_slice(),
            prev.as_mut_slice(),
            &mut buffers,
            window_size,
            version,
            base,
            hash_bits,
        );
        let ghost coded_bytes = bytes_of(coded);
        let rec = encode_block_result(block, coded, 0, version);
        let ghost before = out@;
        out.extend_from_slice(rec.as_slice());
        base = base + block.len();
        proof {
            assert(coded_bytes == deflate::deflated(b, c0, version));
            assert(out@ =~= before + rec@);
            let rest = p.records(
                data@,
                bs,
                (k + 1) as nat,
                lz::chains(head@, prev@),
                base as nat,
            );
            assert(before + (rec@ + rest) =~= out@ + rest);
            i = end as int;
        }
        k = k + 1;
    }
    proof {
        assert(out@ + Seq::<u8>::empty() =~= out@);
    }
    if out.len() >= n {
        None
    } else {
        Some(out)
    }
}

/// Codes `data` in blocks of about `block_size` bytes.
pub fn deflate_blocked_encode_with_settings(
    data: &[u8],
    window_size: usize,
    block_size: usize,
    version: u8,
    settings: Settings,
) -> (r: Option<Vec<u8>>)
    requires
        data@.len() >= 128 ==> window_size >= 1 && cdc::blocks_allowed(
            block_size as nat,
            settings.fixed_blocks,
        ),
    ensures
        bytes_of(r) == blocked(
            data@,
            window_size as nat,
            block_size as nat,
            version,
            settings,
        ),
{
    if data.len() < 128 {
        return None;
    }
    if window_size <= 65536 && block_size <= 65536 {
        deflate_blocked_encode_with_version_impl::<u16>(
            data,
            window_size,
            block_size,
            version,
            settings,
        )
    } else {
        deflate_blocked_encode_with_version_impl::<u32>(
            data,
            window_size,
            block_size,
            version,
            settings,
        )
    }
}

/// Codes `data` in blocks of about `block_size` bytes that are cut by content.
pub fn deflate_blocked_encode_with_version(
    data: &[u8],
    window_size: usize,
    block_size: usize,
    version: u8,
) -> (r: Option<Vec<u8>>)
    requires
        data@.len() >= 128 ==> window_size >= 1 && cdc::cuttable(block_size as nat),
    ensures
        bytes_of(r) == blocked(
            data@,
            window_size as nat,
            block_size as nat,
            version,
            standard_settings(),
        ),
{
    deflate_blocked_encode_with_settings(
        data,
        window_size,
        block_size,
        version,
        Settings::standard(),
    )
}

/// Codes `data` in blocks of about 128 KiB.
pub fn deflate_blocked_encode(data: &[u8]) -> (r: Option<Vec<u8>>)
    ensures
        bytes_of(r) == blocked(data@, 65536, 131072, 2, standard_settings()),
{
    proof {
        cdc::lemma_doubled(1024, 131072);
    }
    deflate_blocked_encode_with_version(data, 65536, BLOCK_SIZE, 2)
}

/// Where a block stands in a stream: the start and end of what is stored, the
/// size of the data and the flag.
type Place = (usize, usize, usize, u8);

spec fn found_at(data: Seq<u8>, p: Place) -> Found {
    Found { stored: data.subrange(p.0 as int, p.1 as int), orig: p.2 as nat, flag: p.3 }
}

spec fn found_all(data: Seq<u8>, v: Seq<Place>) -> Seq<Found> {
    Seq::new(v.len(), |k: int| found_at(data, v[k]))
}

/// `"blocked: block {i} {what}"`.
fn block_message(i: usize, what: &str) -> (s: String)
    ensures
        s@ == "blocked: block "@ + text::dec(i as nat) + what@,
{
    let mut s = text::with_number("blocked: block ", i as u64);
    s.append(what);
    s
}

/// Finds the blocks of a stream.
fn find_blocks(data: &[u8], count: usize, expected: usize) -> (r: Result<(Vec<Place>, usize), String>)
    requires
        data@.len() >= 4,
    ensures
        match (r, found_in(data@.skip(4), 0, count as nat, 0, expected as nat)) {
            (Ok((v, off)), Ok((found, end))) => {
                &&& found_all(data@, v@) == found
                &&& off == end
                &&& forall|k: int|
                    0 <= k < v@.len() ==> (#[trigger] v@[k]).0 <= v@[k].1 <= data@.len()
            },
            (Err(e), Err(m)) => e@ == m,
            _ => false,
        },
{
    let mut places: Vec<Place> = Vec::new();
    let mut pos: usize = 4;
    let mut off: usize = 0;
    let mut i: usize = 0;
    let ghost want = found_in(data@.skip(4), 0, count as nat, 0, expected as nat);
    proof {
        assert(found_all(data@, places@) =~= Seq::<Found>::empty());
    }
    while i < count
        invariant
            i <= count,
            4 <= pos <= data@.len(),
            off <= expected,
            want == found_in(data@.skip(4), 0, count as nat, 0, expected as nat),
            want == match found_in(
                data@.skip(pos as int),
                i as nat,
                count as nat,
                off as nat,
                expected as nat,
            ) {
                Err(e) => Err::<(Seq<Found>, nat), Seq<char>>(e),
                Ok((more, end)) => Ok((found_all(data@, places@) + more, end)),
            },
            forall|k: int|
                0 <= k < places@.len() ==> (#[trigger] places@[k]).0 <= places@[k].1
                    <= data@.len(),
        decreases count - i,
    {
        let ghost rest = data@.skip(pos as int);
        if data.len() - pos < 10 {
            return Err(block_message(i, " header overrun"));
        }
        let head = &data[pos..pos + 10];
        proof {
            assert(head@ =~= rest.subrange(0, 10));
            assert(forall|k: int| 0 <= k < 10 ==> head@[k] == rest[k]);
        }
        let size: usize = bytes::get_u32(head, 0) as usize;
        let orig: usize = bytes::get_u32(head, 4) as usize;
        let flag: u8 = head[8];
        pos = pos + 10;
        if data.len() - pos < size {
            return Err(block_message(i, " data overrun"));
        }
        if orig > expected - off {
            return Err("blocked: output overrun".to_string());
        }
        let ghost before = places@;
        places.push((pos, pos + size, orig, flag));
        proof {
            let one = found_at(data@, (pos, (pos + size) as usize, orig, flag));
            assert(one.stored =~= rest.subrange(10, 10 + size as int));
            assert(found_all(data@, places@) =~= found_all(data@, before).push(one));
            assert(rest.skip(10 + size as int) =~= data@.skip(pos + size as int));
            let next = found_in(
                data@.skip(pos + size as int),
                (i + 1) as nat,
                count as nat,
                (off + orig) as nat,
                expected as nat,
            );
            if next is Ok {
                let more = next->Ok_0.0;
                assert(found_all(data@, before) + (seq![one] + more) =~= found_all(
                    data@,
                    places@,
                ) + more);
            }
        }
        pos = pos + size;
        off = off + orig;
        i = i + 1;
    }
    proof {
        assert(found_all(data@, places@) + Seq::<Found>::empty() =~= found_all(data@, places@));
    }
    Ok((places, off))
}

/// Appends what a block stands for.
fn decode_block_into_with_version(
    out: &mut Vec<u8>,
    comp: &[u8],
    orig: usize,
    flag: u8,
    version: u8,
) -> (r: Result<(), String>)
    ensures
        match (r, opened((Found { stored: comp@, orig: orig as nat, flag }), version)) {
            (Ok(_), Ok(piece)) => final(out)@ == old(out)@ + piece,
            (Err(e), Err(m)) => e@ == m && final(out)@ == old(out)@,
            _ => false,
        },
{
    if flag == 0 {
        if comp.len() != orig {
            return Err("blocked: raw block size mismatch".to_string());
        }
        out.extend_from_slice(comp);
        assert(out@ =~= old(out)@ + comp@);
    } else {
        match deflate::deflate_style_decode_with_version(comp, orig, version) {
            Err(e) => {
                return Err(e);
            },
            Ok(v) => {
                out.extend_from_slice(v.as_slice());
                assert(out@ =~= old(out)@ + v@);
            },
        }
    }
    Ok(())
}

/// Decodes a blocked stream of `expected_len` bytes.
pub fn deflate_blocked_decode_with_version(data: &[u8], expected_len: usize, version: u8) -> (r:
    Result<Vec<u8>, String>)
    ensures
        match (r, unblocked(data@, expected_len as nat, version)) {
            (Ok(v), Ok(want)) => v@ == want,
            (Err(e), Err(m)) => e@ == m,
            _ => false,
        },
{
    if data.len() < 4 {
        return Err("blocked: too short".to_string());
    }
    let count: usize = bytes::get_u32(data, 0) as usize;
    match find_blocks(data, count, expected_len) {
        Err(e) => Err(e),
        Ok((places, off)) => {
            if off != expected_len {
                let mut m = text::with_number("blocked: got ", off as u64);
                let tail = text::with_number(" want ", expected_len as u64);
                m.append(tail.as_str());
                proof {
                    assert(m@ =~= "blocked: got "@ + text::dec(off as nat) + " want "@ + text::dec(
                        expected_len as nat,
                    ));
                }
                return Err(m);
            }
            let ghost found = found_all(data@, places@);
            let mut out: Vec<u8> = Vec::new();
            let mut k: usize = 0;
            let ghost want = opened_all(found, 0, version, Seq::empty());
            while k < places.len()
                invariant
                    k <= places@.len(),
                    found == found_all(data@, places@),
                    forall|k: int|
                        0 <= k < places@.len() ==> (#[trigger] places@[k]).0 <= places@[k].1
                            <= data@.len(),
                    unblocked(data@, expected_len as nat, version) == want,
                    want == opened_all(found, k as nat, version, out@),
                decreases places@.len() - k,
            {
                let (s, e, orig, flag) = places[k];
                assert(places@[k as int].0 <= places@[k as int].1 <= data@.len());
                assert(found[k as int] == found_at(data@, places@[k as int]));
                match decode_block_into_with_version(&mut out, &data[s..e], orig, flag, version) {
                    Err(m) => {
                        return Err(m);
                    },
                    Ok(_) => {},
                }
                k = k + 1;
            }
            Ok(out)
        },
    }
}

/// Decodes a blocked stream of `expected_len` bytes in the current version.
pub fn deflate_blocked_decode(data: &[u8], expected_len: usize) -> (r: Result<Vec<u8>, String>)
    ensures
        match (r, unblocked(data@, expected_len as nat, 2)) {
            (Ok(v), Ok(want)) => v@ == want,
            (Err(e), Err(m)) => e@ == m,
            _ => false,
        },
{
    deflate_blocked_decode_with_version(data, expected_len, 2)
}

/// The size of the pieces from the `k`-th on as they are stored: ten bytes and the shorter of the
/// piece and what comes of it, each.
pub open spec fn stored_sizes(
    data: Seq<u8>,
    bounds: Seq<(int, int)>,
    k: nat,
    window: nat,
    modulus: nat,
    version: u8,
) -> nat
    decreases bounds.len() - k,
{
    if k >= bounds.len() {
        0
    } else {
        let piece = data.subrange(bounds[k as int].0, bounds[k as int].1);
        let (hash_bits, hash_size) = lz::hash_params(window);
        let b = Block { data: piece, modulus, window, base: 0, hash_bits };
        let coded = deflate::deflated(b, deflate::no_chains(hash_size, window), version);
        let size = match coded {
            Some(c) if c.len() < piece.len() => c.len(),
            _ => piece.len(),
        };
        10 + size + stored_sizes(data, bounds, k + 1, window, modulus, version)
    }
}

proof fn lemma_stored_sizes(p: Plan, data: Seq<u8>, bounds: Seq<(int, int)>, k: nat)
    requires
        p.run >= 1,
    ensures
        p.records_alone(data, bounds, k).len() == stored_sizes(
            data,
            bounds,
            k,
            p.window,
            p.modulus,
            p.version,
        ),
    decreases bounds.len() - k,
{
    if k < bounds.len() {
        lemma_stored_sizes(p, data, bounds, k + 1);
        assert(0nat % p.run == 0) by {
            vstd::arithmetic::div_mod::lemma_small_mod(0, p.run);
        }
    }
}

/// Data is coded in blocks wherever that makes it shorter, and each block by itself is stored as
/// the shorter of what it is and what comes of it.
pub proof fn lemma_blocked_if_shorter(
    data: Seq<u8>,
    window: nat,
    block_size: nat,
    version: u8,
    s: Settings,
)
    requires
        1 <= window <= usize::MAX,
        exists|e: nat| e < 64 && window == bits::p2(e),
        cdc::blocks_allowed(block_size, s.fixed_blocks),
        128 <= data.len() <= usize::MAX,
        data.len() < if window <= 65536 && block_size <= 65536 {
            0x1_0000int
        } else {
            0x1_0000_0000
        },
    ensures
        ({
            let modulus: nat = if window <= 65536 && block_size <= 65536 {
                0x1_0000
            } else {
                0x1_0000_0000
            };
            let size = 4 + stored_sizes(
                data,
                cdc::blocks(data, block_size, s.fixed_blocks),
                0,
                window,
                modulus,
                version,
            );
            match blocked(data, window, block_size, version, s) {
                Some(out) => out.len() == size && size < data.len(),
                None => size >= data.len(),
            }
        }),
{
    let bounds = cdc::blocks(data, block_size, s.fixed_blocks);
    let p = plan(window, block_size, version, s.workers as nat, bounds.len());
    lemma_blocks_alone(data, window, block_size, version, s);
    cdc::lemma_blocks_tile(data, block_size, s.fixed_blocks);
    lemma_tiles_count(bounds, 0, data.len() as int);
    lemma_run_len(s.workers as nat, bounds.len());
    lemma_stored_sizes(p, data, bounds, 0);
}

// ---- what is accepted ----

proof fn lemma_found_size(rest: Seq<u8>, i: nat, count: nat, off: nat, expected: nat)
    requires
        found_in(rest, i, count, off, expected) is Ok,
    ensures
        ({
            let (found, end) = found_in(rest, i, count, off, expected)->Ok_0;
            &&& i <= count ==> found.len() == count - i
            &&& end == off + origs(found)
        }),
    decreases count - i,
{
    if i < count {
        let size = bytes::u32_at(rest, 0);
        let orig = bytes::u32_at(rest, 4);
        lemma_found_size(rest.skip(10 + size as int), i + 1, count, off + orig, expected);
        let (more, end) = found_in(
            rest.skip(10 + size as int),
            i + 1,
            count,
            off + orig,
            expected,
        )->Ok_0;
        let one = Found { stored: rest.subrange(10, 10 + size as int), orig, flag: rest[8] };
        assert((seq![one] + more).drop_first() =~= more);
    }
}

/// The sizes of the data of some blocks together.
spec fn origs(found: Seq<Found>) -> nat
    decreases found.len(),
{
    if found.len() == 0 {
        0
    } else {
        found[0].orig + origs(found.drop_first())
    }
}

proof fn lemma_opened_size(found: Seq<Found>, k: nat, version: u8, acc: Seq<u8>)
    requires
        k <= found.len(),
        opened_all(found, k, version, acc) is Ok,
    ensures
        opened_all(found, k, version, acc)->Ok_0.len() == acc.len() + origs(found.skip(k as int)),
    decreases found.len() - k,
{
    let rest = found.skip(k as int);
    if k < found.len() {
        let f = found[k as int];
        let piece = opened(f, version)->Ok_0;
        assert(piece.len() == f.orig) by {
            if f.flag != 0 {
                deflate::lemma_inflated_len(f.stored, f.orig, f.orig + 1, version);
            }
        }
        lemma_opened_size(found, k + 1, version, acc + piece);
        assert(rest[0] == f);
        assert(rest.drop_first() =~= found.skip(k as int + 1));
    }
}

/// A blocked stream that is accepted stands for exactly as many bytes as are expected.
pub proof fn lemma_unblocked_len(data: Seq<u8>, expected: nat, version: u8)
    requires
        unblocked(data, expected, version) is Ok,
    ensures
        unblocked(data, expected, version)->Ok_0.len() == expected,
{
    let count = bytes::u32_at(data, 0);
    lemma_found_size(data.skip(4), 0, count, 0, expected);
    let (found, off) = found_in(data.skip(4), 0, count, 0, expected)->Ok_0;
    lemma_opened_size(found, 0, version, Seq::empty());
    assert(found.skip(0) =~= found);
}

/// A block in a stream of any origin: what is stored, what it stands for, the flag and the lane.
pub struct Laid {
    pub stored: Seq<u8>,
    pub data: Seq<u8>,
    pub flag: u8,
    pub lane: u8,
}

impl Laid {
    /// The block stands for its data: it is the data where the flag is 0, and else a coded form.
    pub open spec fn stands(self, version: u8) -> bool {
        &&& self.stored.len() <= u32::MAX
        &&& self.data.len() <= u32::MAX
        &&& if self.flag == 0 {
            self.stored == self.data
        } else {
            deflate::inflated(self.stored, self.data.len(), version) == Ok::<Seq<u8>, Seq<char>>(
                self.data,
            )
        }
    }

    pub open spec fn bytes(self) -> Seq<u8> {
        bytes::le32(self.stored.len()) + bytes::le32(self.data.len()) + seq![self.flag, self.lane]
            + self.stored
    }

    spec fn found(self) -> Found {
        Found { stored: self.stored, orig: self.data.len(), flag: self.flag }
    }
}

/// The bytes of some blocks.
pub open spec fn laid_out(v: Seq<Laid>) -> Seq<u8>
    decreases v.len(),
{
    if v.len() == 0 {
        Seq::empty()
    } else {
        v[0].bytes() + laid_out(v.drop_first())
    }
}

/// What some blocks stand for.
pub open spec fn laid_data(v: Seq<Laid>) -> Seq<u8>
    decreases v.len(),
{
    if v.len() == 0 {
        Seq::empty()
    } else {
        v[0].data + laid_data(v.drop_first())
    }
}

#[verifier::rlimit(50)]
#[verifier::spinoff_prover]
proof fn lemma_laid_found(v: Seq<Laid>, i: nat, off: nat, expected: nat, version: u8)
    requires
        forall|k: int| 0 <= k < v.len() ==> (#[trigger] v[k]).stands(version),
        off + laid_data(v).len() <= expected,
    ensures
        found_in(laid_out(v), i, i + v.len(), off, expected) == Ok::<(Seq<Found>, nat), Seq<char>>(
            (Seq::new(v.len(), |k: int| v[k].found()), off + laid_data(v).len()),
        ),
    decreases v.len(),
{
    let founds = Seq::new(v.len(), |k: int| v[k].found());
    if v.len() == 0 {
        assert(founds =~= Seq::empty());
    } else {
        let b = v[0];
        let rest = v.drop_first();
        assert(v[0].stands(version));
        assert forall|k: int| 0 <= k < rest.len() implies (#[trigger] rest[k]).stands(version) by {
            assert(v[k + 1].stands(version));
        }
        let more = Seq::new(rest.len(), |k: int| rest[k].found());
        lemma_laid_found(rest, i + 1, off + b.data.len(), expected, version);
        let r = b.bytes();
        let tail = laid_out(rest);
        let all = r + tail;
        let size = b.stored.len();
        assert(all.subrange(0, 4) =~= bytes::le32(size));
        bytes::lemma_u32_at(all, 0, size);
        assert(all.subrange(4, 8) =~= bytes::le32(b.data.len()));
        bytes::lemma_u32_at(all, 4, b.data.len());
        assert(all.skip(10 + size as int) =~= tail);
        assert(all[8] == b.flag);
        assert(all.subrange(10, 10 + size as int) =~= b.stored);
        lemma_found_front(r, tail, i, i + v.len(), off, expected, b.data.len());
        assert(seq![b.found()] + more =~= founds);
    }
}

proof fn lemma_laid_opened(v: Seq<Laid>, k: nat, version: u8, acc: Seq<u8>)
    requires
        k <= v.len(),
        forall|k: int| 0 <= k < v.len() ==> (#[trigger] v[k]).stands(version),
    ensures
        opened_all(Seq::new(v.len(), |k: int| v[k].found()), k, version, acc) == Ok::<
            Seq<u8>,
            Seq<char>,
        >(acc + laid_data(v.skip(k as int))),
    decreases v.len() - k,
{
    let founds = Seq::new(v.len(), |k: int| v[k].found());
    let rest = v.skip(k as int);
    if k < v.len() {
        let b = v[k as int];
        assert(v[k as int].stands(version));
        assert(opened(founds[k as int], version) == Ok::<Seq<u8>, Seq<char>>(b.data));
        lemma_laid_opened(v, k + 1, version, acc + b.data);
        assert(rest[0] == b);
        assert(rest.drop_first() =~= v.skip(k as int + 1));
        assert(acc + b.data + laid_data(rest.drop_first()) =~= acc + laid_data(rest));
    } else {
        assert(acc + laid_data(rest) =~= acc);
    }
}

proof fn lemma_counted(n: nat, rest: Seq<u8>)
    requires
        n <= u32::MAX,
    ensures
        ({
            let all = bytes::le32(n) + rest;
            all.len() >= 4 && bytes::u32_at(all, 0) == n && all.skip(4) == rest
        }),
{
    let all = bytes::le32(n) + rest;
    assert(all.subrange(0, 4) =~= bytes::le32(n));
    bytes::lemma_u32_at(all, 0, n);
    assert(all.skip(4) =~= rest);
}

/// A blocked stream of any origin stands for what its blocks stand for, one after the other,
/// whichever of them are coded and whatever their lanes are.
#[verifier::rlimit(40)]
#[verifier::spinoff_prover]
pub proof fn lemma_any_blocks(v: Seq<Laid>, version: u8)
    requires
        v.len() <= u32::MAX,
        forall|k: int| 0 <= k < v.len() ==> (#[trigger] v[k]).stands(version),
    ensures
        unblocked(bytes::le32(v.len()) + laid_out(v), laid_data(v).len(), version) == Ok::<
            Seq<u8>,
            Seq<char>,
        >(laid_data(v)),
{
    lemma_counted(v.len(), laid_out(v));
    lemma_laid_found(v, 0, 0, laid_data(v).len(), version);
    lemma_laid_opened(v, 0, version, Seq::empty());
    assert(v.skip(0) =~= v);
    assert(Seq::<u8>::empty() + laid_data(v) =~= laid_data(v));
}

} // verus!
