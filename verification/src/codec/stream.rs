//! Blocks that are coded one by one as the data comes in, and found one by one
//! as a stream is read.

use crate::bytes;
use crate::codec::blocked;
use crate::codec::blocked::{Laid, Plan, Settings};
use crate::codec::cdc;
use crate::codec::deflate;
use crate::codec::deflate::CompressBuffers;
use crate::codec::lz;
use crate::codec::lz::{Block, Chains, TableIndex};
use crate::crc;
use vstd::prelude::*;
use vstd::string::*;

verus! {

// ---- a block on its own ----

/// A block that knows nothing of the blocks before it. The window alone decides
/// how many bits of a position the tables keep.
pub open spec fn stream_block(block: Seq<u8>, window: nat) -> Block {
    Block {
        data: block,
        modulus: if window <= 65536 {
            0x1_0000
        } else {
            0x1_0000_0000
        },
        window,
        base: 0,
        hash_bits: lz::hash_params(window).0,
    }
}

/// The record of a block of a lane.
#[verifier::opaque]
pub open spec fn stream_record(block: Seq<u8>, window: nat, version: u8, lane: nat) -> Seq<u8> {
    blocked::record(
        block,
        deflate::deflated(
            stream_block(block, window),
            deflate::no_chains(lz::hash_params(window).1, window),
            version,
        ),
        lane,
    )
}

fn encode_alone_with<T: TableIndex>(block: &[u8], window_size: usize, version: u8, lane: usize) -> (r:
    Vec<u8>)
    requires
        window_size >= 1,
        block@.len() <= T::limit() + 1,
        T::modulus() == stream_block(block@, window_size as nat).modulus,
    ensures
        r@ == stream_record(block@, window_size as nat, version, lane as nat),
{
    proof {
        reveal(stream_record);
    }
    let n: usize = block.len();
    let (hash_bits, hash_size) = lz::get_hash_params(window_size);
    let (mut head, mut prev) = deflate::new_tables::<T>(hash_size, window_size);
    let mut buffers = CompressBuffers::new();
    let c_opt = deflate::deflate_style_encode_with_buffers(
        block,
        head.as_mut_slice(),
        prev.as_mut_slice(),
        &mut buffers,
        window_size,
        version,
        0,
        hash_bits,
    );
    blocked::encode_block_result(block, c_opt, lane, version)
}

/// Codes a block with tables of its own.
pub fn encode_alone(block: &[u8], window_size: usize, version: u8, lane: usize) -> (r: Vec<u8>)
    requires
        window_size >= 1,
    ensures
        r@ == stream_record(block@, window_size as nat, version, lane as nat),
{
    let n: usize = block.len();
    if window_size <= 65536 {
        encode_alone_with::<u16>(block, window_size, version, lane)
    } else {
        encode_alone_with::<u32>(block, window_size, version, lane)
    }
}

// ---- finding a block ----

/// What is said of a stream that ends too early.
pub open spec fn cut_short() -> Seq<char> {
    "failed to fill whole buffer"@
}

/// What a block stands for: only the flag 1 marks a coded block.
pub open spec fn unpacked(stored: Seq<u8>, orig: nat, flag: u8, version: u8) -> Result<
    Seq<u8>,
    Seq<char>,
> {
    if flag == 1 {
        deflate::inflated(stored, orig, version)
    } else {
        Ok(stored)
    }
}

/// A block at the start of a stream: its lane, what it stands for, and the
/// number of bytes that it takes.
pub struct Piece {
    pub lane: nat,
    pub data: Seq<u8>,
    pub used: nat,
}

pub open spec fn block_at(input: Seq<u8>, version: u8) -> Result<Piece, Seq<char>> {
    if input.len() < 10 {
        Err(cut_short())
    } else {
        let size = bytes::u32_at(input, 0);
        if input.len() < 10 + size {
            Err(cut_short())
        } else {
            match unpacked(
                input.subrange(10, 10 + size as int),
                bytes::u32_at(input, 4),
                input[8],
                version,
            ) {
                Err(e) => Err(e),
                Ok(data) => Ok(Piece { lane: input[9] as nat, data, used: 10 + size }),
            }
        }
    }
}

/// A record at the start of a stream is found and stands for its block.
pub proof fn lemma_stream_record(
    block: Seq<u8>,
    window: nat,
    version: u8,
    lane: nat,
    rest: Seq<u8>,
)
    requires
        1 <= window <= usize::MAX,
        block.len() <= u32::MAX,
        block.len() <= usize::MAX,
    ensures
        ({
            let r = stream_record(block, window, version, lane);
            &&& block_at(r + rest, version) == Ok::<Piece, Seq<char>>(
                (Piece { lane: lane % 256, data: block, used: r.len() }),
            )
            &&& (r + rest).skip(r.len() as int) == rest
        }),
{
    reveal(stream_record);
    let b = stream_block(block, window);
    let c = deflate::no_chains(lz::hash_params(window).1, window);
    let coded = deflate::deflated(b, c, version);
    blocked::lemma_record(block, coded, lane, rest);
    if coded is Some {
        assert(b.fresh(c, 0));
        deflate::lemma_deflate_roundtrip(b, c, version);
    }
}

/// The bytes of a block's header that decide how much follows.
pub fn stored_len(head: &[u8]) -> (n: u32)
    requires
        head@.len() == 10,
    ensures
        n == bytes::u32_at(head@, 0),
{
    bytes::get_u32(head, 0)
}

/// Decodes a block behind its header.
pub fn open_block(head: &[u8], body: Vec<u8>, version: u8) -> (r: Result<Vec<u8>, String>)
    requires
        head@.len() == 10,
    ensures
        match (r, unpacked(body@, bytes::u32_at(head@, 4), head@[8], version)) {
            (Ok(v), Ok(want)) => v@ == want,
            (Err(e), Err(m)) => e@ == m,
            _ => false,
        },
{
    if head[8] == 1 {
        deflate::deflate_style_decode_with_version(
            body.as_slice(),
            bytes::get_u32(head, 4) as usize,
            version,
        )
    } else {
        Ok(body)
    }
}

// ---- a stream of blocks ----

/// What is known of a stream so far: the checksum and the size of the data, and
/// the number of blocks.
#[derive(Clone, Copy)]
pub struct Totals {
    pub crc: u32,
    pub orig_size: u64,
    pub num_blocks: u32,
}

/// Nothing so far.
pub open spec fn no_totals() -> Totals {
    Totals { crc: 0, orig_size: 0, num_blocks: 0 }
}

impl Totals {
    pub fn new() -> (t: Totals)
        ensures
            t == no_totals(),
    {
        Totals { crc: 0, orig_size: 0, num_blocks: 0 }
    }

    /// Takes in the next block and gives its record.
    pub fn add_block(&mut self, block: &[u8], window_size: usize, version: u8) -> (r: Vec<u8>)
        requires
            window_size >= 1,
            old(self).orig_size + block@.len() <= u64::MAX,
            old(self).num_blocks < u32::MAX,
        ensures
            r@ == stream_record(block@, window_size as nat, version, 0),
            final(self).crc == crc::crc_updated(old(self).crc, block@),
            final(self).orig_size == old(self).orig_size + block@.len(),
            final(self).num_blocks == old(self).num_blocks + 1,
    {
        self.crc = crc::crc32_update(self.crc, block);
        self.orig_size = self.orig_size + block.len() as u64;
        self.num_blocks = self.num_blocks + 1;
        encode_alone(block, window_size, version, 0)
    }
}

/// The data in pieces of `size` bytes; the last may be shorter.
pub open spec fn pieces(data: Seq<u8>, size: nat) -> Seq<Seq<u8>>
    decreases data.len(),
{
    if data.len() == 0 || size == 0 {
        Seq::empty()
    } else if data.len() <= size {
        seq![data]
    } else {
        seq![data.take(size as int)] + pieces(data.skip(size as int), size)
    }
}

/// The records of some blocks.
pub open spec fn records(blocks: Seq<Seq<u8>>, window: nat, version: u8) -> Seq<u8>
    decreases blocks.len(),
{
    if blocks.len() == 0 {
        Seq::empty()
    } else {
        stream_record(blocks[0], window, version, 0) + records(blocks.skip(1), window, version)
    }
}

/// The payload of data that is streamed in blocks.
pub open spec fn streamed(data: Seq<u8>, window: nat, block: nat, version: u8) -> Seq<u8> {
    let blocks = pieces(data, block);
    bytes::le32(blocks.len()) + records(blocks, window, version)
}

proof fn lemma_records_push(blocks: Seq<Seq<u8>>, b: Seq<u8>, window: nat, version: u8)
    ensures
        records(blocks.push(b), window, version) == records(blocks, window, version)
            + stream_record(b, window, version, 0),
    decreases blocks.len(),
{
    if blocks.len() == 0 {
        let one = blocks.push(b);
        assert(one.skip(1) =~= Seq::empty());
        assert(records(one.skip(1), window, version) =~= Seq::empty());
        assert(one[0] == b);
        assert(records(one, window, version) =~= stream_record(b, window, version, 0));
        assert(Seq::<u8>::empty() + stream_record(b, window, version, 0) =~= stream_record(
            b,
            window,
            version,
            0,
        ));
    } else {
        lemma_records_push(blocks.skip(1), b, window, version);
        assert(blocks.push(b).skip(1) =~= blocks.skip(1).push(b));
        assert(blocks.push(b)[0] == blocks[0]);
        assert(records(blocks.push(b), window, version) =~= records(blocks, window, version)
            + stream_record(b, window, version, 0));
    }
}

/// There are no more pieces than bytes.
pub proof fn lemma_pieces_len(data: Seq<u8>, size: nat)
    requires
        size > 0,
    ensures
        pieces(data, size).len() <= data.len(),
    decreases data.len(),
{
    if data.len() > size {
        lemma_pieces_len(data.skip(size as int), size);
    }
}

/// Codes the data of a stream in blocks of `block_size` bytes. The payload
/// starts with the number of blocks.
pub fn compress_stream_blocked(
    data: &[u8],
    window_size: usize,
    block_size: usize,
    version: u8,
) -> (r: (Vec<u8>, Totals))
    requires
        window_size >= 1,
        block_size >= 1,
        pieces(data@, block_size as nat).len() <= u32::MAX,
    ensures
        r.0@ == streamed(data@, window_size as nat, block_size as nat, version),
        r.1.crc == crc::crc_of(data@),
        r.1.orig_size == data@.len(),
        r.1.num_blocks == pieces(data@, block_size as nat).len(),
{
    let n: usize = data.len();
    let mut totals = Totals::new();
    let mut body: Vec<u8> = Vec::new();
    let mut i: usize = 0;
    let ghost all = pieces(data@, block_size as nat);
    let ghost mut done: Seq<Seq<u8>> = Seq::empty();
    proof {
        crc::lemma_crc_parts(Seq::empty(), Seq::empty());
        assert(data@.take(0) =~= Seq::<u8>::empty());
        assert(data@.skip(0) =~= data@);
        assert(done + all =~= all);
    }
    while i < n
        invariant
            n == data@.len(),
            i <= n,
            n <= u64::MAX,
            window_size >= 1,
            block_size >= 1,
            all == pieces(data@, block_size as nat),
            all.len() <= u32::MAX,
            all == done + pieces(data@.skip(i as int), block_size as nat),
            body@ == records(done, window_size as nat, version),
            totals.crc == crc::crc_of(data@.take(i as int)),
            totals.orig_size == i,
            totals.num_blocks == done.len(),
        decreases n - i,
    {
        let e: usize = if n - i <= block_size {
            n
        } else {
            i + block_size
        };
        let block = &data[i..e];
        proof {
            let rest = data@.skip(i as int);
            assert(block@ =~= rest.take(e - i));
            assert(rest.take(rest.len() as int) =~= rest);
            assert(rest.skip(e - i) =~= data@.skip(e as int));
            assert(pieces(data@.skip(n as int), block_size as nat) =~= Seq::empty());
            assert(pieces(rest, block_size as nat) =~= seq![block@] + pieces(
                data@.skip(e as int),
                block_size as nat,
            ));
            assert(done + (seq![block@] + pieces(data@.skip(e as int), block_size as nat))
                =~= done.push(block@) + pieces(data@.skip(e as int), block_size as nat));
            crc::lemma_crc_parts(data@.take(i as int), block@);
            assert(data@.take(i as int) + block@ =~= data@.take(e as int));
            lemma_records_push(done, block@, window_size as nat, version);
        }
        let mut rec = totals.add_block(block, window_size, version);
        body.append(&mut rec);
        proof {
            done = done.push(block@);
        }
        i = e;
    }
    let mut out: Vec<u8> = Vec::new();
    bytes::push_u32(&mut out, totals.num_blocks as u64);
    proof {
        assert(data@.take(n as int) =~= data@);
        assert(pieces(data@.skip(n as int), block_size as nat) =~= Seq::empty());
        assert(done =~= all);
    }
    out.append(&mut body);
    assert(out@ =~= streamed(data@, window_size as nat, block_size as nat, version));
    (out, totals)
}

// ---- reading a stream of blocks ----

/// `head` in front of what comes, if it comes.
pub open spec fn behind(head: Seq<u8>, r: Result<Seq<u8>, Seq<char>>) -> Result<Seq<u8>, Seq<char>> {
    match r {
        Err(e) => Err(e),
        Ok(v) => Ok(head + v),
    }
}

/// What `left` blocks stand for. A block that stands for nothing is the end.
pub open spec fn blocks_rest(left: nat, version: u8, input: Seq<u8>) -> Result<Seq<u8>, Seq<char>>
    decreases left,
{
    if left == 0 {
        Ok(Seq::empty())
    } else {
        match block_at(input, version) {
            Err(e) => Err(e),
            Ok(p) => if p.data.len() == 0 {
                Ok(Seq::empty())
            } else {
                behind(p.data, blocks_rest((left - 1) as nat, version, input.skip(p.used as int)))
            },
        }
    }
}

/// What a stream of blocks stands for.
pub open spec fn stream_rest(version: u8, input: Seq<u8>) -> Result<Seq<u8>, Seq<char>> {
    if input.len() < 4 {
        Err(cut_short())
    } else {
        blocks_rest(bytes::u32_at(input, 0), version, input.skip(4))
    }
}

proof fn lemma_records_rest(data: Seq<u8>, window: nat, block: nat, version: u8, after: Seq<u8>)
    requires
        1 <= window <= usize::MAX,
        1 <= block <= u32::MAX,
        data.len() <= usize::MAX,
    ensures
        ({
            let blocks = pieces(data, block);
            blocks_rest(blocks.len(), version, records(blocks, window, version) + after) == Ok::<
                Seq<u8>,
                Seq<char>,
            >(data)
        }),
    decreases data.len(),
{
    let blocks = pieces(data, block);
    if data.len() > 0 {
        let head = blocks[0];
        let tail = blocks.skip(1);
        let rest = if data.len() <= block {
            Seq::<u8>::empty()
        } else {
            data.skip(block as int)
        };
        assert(tail =~= pieces(rest, block));
        assert(head + rest =~= data);
        let more = records(tail, window, version) + after;
        lemma_stream_record(head, window, version, 0, more);
        assert(records(blocks, window, version) + after =~= stream_record(head, window, version, 0)
            + more);
        lemma_records_rest(rest, window, block, version, after);
        assert(blocks.len() == tail.len() + 1);
    } else {
        assert(data =~= Seq::<u8>::empty());
    }
}

/// A stream of blocks is read back as the data, whatever follows it.
pub proof fn lemma_stream_roundtrip(
    data: Seq<u8>,
    window: nat,
    block: nat,
    version: u8,
    after: Seq<u8>,
)
    requires
        1 <= window <= usize::MAX,
        1 <= block <= u32::MAX,
        data.len() <= usize::MAX,
        pieces(data, block).len() <= u32::MAX,
    ensures
        stream_rest(version, streamed(data, window, block, version) + after) == Ok::<
            Seq<u8>,
            Seq<char>,
        >(data),
{
    let blocks = pieces(data, block);
    let s = streamed(data, window, block, version) + after;
    assert(s.subrange(0, 4) =~= bytes::le32(blocks.len()));
    bytes::lemma_u32_at(s, 0, blocks.len());
    assert(s.skip(4) =~= records(blocks, window, version) + after);
    lemma_records_rest(data, window, block, version, after);
}

// ---- blocks of a whole, read one by one ----

#[verifier::rlimit(50)]
#[verifier::spinoff_prover]
proof fn lemma_plan_rest(
    p: Plan,
    data: Seq<u8>,
    bounds: Seq<(int, int)>,
    k: nat,
    c: Chains,
    base: nat,
    i: int,
    after: Seq<u8>,
)
    requires
        p.wf(),
        data.len() <= usize::MAX,
        blocked::countable(bounds),
        k <= bounds.len(),
        0 <= i <= data.len(),
        cdc::tiles(bounds.skip(k as int), i, data.len() as int),
        blocked::ready(p, k, c, base, i),
    ensures
        blocks_rest(
            (bounds.len() - k) as nat,
            p.version,
            p.records(data, bounds, k, c, base) + after,
        ) == Ok::<Seq<u8>, Seq<char>>(blocked::joined(data, bounds, k)),
    decreases bounds.len() - k,
{
    if k < bounds.len() {
        let tail = bounds.skip(k as int);
        assert(tail[0] == bounds[k as int]);
        assert(tail.drop_first() =~= bounds.skip(k as int + 1));
        let e = bounds[k as int].1;
        let piece = data.subrange(i, e);
        let b = p.block(piece, k, base);
        let c0 = p.chains(k, c);
        let c1 = deflate::chains_after(b, c0);
        let base1 = b.base + piece.len();
        let r = blocked::record(piece, deflate::deflated(b, c0, p.version), 0);
        let more = p.records(data, bounds, k + 1, c1, base1) + after;
        let all = p.records(data, bounds, k, c, base) + after;
        assert(all =~= r + more);
        blocked::lemma_ready_next(p, piece, k, c, base, i);
        blocked::lemma_record_opened(p, piece, k, c, base, more);
        lemma_plan_rest(p, data, bounds, k + 1, c1, base1, e, after);
        let size = bytes::u32_at(all, 0);
        assert(unpacked(
            all.subrange(10, 10 + size as int),
            bytes::u32_at(all, 4),
            all[8],
            p.version,
        ) == Ok::<Seq<u8>, Seq<char>>(piece));
    }
}

/// The blocks of a whole, however they were cut and dealt out, are read back one by one as the
/// data, whatever follows them.
pub proof fn lemma_blocked_rest(
    data: Seq<u8>,
    window: nat,
    block_size: nat,
    version: u8,
    s: Settings,
    after: Seq<u8>,
)
    requires
        1 <= window <= usize::MAX,
        cdc::blocks_allowed(block_size, s.fixed_blocks),
        1 <= data.len() <= usize::MAX,
        blocked::countable(cdc::blocks(data, block_size, s.fixed_blocks)),
    ensures
        stream_rest(
            version,
            blocked::blocked_bytes(data, window, block_size, version, s) + after,
        ) == Ok::<Seq<u8>, Seq<char>>(data),
{
    let bounds = cdc::blocks(data, block_size, s.fixed_blocks);
    let count = bounds.len();
    let p = blocked::plan(window, block_size, version, s.workers as nat, count);
    let body = p.records(data, bounds, 0, p.start_chains(), 0);
    let all = blocked::blocked_bytes(data, window, block_size, version, s) + after;
    cdc::lemma_blocks_tile(data, block_size, s.fixed_blocks);
    assert(bounds.skip(0) =~= bounds);
    blocked::lemma_tiles_count(bounds, 0, data.len() as int);
    blocked::lemma_run_len(s.workers as nat, count);
    assert(0nat % p.run == 0);
    lemma_plan_rest(p, data, bounds, 0, p.start_chains(), 0, 0, after);
    assert(all.subrange(0, 4) =~= bytes::le32(count));
    bytes::lemma_u32_at(all, 0, count);
    assert(all.skip(4) =~= body + after);
    blocked::lemma_joined(data, bounds, 0, 0);
    assert(data.skip(0) =~= data);
}

// ---- a stream decoded as a whole ----

proof fn lemma_records_found(
    data: Seq<u8>,
    window: nat,
    block: nat,
    version: u8,
    k: nat,
    off: nat,
    acc: Seq<u8>,
)
    requires
        1 <= window <= usize::MAX,
        1 <= block <= u32::MAX,
        data.len() <= usize::MAX,
    ensures
        ({
            let blocks = pieces(data, block);
            match blocked::found_in(
                records(blocks, window, version),
                k,
                k + blocks.len(),
                off,
                off + data.len(),
            ) {
                Err(e) => false,
                Ok((found, end)) => end == off + data.len() && blocked::opened_all(
                    found,
                    0,
                    version,
                    acc,
                ) == Ok::<Seq<u8>, Seq<char>>(acc + data),
            }
        }),
    decreases data.len(),
{
    let blocks = pieces(data, block);
    let count = k + blocks.len();
    let expected = off + data.len();
    if data.len() > 0 {
        let head = blocks[0];
        let tail = blocks.skip(1);
        let left = if data.len() <= block {
            Seq::<u8>::empty()
        } else {
            data.skip(block as int)
        };
        assert(tail =~= pieces(left, block));
        assert(head + left =~= data);
        assert(blocks.len() == tail.len() + 1);
        let r = stream_record(head, window, version, 0);
        let rest = records(tail, window, version);
        let all = r + rest;
        lemma_stream_opened(head, window, version, 0, rest);
        lemma_records_found(left, window, block, version, k + 1, off + head.len(), acc + head);
        blocked::lemma_found_front(r, rest, k, count, off, expected, head.len());
        let size = bytes::u32_at(all, 0);
        let f = blocked::Found {
            stored: all.subrange(10, 10 + size as int),
            orig: head.len(),
            flag: all[8],
        };
        let more = blocked::found_in(rest, k + 1, count, off + head.len(), expected)->Ok_0.0;
        let found = seq![f] + more;
        assert(found.skip(1) =~= more.skip(0));
        blocked::lemma_opened_shift(found, 1, more, 0, version, acc + head);
        assert(found[0] == f);
        assert((acc + head) + left =~= acc + data);
    } else {
        assert(acc + data =~= acc);
    }
}

/// A record as it is found in a blocked stream.
pub proof fn lemma_stream_opened(
    block: Seq<u8>,
    window: nat,
    version: u8,
    lane: nat,
    rest: Seq<u8>,
)
    requires
        1 <= window <= usize::MAX,
        block.len() <= u32::MAX,
        block.len() <= usize::MAX,
    ensures
        ({
            let all = stream_record(block, window, version, lane) + rest;
            let size = bytes::u32_at(all, 0);
            let f = blocked::Found {
                stored: all.subrange(10, 10 + size as int),
                orig: block.len(),
                flag: all[8],
            };
            &&& all.len() >= 10 + size
            &&& all.skip(10 + size as int) == rest
            &&& bytes::u32_at(all, 4) == block.len()
            &&& blocked::opened(f, version) == Ok::<Seq<u8>, Seq<char>>(block)
        }),
{
    reveal(stream_record);
    let b = stream_block(block, window);
    let c = deflate::no_chains(lz::hash_params(window).1, window);
    let coded = deflate::deflated(b, c, version);
    blocked::lemma_record(block, coded, lane, rest);
    if coded is Some {
        assert(b.fresh(c, 0));
        deflate::lemma_deflate_roundtrip(b, c, version);
    }
}

/// A stream of blocks is a blocked stream like any other.
pub proof fn lemma_stream_unblocked(data: Seq<u8>, window: nat, block: nat, version: u8)
    requires
        1 <= window <= usize::MAX,
        1 <= block <= u32::MAX,
        data.len() <= usize::MAX,
        pieces(data, block).len() <= u32::MAX,
    ensures
        blocked::unblocked(streamed(data, window, block, version), data.len(), version) == Ok::<
            Seq<u8>,
            Seq<char>,
        >(data),
{
    let blocks = pieces(data, block);
    let s = streamed(data, window, block, version);
    assert(s.subrange(0, 4) =~= bytes::le32(blocks.len()));
    bytes::lemma_u32_at(s, 0, blocks.len());
    assert(s.skip(4) =~= records(blocks, window, version));
    lemma_records_found(data, window, block, version, 0, 0, Seq::empty());
    assert(Seq::<u8>::empty() + data =~= data);
}

// ---- what is streamed ----

/// Piece `k` starts at `k` times the size.
#[verifier::rlimit(50)]
#[verifier::spinoff_prover]
pub proof fn lemma_piece_at(data: Seq<u8>, size: nat, k: int)
    requires
        size > 0,
        0 <= k,
    ensures
        k < pieces(data, size).len() <==> k * size < data.len(),
        k < pieces(data, size).len() ==> pieces(data, size)[k] == data.subrange(
            k * size,
            if (k + 1) * size <= data.len() {
                (k + 1) * size
            } else {
                data.len() as int
            },
        ),
    decreases data.len(),
{
    let n = data.len() as int;
    let z = size as int;
    assert(0 * z == 0 && 1 * z == z && (k + 1) * z == k * z + z) by (nonlinear_arith);
    assert(k > 0 ==> k * z == (k - 1) * z + z && (k - 1) * z >= 0) by (nonlinear_arith)
        requires
            z > 0,
    ;
    if n > 0 && n <= size {
        assert(data.subrange(0, n) =~= data);
    } else if n > size {
        let rest = data.skip(z);
        if k > 0 {
            lemma_piece_at(rest, size, k - 1);
            if k < pieces(data, size).len() {
                let p = pieces(data, size)[k];
                assert(p == pieces(rest, size)[k - 1]);
                let end = if k * z <= n - z {
                    k * z
                } else {
                    n - z
                };
                assert(rest.subrange((k - 1) * z, end) =~= data.subrange(k * z, end + z));
            }
        } else {
            assert(data.subrange(0, z) =~= data.take(z));
        }
    }
}

/// What is stored of a block that is streamed, without its header of ten bytes: the shorter of the
/// block and what comes of it by tables of its own.
pub open spec fn stored_body(block: Seq<u8>, window: nat, version: u8) -> Seq<u8> {
    let (hash_bits, hash_size) = lz::hash_params(window);
    let b = Block {
        data: block,
        modulus: if window <= 65536 {
            0x1_0000
        } else {
            0x1_0000_0000
        },
        window,
        base: 0,
        hash_bits,
    };
    match deflate::deflated(b, deflate::no_chains(hash_size, window), version) {
        Some(c) if c.len() < block.len() => c,
        _ => block,
    }
}

/// A record is the size of what is stored, the size of the block, whether it is coded, its lane,
/// and what is stored.
#[verifier::rlimit(50)]
#[verifier::spinoff_prover]
pub proof fn lemma_record_body(block: Seq<u8>, window: nat, version: u8, lane: nat)
    requires
        block.len() <= u32::MAX,
    ensures
        ({
            let r = stream_record(block, window, version, lane);
            let body = stored_body(block, window, version);
            &&& r.len() == 10 + body.len()
            &&& bytes::u32_at(r, 0) == body.len()
            &&& bytes::u32_at(r, 4) == block.len()
            &&& r[8] == if body.len() < block.len() {
                1u8
            } else {
                0u8
            }
            &&& r[9] == lane % 256
            &&& r.skip(10) == body
        }),
{
    reveal(stream_record);
    let coded = deflate::deflated(
        stream_block(block, window),
        deflate::no_chains(lz::hash_params(window).1, window),
        version,
    );
    let r = stream_record(block, window, version, lane);
    blocked::lemma_record(block, coded, lane, Seq::empty());
    assert(r + Seq::<u8>::empty() =~= r);
    assert(r.skip(10) =~= r.subrange(10, r.len() as int));
}

/// The size of the blocks as they are stored.
pub open spec fn stored_sum(blocks: Seq<Seq<u8>>, window: nat, version: u8) -> nat
    decreases blocks.len(),
{
    if blocks.len() == 0 {
        0
    } else {
        stored_sum(blocks.drop_last(), window, version) + 10 + stored_body(
            blocks.last(),
            window,
            version,
        ).len()
    }
}

proof fn lemma_records_sum(blocks: Seq<Seq<u8>>, window: nat, version: u8)
    requires
        forall|k: int| 0 <= k < blocks.len() ==> (#[trigger] blocks[k]).len() <= u32::MAX,
    ensures
        records(blocks, window, version).len() == stored_sum(blocks, window, version),
    decreases blocks.len(),
{
    if blocks.len() > 0 {
        let q = blocks.drop_last();
        let b = blocks.last();
        assert(blocks =~= q.push(b));
        lemma_records_push(q, b, window, version);
        assert(blocks[blocks.len() - 1].len() <= u32::MAX);
        lemma_record_body(b, window, version, 0);
        assert forall|k: int| 0 <= k < q.len() implies (#[trigger] q[k]).len() <= u32::MAX by {
            assert(q[k] == blocks[k]);
        }
        lemma_records_sum(q, window, version);
    }
}

/// A stream takes the number of blocks and what is stored of each: no more than ten bytes over the
/// data for each block, and less for each that becomes shorter.
pub proof fn lemma_streamed_size(data: Seq<u8>, window: nat, block: nat, version: u8)
    requires
        1 <= block <= u32::MAX,
    ensures
        streamed(data, window, block, version).len() == 4 + stored_sum(
            pieces(data, block),
            window,
            version,
        ),
{
    let v = pieces(data, block);
    assert forall|k: int| 0 <= k < v.len() implies (#[trigger] v[k]).len() <= u32::MAX by {
        lemma_piece_at(data, block, k);
        assert((k + 1) * block == k * block + block) by (nonlinear_arith);
    }
    lemma_records_sum(v, window, version);
}

// ---- streams of any origin ----

/// A block that is read one by one stands for its data: it is a coded form where the flag is 1, and
/// else the data, which is not empty.
pub open spec fn is_readable(b: Laid, version: u8) -> bool {
    &&& b.stored.len() <= u32::MAX
    &&& 0 < b.data.len() <= u32::MAX
    &&& if b.flag == 1 {
        deflate::inflated(b.stored, b.data.len(), version) == Ok::<Seq<u8>, Seq<char>>(b.data)
    } else {
        b.stored == b.data
    }
}

#[verifier::rlimit(50)]
#[verifier::spinoff_prover]
proof fn lemma_readable_front(b: Laid, rest: Seq<u8>, version: u8)
    requires
        is_readable(b, version),
    ensures
        block_at(b.bytes() + rest, version) == Ok::<Piece, Seq<char>>(
            Piece { lane: b.lane as nat, data: b.data, used: 10 + b.stored.len() },
        ),
        (b.bytes() + rest).skip(10 + b.stored.len() as int) == rest,
{
    let all = b.bytes() + rest;
    let size = b.stored.len();
    assert(all.subrange(0, 4) =~= bytes::le32(size));
    bytes::lemma_u32_at(all, 0, size);
    assert(all.subrange(4, 8) =~= bytes::le32(b.data.len()));
    bytes::lemma_u32_at(all, 4, b.data.len());
    assert(all[8] == b.flag && all[9] == b.lane);
    assert(all.subrange(10, 10 + size as int) =~= b.stored);
    assert(all.skip(10 + size as int) =~= rest);
}

proof fn lemma_any_from(v: Seq<Laid>, version: u8, after: Seq<u8>)
    requires
        forall|k: int| 0 <= k < v.len() ==> is_readable(#[trigger] v[k], version),
    ensures
        blocks_rest(v.len(), version, blocked::laid_out(v) + after) == Ok::<Seq<u8>, Seq<char>>(
            blocked::laid_data(v),
        ),
    decreases v.len(),
{
    if v.len() > 0 {
        let b = v[0];
        let rest = v.drop_first();
        assert(is_readable(v[0], version));
        assert forall|k: int| 0 <= k < rest.len() implies is_readable(
            #[trigger] rest[k],
            version,
        ) by {
            assert(is_readable(v[k + 1], version));
        }
        let tail = blocked::laid_out(rest) + after;
        assert(blocked::laid_out(v) + after =~= b.bytes() + tail);
        lemma_readable_front(b, tail, version);
        lemma_any_from(rest, version, after);
    }
}

/// A stream of any origin that is read block by block stands for what its blocks stand for, one
/// after the other, whatever follows it.
#[verifier::rlimit(50)]
#[verifier::spinoff_prover]
pub proof fn lemma_any_stream(v: Seq<Laid>, version: u8, after: Seq<u8>)
    requires
        v.len() <= u32::MAX,
        forall|k: int| 0 <= k < v.len() ==> is_readable(#[trigger] v[k], version),
    ensures
        stream_rest(version, bytes::le32(v.len()) + blocked::laid_out(v) + after) == Ok::<
            Seq<u8>,
            Seq<char>,
        >(blocked::laid_data(v)),
{
    let rest = blocked::laid_out(v) + after;
    let all = bytes::le32(v.len()) + blocked::laid_out(v) + after;
    assert(all.subrange(0, 4) =~= bytes::le32(v.len()));
    bytes::lemma_u32_at(all, 0, v.len());
    assert(all.skip(4) =~= rest);
    lemma_any_from(v, version, after);
}

} // verus!
