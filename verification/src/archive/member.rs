//! How the data of a member is stored, and how it comes back.

use crate::archive::entry::{Entry, EntryMeta};
use crate::codec::bits;
use crate::codec::blocked;
use crate::codec::blocked::Settings;
use crate::codec::cdc;
use crate::codec::deflate;
use crate::codec::lanes;
use crate::codec::lz;
use crate::codec::merge;
use crate::codec::reader;
use crate::codec::search;
use crate::codec::shuffled;
use crate::codec::smart;
use crate::codec::smart::{CompressMethod, Job};
use crate::codec::stream;
use crate::crc;
use crate::text;
use vstd::prelude::*;
use vstd::string::*;

verus! {

/// The version of the format.
pub const FORMAT_VERSION: u8 = 1;

/// From this size on data is streamed: 128 MiB.
pub const LARGE: u64 = 134217728;

/// The method for streamed data is found on a sample of at most this size: 1 MiB.
pub const LARGE_SAMPLE: u64 = 1048576;

// ---- levels ----

/// The window of a level: 64 KiB at level 1, and from level 2 on 32 KiB doubled as often as the
/// level says. Bits that a `usize` does not have are lost.
pub open spec fn window_of(level: u8) -> usize {
    if level == 1 {
        65536
    } else if level < usize::BITS {
        32768usize << (level as usize)
    } else {
        usize::MAX / 2
    }
}

/// The block size of a level: 256 KiB at level 1, and from level 2 on 64 KiB doubled as often as
/// the level says.
pub open spec fn block_of(level: u8) -> usize {
    if level == 1 {
        262144
    } else if level < usize::BITS {
        65536usize << (level as usize)
    } else {
        usize::MAX / 2
    }
}

/// Each level doubles the sizes.
pub proof fn lemma_level(level: u8)
    requires
        2 <= level <= 15,
    ensures
        window_of(level) == 32768 * bits::p2(level as nat),
        block_of(level) == 65536 * bits::p2(level as nat),
{
    let k = level as usize;
    lz::lemma_pow2_is_p2(level as nat);
    bits::lemma_p2_small();
    assert(bits::p2(level as nat) <= 32768) by {
        bits::lemma_p2_mono(level as nat, 15);
    }
    assert(32768 * bits::p2(level as nat) <= 32768 * 32768 && 65536 * bits::p2(level as nat)
        <= 65536 * 32768) by (nonlinear_arith)
        requires
            bits::p2(level as nat) <= 32768,
    ;
    vstd::bits::lemma_usize_shl_is_mul(32768, k);
    vstd::bits::lemma_usize_shl_is_mul(65536, k);
}

/// The sizes of the lowest levels: a window of 64 KiB and blocks of 256 KiB at level 1, twice as
/// much and the same at level 2, and from there on each level has twice the sizes of the one below.
pub proof fn lemma_levels(level: u8)
    requires
        3 <= level <= 15,
    ensures
        window_of(1) == 65536 && block_of(1) == 262144,
        window_of(2) == 131072 && block_of(2) == 262144,
        window_of(level) == 2 * window_of((level - 1) as u8),
        block_of(level) == 2 * block_of((level - 1) as u8),
{
    bits::lemma_p2_small();
    lemma_level(2);
    lemma_level(level);
    lemma_level((level - 1) as u8);
    assert(bits::p2(2) == 4);
    assert(bits::p2(level as nat) == 2 * bits::p2((level - 1) as nat));
}

pub fn level_window(level: u8) -> (r: usize)
    ensures
        r == window_of(level),
{
    if level == 1 {
        65536
    } else if (level as u32) < usize::BITS {
        32768usize << (level as usize)
    } else {
        usize::MAX / 2
    }
}

pub fn level_block(level: u8) -> (r: usize)
    ensures
        r == block_of(level),
{
    if level == 1 {
        262144
    } else if (level as u32) < usize::BITS {
        65536usize << (level as usize)
    } else {
        usize::MAX / 2
    }
}

/// How members are coded: the sizes of a level, what the surroundings decide, and how many blocks
/// of each lane come in at once where shuffled data is streamed.
#[derive(Clone, Copy)]
pub struct Press {
    pub window: usize,
    pub block: usize,
    pub settings: Settings,
    pub batch: usize,
}

impl Press {
    pub open spec fn job(self) -> Job {
        Job {
            window: self.window as nat,
            block: self.block as nat,
            version: FORMAT_VERSION,
            settings: self.settings,
        }
    }

    /// The sizes can be worked with, whatever the size of the data is.
    pub open spec fn usable(self) -> bool {
        &&& self.window >= 1
        &&& self.block >= 1
        &&& cdc::blocks_allowed(self.block as nat, self.settings.fixed_blocks)
        &&& self.batch >= 1
        &&& 4194304 * self.batch <= usize::MAX
    }

    /// The sizes can be worked with for data of `n` bytes. Blocks are cut from 1 MiB on, and what
    /// is below 128 bytes is never coded.
    pub open spec fn fits(self, n: nat) -> bool {
        if n < LARGE {
            self.job().allowed(n)
        } else {
            self.usable()
        }
    }

    pub open spec fn part(self, stride: nat) -> nat {
        self.job().shuffle_block() * stride * self.batch as nat
    }

    /// The sizes of a level.
    pub fn for_level(level: u8, settings: Settings, batch: usize) -> (r: Press)
        ensures
            r == (Press { window: window_of(level), block: block_of(level), settings, batch }),
    {
        Press { window: level_window(level), block: level_block(level), settings, batch }
    }

    /// Whether the sizes can be worked with for data of `n` bytes.
    pub fn suits(self, n: u64) -> (r: bool)
        ensures
            r == self.fits(n as nat),
    {
        if n < 128 {
            true
        } else if self.window == 0 {
            false
        } else if n < smart::PARALLEL_ONLY_THRESHOLD as u64 {
            !self.settings.fixed_blocks || self.block > 0
        } else {
            let cut: bool = if self.settings.fixed_blocks {
                self.block > 0
            } else {
                cdc::is_cuttable(self.block)
            };
            cut && (n < LARGE || (self.block >= 1 && self.batch >= 1 && self.batch <= usize::MAX
                / 4194304))
        }
    }
}

/// Sizes that can be worked with are allowed for data of any size.
pub proof fn lemma_usable(p: Press, n: nat)
    requires
        p.usable(),
    ensures
        p.job().allowed(n),
{
}

/// The sizes of every level from 1 to 15 can be worked with for data of any size.
pub proof fn lemma_levels_fit(level: u8, settings: Settings, batch: usize, n: nat)
    requires
        1 <= level <= 15,
        batch >= 1,
        4194304 * batch <= usize::MAX,
    ensures
        (Press { window: window_of(level), block: block_of(level), settings, batch }).fits(n),
{
    let p = Press { window: window_of(level), block: block_of(level), settings, batch };
    bits::lemma_p2_small();
    if level >= 2 {
        lemma_level(level);
        bits::lemma_p2_mono(2, level as nat);
        bits::lemma_p2_mono(level as nat, 15);
        let q = bits::p2(level as nat);
        assert(65536 * q <= 0x8000_0000) by (nonlinear_arith)
            requires
                q <= 32768,
        ;
    }
    cdc::lemma_doubled_mono(1024, p.block as nat, 0x8000_0000);
    lemma_doubled_31();
    lemma_usable(p, n);
}

proof fn lemma_doubled_31()
    ensures
        cdc::doubled(1024, 0x8000_0000) == 0x8000_0000,
{
    reveal_with_fuel(cdc::doubled, 23);
}

// ---- storing ----

/// What is stored of data.
pub struct Coded {
    pub payload: Seq<u8>,
    pub method: u8,
    pub raw: bool,
}

/// Data that is coded as a whole. It is stored as it is unless what comes of it is shorter.
pub open spec fn coded_small(p: Press, data: Seq<u8>, skip_shuffle: bool) -> Coded {
    match smart::chosen(p.job(), data, skip_shuffle) {
        Some((c, m)) if c.len() < data.len() => Coded {
            payload: c,
            method: smart::method_id(m),
            raw: false,
        },
        _ => Coded { payload: data, method: 0, raw: true },
    }
}

/// The method for data that is streamed, by what does best on the sample.
pub open spec fn method_for(p: Press, sample: Seq<u8>, skip_shuffle: bool) -> CompressMethod {
    match smart::chosen(p.job(), sample, skip_shuffle) {
        Some((_, CompressMethod::Shuffle)) => CompressMethod::ShuffleBlk,
        Some((_, CompressMethod::ShuffleBlk)) => CompressMethod::ShuffleBlk,
        Some((_, CompressMethod::Shuffle2)) => CompressMethod::Shuffle2Blk,
        Some((_, CompressMethod::Shuffle2Blk)) => CompressMethod::Shuffle2Blk,
        _ => CompressMethod::Blocked,
    }
}

/// Where the sample is taken: from the middle on.
pub open spec fn sample_start(n: nat) -> nat {
    n / 2
}

pub open spec fn sample_len(n: nat) -> nat {
    merge::lesser((n - n / 2) as nat, LARGE_SAMPLE as nat)
}

pub open spec fn sample_of(data: Seq<u8>) -> Seq<u8> {
    let start = sample_start(data.len()) as int;
    data.subrange(start, start + sample_len(data.len()))
}

/// The payload of data that is streamed.
pub open spec fn payload_of(p: Press, data: Seq<u8>, m: CompressMethod) -> Seq<u8> {
    match m {
        CompressMethod::ShuffleBlk => shuffled::shuffled_stream(
            stream::pieces(data, p.part(4)),
            4,
            p.window as nat,
            p.job().shuffle_block(),
            FORMAT_VERSION,
        ),
        CompressMethod::Shuffle2Blk => shuffled::shuffled_stream(
            stream::pieces(data, p.part(2)),
            2,
            p.window as nat,
            p.job().shuffle_block(),
            FORMAT_VERSION,
        ),
        _ => stream::streamed(
            data,
            p.window as nat,
            p.job().plain_block(),
            FORMAT_VERSION,
        ),
    }
}

/// What is coded is kept if it is shorter than the data.
pub open spec fn pays(orig: nat, stored: nat) -> bool {
    stored < orig
}

/// Data that is streamed. It is stored as it is unless what comes of it is shorter.
pub open spec fn coded_large(p: Press, data: Seq<u8>, skip_shuffle: bool) -> Coded {
    let m = method_for(p, sample_of(data), skip_shuffle);
    let payload = payload_of(p, data, m);
    if pays(data.len(), payload.len()) {
        Coded { payload, method: smart::method_id(m), raw: false }
    } else {
        Coded { payload: data, method: 0, raw: true }
    }
}

/// What is stored of data. `skip_shuffle` is what the entropy of the data says, or that of the
/// sample where the data is streamed.
#[verifier::opaque]
pub open spec fn coded(p: Press, data: Seq<u8>, skip_shuffle: bool) -> Coded {
    if data.len() < LARGE {
        coded_small(p, data, skip_shuffle)
    } else {
        coded_large(p, data, skip_shuffle)
    }
}

/// The blocks that shuffled data is streamed in.
pub open spec fn lane_blocks(p: Press, data: Seq<u8>, stride: nat) -> Seq<(nat, Seq<u8>)> {
    lanes::deal_of(data.len(), stride, p.job().shuffle_block(), FORMAT_VERSION).given(
        Seq::empty(),
        stream::pieces(data, p.part(stride)),
    )
}

/// The number of blocks fits in 32 bits, whatever the method is.
pub open spec fn countable(p: Press, data: Seq<u8>) -> bool {
    data.len() >= LARGE ==> {
        &&& stream::pieces(data, p.job().plain_block()).len() <= u32::MAX
        &&& lane_blocks(p, data, 4).len() <= u32::MAX
        &&& lane_blocks(p, data, 2).len() <= u32::MAX
    }
}

/// What is stored of data, as computed.
pub struct StoredData {
    pub payload: Vec<u8>,
    pub method: u8,
    pub stored_raw: bool,
    pub crc: u32,
}

impl StoredData {
    pub open spec fn holds(self, c: Coded) -> bool {
        &&& self.payload@ == c.payload
        &&& self.method == c.method
        &&& self.stored_raw == c.raw
    }
}

/// A copy of some bytes.
fn copy(data: &[u8]) -> (v: Vec<u8>)
    ensures
        v@ == data@,
{
    let mut v: Vec<u8> = Vec::new();
    v.extend_from_slice(data);
    assert(v@ =~= data@);
    v
}

/// Stores data that is coded as a whole.
pub fn store_small(data: &[u8], press: Press, skip_shuffle: bool) -> (r: StoredData)
    requires
        press.job().allowed(data@.len()),
    ensures
        r.holds(coded_small(press, data@, skip_shuffle)),
        r.crc == crc::crc_of(data@),
{
    let crc: u32 = crc::crc32(data);
    match smart::smart_compress_with_settings(
        data,
        press.window,
        press.block,
        FORMAT_VERSION,
        skip_shuffle,
        press.settings,
    ) {
        Some((c, m)) => {
            if c.len() < data.len() {
                return StoredData { payload: c, method: m.to_u8(), stored_raw: false, crc };
            }
        },
        None => {},
    }
    StoredData { payload: copy(data), method: 0, stored_raw: true, crc }
}

/// The place and the size of the sample of a file.
pub fn sample_range(n: u64) -> (r: (u64, u64))
    ensures
        r.0 == sample_start(n as nat),
        r.1 == sample_len(n as nat),
        r.0 + r.1 <= n,
{
    let start: u64 = n / 2;
    let left: u64 = n - start;
    if left <= LARGE_SAMPLE {
        (start, left)
    } else {
        (start, LARGE_SAMPLE)
    }
}

/// Finds the method for data that is streamed.
pub fn choose_stream_method(sample: &[u8], press: Press, skip_shuffle: bool) -> (m: CompressMethod)
    requires
        press.job().allowed(sample@.len()),
    ensures
        m == method_for(press, sample@, skip_shuffle),
{
    match smart::smart_compress_with_settings(
        sample,
        press.window,
        press.block,
        FORMAT_VERSION,
        skip_shuffle,
        press.settings,
    ) {
        None => CompressMethod::Blocked,
        Some((_, m)) => match m {
            CompressMethod::Shuffle => CompressMethod::ShuffleBlk,
            CompressMethod::ShuffleBlk => CompressMethod::ShuffleBlk,
            CompressMethod::Shuffle2 => CompressMethod::Shuffle2Blk,
            CompressMethod::Shuffle2Blk => CompressMethod::Shuffle2Blk,
            _ => CompressMethod::Blocked,
        },
    }
}

/// The size of blocks that are streamed by a method.
pub fn stream_block_size(press: Press, m: CompressMethod) -> (r: usize)
    ensures
        r == match m {
            CompressMethod::ShuffleBlk => press.job().shuffle_block(),
            CompressMethod::Shuffle2Blk => press.job().shuffle_block(),
            _ => press.job().plain_block(),
        },
{
    let most: usize = match m {
        CompressMethod::ShuffleBlk => blocked::MAX_SHUFFLE_BLOCK_SIZE,
        CompressMethod::Shuffle2Blk => blocked::MAX_SHUFFLE_BLOCK_SIZE,
        _ => blocked::MAX_PLAIN_BLOCK_SIZE,
    };
    if press.block <= most {
        press.block
    } else {
        most
    }
}

fn part_size(press: Press, stride: usize) -> (r: usize)
    requires
        press.usable(),
        1 <= stride <= 4,
    ensures
        r == press.part(stride as nat),
        r >= 1,
{
    let block: usize = stream_block_size(press, CompressMethod::ShuffleBlk);
    assert(block * stride <= 4194304 && block * stride >= 1) by (nonlinear_arith)
        requires
            1 <= block <= 1048576,
            1 <= stride <= 4,
    ;
    let row: usize = block * stride;
    assert(row * press.batch <= 4194304 * press.batch && row * press.batch >= 1)
        by (nonlinear_arith)
        requires
            1 <= row <= 4194304,
            press.batch >= 1,
    ;
    row * press.batch
}

/// Whether what is coded is kept, by its size and that of the data.
pub fn pays_off(orig: u64, stored: u64) -> (r: bool)
    ensures
        r == pays(orig as nat, stored as nat),
{
    stored < orig
}

/// Streams data by a method.
fn stream_by(data: &[u8], press: Press, m: CompressMethod) -> (r: (Vec<u8>, u32))
    requires
        press.usable(),
        data@.len() >= LARGE,
        countable(press, data@),
    ensures
        r.0@ == payload_of(press, data@, m),
        r.1 == crc::crc_of(data@),
{
    let block: usize = stream_block_size(press, m);
    let stride: usize = match m {
        CompressMethod::ShuffleBlk => 4,
        CompressMethod::Shuffle2Blk => 2,
        _ => {
            let (payload, totals) = stream::compress_stream_blocked(
                data,
                press.window,
                block,
                FORMAT_VERSION,
            );
            return (payload, totals.crc);
        },
    };
    let part: usize = part_size(press, stride);
    let (payload, crc, _) = shuffled::compress_stream_shuffled_blocked(
        data,
        stride,
        press.window,
        block,
        FORMAT_VERSION,
        part,
    );
    (payload, crc)
}

/// Stores data that is streamed.
pub fn store_large(data: &[u8], press: Press, skip_shuffle: bool) -> (r: StoredData)
    requires
        press.usable(),
        data@.len() >= LARGE,
        countable(press, data@),
    ensures
        r.holds(coded_large(press, data@, skip_shuffle)),
        r.crc == crc::crc_of(data@),
{
    let (start, len) = sample_range(data.len() as u64);
    let sample = &data[start as usize..(start + len) as usize];
    proof {
        assert(sample@ =~= sample_of(data@));
        lemma_usable(press, sample@.len());
    }
    let m = choose_stream_method(sample, press, skip_shuffle);
    let (payload, crc) = stream_by(data, press, m);
    if pays_off(data.len() as u64, payload.len() as u64) {
        StoredData { payload, method: m.to_u8(), stored_raw: false, crc }
    } else {
        StoredData { payload: copy(data), method: 0, stored_raw: true, crc }
    }
}

/// Stores data.
pub fn store(data: &[u8], press: Press, skip_shuffle: bool) -> (r: StoredData)
    requires
        press.fits(data@.len()),
        countable(press, data@),
    ensures
        r.holds(coded(press, data@, skip_shuffle)),
        r.crc == crc::crc_of(data@),
{
    proof {
        reveal(coded);
    }
    if (data.len() as u64) < LARGE {
        store_small(data, press, skip_shuffle)
    } else {
        store_large(data, press, skip_shuffle)
    }
}

// ---- reading ----

/// What is said of a size that this machine cannot hold.
pub open spec fn too_large() -> Seq<char> {
    "entry too large"@
}

pub open spec fn method_of(id: u8) -> Option<CompressMethod> {
    if id == 0 {
        Some(CompressMethod::Plain)
    } else if id == 1 {
        Some(CompressMethod::Blocked)
    } else if id == 2 {
        Some(CompressMethod::Shuffle)
    } else if id == 3 {
        Some(CompressMethod::ShuffleBlk)
    } else if id == 4 {
        Some(CompressMethod::Shuffle2)
    } else if id == 5 {
        Some(CompressMethod::Shuffle2Blk)
    } else {
        None
    }
}

/// What is small is decoded as a whole. The lanes of a file that was large enough to be streamed
/// are only put together by the reader.
pub open spec fn decoded_whole(e: Entry, m: CompressMethod) -> bool {
    e.stored_size < LARGE && !(e.orig_size >= LARGE && (m is ShuffleBlk || m is Shuffle2Blk))
}

/// The data of a member whose payload `rest` starts with. What is stored raw is read whatever the
/// method is; what is small is decoded as a whole, and the rest piece by piece, for as long as it
/// goes.
#[verifier::opaque]
pub open spec fn extracted(e: Entry, rest: Seq<u8>, version: u8) -> Result<Seq<u8>, Seq<char>> {
    if e.stored_raw {
        if rest.len() < e.stored_size {
            Err(stream::cut_short())
        } else {
            Ok(rest.take(e.stored_size as int))
        }
    } else {
        match method_of(e.method) {
            None => Err("unknown codec method "@ + text::dec(e.method as nat)),
            Some(m) => if e.orig_size > usize::MAX {
                Err(too_large())
            } else if decoded_whole(e, m) {
                if rest.len() < e.stored_size {
                    Err(stream::cut_short())
                } else {
                    smart::undone(
                        rest.take(e.stored_size as int),
                        m,
                        e.orig_size as nat,
                        version,
                    )
                }
            } else {
                reader::payload_rest(
                    m,
                    e.stored_size as nat,
                    e.orig_size as nat,
                    false,
                    version,
                    rest,
                )
            },
        }
    }
}

/// The method of a member that is stored raw is ignored, and its data is its payload.
pub proof fn lemma_raw_method(e: Entry, method: u8, rest: Seq<u8>, version: u8)
    requires
        e.stored_raw,
    ensures
        extracted((Entry { method, ..e }), rest, version) == extracted(e, rest, version),
        rest.len() >= e.stored_size ==> extracted(e, rest, version) == Ok::<Seq<u8>, Seq<char>>(
            rest.take(e.stored_size as int),
        ),
{
    reveal(extracted);
}

/// What is wrong with the data of a member, if anything is.
pub open spec fn mismatch(e: Entry, size: nat, crc: u32, ending: Seq<char>) -> Option<Seq<char>> {
    if size != e.orig_size {
        Some(
            e.path + ": size mismatch ("@ + text::dec(size) + " != "@ + text::dec(
                e.orig_size as nat,
            ) + ")"@,
        )
    } else if crc != e.crc {
        Some(e.path + ": CRC mismatch (corrupt)"@ + ending)
    } else {
        None
    }
}

/// Nothing is wrong with the data of a member if and only if its size and its checksum are those
/// that the header says, and what is said otherwise starts with the path.
pub proof fn lemma_mismatch(e: Entry, size: nat, crc: u32, ending: Seq<char>)
    ensures
        match mismatch(e, size, crc, ending) {
            None => size == e.orig_size && crc == e.crc,
            Some(m) => (size != e.orig_size || crc != e.crc) && e.path.is_prefix_of(m),
        },
{
    if size != e.orig_size {
        let m = mismatch(e, size, crc, ending)->0;
        assert(e.path =~= m.subrange(0, e.path.len() as int));
    } else if crc != e.crc {
        let m = mismatch(e, size, crc, ending)->0;
        assert(e.path =~= m.subrange(0, e.path.len() as int));
    }
}

/// Compares the data of a member with what its header says.
pub fn check_member(m: &EntryMeta, size: u64, crc: u32, ending: &str) -> (r: Result<(), String>)
    ensures
        match (r, mismatch(m@, size as nat, crc, ending@)) {
            (Ok(_), None) => true,
            (Err(e), Some(want)) => e@ == want,
            _ => false,
        },
{
    if size != m.orig_size {
        let mut s = m.path.clone();
        s.append(": size mismatch (");
        s.append(text::decimal(size).as_str());
        s.append(" != ");
        s.append(text::decimal(m.orig_size).as_str());
        s.append(")");
        Err(s)
    } else if crc != m.crc {
        let mut s = m.path.clone();
        s.append(": CRC mismatch (corrupt)");
        s.append(ending);
        Err(s)
    } else {
        Ok(())
    }
}

/// The data of the member whose payload `rest` starts with, and its checksum.
pub fn extract_entry_payload(rest: &[u8], m: &EntryMeta, version: u8) -> (r: Result<
    (Vec<u8>, u32),
    String,
>)
    ensures
        match (r, extracted(m@, rest@, version)) {
            (Ok((v, crc)), Ok(want)) => v@ == want && crc == crc::crc_of(want),
            (Err(e), Err(msg)) => e@ == msg,
            _ => false,
        },
{
    proof {
        reveal(extracted);
    }
    let total: usize = rest.len();
    let data: Vec<u8>;
    if m.stored_raw {
        if (total as u64) < m.stored_size {
            return Err("failed to fill whole buffer".to_string());
        }
        let part = &rest[0..m.stored_size as usize];
        assert(part@ =~= rest@.take(m.stored_size as int));
        data = copy(part);
    } else {
        let method = match CompressMethod::from_u8(m.method) {
            None => {
                return Err(text::with_number("unknown codec method ", m.method as u64));
            },
            Some(x) => x,
        };
        if m.orig_size > usize::MAX as u64 {
            return Err("entry too large".to_string());
        }
        let by_lanes: bool = match method {
            CompressMethod::ShuffleBlk => m.orig_size >= LARGE,
            CompressMethod::Shuffle2Blk => m.orig_size >= LARGE,
            _ => false,
        };
        if m.stored_size < LARGE && !by_lanes {
            if (total as u64) < m.stored_size {
                return Err("failed to fill whole buffer".to_string());
            }
            let part = &rest[0..m.stored_size as usize];
            assert(part@ =~= rest@.take(m.stored_size as int));
            data = match smart::smart_decompress_with_version(
                part,
                method,
                m.orig_size as usize,
                version,
            ) {
                Err(e) => {
                    return Err(e);
                },
                Ok(v) => v,
            };
        } else {
            data = match reader::read_payload(
                method,
                m.stored_size,
                m.orig_size,
                false,
                version,
                rest,
            ) {
                Err(e) => {
                    return Err(e);
                },
                Ok(v) => v,
            };
        }
    }
    let crc: u32 = crc::crc32(data.as_slice());
    Ok((data, crc))
}

// ---- reading back what was stored ----

/// The header says of the member what is stored of the data.
pub open spec fn describes(e: Entry, c: Coded, data: Seq<u8>) -> bool {
    &&& e.orig_size == data.len()
    &&& e.stored_size == c.payload.len()
    &&& e.method == c.method
    &&& e.stored_raw == c.raw
    &&& e.crc == crc::crc_of(data)
}

/// What was stored is read back as the data, whatever follows it, and passes the comparison.
pub proof fn lemma_member_roundtrip(
    p: Press,
    data: Seq<u8>,
    skip_shuffle: bool,
    e: Entry,
    after: Seq<u8>,
)
    requires
        p.fits(data.len()),
        data.len() <= usize::MAX,
        countable(p, data),
        describes(e, coded(p, data, skip_shuffle), data),
    ensures
        extracted(e, coded(p, data, skip_shuffle).payload + after, FORMAT_VERSION) == Ok::<
            Seq<u8>,
            Seq<char>,
        >(data),
        forall|ending: Seq<char>|
            #[trigger] mismatch(e, data.len(), crc::crc_of(data), ending) is None,
{
    reveal(coded);
    reveal(extracted);
    let c = coded(p, data, skip_shuffle);
    let all = c.payload + after;
    assert(all.take(c.payload.len() as int) =~= c.payload);
    if data.len() < LARGE {
        if !c.raw {
            let j = p.job();
            let m = (smart::chosen(j, data, skip_shuffle)->0).1;
            smart::lemma_chosen(j, data, skip_shuffle);
            smart::lemma_counts(j, data, m);
            smart::lemma_smart_roundtrip(j, data, skip_shuffle);
        }
    } else if !c.raw {
        let m = method_for(p, sample_of(data), skip_shuffle);
        lemma_stream_back(p, data, m, after);
        if m is Blocked {
            lemma_stream_whole(p, data);
        }
    }
}

/// What is stored is never longer than the data, and it is the data itself where it is not shorter.
pub proof fn lemma_stored_len(p: Press, data: Seq<u8>, skip_shuffle: bool)
    ensures
        ({
            let c = coded(p, data, skip_shuffle);
            &&& c.payload.len() <= data.len()
            &&& c.raw <==> c.payload.len() == data.len()
            &&& c.raw ==> c.payload == data
        }),
{
    reveal(coded);
}

/// A payload was kept: it is stored with the number of its method where it is shorter than the
/// data, and else the data itself is.
pub open spec fn kept(c: Coded, data: Seq<u8>, payload: Seq<u8>, method: u8) -> bool {
    if payload.len() < data.len() {
        c.payload == payload && c.method == method && !c.raw
    } else {
        c.payload == data && c.method == 0 && c.raw
    }
}

/// Data from 128 MiB on is coded by the method that does best on 1 MiB from its middle on, in
/// blocks of at most 8 MiB, or of at most 1 MiB where it is shuffled; and what comes of it is kept
/// wherever it is shorter than the data.
pub proof fn lemma_streamed_kept(p: Press, data: Seq<u8>, skip_shuffle: bool)
    requires
        data.len() >= 134217728,
    ensures
        ({
            let c = coded(p, data, skip_shuffle);
            let middle = data.subrange(
                data.len() as int / 2,
                data.len() as int / 2 + 1048576,
            );
            let job = Job {
                window: p.window as nat,
                block: p.block as nat,
                version: 1,
                settings: p.settings,
            };
            let plain: nat = if p.block <= 8388608 {
                p.block as nat
            } else {
                8388608
            };
            let lane: nat = if p.block <= 1048576 {
                p.block as nat
            } else {
                1048576
            };
            let w = p.window as nat;
            match smart::chosen(job, middle, skip_shuffle) {
                Some((_, m)) if m is Shuffle || m is ShuffleBlk => kept(
                    c,
                    data,
                    shuffled::shuffled_stream(
                        stream::pieces(data, lane * 4 * p.batch as nat),
                        4,
                        w,
                        lane,
                        1,
                    ),
                    3,
                ),
                Some((_, m)) if m is Shuffle2 || m is Shuffle2Blk => kept(
                    c,
                    data,
                    shuffled::shuffled_stream(
                        stream::pieces(data, lane * 2 * p.batch as nat),
                        2,
                        w,
                        lane,
                        1,
                    ),
                    5,
                ),
                _ => kept(c, data, stream::streamed(data, w, plain, 1), 1),
            }
        }),
{
    reveal(coded);
    assert(sample_of(data) =~= data.subrange(
        data.len() as int / 2,
        data.len() as int / 2 + 1048576,
    ));
}

/// Data below 128 MiB is coded as a whole, and what comes of it is kept wherever it is shorter than
/// the data.
pub proof fn lemma_whole_kept(p: Press, data: Seq<u8>, skip_shuffle: bool)
    requires
        data.len() < 134217728,
    ensures
        ({
            let c = coded(p, data, skip_shuffle);
            let job = Job {
                window: p.window as nat,
                block: p.block as nat,
                version: 1,
                settings: p.settings,
            };
            match smart::chosen(job, data, skip_shuffle) {
                Some((payload, m)) => kept(
                    c,
                    data,
                    payload,
                    match m {
                        CompressMethod::Plain => 0,
                        CompressMethod::Blocked => 1,
                        CompressMethod::Shuffle => 2,
                        CompressMethod::ShuffleBlk => 3,
                        CompressMethod::Shuffle2 => 4,
                        CompressMethod::Shuffle2Blk => 5,
                    },
                ),
                None => c.payload == data && c.method == 0 && c.raw,
            }
        }),
{
    reveal(coded);
}

/// A file that holds the same bytes twice is not stored as it is, where they are from 16 KiB to 64
/// KiB and fit in the window, no 64 of them in a row come twice, and their marks are spread.
pub proof fn lemma_twice_stored(p: Press, x: Seq<u8>, skip_shuffle: bool)
    requires
        exists|e: nat| e < 64 && p.window == bits::p2(e),
        16384 <= x.len() <= p.window,
        x.len() <= 65536,
        search::no_long_repeats(x + x, x.len() as int),
        search::spread_marks(x + x, x.len() as int, p.window as nat),
    ensures
        ({
            let c = coded(p, x + x, skip_shuffle);
            !c.raw && c.payload.len() < 2 * x.len()
        }),
{
    let data = x + x;
    let w = p.window as nat;
    lemma_whole_kept(p, data, skip_shuffle);
    search::lemma_twice_shrinks(x, w, 1);
    deflate::lemma_coded_if_shorter(
        deflate::lone_block(data, w),
        deflate::no_chains(lz::hash_params(w).1, w),
        1,
    );
    let job = Job { window: w, block: p.block as nat, version: 1, settings: p.settings };
    smart::lemma_small_choice(job, data, skip_shuffle);
    assert(smart::made_by(job, data, CompressMethod::Plain) is Some);
}

/// A stream of blocks is read back as a whole.
proof fn lemma_stream_whole(p: Press, data: Seq<u8>)
    requires
        p.usable(),
        LARGE <= data.len() <= usize::MAX,
        countable(p, data),
    ensures
        smart::undone(
            payload_of(p, data, CompressMethod::Blocked),
            CompressMethod::Blocked,
            data.len(),
            FORMAT_VERSION,
        ) == Ok::<Seq<u8>, Seq<char>>(data),
{
    reveal(smart::undone);
    stream::lemma_stream_unblocked(
        data,
        p.window as nat,
        p.job().plain_block(),
        FORMAT_VERSION,
    );
}

proof fn lemma_part(p: Press, stride: nat)
    requires
        p.usable(),
        stride >= 1,
    ensures
        p.part(stride) >= 1,
{
    let b = p.job().shuffle_block();
    let n = p.batch as nat;
    assert(b * stride * n >= 1) by (nonlinear_arith)
        requires
            b >= 1,
            stride >= 1,
            n >= 1,
    ;
}

/// A stream is read back piece by piece.
proof fn lemma_stream_back(p: Press, data: Seq<u8>, m: CompressMethod, after: Seq<u8>)
    requires
        p.usable(),
        LARGE <= data.len() <= usize::MAX,
        countable(p, data),
        m is Blocked || m is ShuffleBlk || m is Shuffle2Blk,
    ensures
        reader::payload_rest(
            m,
            payload_of(p, data, m).len(),
            data.len(),
            false,
            FORMAT_VERSION,
            payload_of(p, data, m) + after,
        ) == Ok::<Seq<u8>, Seq<char>>(data),
{
    let j = p.job();
    if m is Blocked {
        stream::lemma_stream_roundtrip(
            data,
            p.window as nat,
            j.plain_block(),
            FORMAT_VERSION,
            after,
        );
    } else {
        let stride: nat = if m is ShuffleBlk {
            4
        } else {
            2
        };
        lemma_part(p, stride);
        let parts = stream::pieces(data, p.part(stride));
        shuffled::lemma_flat_pieces(data, p.part(stride));
        shuffled::lemma_shuffled_roundtrip(
            parts,
            stride,
            p.window as nat,
            j.shuffle_block(),
            FORMAT_VERSION,
            after,
        );
    }
}

} // verus!
