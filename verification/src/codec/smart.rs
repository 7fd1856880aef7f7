//! The choice between the methods.
//!
//! Data is coded by all methods that may do well and the shortest result is
//! taken. From 1 MiB on a sample decides, and only blocked methods are tried.

use crate::codec::blocked;
use crate::codec::blocked::{Settings, MAX_PLAIN_BLOCK_SIZE, MAX_SHUFFLE_BLOCK_SIZE};
use crate::codec::cdc;
use crate::codec::deflate;
use crate::codec::lz;
use crate::codec::shuffle;
use vstd::prelude::*;

verus! {

#[derive(Clone, Copy, PartialEq, Eq, Structural, Debug)]
pub enum CompressMethod {
    /// One block.
    Plain,
    /// Many blocks.
    Blocked,
    /// Shuffled by groups of 4, one block.
    Shuffle,
    /// Shuffled by groups of 4, many blocks.
    ShuffleBlk,
    /// Shuffled by groups of 2, one block.
    Shuffle2,
    /// Shuffled by groups of 2, many blocks.
    Shuffle2Blk,
}

/// The number of a method in a file.
pub open spec fn method_id(m: CompressMethod) -> u8 {
    match m {
        CompressMethod::Plain => 0,
        CompressMethod::Blocked => 1,
        CompressMethod::Shuffle => 2,
        CompressMethod::ShuffleBlk => 3,
        CompressMethod::Shuffle2 => 4,
        CompressMethod::Shuffle2Blk => 5,
    }
}

impl CompressMethod {
    pub fn to_u8(self) -> (r: u8)
        ensures
            r == method_id(self),
    {
        match self {
            CompressMethod::Plain => 0,
            CompressMethod::Blocked => 1,
            CompressMethod::Shuffle => 2,
            CompressMethod::ShuffleBlk => 3,
            CompressMethod::Shuffle2 => 4,
            CompressMethod::Shuffle2Blk => 5,
        }
    }

    /// The method of a number, if it is that of one.
    pub fn from_u8(v: u8) -> (r: Option<Self>)
        ensures
            r is Some <==> v <= 5,
            r is Some ==> method_id(r->0) == v,
    {
        match v {
            0 => Some(CompressMethod::Plain),
            1 => Some(CompressMethod::Blocked),
            2 => Some(CompressMethod::Shuffle),
            3 => Some(CompressMethod::ShuffleBlk),
            4 => Some(CompressMethod::Shuffle2),
            5 => Some(CompressMethod::Shuffle2Blk),
            _ => None,
        }
    }
}

/// Different methods have different numbers, all below 6.
pub proof fn lemma_method_ids(a: CompressMethod, b: CompressMethod)
    ensures
        method_id(a) <= 5,
        method_id(a) == method_id(b) ==> a == b,
{
}

pub open spec fn method_label(m: CompressMethod) -> Seq<char> {
    match m {
        CompressMethod::Plain => "plain"@,
        CompressMethod::Blocked => "blocked"@,
        CompressMethod::Shuffle => "shuf+defl"@,
        CompressMethod::ShuffleBlk => "shuf+blk"@,
        CompressMethod::Shuffle2 => "shuf2+defl"@,
        CompressMethod::Shuffle2Blk => "shuf2+blk"@,
    }
}

pub fn method_name(m: CompressMethod) -> (s: &'static str)
    ensures
        s@ == method_label(m),
{
    match m {
        CompressMethod::Plain => "plain",
        CompressMethod::Blocked => "blocked",
        CompressMethod::Shuffle => "shuf+defl",
        CompressMethod::ShuffleBlk => "shuf+blk",
        CompressMethod::Shuffle2 => "shuf2+defl",
        CompressMethod::Shuffle2Blk => "shuf2+blk",
    }
}

// ---- what is chosen ----

/// From this size on only blocked methods are tried, on a sample.
pub const PARALLEL_ONLY_THRESHOLD: usize = 1048576;

pub const SAMPLE_SIZE: usize = 262144;

/// How data is coded: the window, the size of blocks, the version, and what the
/// surroundings decide.
pub struct Job {
    pub window: nat,
    pub block: nat,
    pub version: u8,
    pub settings: Settings,
}

pub open spec fn at_most(a: nat, b: nat) -> nat {
    if a <= b {
        a
    } else {
        b
    }
}

impl Job {
    pub open spec fn plain_block(self) -> nat {
        at_most(self.block, MAX_PLAIN_BLOCK_SIZE as nat)
    }

    pub open spec fn shuffle_block(self) -> nat {
        at_most(self.block, MAX_SHUFFLE_BLOCK_SIZE as nat)
    }

    pub open spec fn in_blocks(self, data: Seq<u8>, block: nat) -> Option<Seq<u8>> {
        blocked::blocked(data, self.window, block, self.version, self.settings)
    }

    pub open spec fn alone(self, data: Seq<u8>) -> Option<Seq<u8>> {
        deflate::deflated_alone(data, self.window, self.version)
    }

    /// The sizes make sense for data of `n` bytes.
    pub open spec fn allowed(self, n: nat) -> bool {
        n >= 128 ==> {
            &&& 1 <= self.window <= usize::MAX
            &&& if n >= PARALLEL_ONLY_THRESHOLD {
                cdc::blocks_allowed(self.block, self.settings.fixed_blocks)
            } else {
                self.settings.fixed_blocks ==> self.block > 0
            }
        }
    }

    /// What a method makes of the data.
    pub open spec fn coded(self, data: Seq<u8>, m: CompressMethod) -> Option<Seq<u8>> {
        match m {
            CompressMethod::Plain => self.alone(data),
            CompressMethod::Blocked => self.in_blocks(data, self.plain_block()),
            CompressMethod::Shuffle => self.alone(shuffle::shuffled(data, 4)),
            CompressMethod::ShuffleBlk => self.in_blocks(
                shuffle::shuffled(data, 4),
                self.shuffle_block(),
            ),
            CompressMethod::Shuffle2 => self.alone(shuffle::shuffled(data, 2)),
            CompressMethod::Shuffle2Blk => self.in_blocks(
                shuffle::shuffled(data, 2),
                self.shuffle_block(),
            ),
        }
    }
}

/// The better of what was found and a candidate: the candidate if it is shorter.
pub open spec fn better(
    best: Option<(Seq<u8>, CompressMethod)>,
    cand: Option<Seq<u8>>,
    m: CompressMethod,
) -> Option<(Seq<u8>, CompressMethod)> {
    if cand is Some && (best is None || cand->0.len() < (best->0).0.len()) {
        Some((cand->0, m))
    } else {
        best
    }
}

pub open spec fn unless(skip: bool, cand: Option<Seq<u8>>) -> Option<Seq<u8>> {
    if skip {
        None
    } else {
        cand
    }
}

/// The method that does best on the sample, with blocks of the full size.
pub open spec fn sample_choice(j: Job, sample: Seq<u8>, skip_shuffle: bool) -> CompressMethod {
    let b1 = better(None, j.in_blocks(sample, j.block), CompressMethod::Blocked);
    let b2 = better(
        b1,
        unless(skip_shuffle, j.in_blocks(shuffle::shuffled(sample, 4), j.block)),
        CompressMethod::ShuffleBlk,
    );
    let b3 = better(
        b2,
        unless(skip_shuffle, j.in_blocks(shuffle::shuffled(sample, 2), j.block)),
        CompressMethod::Shuffle2Blk,
    );
    match b3 {
        Some((c, m)) => m,
        None => CompressMethod::Blocked,
    }
}

/// The shortest of all that is tried on small data.
pub open spec fn best_of_all(j: Job, data: Seq<u8>, skip_shuffle: bool) -> Option<
    (Seq<u8>, CompressMethod),
> {
    let n = data.len();
    let no_plain = n < j.plain_block();
    let no_shuffle = n < j.shuffle_block() || skip_shuffle;
    let b1 = better(None, j.coded(data, CompressMethod::Plain), CompressMethod::Plain);
    let b2 = better(
        b1,
        unless(skip_shuffle, j.coded(data, CompressMethod::Shuffle)),
        CompressMethod::Shuffle,
    );
    let b3 = better(
        b2,
        unless(skip_shuffle, j.coded(data, CompressMethod::Shuffle2)),
        CompressMethod::Shuffle2,
    );
    let b4 = better(
        b3,
        unless(no_plain, j.coded(data, CompressMethod::Blocked)),
        CompressMethod::Blocked,
    );
    let b5 = better(
        b4,
        unless(no_shuffle, j.coded(data, CompressMethod::ShuffleBlk)),
        CompressMethod::ShuffleBlk,
    );
    better(
        b5,
        unless(no_shuffle, j.coded(data, CompressMethod::Shuffle2Blk)),
        CompressMethod::Shuffle2Blk,
    )
}

/// The coded data and the method, unless nothing makes it shorter.
/// `skip_shuffle` leaves the shuffled methods out.
#[verifier::opaque]
pub open spec fn chosen(j: Job, data: Seq<u8>, skip_shuffle: bool) -> Option<
    (Seq<u8>, CompressMethod),
> {
    if data.len() < 128 {
        None
    } else if data.len() >= PARALLEL_ONLY_THRESHOLD {
        let m = sample_choice(j, data.take(SAMPLE_SIZE as int), skip_shuffle);
        match j.coded(data, m) {
            Some(c) => Some((c, m)),
            None => None,
        }
    } else {
        best_of_all(j, data, skip_shuffle)
    }
}

/// What coded data stands for.
#[verifier::opaque]
pub open spec fn undone(data: Seq<u8>, m: CompressMethod, expected: nat, version: u8) -> Result<
    Seq<u8>,
    Seq<char>,
> {
    let stride: nat = match m {
        CompressMethod::Plain => 0,
        CompressMethod::Blocked => 0,
        CompressMethod::Shuffle => 4,
        CompressMethod::ShuffleBlk => 4,
        CompressMethod::Shuffle2 => 2,
        CompressMethod::Shuffle2Blk => 2,
    };
    let opened = match m {
        CompressMethod::Plain => deflate::inflated(data, expected, version),
        CompressMethod::Shuffle => deflate::inflated(data, expected, version),
        CompressMethod::Shuffle2 => deflate::inflated(data, expected, version),
        CompressMethod::Blocked => blocked::unblocked(data, expected, version),
        CompressMethod::ShuffleBlk => blocked::unblocked(data, expected, version),
        CompressMethod::Shuffle2Blk => blocked::unblocked(data, expected, version),
    };
    match opened {
        Err(e) => Err(e),
        Ok(v) => if stride == 0 {
            Ok(v)
        } else {
            Ok(shuffle::unshuffled(v, stride))
        },
    }
}

// ---- reading back what was written ----

impl Job {
    /// What is in front of the coded form of the data as one block tells all that decoding needs.
    pub open spec fn heads(self, data: Seq<u8>) -> bool {
        deflate::countable(
            deflate::lone_block(data, self.window),
            deflate::no_chains(lz::hash_params(self.window).1, self.window),
            self.version,
        )
    }

    /// The numbers in what a method makes of the data fit in 32 bits.
    pub open spec fn counts(self, data: Seq<u8>, m: CompressMethod) -> bool {
        let fixed = self.settings.fixed_blocks;
        match m {
            CompressMethod::Plain => self.heads(data),
            CompressMethod::Shuffle => self.heads(shuffle::shuffled(data, 4)),
            CompressMethod::Shuffle2 => self.heads(shuffle::shuffled(data, 2)),
            CompressMethod::Blocked => cdc::blocks(data, self.plain_block(), fixed).len()
                <= u32::MAX,
            CompressMethod::ShuffleBlk => cdc::blocks(
                shuffle::shuffled(data, 4),
                self.shuffle_block(),
                fixed,
            ).len() <= u32::MAX,
            CompressMethod::Shuffle2Blk => cdc::blocks(
                shuffle::shuffled(data, 2),
                self.shuffle_block(),
                fixed,
            ).len() <= u32::MAX,
        }
    }
}

/// Blocks of moderate size can be counted if there are not too many.
pub proof fn lemma_blocks_fit(j: Job, data: Seq<u8>, block: nat)
    requires
        j.settings.fixed_blocks ==> block > 0,
        block <= MAX_PLAIN_BLOCK_SIZE,
    ensures
        cdc::blocks_allowed(block, j.settings.fixed_blocks),
        ({
            let bounds = cdc::blocks(data, block, j.settings.fixed_blocks);
            &&& data.len() <= u32::MAX ==> bounds.len() <= u32::MAX
            &&& bounds.len() <= u32::MAX ==> blocked::countable(bounds)
        }),
{
    lemma_cuttable_capped(block);
    blocked::lemma_countable(data, block, j.settings.fixed_blocks);
}

/// Data below 4 GiB has no number that does not fit.
pub proof fn lemma_counts(j: Job, data: Seq<u8>, m: CompressMethod)
    requires
        j.allowed(data.len()),
        128 <= data.len() <= u32::MAX,
    ensures
        j.counts(data, m),
{
    shuffle::lemma_shuffle_len(data, 4);
    shuffle::lemma_shuffle_len(data, 2);
    lemma_blocks_fit(j, data, j.plain_block());
    lemma_blocks_fit(j, shuffle::shuffled(data, 4), j.shuffle_block());
    lemma_blocks_fit(j, shuffle::shuffled(data, 2), j.shuffle_block());
}

proof fn lemma_cuttable_capped(a: nat)
    requires
        a <= 8388608,
    ensures
        cdc::cuttable(a),
{
    cdc::lemma_doubled_mono(1024, a, 8388608);
    cdc::lemma_doubled(1024, 8388608);
}

/// Every method's result decodes to the data and is shorter than it.
pub proof fn lemma_coded_roundtrip(j: Job, data: Seq<u8>, m: CompressMethod)
    requires
        j.allowed(data.len()),
        128 <= data.len() <= usize::MAX,
        j.counts(data, m),
        j.coded(data, m) is Some,
    ensures
        undone(j.coded(data, m)->0, m, data.len(), j.version) == Ok::<Seq<u8>, Seq<char>>(data),
        j.coded(data, m)->0.len() < data.len(),
{
    reveal(undone);
    let stride: nat = match m {
        CompressMethod::Shuffle => 4,
        CompressMethod::ShuffleBlk => 4,
        _ => 2,
    };
    let sh = shuffle::shuffled(data, stride);
    shuffle::lemma_shuffle_len(data, stride);
    shuffle::lemma_shuffle_roundtrip(data, stride);
    match m {
        CompressMethod::Plain => {
            deflate::lemma_alone_roundtrip(data, j.window, j.version, data.len());
        },
        CompressMethod::Blocked => {
            lemma_blocks_fit(j, data, j.plain_block());
            blocked::lemma_blocked_roundtrip(
                data,
                j.window,
                j.plain_block(),
                j.version,
                j.settings,
            );
        },
        CompressMethod::Shuffle | CompressMethod::Shuffle2 => {
            deflate::lemma_alone_roundtrip(sh, j.window, j.version, sh.len());
        },
        CompressMethod::ShuffleBlk | CompressMethod::Shuffle2Blk => {
            lemma_blocks_fit(j, sh, j.shuffle_block());
            blocked::lemma_blocked_roundtrip(
                sh,
                j.window,
                j.shuffle_block(),
                j.version,
                j.settings,
            );
        },
    }
}

/// What is chosen is the result of its method.
pub proof fn lemma_chosen(j: Job, data: Seq<u8>, skip_shuffle: bool)
    requires
        chosen(j, data, skip_shuffle) is Some,
    ensures
        data.len() >= 128,
        ({
            let (c, m) = chosen(j, data, skip_shuffle)->0;
            j.coded(data, m) == Some(c)
        }),
{
    reveal(chosen);
}

/// Decompressing what compressing gave is the data, and what it gave is shorter. From 1 MiB on no
/// more is asked than that the number of blocks fits in 32 bits.
pub proof fn lemma_smart_roundtrip(j: Job, data: Seq<u8>, skip_shuffle: bool)
    requires
        j.allowed(data.len()),
        data.len() <= usize::MAX,
        chosen(j, data, skip_shuffle) is Some,
        data.len() >= PARALLEL_ONLY_THRESHOLD ==> j.counts(
            data,
            (chosen(j, data, skip_shuffle)->0).1,
        ),
    ensures
        ({
            let (c, m) = chosen(j, data, skip_shuffle)->0;
            &&& undone(c, m, data.len(), j.version) == Ok::<Seq<u8>, Seq<char>>(data)
            &&& c.len() < data.len()
        }),
{
    lemma_chosen(j, data, skip_shuffle);
    let (c, m) = chosen(j, data, skip_shuffle)->0;
    if data.len() < PARALLEL_ONLY_THRESHOLD {
        lemma_counts(j, data, m);
    }
    lemma_coded_roundtrip(j, data, m);
}

/// From 1 MiB on a blocked method is chosen.
pub proof fn lemma_blocked_chosen(j: Job, data: Seq<u8>, skip_shuffle: bool)
    requires
        data.len() >= PARALLEL_ONLY_THRESHOLD,
        chosen(j, data, skip_shuffle) is Some,
    ensures
        ({
            let m = (chosen(j, data, skip_shuffle)->0).1;
            m is Blocked || m is ShuffleBlk || m is Shuffle2Blk
        }),
{
    reveal(chosen);
}

/// On small data nothing that is tried is shorter than what is chosen, and
/// nothing is chosen only if nothing came of what was tried.
pub proof fn lemma_smart_shortest(j: Job, data: Seq<u8>, skip_shuffle: bool, m: CompressMethod)
    requires
        128 <= data.len() < PARALLEL_ONLY_THRESHOLD,
        j.coded(data, m) is Some,
        m is Shuffle || m is Shuffle2 || m is ShuffleBlk || m is Shuffle2Blk ==> !skip_shuffle,
        m is Blocked ==> data.len() >= j.plain_block(),
        m is ShuffleBlk || m is Shuffle2Blk ==> data.len() >= j.shuffle_block(),
    ensures
        chosen(j, data, skip_shuffle) is Some,
        (chosen(j, data, skip_shuffle)->0).0.len() <= j.coded(data, m)->0.len(),
{
    reveal(chosen);
}

/// What comes of data by a method, with blocks of at most 8 MiB, or of at most 1 MiB where it is
/// shuffled.
pub open spec fn made_by(j: Job, data: Seq<u8>, m: CompressMethod) -> Option<Seq<u8>> {
    let plain: nat = if j.block <= 8388608 {
        j.block
    } else {
        8388608
    };
    let lane: nat = if j.block <= 1048576 {
        j.block
    } else {
        1048576
    };
    let by4 = shuffle::shuffled(data, 4);
    let by2 = shuffle::shuffled(data, 2);
    match m {
        CompressMethod::Plain => deflate::deflated_alone(data, j.window, j.version),
        CompressMethod::Shuffle => deflate::deflated_alone(by4, j.window, j.version),
        CompressMethod::Shuffle2 => deflate::deflated_alone(by2, j.window, j.version),
        CompressMethod::Blocked => blocked::blocked(
            data,
            j.window,
            plain,
            j.version,
            j.settings,
        ),
        CompressMethod::ShuffleBlk => blocked::blocked(
            by4,
            j.window,
            lane,
            j.version,
            j.settings,
        ),
        CompressMethod::Shuffle2Blk => blocked::blocked(
            by2,
            j.window,
            lane,
            j.version,
            j.settings,
        ),
    }
}

/// A method is tried on data below 1 MiB: the shuffled ones unless they are left out, and the
/// blocked ones where the data is not shorter than a block.
pub open spec fn is_tried(j: Job, data: Seq<u8>, skip_shuffle: bool, m: CompressMethod) -> bool {
    match m {
        CompressMethod::Plain => true,
        CompressMethod::Shuffle => !skip_shuffle,
        CompressMethod::Shuffle2 => !skip_shuffle,
        CompressMethod::Blocked => data.len() >= j.block || data.len() >= 8388608,
        CompressMethod::ShuffleBlk => !skip_shuffle && (data.len() >= j.block || data.len()
            >= 1048576),
        CompressMethod::Shuffle2Blk => !skip_shuffle && (data.len() >= j.block || data.len()
            >= 1048576),
    }
}

/// Below 1 MiB the shortest of what the methods that are tried make of the data is chosen. Nothing
/// is chosen only where none of them makes it shorter, or where it is below 128 bytes.
pub proof fn lemma_small_choice(j: Job, data: Seq<u8>, skip_shuffle: bool)
    requires
        data.len() < 1048576,
    ensures
        data.len() < 128 ==> chosen(j, data, skip_shuffle) is None,
        data.len() >= 128 ==> match chosen(j, data, skip_shuffle) {
            None => forall|m: CompressMethod|
                is_tried(j, data, skip_shuffle, m) ==> #[trigger] made_by(j, data, m) is None,
            Some((c, best)) => {
                &&& is_tried(j, data, skip_shuffle, best)
                &&& made_by(j, data, best) == Some(c)
                &&& forall|m: CompressMethod|
                    is_tried(j, data, skip_shuffle, m) ==> (#[trigger] made_by(
                        j,
                        data,
                        m,
                    ) matches Some(d) ==> c.len() <= d.len())
            },
        },
{
    reveal(chosen);
    if data.len() >= 128 {
        assert forall|m: CompressMethod| #[trigger] made_by(j, data, m) == j.coded(data, m) by {}
        let r = chosen(j, data, skip_shuffle);
        assert forall|m: CompressMethod| is_tried(j, data, skip_shuffle, m) && #[trigger] made_by(
            j,
            data,
            m,
        ) is Some implies r is Some && (r->0).0.len() <= made_by(j, data, m)->0.len() by {
            lemma_smart_shortest(j, data, skip_shuffle, m);
        }
        if r is Some {
            let (c, best) = r->0;
            assert(made_by(j, data, best) == j.coded(data, best));
        }
    }
}

/// What blocks of the full size make of a sample, as it is or shuffled.
pub open spec fn sampled(j: Job, data: Seq<u8>, stride: nat) -> Option<Seq<u8>> {
    let sample = data.take(262144);
    blocked::blocked(
        if stride == 1 {
            sample
        } else {
            shuffle::shuffled(sample, stride)
        },
        j.window,
        j.block,
        j.version,
        j.settings,
    )
}

/// The first is as short as the second, which may not be there.
pub open spec fn no_longer(a: Option<Seq<u8>>, b: Option<Seq<u8>>) -> bool {
    match (a, b) {
        (_, None) => true,
        (None, Some(_)) => false,
        (Some(x), Some(y)) => x.len() <= y.len(),
    }
}

/// From 1 MiB on the first 256 KiB decide between the data as it is, shuffled by groups of 4 and
/// shuffled by groups of 2: what they are shortest by is what all of the data is coded by, in
/// blocks. Where there is nothing to choose between, the data stays as it is before groups of 4,
/// and those before groups of 2. Nothing is chosen where the data does not become shorter by it.
pub proof fn lemma_large_choice(j: Job, data: Seq<u8>, skip_shuffle: bool)
    requires
        data.len() >= 1048576,
    ensures
        ({
            let a = sampled(j, data, 1);
            let b = sampled(j, data, 4);
            let c = sampled(j, data, 2);
            let m = if !skip_shuffle && c is Some && !no_longer(a, c) && !no_longer(b, c) {
                CompressMethod::Shuffle2Blk
            } else if !skip_shuffle && b is Some && !no_longer(a, b) {
                CompressMethod::ShuffleBlk
            } else {
                CompressMethod::Blocked
            };
            match made_by(j, data, m) {
                Some(out) => chosen(j, data, skip_shuffle) == Some((out, m)),
                None => chosen(j, data, skip_shuffle) is None,
            }
        }),
{
    reveal(chosen);
    assert(made_by(j, data, CompressMethod::Blocked) == j.coded(data, CompressMethod::Blocked));
    assert(made_by(j, data, CompressMethod::ShuffleBlk) == j.coded(
        data,
        CompressMethod::ShuffleBlk,
    ));
    assert(made_by(j, data, CompressMethod::Shuffle2Blk) == j.coded(
        data,
        CompressMethod::Shuffle2Blk,
    ));
}

/// Coded data that is accepted stands for exactly as many bytes as are expected, whatever the
/// method is.
pub proof fn lemma_undone_len(data: Seq<u8>, m: CompressMethod, expected: nat, version: u8)
    requires
        undone(data, m, expected, version) is Ok,
    ensures
        undone(data, m, expected, version)->Ok_0.len() == expected,
{
    reveal(undone);
    match m {
        CompressMethod::Plain | CompressMethod::Shuffle | CompressMethod::Shuffle2 => {
            deflate::lemma_inflated_len(data, expected, expected + 1, version);
            let v = deflate::inflated(data, expected, version)->Ok_0;
            shuffle::lemma_shuffle_len(v, 4);
            shuffle::lemma_shuffle_len(v, 2);
        },
        _ => {
            blocked::lemma_unblocked_len(data, expected, version);
            let v = blocked::unblocked(data, expected, version)->Ok_0;
            shuffle::lemma_shuffle_len(v, 4);
            shuffle::lemma_shuffle_len(v, 2);
        },
    }
}

// ---- the computation ----

pub open spec fn pair_of(v: Option<(Vec<u8>, CompressMethod)>) -> Option<
    (Seq<u8>, CompressMethod),
> {
    match v {
        Some((c, m)) => Some((c@, m)),
        None => None,
    }
}

fn consider(
    best: Option<(Vec<u8>, CompressMethod)>,
    cand: Option<Vec<u8>>,
    m: CompressMethod,
) -> (r: Option<(Vec<u8>, CompressMethod)>)
    ensures
        pair_of(r) == better(pair_of(best), blocked::bytes_of(cand), m),
{
    match cand {
        None => best,
        Some(c) => match best {
            None => Some((c, m)),
            Some((b, bm)) => {
                if c.len() < b.len() {
                    Some((c, m))
                } else {
                    Some((b, bm))
                }
            },
        },
    }
}

fn encode_alone(data: &[u8], window_size: usize, version: u8) -> (r: Option<Vec<u8>>)
    requires
        window_size >= 1,
    ensures
        blocked::bytes_of(r) == deflate::deflated_alone(data@, window_size as nat, version),
{
    deflate::deflate_style_encode_with_version(data, window_size, version)
}

/// Codes the data by the given method.
fn encode_by(
    data: &[u8],
    m: CompressMethod,
    window_size: usize,
    block_size: usize,
    version: u8,
    settings: Settings,
) -> (r: Option<Vec<u8>>)
    requires
        window_size >= 1,
        settings.fixed_blocks ==> block_size > 0,
    ensures
        blocked::bytes_of(r) == (Job {
            window: window_size as nat,
            block: block_size as nat,
            version,
            settings,
        }).coded(data@, m),
{
    let plain_block: usize = if block_size <= MAX_PLAIN_BLOCK_SIZE {
        block_size
    } else {
        MAX_PLAIN_BLOCK_SIZE
    };
    let shuffle_block: usize = if block_size <= MAX_SHUFFLE_BLOCK_SIZE {
        block_size
    } else {
        MAX_SHUFFLE_BLOCK_SIZE
    };
    proof {
        lemma_cuttable_capped(plain_block as nat);
        lemma_cuttable_capped(shuffle_block as nat);
    }
    match m {
        CompressMethod::Plain => encode_alone(data, window_size, version),
        CompressMethod::Blocked => blocked::deflate_blocked_encode_with_settings(
            data,
            window_size,
            plain_block,
            version,
            settings,
        ),
        CompressMethod::Shuffle => {
            let s = shuffle::byte_shuffle(data, 4);
            encode_alone(s.as_slice(), window_size, version)
        },
        CompressMethod::ShuffleBlk => {
            let s = shuffle::byte_shuffle(data, 4);
            blocked::deflate_blocked_encode_with_settings(
                s.as_slice(),
                window_size,
                shuffle_block,
                version,
                settings,
            )
        },
        CompressMethod::Shuffle2 => {
            let s = shuffle::byte_shuffle(data, 2);
            encode_alone(s.as_slice(), window_size, version)
        },
        CompressMethod::Shuffle2Blk => {
            let s = shuffle::byte_shuffle(data, 2);
            blocked::deflate_blocked_encode_with_settings(
                s.as_slice(),
                window_size,
                shuffle_block,
                version,
                settings,
            )
        },
    }
}

/// The method that does best on a sample.
fn choose_by_sample(
    sample: &[u8],
    window_size: usize,
    block_size: usize,
    version: u8,
    skip_shuffle: bool,
    settings: Settings,
) -> (m: CompressMethod)
    requires
        window_size >= 1,
        cdc::blocks_allowed(block_size as nat, settings.fixed_blocks),
    ensures
        m == sample_choice(
            (Job {
                window: window_size as nat,
                block: block_size as nat,
                version,
                settings,
            }),
            sample@,
            skip_shuffle,
        ),
{
    let mut best: Option<(Vec<u8>, CompressMethod)> = None;
    let plain = blocked::deflate_blocked_encode_with_settings(
        sample,
        window_size,
        block_size,
        version,
        settings,
    );
    best = consider(best, plain, CompressMethod::Blocked);
    if !skip_shuffle {
        let s = shuffle::byte_shuffle(sample, 4);
        let c = blocked::deflate_blocked_encode_with_settings(
            s.as_slice(),
            window_size,
            block_size,
            version,
            settings,
        );
        best = consider(best, c, CompressMethod::ShuffleBlk);
        let s = shuffle::byte_shuffle(sample, 2);
        let c = blocked::deflate_blocked_encode_with_settings(
            s.as_slice(),
            window_size,
            block_size,
            version,
            settings,
        );
        best = consider(best, c, CompressMethod::Shuffle2Blk);
    }
    match best {
        Some((c, m)) => m,
        None => CompressMethod::Blocked,
    }
}

/// Codes `data` by the method that does best. `skip_shuffle` leaves the shuffled
/// methods out, as data of high entropy asks for.
pub fn smart_compress_with_settings(
    data: &[u8],
    window_size: usize,
    block_size: usize,
    version: u8,
    skip_shuffle: bool,
    settings: Settings,
) -> (r: Option<(Vec<u8>, CompressMethod)>)
    requires
        (Job {
            window: window_size as nat,
            block: block_size as nat,
            version,
            settings,
        }).allowed(data@.len()),
    ensures
        pair_of(r) == chosen(
            (Job {
                window: window_size as nat,
                block: block_size as nat,
                version,
                settings,
            }),
            data@,
            skip_shuffle,
        ),
{
    proof {
        reveal(chosen);
    }
    let n: usize = data.len();
    if n < 128 {
        return None;
    }
    if n >= PARALLEL_ONLY_THRESHOLD {
        let sample = &data[0..SAMPLE_SIZE];
        assert(sample@ =~= data@.take(SAMPLE_SIZE as int));
        let m = choose_by_sample(
            sample,
            window_size,
            block_size,
            version,
            skip_shuffle,
            settings,
        );
        match encode_by(data, m, window_size, block_size, version, settings) {
            Some(c) => Some((c, m)),
            None => None,
        }
    } else {
        let mut best: Option<(Vec<u8>, CompressMethod)> = None;
        let c = encode_by(
            data,
            CompressMethod::Plain,
            window_size,
            block_size,
            version,
            settings,
        );
        best = consider(best, c, CompressMethod::Plain);
        if !skip_shuffle {
            let c = encode_by(
                data,
                CompressMethod::Shuffle,
                window_size,
                block_size,
                version,
                settings,
            );
            best = consider(best, c, CompressMethod::Shuffle);
            let c = encode_by(
                data,
                CompressMethod::Shuffle2,
                window_size,
                block_size,
                version,
                settings,
            );
            best = consider(best, c, CompressMethod::Shuffle2);
        }
        if n >= block_size || n >= MAX_PLAIN_BLOCK_SIZE {
            let c = encode_by(
                data,
                CompressMethod::Blocked,
                window_size,
                block_size,
                version,
                settings,
            );
            best = consider(best, c, CompressMethod::Blocked);
        }
        if (n >= block_size || n >= MAX_SHUFFLE_BLOCK_SIZE) && !skip_shuffle {
            let c = encode_by(
                data,
                CompressMethod::ShuffleBlk,
                window_size,
                block_size,
                version,
                settings,
            );
            best = consider(best, c, CompressMethod::ShuffleBlk);
            let c = encode_by(
                data,
                CompressMethod::Shuffle2Blk,
                window_size,
                block_size,
                version,
                settings,
            );
            best = consider(best, c, CompressMethod::Shuffle2Blk);
        }
        best
    }
}

/// How data is coded with content-defined blocks and one worker.
pub open spec fn standard_job(window: nat, block: nat, version: u8) -> Job {
    Job { window, block, version, settings: blocked::standard_settings() }
}

/// Codes `data` by the method that does best, in the standard settings.
pub fn smart_compress_with_version(
    data: &[u8],
    window_size: usize,
    block_size: usize,
    version: u8,
    skip_shuffle: bool,
) -> (r: Option<(Vec<u8>, CompressMethod)>)
    requires
        standard_job(window_size as nat, block_size as nat, version).allowed(data@.len()),
    ensures
        pair_of(r) == chosen(
            standard_job(window_size as nat, block_size as nat, version),
            data@,
            skip_shuffle,
        ),
{
    smart_compress_with_settings(
        data,
        window_size,
        block_size,
        version,
        skip_shuffle,
        Settings::standard(),
    )
}

/// Codes `data` with a window of 64 KiB and blocks of 128 KiB.
pub fn smart_compress(data: &[u8], skip_shuffle: bool) -> (r: Option<(Vec<u8>, CompressMethod)>)
    ensures
        pair_of(r) == chosen(standard_job(65536, 131072, 2), data@, skip_shuffle),
{
    proof {
        lemma_cuttable_capped(131072);
    }
    smart_compress_with_version(data, 65536, 131072, 2, skip_shuffle)
}

/// Decodes what a method made of data of `expected_len` bytes.
pub fn smart_decompress_with_version(
    data: &[u8],
    method: CompressMethod,
    expected_len: usize,
    version: u8,
) -> (r: Result<Vec<u8>, String>)
    ensures
        match (r, undone(data@, method, expected_len as nat, version)) {
            (Ok(v), Ok(want)) => v@ == want,
            (Err(e), Err(m)) => e@ == m,
            _ => false,
        },
{
    proof {
        reveal(undone);
    }
    let in_blocks: bool = matches!(
        method,
        CompressMethod::Blocked | CompressMethod::ShuffleBlk | CompressMethod::Shuffle2Blk
    );
    let decoded = if in_blocks {
        blocked::deflate_blocked_decode_with_version(data, expected_len, version)
    } else {
        deflate::deflate_style_decode_with_version(data, expected_len, version)
    };
    match decoded {
        Err(e) => Err(e),
        Ok(v) => match method {
            CompressMethod::Plain => Ok(v),
            CompressMethod::Blocked => Ok(v),
            CompressMethod::Shuffle => Ok(shuffle::byte_unshuffle(v.as_slice(), 4)),
            CompressMethod::ShuffleBlk => Ok(shuffle::byte_unshuffle(v.as_slice(), 4)),
            CompressMethod::Shuffle2 => Ok(shuffle::byte_unshuffle(v.as_slice(), 2)),
            CompressMethod::Shuffle2Blk => Ok(shuffle::byte_unshuffle(v.as_slice(), 2)),
        },
    }
}

/// Decodes what a method made of data of `expected_len` bytes, in the current
/// version.
pub fn smart_decompress(data: &[u8], method: CompressMethod, expected_len: usize) -> (r: Result<
    Vec<u8>,
    String,
>)
    ensures
        match (r, undone(data@, method, expected_len as nat, 2)) {
            (Ok(v), Ok(want)) => v@ == want,
            (Err(e), Err(m)) => e@ == m,
            _ => false,
        },
{
    smart_decompress_with_version(data, method, expected_len, 2)
}

} // verus!
