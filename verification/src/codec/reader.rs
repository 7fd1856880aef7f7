//! A payload decoded piece by piece.
//!
//! The reader does no input of its own. It says how many bytes it wants next,
//! takes them in, and hands out what they stand for.

use crate::bytes;
use crate::codec::merge;
use crate::codec::merge::LaneJoiner;
use crate::codec::smart;
use crate::codec::smart::{CompressMethod, Job};
use crate::codec::stream;
use vstd::prelude::*;
use vstd::string::*;

verus! {

/// What a payload at the start of `input` stands for. A raw payload may end early.
pub open spec fn payload_rest(
    method: CompressMethod,
    stored: nat,
    orig: nat,
    raw: bool,
    version: u8,
    input: Seq<u8>,
) -> Result<Seq<u8>, Seq<char>> {
    if raw {
        Ok(input.take(merge::lesser(stored, input.len()) as int))
    } else {
        match method {
            CompressMethod::Blocked => stream::stream_rest(version, input),
            CompressMethod::ShuffleBlk => merge::shuffled_rest(4, orig, version, input),
            CompressMethod::Shuffle2Blk => merge::shuffled_rest(2, orig, version, input),
            _ => if input.len() < stored {
                Err(stream::cut_short())
            } else {
                smart::undone(input.take(stored as int), method, orig, version)
            },
        }
    }
}

/// What compressing gave is read back as the data, whatever follows it: what was coded as one
/// block, and blocks that were cut by content. Shuffled data in blocks is read by lanes, and has
/// laws of its own.
pub proof fn lemma_smart_rest(j: Job, data: Seq<u8>, skip_shuffle: bool, after: Seq<u8>)
    requires
        j.allowed(data.len()),
        data.len() <= usize::MAX,
        smart::chosen(j, data, skip_shuffle) is Some,
        ({
            let m = (smart::chosen(j, data, skip_shuffle)->0).1;
            &&& m is Plain || m is Blocked || m is Shuffle || m is Shuffle2
            &&& j.counts(data, m)
        }),
    ensures
        ({
            let (c, m) = smart::chosen(j, data, skip_shuffle)->0;
            payload_rest(m, c.len(), data.len(), false, j.version, c + after) == Ok::<
                Seq<u8>,
                Seq<char>,
            >(data)
        }),
{
    let (c, m) = smart::chosen(j, data, skip_shuffle)->0;
    smart::lemma_chosen(j, data, skip_shuffle);
    if m is Blocked {
        smart::lemma_blocks_fit(j, data, j.plain_block());
        stream::lemma_blocked_rest(
            data,
            j.window,
            j.plain_block(),
            j.version,
            j.settings,
            after,
        );
    } else {
        smart::lemma_coded_roundtrip(j, data, m);
        assert((c + after).take(c.len() as int) =~= c);
    }
}

/// Where the reader stands.
pub enum DecompressState {
    Uninitialized,
    /// So many bytes of a raw payload are still to come.
    Raw { remaining: u64 },
    /// Nothing is to come but what is in the buffer.
    Buffered,
    /// So many blocks are still to come.
    Blocked { left: u32 },
    ShuffleBlocked { lanes: LaneJoiner },
}

/// What the reader wants.
pub enum Want {
    /// That its buffer be emptied.
    Take,
    /// So many bytes.
    Exactly(u64),
    /// At least one byte, and no more than so many.
    AtMost(u64),
    /// Time to work.
    Work,
    Nothing,
}

pub struct DecompressReader {
    method: CompressMethod,
    stored_size: u64,
    orig_size: u64,
    version: u8,
    state: DecompressState,
    /// The header of the block that comes next, once it is known.
    held: Vec<u8>,
    buffer: Vec<u8>,
    buf_pos: usize,
}

impl DecompressReader {
    /// What the input to come stands for, from what is in the buffer on.
    pub closed spec fn rest(&self, input: Seq<u8>) -> Result<Seq<u8>, Seq<char>> {
        stream::behind(self.buffer@.skip(self.buf_pos as int), self.input_rest(self.held@ + input))
    }

    spec fn input_rest(&self, input: Seq<u8>) -> Result<Seq<u8>, Seq<char>> {
        match self.state {
            DecompressState::Uninitialized => payload_rest(
                self.method,
                self.stored_size as nat,
                self.orig_size as nat,
                false,
                self.version,
                input,
            ),
            DecompressState::Raw { remaining } => Ok(
                input.take(merge::lesser(remaining as nat, input.len()) as int),
            ),
            DecompressState::Buffered => Ok(Seq::empty()),
            DecompressState::Blocked { left } => stream::blocks_rest(
                left as nat,
                self.version,
                input,
            ),
            DecompressState::ShuffleBlocked { lanes } => merge::lanes_rest(lanes@, input),
        }
    }

    /// A block is wanted.
    spec fn wants_block(&self) -> bool {
        match self.state {
            DecompressState::Blocked { left } => left > 0,
            DecompressState::ShuffleBlocked { lanes } => lanes@.idx < lanes@.orig
                && lanes@.hungry(),
            _ => false,
        }
    }

    pub closed spec fn wf(&self) -> bool {
        &&& self.buf_pos <= self.buffer@.len()
        &&& self.orig_size <= usize::MAX
        &&& self.held@.len() == 0 || self.held@.len() == 10 && self.wants_block()
        &&& self.state matches DecompressState::ShuffleBlocked { lanes } ==> lanes.wf()
            && lanes@.version == self.version
    }

    /// The bytes in the buffer.
    pub closed spec fn pending(&self) -> Seq<u8> {
        self.buffer@.skip(self.buf_pos as int)
    }

    /// What the reader wants next.
    pub closed spec fn wish(&self) -> Want {
        if self.pending().len() > 0 {
            Want::Take
        } else {
            match self.state {
                DecompressState::Uninitialized => match self.method {
                    CompressMethod::Blocked => Want::Exactly(4),
                    CompressMethod::ShuffleBlk => Want::Exactly(4),
                    CompressMethod::Shuffle2Blk => Want::Exactly(4),
                    _ => Want::Exactly(self.stored_size),
                },
                DecompressState::Raw { remaining } => if remaining == 0 {
                    Want::Nothing
                } else {
                    Want::AtMost(remaining)
                },
                DecompressState::Buffered => Want::Nothing,
                _ => if self.wants_block() {
                    if self.held@.len() == 0 {
                        Want::Exactly(10)
                    } else {
                        Want::Exactly(bytes::u32_at(self.held@, 0) as u64)
                    }
                } else {
                    match self.state {
                        DecompressState::ShuffleBlocked { lanes } => if lanes@.idx >= lanes@.orig {
                            Want::Nothing
                        } else {
                            Want::Work
                        },
                        _ => Want::Nothing,
                    }
                },
            }
        }
    }

    pub fn new(
        method: CompressMethod,
        stored_size: u64,
        orig_size: u64,
        stored_raw: bool,
        version: u8,
    ) -> (r: Self)
        requires
            orig_size <= usize::MAX,
        ensures
            r.wf(),
            r.pending().len() == 0,
            forall|input: Seq<u8>|
                #[trigger] r.rest(input) == payload_rest(
                    method,
                    stored_size as nat,
                    orig_size as nat,
                    stored_raw,
                    version,
                    input,
                ),
    {
        let state = if stored_raw {
            DecompressState::Raw { remaining: stored_size }
        } else {
            DecompressState::Uninitialized
        };
        let r = DecompressReader {
            method,
            stored_size,
            orig_size,
            version,
            state,
            held: Vec::new(),
            buffer: Vec::new(),
            buf_pos: 0,
        };
        proof {
            assert forall|input: Seq<u8>| #[trigger] r.rest(input) == payload_rest(
                method,
                stored_size as nat,
                orig_size as nat,
                stored_raw,
                version,
                input,
            ) by {
                assert(r.held@ + input =~= input);
                lemma_behind_nothing(r.pending(), r.input_rest(input));
            }
        }
        r
    }

    /// Says what the reader wants next.
    pub fn want(&self) -> (r: Want)
        requires
            self.wf(),
        ensures
            r == self.wish(),
    {
        if self.buf_pos < self.buffer.len() {
            return Want::Take;
        }
        match &self.state {
            DecompressState::Uninitialized => match self.method {
                CompressMethod::Blocked => Want::Exactly(4),
                CompressMethod::ShuffleBlk => Want::Exactly(4),
                CompressMethod::Shuffle2Blk => Want::Exactly(4),
                _ => Want::Exactly(self.stored_size),
            },
            DecompressState::Raw { remaining } => if *remaining == 0 {
                Want::Nothing
            } else {
                Want::AtMost(*remaining)
            },
            DecompressState::Buffered => Want::Nothing,
            DecompressState::Blocked { left } => if *left == 0 {
                Want::Nothing
            } else {
                self.want_block()
            },
            DecompressState::ShuffleBlocked { lanes } => if lanes.done() {
                Want::Nothing
            } else if lanes.hungry() {
                self.want_block()
            } else {
                Want::Work
            },
        }
    }

    fn want_block(&self) -> (r: Want)
        requires
            self.held@.len() == 0 || self.held@.len() == 10,
        ensures
            r == if self.held@.len() == 0 {
                Want::Exactly(10)
            } else {
                Want::Exactly(bytes::u32_at(self.held@, 0) as u64)
            },
    {
        if self.held.len() == 0 {
            Want::Exactly(10)
        } else {
            Want::Exactly(stream::stored_len(self.held.as_slice()) as u64)
        }
    }

    /// The number of bytes in the buffer.
    pub fn pending_len(&self) -> (n: usize)
        requires
            self.wf(),
        ensures
            n == self.pending().len(),
            self.wish() is Take <==> n > 0,
    {
        self.buffer.len() - self.buf_pos
    }

    /// Hands out up to `n` bytes of the buffer.
    pub fn take(&mut self, n: usize) -> (out: Vec<u8>)
        requires
            old(self).wf(),
        ensures
            final(self).wf(),
            out@ == old(self).pending().take(merge::lesser(n as nat, old(self).pending().len()) as int),
            final(self).pending() == old(self).pending().skip(out@.len() as int),
            out@.len() > 0 && final(self).pending().len() == 0 ==> less(
                final(self).effort(),
                old(self).effort(),
            ),
            forall|input: Seq<u8>|
                old(self).rest(input) == stream::behind(out@, #[trigger] final(self).rest(input)),
    {
        let ghost before = *self;
        let left: usize = self.buffer.len() - self.buf_pos;
        let count: usize = if n <= left {
            n
        } else {
            left
        };
        let mut out: Vec<u8> = Vec::new();
        let piece = &self.buffer.as_slice()[self.buf_pos..self.buf_pos + count];
        out.extend_from_slice(piece);
        assert(out@ =~= piece@);
        assert(out@ =~= before.pending().take(count as int));
        self.buf_pos = self.buf_pos + count;
        proof {
            assert(self.pending() =~= before.pending().skip(count as int));
            assert forall|input: Seq<u8>| before.rest(input) == stream::behind(
                out@,
                #[trigger] self.rest(input),
            ) by {
                if self.input_rest(self.held@ + input) is Ok {
                    let v = self.input_rest(self.held@ + input)->Ok_0;
                    assert(before.pending() + v =~= out@ + (self.pending() + v));
                }
            }
        }
        out
    }

    /// Where nothing is wanted, nothing more comes.
    pub proof fn lemma_finished(&self, input: Seq<u8>)
        requires
            self.wf(),
            self.wish() is Nothing,
        ensures
            self.rest(input) == Ok::<Seq<u8>, Seq<char>>(Seq::empty()),
    {
        assert(self.held@ + input =~= input);
        lemma_behind_nothing(self.pending(), self.input_rest(input));
        if let DecompressState::Raw { remaining } = self.state {
            assert(input.take(0) =~= Seq::empty());
        }
    }

    /// Where bytes are wanted and there are too few, the payload is cut short. A raw payload ends
    /// there.
    pub proof fn lemma_starved(&self, input: Seq<u8>)
        requires
            self.wf(),
            match self.wish() {
                Want::Exactly(n) => input.len() < n,
                Want::AtMost(n) => input.len() == 0,
                _ => false,
            },
        ensures
            self.rest(input) == if self.wish() is AtMost {
                Ok::<Seq<u8>, Seq<char>>(Seq::empty())
            } else {
                Err(stream::cut_short())
            },
    {
        let all = self.held@ + input;
        lemma_behind_nothing(self.pending(), self.input_rest(all));
        if self.held@.len() == 0 {
            assert(all =~= input);
            if self.wish() is AtMost {
                assert(input =~= Seq::empty());
                assert(input.take(0) =~= Seq::empty());
            }
        } else {
            assert(bytes::u32_at(all, 0) == bytes::u32_at(self.held@, 0));
        }
    }

    /// How far the reader still has to go.
    pub closed spec fn effort(&self) -> (nat, nat, nat, nat, nat) {
        let start: nat = if self.state is Uninitialized {
            1
        } else {
            0
        };
        let blocks: nat = match self.state {
            DecompressState::Blocked { left } => left as nat,
            DecompressState::ShuffleBlocked { lanes } => lanes@.left,
            _ => 0,
        };
        let head: nat = if self.held@.len() == 0 {
            1
        } else {
            0
        };
        let amount: nat = match self.state {
            DecompressState::Raw { remaining } => remaining as nat,
            DecompressState::ShuffleBlocked { lanes } => lanes@.to_do(),
            _ => 0,
        };
        let pending: nat = if self.pending().len() > 0 {
            1
        } else {
            0
        };
        (start, blocks, head, amount, pending)
    }

    /// Takes in the bytes that were wanted.
    pub fn feed(&mut self, input: Vec<u8>) -> (r: Result<(), String>)
        requires
            old(self).wf(),
            match old(self).wish() {
                Want::Exactly(n) => input@.len() == n,
                Want::AtMost(n) => 1 <= input@.len() <= n,
                _ => false,
            },
        ensures
            match r {
                Ok(_) => final(self).wf() && less(final(self).effort(), old(self).effort())
                    && forall|more: Seq<u8>|
                    old(self).rest(input@ + more) == #[trigger] final(self).rest(more),
                Err(e) => forall|more: Seq<u8>|
                    #[trigger] old(self).rest(input@ + more) == Err::<Seq<u8>, Seq<char>>(e@),
            },
    {
        let ghost before = *self;
        let mut state = DecompressState::Buffered;
        std::mem::swap(&mut state, &mut self.state);
        match state {
            DecompressState::Uninitialized => self.start(input, Ghost(before)),
            DecompressState::Raw { remaining } => {
                let n: usize = input.len();
                self.state = DecompressState::Raw { remaining: remaining - n as u64 };
                let ghost given = input@;
                self.buffer = input;
                self.buf_pos = 0;
                proof {
                    assert forall|more: Seq<u8>| before.rest(given + more) == #[trigger] self.rest(
                        more,
                    ) by {
                        assert(before.held@ + (given + more) =~= given + more);
                        assert(self.held@ + more =~= more);
                        lemma_behind_nothing(before.pending(), before.input_rest(given + more));
                        let k = merge::lesser(remaining as nat, (given + more).len()) as int;
                        let k2 = merge::lesser((remaining - n) as nat, more.len()) as int;
                        assert(self.pending() =~= given);
                        assert((given + more).take(k) =~= given + more.take(k2));
                    }
                }
                Ok(())
            },
            DecompressState::Buffered => Ok(()),
            DecompressState::Blocked { left } => {
                if self.held.len() == 0 {
                    self.state = DecompressState::Blocked { left };
                    self.held = input;
                    proof {
                        lemma_header_held(before, *self, input@);
                    }
                    return Ok(());
                }
                let ghost given = input@;
                match self.open_held(input) {
                    Err(e) => {
                        proof {
                            assert forall|more: Seq<u8>| #[trigger] before.rest(given + more)
                                == Err::<Seq<u8>, Seq<char>>(e@) by {
                                lemma_block_held(before.held@, given, more, before.version);
                                assert(before.held@ + (given + more) =~= before.held@ + given
                                    + more);
                            }
                        }
                        Err(e)
                    },
                    Ok(v) => {
                        if v.len() > 0 {
                            self.state = DecompressState::Blocked { left: left - 1 };
                        } else {
                            self.state = DecompressState::Buffered;
                        }
                        let ghost piece = v@;
                        self.held = Vec::new();
                        self.buffer = v;
                        self.buf_pos = 0;
                        proof {
                            assert forall|more: Seq<u8>| before.rest(given + more)
                                == #[trigger] self.rest(more) by {
                                lemma_block_held(before.held@, given, more, before.version);
                                assert(before.held@ + (given + more) =~= before.held@ + given
                                    + more);
                                assert(self.held@ + more =~= more);
                                lemma_behind_nothing(
                                    before.pending(),
                                    before.input_rest(before.held@ + given + more),
                                );
                                assert(self.pending() =~= piece);
                                lemma_behind_nothing(Seq::empty(), self.input_rest(more));
                            }
                        }
                        Ok(())
                    },
                }
            },
            DecompressState::ShuffleBlocked { lanes } => {
                if self.held.len() == 0 {
                    self.state = DecompressState::ShuffleBlocked { lanes };
                    self.held = input;
                    proof {
                        lemma_header_held(before, *self, input@);
                    }
                    return Ok(());
                }
                let ghost given = input@;
                let lane: usize = self.held[9] as usize;
                match self.open_held(input) {
                    Err(e) => {
                        proof {
                            assert forall|more: Seq<u8>| #[trigger] before.rest(given + more)
                                == Err::<Seq<u8>, Seq<char>>(e@) by {
                                lemma_block_held(before.held@, given, more, before.version);
                                assert(before.held@ + (given + more) =~= before.held@ + given
                                    + more);
                            }
                        }
                        Err(e)
                    },
                    Ok(v) => {
                        let mut lanes = lanes;
                        lanes.feed(lane, v);
                        self.state = DecompressState::ShuffleBlocked { lanes };
                        self.held = Vec::new();
                        proof {
                            assert forall|more: Seq<u8>| before.rest(given + more)
                                == #[trigger] self.rest(more) by {
                                lemma_block_held(before.held@, given, more, before.version);
                                assert(before.held@ + (given + more) =~= before.held@ + given
                                    + more);
                                assert(self.held@ + more =~= more);
                            }
                        }
                        Ok(())
                    },
                }
            },
        }
    }

    /// Decodes the block behind the header that is held.
    fn open_held(&self, body: Vec<u8>) -> (r: Result<Vec<u8>, String>)
        requires
            self.held@.len() == 10,
        ensures
            match (
                r,
                stream::unpacked(
                    body@,
                    bytes::u32_at(self.held@, 4),
                    self.held@[8],
                    self.version,
                ),
            ) {
                (Ok(v), Ok(want)) => v@ == want,
                (Err(e), Err(m)) => e@ == m,
                _ => false,
            },
    {
        stream::open_block(self.held.as_slice(), body, self.version)
    }

    /// Takes in the whole payload, or the number of its blocks.
    fn start(&mut self, input: Vec<u8>, before: Ghost<DecompressReader>) -> (r: Result<(), String>)
        requires
            before@.wf(),
            before@.state is Uninitialized,
            before@.pending().len() == 0,
            before@.wish() == Want::Exactly(input@.len() as u64),
            *old(self) == (DecompressReader { state: DecompressState::Buffered, ..before@ }),
        ensures
            match r {
                Ok(_) => final(self).wf() && final(self).effort().0 == 0 && forall|more: Seq<u8>|
                    before@.rest(input@ + more) == #[trigger] final(self).rest(more),
                Err(e) => forall|more: Seq<u8>|
                    #[trigger] before@.rest(input@ + more) == Err::<Seq<u8>, Seq<char>>(e@),
            },
    {
        let ghost given = input@;
        let stride: usize;
        match self.method {
            CompressMethod::Blocked => {
                let left: u32 = bytes::get_u32(input.as_slice(), 0);
                self.state = DecompressState::Blocked { left };
                proof {
                    assert forall|more: Seq<u8>| before@.rest(given + more) == #[trigger] self.rest(
                        more,
                    ) by {
                        assert(before@.held@ + (given + more) =~= given + more);
                        assert(self.held@ + more =~= more);
                        assert((given + more).skip(4) =~= more);
                        assert(bytes::u32_at(given + more, 0) == bytes::u32_at(given, 0));
                    }
                }
                return Ok(());
            },
            CompressMethod::ShuffleBlk => {
                stride = 4;
            },
            CompressMethod::Shuffle2Blk => {
                stride = 2;
            },
            _ => {
                return match smart::smart_decompress_with_version(
                    input.as_slice(),
                    self.method,
                    self.orig_size as usize,
                    self.version,
                ) {
                    Err(e) => {
                        proof {
                            assert forall|more: Seq<u8>| #[trigger] before@.rest(given + more)
                                == Err::<Seq<u8>, Seq<char>>(e@) by {
                                assert(before@.held@ + (given + more) =~= given + more);
                                assert((given + more).take(given.len() as int) =~= given);
                            }
                        }
                        Err(e)
                    },
                    Ok(v) => {
                        let ghost piece = v@;
                        self.buffer = v;
                        self.buf_pos = 0;
                        proof {
                            assert forall|more: Seq<u8>| before@.rest(given + more)
                                == #[trigger] self.rest(more) by {
                                assert(before@.held@ + (given + more) =~= given + more);
                                assert((given + more).take(given.len() as int) =~= given);
                                assert(self.pending() =~= piece);
                                assert(before@.pending() + piece =~= piece);
                                assert(piece + Seq::<u8>::empty() =~= piece);
                            }
                        }
                        Ok(())
                    },
                };
            },
        }
        let left: u32 = bytes::get_u32(input.as_slice(), 0);
        let lanes = LaneJoiner::new(stride, self.orig_size, self.version, left);
        self.state = DecompressState::ShuffleBlocked { lanes };
        proof {
            assert forall|more: Seq<u8>| before@.rest(given + more) == #[trigger] self.rest(
                more,
            ) by {
                assert(before@.held@ + (given + more) =~= given + more);
                assert(self.held@ + more =~= more);
                assert((given + more).skip(4) =~= more);
                assert(bytes::u32_at(given + more, 0) == bytes::u32_at(given, 0));
            }
        }
        Ok(())
    }

    /// Puts the next piece together from blocks that are there.
    pub fn work(&mut self) -> (r: Result<(), String>)
        requires
            old(self).wf(),
            old(self).wish() is Work,
        ensures
            match r {
                Ok(_) => final(self).wf() && less(final(self).effort(), old(self).effort())
                    && forall|more: Seq<u8>|
                    old(self).rest(more) == #[trigger] final(self).rest(more),
                Err(e) => forall|more: Seq<u8>|
                    #[trigger] old(self).rest(more) == Err::<Seq<u8>, Seq<char>>(e@),
            },
    {
        let ghost before = *self;
        let mut state = DecompressState::Buffered;
        std::mem::swap(&mut state, &mut self.state);
        match state {
            DecompressState::ShuffleBlocked { lanes } => {
                let mut lanes = lanes;
                match lanes.next_piece() {
                    None => {
                        proof {
                            assert forall|more: Seq<u8>| #[trigger] before.rest(more) == Err::<
                                Seq<u8>,
                                Seq<char>,
                            >(merge::lane_missing()) by {
                                assert(before.held@ + more =~= more);
                            }
                        }
                        Err("shuffled stream: lane data missing".to_string())
                    },
                    Some(v) => {
                        if v.len() > 0 {
                            self.state = DecompressState::ShuffleBlocked { lanes };
                        }
                        let ghost piece = v@;
                        self.buffer = v;
                        self.buf_pos = 0;
                        proof {
                            assert forall|more: Seq<u8>| before.rest(more) == #[trigger] self.rest(
                                more,
                            ) by {
                                assert(before.held@ + more =~= more);
                                assert(self.held@ + more =~= more);
                                lemma_behind_nothing(before.pending(), before.input_rest(more));
                                assert(self.pending() =~= piece);
                                if piece.len() == 0 {
                                    lemma_behind_nothing(piece, self.input_rest(more));
                                }
                            }
                        }
                        Ok(())
                    },
                }
            },
            _ => Ok(()),
        }
    }
}

/// One measure comes before the other, the first numbers first.
pub open spec fn less(a: (nat, nat, nat, nat, nat), b: (nat, nat, nat, nat, nat)) -> bool {
    ||| a.0 < b.0
    ||| a.0 == b.0 && a.1 < b.1
    ||| a.0 == b.0 && a.1 == b.1 && a.2 < b.2
    ||| a.0 == b.0 && a.1 == b.1 && a.2 == b.2 && a.3 < b.3
    ||| a.0 == b.0 && a.1 == b.1 && a.2 == b.2 && a.3 == b.3 && a.4 < b.4
}

/// A header that is held stands in front of what comes.
proof fn lemma_header_held(before: DecompressReader, now: DecompressReader, given: Seq<u8>)
    requires
        before.held@.len() == 0,
        now.held@ == given,
        now.buffer == before.buffer,
        now.buf_pos == before.buf_pos,
        now.state == before.state,
        now.version == before.version,
        !(now.state is Uninitialized),
    ensures
        forall|more: Seq<u8>| before.rest(given + more) == #[trigger] now.rest(more),
{
    assert forall|more: Seq<u8>| before.rest(given + more) == #[trigger] now.rest(more) by {
        assert(before.held@ + (given + more) =~= now.held@ + more);
        assert(before.input_rest(given + more) == now.input_rest(given + more));
    }
}

/// A header and the body that it asks for are a block.
proof fn lemma_block_held(head: Seq<u8>, body: Seq<u8>, more: Seq<u8>, version: u8)
    requires
        head.len() == 10,
        body.len() == bytes::u32_at(head, 0),
    ensures
        ({
            let all = head + body + more;
            &&& stream::block_at(all, version) == match stream::unpacked(
                body,
                bytes::u32_at(head, 4),
                head[8],
                version,
            ) {
                Err(e) => Err::<stream::Piece, Seq<char>>(e),
                Ok(data) => Ok(
                    (stream::Piece { lane: head[9] as nat, data, used: 10 + body.len() }),
                ),
            }
            &&& all.skip(10 + body.len() as int) == more
        }),
{
    let all = head + body + more;
    assert(bytes::u32_at(all, 0) == bytes::u32_at(head, 0));
    assert(bytes::u32_at(all, 4) == bytes::u32_at(head, 4));
    assert(all.subrange(10, 10 + body.len() as int) =~= body);
    assert(all.skip(10 + body.len() as int) =~= more);
}

proof fn lemma_behind_nothing(head: Seq<u8>, r: Result<Seq<u8>, Seq<char>>)
    requires
        head.len() == 0,
    ensures
        stream::behind(head, r) == r,
{
    if r is Ok {
        assert(head + r->Ok_0 =~= r->Ok_0);
    }
}

/// Decodes the payload at the start of `input`, piece by piece.
#[verifier::rlimit(60)]
pub fn read_payload(
    method: CompressMethod,
    stored_size: u64,
    orig_size: u64,
    stored_raw: bool,
    version: u8,
    input: &[u8],
) -> (r: Result<Vec<u8>, String>)
    requires
        orig_size <= usize::MAX,
    ensures
        match (
            r,
            payload_rest(
                method,
                stored_size as nat,
                orig_size as nat,
                stored_raw,
                version,
                input@,
            ),
        ) {
            (Ok(v), Ok(want)) => v@ == want,
            (Err(e), Err(m)) => e@ == m,
            _ => false,
        },
{
    let ghost want = payload_rest(
        method,
        stored_size as nat,
        orig_size as nat,
        stored_raw,
        version,
        input@,
    );
    let mut reader = DecompressReader::new(method, stored_size, orig_size, stored_raw, version);
    let total: usize = input.len();
    let mut pos: usize = 0;
    let mut out: Vec<u8> = Vec::new();
    proof {
        assert(input@.skip(0) =~= input@);
        lemma_behind_nothing(out@, reader.rest(input@));
    }
    loop
        invariant
            reader.wf(),
            total == input@.len(),
            pos <= total,
            want == stream::behind(out@, reader.rest(input@.skip(pos as int))),
            want == payload_rest(
                method,
                stored_size as nat,
                orig_size as nat,
                stored_raw,
                version,
                input@,
            ),
        decreases
                reader.effort().0,
                reader.effort().1,
                reader.effort().2,
                reader.effort().3,
                reader.effort().4,
    {
        let ghost rest = input@.skip(pos as int);
        let left: usize = total - pos;
        let n: usize;
        match reader.want() {
            Want::Take => {
                let held: usize = reader.pending_len();
                let mut piece = reader.take(held);
                proof {
                    lemma_taken(out@, piece@, reader.rest(rest));
                }
                out.append(&mut piece);
                continue;
            },
            Want::Work => {
                match reader.work() {
                    Err(e) => {
                        return Err(e);
                    },
                    Ok(_) => {},
                }
                continue;
            },
            Want::Nothing => {
                proof {
                    reader.lemma_finished(rest);
                    assert(out@ + Seq::<u8>::empty() =~= out@);
                }
                return Ok(out);
            },
            Want::Exactly(k) => {
                if (left as u64) < k {
                    proof {
                        reader.lemma_starved(rest);
                    }
                    return Err("failed to fill whole buffer".to_string());
                }
                n = k as usize;
            },
            Want::AtMost(k) => {
                if left == 0 {
                    proof {
                        reader.lemma_starved(rest);
                        assert(out@ + Seq::<u8>::empty() =~= out@);
                    }
                    return Ok(out);
                }
                n = if (left as u64) < k {
                    left
                } else {
                    k as usize
                };
            },
        }
        let mut piece: Vec<u8> = Vec::new();
        let part = &input[pos..pos + n];
        piece.extend_from_slice(part);
        assert(piece@ =~= rest.take(n as int));
        assert(piece@ + input@.skip(pos + n) =~= rest);
        match reader.feed(piece) {
            Err(e) => {
                return Err(e);
            },
            Ok(_) => {},
        }
        pos = pos + n;
    }
}

proof fn lemma_taken(out: Seq<u8>, piece: Seq<u8>, r: Result<Seq<u8>, Seq<char>>)
    ensures
        stream::behind(out, stream::behind(piece, r)) == stream::behind(out + piece, r),
{
    if r is Ok {
        assert(out + (piece + r->Ok_0) =~= out + piece + r->Ok_0);
    }
}

} // verus!
