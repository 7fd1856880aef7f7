//! Lanes put together again as their blocks come in.

use crate::bytes;
use crate::codec::shuffle;
use crate::codec::stream;
use vstd::prelude::*;
use vstd::string::*;

verus! {

/// The sums of the bytes up to each.
pub open spec fn summed(data: Seq<u8>) -> Seq<u8> {
    Seq::new(data.len(), |i: int| shuffle::running(data, 0, i as nat))
}

/// A block as its lane keeps it: from version 3 on each block is summed up on its own.
pub open spec fn shown(version: u8, data: Seq<u8>) -> Seq<u8> {
    if version >= 3 {
        summed(data)
    } else {
        data
    }
}

/// What is said of lanes that do not have what they should.
pub open spec fn lane_missing() -> Seq<char> {
    "shuffled stream: lane data missing"@
}

pub open spec fn lesser(a: nat, b: nat) -> nat {
    if a <= b {
        a
    } else {
        b
    }
}

/// Lanes while a stream is read.
pub struct Lanes {
    pub stride: nat,
    /// The size of the data.
    pub orig: nat,
    pub version: u8,
    /// The byte that each lane gave last.
    pub prev: Seq<u8>,
    /// The blocks that each lane has.
    pub queues: Seq<Seq<Seq<u8>>>,
    /// How many blocks are still to come.
    pub left: nat,
    /// How many bytes are done.
    pub idx: nat,
}

/// Lanes without blocks.
pub open spec fn no_lanes(stride: nat, orig: nat, version: u8, count: nat) -> Lanes {
    Lanes {
        stride,
        orig,
        version,
        prev: Seq::new(stride, |s: int| 0u8),
        queues: Seq::new(stride, |s: int| Seq::empty()),
        left: count,
        idx: 0,
    }
}

impl Lanes {
    pub open spec fn wf(self) -> bool {
        &&& self.stride >= 1
        &&& self.prev.len() == self.stride
        &&& self.queues.len() == self.stride
    }

    pub open spec fn groups(self) -> nat {
        self.orig / self.stride
    }

    /// How many bytes are not done.
    pub open spec fn to_do(self) -> nat {
        if self.idx < self.orig {
            (self.orig - self.idx) as nat
        } else {
            0
        }
    }

    /// Some lane has no block.
    pub open spec fn lacking(self) -> bool {
        exists|s: int| 0 <= s < self.stride && (#[trigger] self.queues[s]).len() == 0
    }

    pub open spec fn hungry(self) -> bool {
        self.left > 0 && self.lacking()
    }

    /// With one more block.
    pub open spec fn fed(self, lane: nat, data: Seq<u8>) -> Lanes {
        let s = lesser(lane, (self.stride - 1) as nat) as int;
        Lanes {
            queues: self.queues.update(s, self.queues[s].push(shown(self.version, data))),
            left: (self.left - 1) as nat,
            ..self
        }
    }

    /// The byte of lane `s` in the `g`-th group from here.
    pub open spec fn value(self, s: int, g: nat) -> u8 {
        if self.version >= 3 {
            self.queues[s][0][g as int]
        } else {
            ((self.prev[s] + shuffle::running(self.queues[s][0], 0, g)) % 256) as u8
        }
    }

    /// The next `count` groups.
    pub open spec fn joined(self, count: nat) -> Seq<u8> {
        Seq::new(
            count * self.stride,
            |i: int| self.value(i % (self.stride as int), (i / (self.stride as int)) as nat),
        )
    }

    /// What lane `s` has after `count` groups: its first block is done. Behind the last group the
    /// last lane keeps what its block still holds, for the rest of the data starts there.
    pub open spec fn queue_after(self, s: int, count: nat) -> Seq<Seq<u8>> {
        let first = self.queues[s][0];
        let rest = self.queues[s].skip(1);
        if s + 1 == self.stride && self.idx / self.stride + count == self.groups() && first.len()
            > count {
            seq![first.skip(count as int)] + rest
        } else {
            rest
        }
    }

    pub open spec fn after(self, count: nat) -> Lanes {
        Lanes {
            idx: self.idx + count * self.stride,
            prev: if self.version >= 3 || count == 0 {
                self.prev
            } else {
                Seq::new(self.stride, |s: int| self.value(s, (count - 1) as nat))
            },
            queues: Seq::new(self.stride, |s: int| self.queue_after(s, count)),
            ..self
        }
    }

    /// How many groups the first blocks give.
    pub open spec fn count(self) -> nat {
        lesser(self.queues[0][0].len(), (self.groups() - self.idx / self.stride) as nat)
    }

    /// Some lane's first block has fewer bytes than that.
    pub open spec fn short(self) -> bool {
        exists|s: int|
            0 <= s < self.stride && (#[trigger] self.queues[s])[0].len() < self.count()
    }

    /// The next piece of the data, and the lanes behind it.
    pub open spec fn piece(self) -> Option<(Seq<u8>, Lanes)> {
        if self.idx < self.stride * self.groups() {
            if self.lacking() || self.short() {
                None
            } else {
                Some((self.joined(self.count()), self.after(self.count())))
            }
        } else {
            let last = self.stride - 1;
            if self.queues[last].len() == 0 {
                None
            } else {
                let first = self.queues[last][0];
                let n = lesser((self.orig - self.idx) as nat, first.len());
                Some(
                    (
                        first.take(n as int),
                        Lanes {
                            idx: self.idx + n,
                            queues: self.queues.update(last, self.queues[last].skip(1)),
                            ..self
                        },
                    ),
                )
            }
        }
    }
}

/// What lanes and the blocks to come stand for. A piece without bytes is the end.
pub open spec fn lanes_rest(st: Lanes, input: Seq<u8>) -> Result<Seq<u8>, Seq<char>>
    decreases st.left, st.to_do(),
{
    if st.idx >= st.orig {
        Ok(Seq::empty())
    } else if st.hungry() {
        match stream::block_at(input, st.version) {
            Err(e) => Err(e),
            Ok(p) => lanes_rest(st.fed(p.lane, p.data), input.skip(p.used as int)),
        }
    } else {
        match st.piece() {
            None => Err(lane_missing()),
            Some((data, next)) => if data.len() == 0 {
                Ok(Seq::empty())
            } else {
                stream::behind(data, lanes_rest(next, input))
            },
        }
    }
}

/// What a stream of shuffled blocks stands for.
pub open spec fn shuffled_rest(stride: nat, orig: nat, version: u8, input: Seq<u8>) -> Result<
    Seq<u8>,
    Seq<char>,
> {
    if input.len() < 4 {
        Err(stream::cut_short())
    } else {
        lanes_rest(no_lanes(stride, orig, version, bytes::u32_at(input, 0)), input.skip(4))
    }
}

// ---- the computation ----

/// The blocks in the queues.
pub open spec fn queued(v: Seq<Vec<Vec<u8>>>) -> Seq<Seq<Seq<u8>>> {
    Seq::new(v.len(), |s: int| Seq::new(v[s]@.len(), |k: int| v[s]@[k]@))
}

/// Lanes while a stream is read.
pub struct LaneJoiner {
    stride: usize,
    orig_size: u64,
    version: u8,
    prev_byte: Vec<u8>,
    active_blocks: Vec<Vec<Vec<u8>>>,
    left: u32,
    current_idx: u64,
}

/// The first `n` bytes of the groups to come.
spec fn upto(st: Lanes, n: nat) -> Seq<u8> {
    Seq::new(
        n,
        |i: int| st.value(i % (st.stride as int), (i / (st.stride as int)) as nat),
    )
}

/// The bytes that the lanes gave last where group `g` is done up to lane `s`.
spec fn carried(st: Lanes, g: nat, s: nat) -> Seq<u8> {
    Seq::new(
        st.stride,
        |k: int|
            if st.version >= 3 {
                st.prev[k]
            } else if k < s {
                st.value(k, g)
            } else if g == 0 {
                st.prev[k]
            } else {
                st.value(k, (g - 1) as nat)
            },
    )
}

/// A byte is the one before it in its lane and the difference.
proof fn lemma_value_step(st: Lanes, s: int, g: nat)
    requires
        st.version < 3,
    ensures
        ({
            let before = if g == 0 {
                st.prev[s]
            } else {
                st.value(s, (g - 1) as nat)
            };
            st.value(s, g) == ((before + st.queues[s][0][g as int]) % 256) as u8
        }),
{
    let f = st.queues[s][0];
    let x = f[g as int] as int;
    let p = st.prev[s] as int;
    if g > 0 {
        let r = shuffle::running(f, 0, (g - 1) as nat) as int;
        assert(shuffle::running(f, 0, g) == (r + x) % 256);
        lemma_sum_mod(p, r, x);
    }
}

proof fn lemma_sum_mod(p: int, r: int, x: int)
    requires
        0 <= p < 256,
        0 <= x < 256,
    ensures
        (p + (r + x) % 256) % 256 == ((p + r) % 256 + x) % 256,
{
    vstd::arithmetic::div_mod::lemma_add_mod_noop(p, r + x, 256);
    vstd::arithmetic::div_mod::lemma_add_mod_noop(p + r, x, 256);
}

proof fn lemma_upto(st: Lanes, g: nat, s: nat)
    requires
        s < st.stride,
    ensures
        upto(st, g * st.stride + s + 1) == upto(st, g * st.stride + s).push(
            st.value(s as int, g),
        ),
{
    let i = (g * st.stride + s) as int;
    vstd::arithmetic::div_mod::lemma_fundamental_div_mod_converse(
        i,
        st.stride as int,
        g as int,
        s as int,
    );
    assert(upto(st, (i + 1) as nat) =~= upto(st, i as nat).push(st.value(s as int, g)));
}

/// Sums up a block in place.
fn sum_up(data: &mut Vec<u8>)
    ensures
        final(data)@ == summed(old(data)@),
{
    let ghost d = data@;
    let n: usize = data.len();
    let mut p: u8 = 0;
    let mut i: usize = 0;
    while i < n
        invariant
            i <= n,
            n == d.len(),
            data@.len() == n,
            forall|k: int| 0 <= k < i ==> (#[trigger] data@[k]) == summed(d)[k],
            forall|k: int| i <= k < n ==> (#[trigger] data@[k]) == d[k],
            i > 0 ==> p == shuffle::running(d, 0, (i - 1) as nat),
            i == 0 ==> p == 0,
        decreases n - i,
    {
        let val: u8 = data[i].wrapping_add(p);
        assert(val == shuffle::running(d, 0, i as nat));
        data.set(i, val);
        p = val;
        i += 1;
    }
    assert(data@ =~= summed(d));
}

impl LaneJoiner {
    pub closed spec fn view(&self) -> Lanes {
        Lanes {
            stride: self.stride as nat,
            orig: self.orig_size as nat,
            version: self.version,
            prev: self.prev_byte@,
            queues: queued(self.active_blocks@),
            left: self.left as nat,
            idx: self.current_idx as nat,
        }
    }

    pub closed spec fn wf(&self) -> bool {
        &&& self@.wf()
        &&& self.current_idx <= self.orig_size
        &&& self@.idx < self@.stride * self@.groups() ==> self@.idx % self@.stride == 0
    }

    /// Lanes without blocks.
    pub fn new(stride: usize, orig_size: u64, version: u8, num_blocks: u32) -> (r: Self)
        requires
            stride >= 1,
        ensures
            r.wf(),
            r@ == no_lanes(stride as nat, orig_size as nat, version, num_blocks as nat),
    {
        let mut active_blocks: Vec<Vec<Vec<u8>>> = Vec::new();
        let mut s: usize = 0;
        while s < stride
            invariant
                s <= stride,
                active_blocks@.len() == s,
                forall|k: int| 0 <= k < s ==> (#[trigger] active_blocks@[k])@.len() == 0,
            decreases stride - s,
        {
            active_blocks.push(Vec::new());
            s += 1;
        }
        let prev_byte: Vec<u8> = vec![0; stride];
        let r = LaneJoiner {
            stride,
            orig_size,
            version,
            prev_byte,
            active_blocks,
            left: num_blocks,
            current_idx: 0,
        };
        proof {
            let want = no_lanes(stride as nat, orig_size as nat, version, num_blocks as nat);
            assert(r@.prev =~= want.prev);
            assert forall|k: int| 0 <= k < stride implies r@.queues[k] == want.queues[k] by {
                assert(active_blocks@[k]@.len() == 0);
                assert(r@.queues[k] =~= want.queues[k]);
            }
            assert(r@.queues =~= want.queues);
            vstd::arithmetic::div_mod::lemma_small_mod(0, stride as nat);
        }
        r
    }

    /// All of the data is done.
    pub fn done(&self) -> (r: bool)
        ensures
            r == (self@.idx >= self@.orig),
    {
        self.current_idx >= self.orig_size
    }

    fn lacks(&self) -> (r: bool)
        requires
            self.wf(),
        ensures
            r == self@.lacking(),
    {
        let mut s: usize = 0;
        while s < self.stride
            invariant
                self.wf(),
                s <= self.stride,
                self.active_blocks@.len() == self.stride,
                forall|k: int| 0 <= k < s ==> (#[trigger] self@.queues[k]).len() != 0,
            decreases self.stride - s,
        {
            assert(self@.queues[s as int].len() == self.active_blocks@[s as int]@.len());
            if self.active_blocks[s].len() == 0 {
                return true;
            }
            s += 1;
        }
        false
    }

    /// A block is needed before the data can go on.
    pub fn hungry(&self) -> (r: bool)
        requires
            self.wf(),
        ensures
            r == self@.hungry(),
    {
        self.left > 0 && self.lacks()
    }

    /// Takes in a block.
    pub fn feed(&mut self, lane: usize, data: Vec<u8>)
        requires
            old(self).wf(),
            old(self)@.left > 0,
        ensures
            final(self).wf(),
            final(self)@ == old(self)@.fed(lane as nat, data@),
    {
        let ghost st = self@;
        let ghost q0 = self.active_blocks@;
        let s: usize = if lane <= self.stride - 1 {
            lane
        } else {
            self.stride - 1
        };
        let mut block = data;
        if self.version >= 3 {
            sum_up(&mut block);
        }
        let ghost b = block@;
        self.active_blocks[s].push(block);
        self.left = self.left - 1;
        proof {
            let want = st.fed(lane as nat, data@);
            assert(b == shown(st.version, data@));
            assert forall|k: int| 0 <= k < st.stride implies self@.queues[k] == want.queues[k] by {
                if k == s {
                    assert(self@.queues[k] =~= st.queues[k].push(b));
                } else {
                    assert(self.active_blocks@[k] == q0[k]);
                    assert(self@.queues[k] =~= st.queues[k]);
                }
            }
            assert(self@.queues =~= want.queues);
        }
    }

    /// Some lane's first block has fewer than `count` bytes.
    fn falls_short(&self, count: usize) -> (r: bool)
        requires
            self.wf(),
            !self@.lacking(),
            count == self@.count(),
        ensures
            r == self@.short(),
    {
        let mut s: usize = 0;
        while s < self.stride
            invariant
                self.wf(),
                !self@.lacking(),
                s <= self.stride,
                count == self@.count(),
                self.active_blocks@.len() == self.stride,
                forall|k: int| 0 <= k < s ==> (#[trigger] self@.queues[k])[0].len() >= count,
            decreases self.stride - s,
        {
            assert(self@.queues[s as int].len() == self.active_blocks@[s as int]@.len());
            assert(self@.queues[s as int][0] == self.active_blocks@[s as int]@[0]@);
            if self.active_blocks[s][0].len() < count {
                assert(self@.queues[s as int][0].len() < self@.count());
                return true;
            }
            s += 1;
        }
        false
    }

    /// The byte of lane `s` in group `g`, where the lane gave `before` last.
    fn byte_of(&self, s: usize, g: usize, before: u8) -> (r: u8)
        requires
            self.wf(),
            !self@.lacking(),
            !self@.short(),
            s < self@.stride,
            g < self@.count(),
            before == carried(self@, g as nat, s as nat)[s as int],
        ensures
            r == self@.value(s as int, g as nat),
    {
        let ghost st = self@;
        proof {
            let f = st.queues[s as int];
            assert(f.len() == self.active_blocks@[s as int]@.len());
            assert(f[0] == self.active_blocks@[s as int]@[0]@);
            assert(f[0].len() >= st.count());
        }
        let delta: u8 = self.active_blocks[s][0][g];
        if self.version >= 3 {
            delta
        } else {
            let r: u8 = delta.wrapping_add(before);
            proof {
                lemma_value_step(st, s as int, g as nat);
                assert(r == ((before + delta) % 256) as u8);
            }
            r
        }
    }

    /// The next `count` groups, and the byte that each lane gives last.
    fn join(&self, count: usize) -> (r: (Vec<u8>, Vec<u8>))
        requires
            self.wf(),
            !self@.lacking(),
            !self@.short(),
            count == self@.count(),
        ensures
            r.0@ == self@.joined(count as nat),
            r.1@ == self@.after(count as nat).prev,
    {
        let ghost st = self@;
        let stride: usize = self.stride;
        let mut out: Vec<u8> = Vec::new();
        let mut cur: Vec<u8> = Vec::new();
        cur.extend_from_slice(self.prev_byte.as_slice());
        let mut g: usize = 0;
        assert(0 * st.stride == 0) by (nonlinear_arith);
        assert(cur@ =~= carried(st, 0, 0));
        assert(out@ =~= upto(st, 0));
        while g < count
            invariant
                self.wf(),
                st == self@,
                !st.lacking(),
                !st.short(),
                count == st.count(),
                stride == st.stride,
                stride >= 1,
                g <= count,
                cur@ == carried(st, g as nat, 0),
                out@ == upto(st, (g * stride) as nat),
            decreases count - g,
        {
            let mut s: usize = 0;
            while s < stride
                invariant
                    self.wf(),
                    st == self@,
                    !st.lacking(),
                    !st.short(),
                    count == st.count(),
                    stride == st.stride,
                    stride >= 1,
                    g < count,
                    s <= stride,
                    cur@ == carried(st, g as nat, s as nat),
                    out@ == upto(st, (g * stride + s) as nat),
                decreases stride - s,
            {
                let val: u8 = self.byte_of(s, g, cur[s]);
                proof {
                    lemma_upto(st, g as nat, s as nat);
                }
                if self.version < 3 {
                    cur.set(s, val);
                }
                assert(cur@ =~= carried(st, g as nat, (s + 1) as nat));
                out.push(val);
                s += 1;
            }
            assert((g + 1) * stride == g * stride + stride) by (nonlinear_arith);
            assert(carried(st, g as nat, stride as nat) =~= carried(st, (g + 1) as nat, 0));
            g += 1;
        }
        assert(out@ =~= st.joined(count as nat));
        assert(cur@ =~= st.after(count as nat).prev);
        (out, cur)
    }

    /// Drops the first block of each lane, but for what the last lane keeps.
    fn drop_blocks(&mut self, count: usize, ends: bool)
        requires
            old(self).wf(),
            !old(self)@.lacking(),
            ends == (old(self)@.idx / old(self)@.stride + count == old(self)@.groups()),
        ensures
            final(self)@ == (Lanes {
                queues: old(self)@.after(count as nat).queues,
                ..old(self)@
            }),
    {
        let ghost st = self@;
        let ghost q0 = self.active_blocks@;
        let stride: usize = self.stride;
        let mut s: usize = 0;
        while s < stride
            invariant
                st.wf(),
                !st.lacking(),
                stride == st.stride,
                s <= stride,
                self@ == (Lanes { queues: self@.queues, ..st }),
                self.active_blocks@.len() == stride,
                st.queues == queued(q0),
                q0.len() == stride,
                ends == (st.idx / st.stride + count == st.groups()),
                forall|k: int|
                    0 <= k < s ==> (#[trigger] queued(self.active_blocks@)[k]) == st.queue_after(
                        k,
                        count as nat,
                    ),
                forall|k: int| s <= k < stride ==> (#[trigger] self.active_blocks@[k]) == q0[k],
            decreases stride - s,
        {
            let ghost before = self.active_blocks@;
            assert(before[s as int] == q0[s as int]);
            assert(st.queues[s as int].len() == q0[s as int]@.len());
            let first = self.active_blocks[s].remove(0);
            let ghost mid = self.active_blocks@[s as int]@;
            assert(mid =~= q0[s as int]@.skip(1));
            if s == stride - 1 && ends && first.len() > count {
                let mut tail: Vec<u8> = Vec::new();
                let t = &first.as_slice()[count..first.len()];
                tail.extend_from_slice(t);
                assert(tail@ =~= first@.skip(count as int));
                self.active_blocks[s].insert(0, tail);
            }
            proof {
                assert(queued(self.active_blocks@)[s as int] =~= st.queue_after(
                    s as int,
                    count as nat,
                ));
                assert forall|k: int| 0 <= k < s + 1 implies (#[trigger] queued(
                    self.active_blocks@,
                )[k]) == st.queue_after(k, count as nat) by {
                    if k < s {
                        assert(queued(before)[k] == st.queue_after(k, count as nat));
                        assert(self.active_blocks@[k] == before[k]);
                    }
                }
                assert forall|k: int| s + 1 <= k < stride implies (
                #[trigger] self.active_blocks@[k]) == q0[k] by {
                    assert(before[k] == q0[k]);
                }
            }
            s += 1;
        }
        assert(self@.queues =~= st.after(count as nat).queues);
    }

    /// The next piece of the data, if the lanes have what they should.
    pub fn next_piece(&mut self) -> (r: Option<Vec<u8>>)
        requires
            old(self).wf(),
            old(self)@.idx < old(self)@.orig,
        ensures
            match (r, old(self)@.piece()) {
                (None, None) => true,
                (Some(v), Some((data, next))) => v@ == data && final(self)@ == next
                    && final(self).wf(),
                _ => false,
            },
    {
        let ghost st = self@;
        let stride: usize = self.stride;
        let groups: u64 = self.orig_size / (stride as u64);
        proof {
            vstd::arithmetic::div_mod::lemma_fundamental_div_mod(
                self.orig_size as int,
                stride as int,
            );
            vstd::arithmetic::div_mod::lemma_mod_bound(self.orig_size as int, stride as int);
            assert(groups == st.groups());
        }
        let limit: u64 = stride as u64 * groups;
        if self.current_idx < limit {
            if self.lacks() {
                return None;
            }
            let g_start: u64 = self.current_idx / (stride as u64);
            proof {
                vstd::arithmetic::div_mod::lemma_fundamental_div_mod(
                    self.current_idx as int,
                    stride as int,
                );
                assert(g_start < groups) by (nonlinear_arith)
                    requires
                        stride as int * g_start <= self.current_idx,
                        self.current_idx < stride as int * groups,
                        stride >= 1,
                ;
                assert(st.queues[0].len() == self.active_blocks@[0]@.len());
                assert(st.queues[0][0] == self.active_blocks@[0]@[0]@);
            }
            let cur: usize = self.active_blocks[0][0].len();
            let groups_left: u64 = groups - g_start;
            let count: usize = if cur as u64 <= groups_left {
                cur
            } else {
                groups_left as usize
            };
            assert(count == st.count());
            proof {
                let c = count as int;
                let m = stride as int;
                assert(c * m + m * g_start <= m * groups && m * (c + g_start) == c * m + m * g_start)
                    by (nonlinear_arith)
                    requires
                        c + g_start <= groups,
                        m >= 1,
                ;
            }
            if self.falls_short(count) {
                return None;
            }
            let (out, last) = self.join(count);
            let ends: bool = g_start + count as u64 == groups;
            self.drop_blocks(count, ends);
            self.prev_byte = last;
            self.current_idx = self.current_idx + out.len() as u64;
            proof {
                let want = st.after(count as nat);
                assert(self@.queues =~= want.queues);
                assert(self@ == want);
                let c = count as int;
                let m = stride as int;
                assert((c + g_start) * m == c * m + m * g_start && m * (c + g_start) == c * m + m
                    * g_start) by (nonlinear_arith);
                assert(self.current_idx == m * g_start + c * m);
                vstd::arithmetic::div_mod::lemma_fundamental_div_mod_converse(
                    self.current_idx as int,
                    m,
                    c + g_start,
                    0,
                );
            }
            Some(out)
        } else {
            let last: usize = stride - 1;
            assert(st.queues[last as int].len() == self.active_blocks@[last as int]@.len());
            if self.active_blocks[last].len() == 0 {
                return None;
            }
            let ghost q0 = self.active_blocks@;
            assert(st.queues[last as int][0] == q0[last as int]@[0]@);
            let mut first = self.active_blocks[last].remove(0);
            let remaining: u64 = self.orig_size - self.current_idx;
            if first.len() as u64 > remaining {
                first.truncate(remaining as usize);
            }
            self.current_idx = self.current_idx + first.len() as u64;
            proof {
                let (data, next) = st.piece()->0;
                assert(first@ =~= data);
                assert forall|k: int| 0 <= k < st.stride implies self@.queues[k]
                    == next.queues[k] by {
                    if k != last {
                        assert(self.active_blocks@[k] == q0[k]);
                    }
                    assert(self@.queues[k] =~= next.queues[k]);
                }
                assert(self@.queues =~= next.queues);
            }
            Some(first)
        }
    }
}

} // verus!
