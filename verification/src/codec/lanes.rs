//! Data dealt out to lanes as it comes in.
//!
//! The bytes of a group go to the lanes in turn, each as the difference to the
//! byte that its lane had before. What does not fill a group goes to the last
//! lane as it is. A lane gives its bytes away in blocks.

use crate::codec::stream;
use vstd::prelude::*;

verus! {

/// How data is dealt out: the number of lanes, the number of whole groups, and
/// the size of blocks. From version 3 on each block starts anew.
pub struct Deal {
    pub stride: nat,
    pub groups: nat,
    pub block: nat,
    pub version: u8,
}

/// What data of `n` bytes is dealt out by.
pub open spec fn deal_of(n: nat, stride: nat, block: nat, version: u8) -> Deal {
    Deal { stride, groups: n / stride, block, version }
}

impl Deal {
    pub open spec fn wf(self) -> bool {
        &&& self.stride >= 1
        &&& self.block >= 1
    }

    /// The byte at `p` is part of a whole group.
    pub open spec fn grouped(self, p: int) -> bool {
        p < self.stride * self.groups
    }

    /// What is taken off the byte at `p` where its lane has `have` bytes.
    pub open spec fn before(self, d: Seq<u8>, p: int, have: nat) -> u8 {
        if p < self.stride || self.version >= 3 && have % self.block == 0 {
            0
        } else {
            d[p - self.stride]
        }
    }

    /// What lane `s` has after the data `d`.
    pub open spec fn dealt(self, d: Seq<u8>, s: nat) -> Seq<u8>
        decreases d.len(),
    {
        if d.len() == 0 {
            Seq::empty()
        } else {
            let p = d.len() - 1;
            let r = self.dealt(d.drop_last(), s);
            if self.grouped(p) {
                if p % (self.stride as int) == s {
                    r.push(((d[p] - self.before(d, p, r.len())) % 256) as u8)
                } else {
                    r
                }
            } else if s + 1 == self.stride {
                r.push(d[p])
            } else {
                r
            }
        }
    }

    /// The number of whole blocks that lane `s` has after `d`.
    pub open spec fn whole(self, d: Seq<u8>, s: nat) -> nat {
        self.dealt(d, s).len() / self.block
    }

    /// What is left of a lane after its whole blocks.
    pub open spec fn kept(self, d: Seq<u8>, s: nat) -> Seq<u8> {
        self.held(d, d, s)
    }

    /// What lane `s` holds after `d` if its blocks were last taken out after `a`.
    pub open spec fn held(self, a: Seq<u8>, d: Seq<u8>, s: nat) -> Seq<u8> {
        self.dealt(d, s).skip(self.whole(a, s) * self.block as int)
    }

    /// Block `k` of lane `s`.
    pub open spec fn cut(self, d: Seq<u8>, s: nat, k: int) -> Seq<u8> {
        self.dealt(d, s).subrange(k * self.block, (k + 1) * self.block)
    }

    /// The blocks that lane `s` fills while the data goes from `a` to `d`.
    pub open spec fn filled(self, a: Seq<u8>, d: Seq<u8>, s: nat) -> Seq<(nat, Seq<u8>)> {
        Seq::new(
            (self.whole(d, s) - self.whole(a, s)) as nat,
            |k: int| (s, self.cut(d, s, self.whole(a, s) + k)),
        )
    }

    /// The blocks that the first `k` lanes fill.
    pub open spec fn all_filled(self, a: Seq<u8>, d: Seq<u8>, k: nat) -> Seq<(nat, Seq<u8>)>
        decreases k,
    {
        if k == 0 {
            Seq::empty()
        } else {
            self.all_filled(a, d, (k - 1) as nat) + self.filled(a, d, (k - 1) as nat)
        }
    }

    /// What the first `k` lanes have left in the end.
    pub open spec fn leftover(self, d: Seq<u8>, k: nat) -> Seq<(nat, Seq<u8>)>
        decreases k,
    {
        if k == 0 {
            Seq::empty()
        } else {
            let before = self.leftover(d, (k - 1) as nat);
            let rest = self.kept(d, (k - 1) as nat);
            if rest.len() == 0 {
                before
            } else {
                before.push(((k - 1) as nat, rest))
            }
        }
    }

    /// The blocks of all lanes in the order in which they are given away, where the data comes in
    /// `parts` behind `a`.
    pub open spec fn given(self, a: Seq<u8>, parts: Seq<Seq<u8>>) -> Seq<(nat, Seq<u8>)>
        decreases parts.len(),
    {
        if parts.len() == 0 {
            self.leftover(a, self.stride)
        } else {
            self.all_filled(a, a + parts[0], self.stride) + self.given(
                a + parts[0],
                parts.skip(1),
            )
        }
    }
}

/// The last byte of a whole group that lane `s` had.
spec fn last_value(w: Deal, d: Seq<u8>, s: nat) -> u8
    decreases d.len(),
{
    if d.len() == 0 {
        0
    } else {
        let p = d.len() - 1;
        if w.grouped(p) && p % (w.stride as int) == s {
            d[p]
        } else {
            last_value(w, d.drop_last(), s)
        }
    }
}

proof fn lemma_last_value(w: Deal, d: Seq<u8>, q: int, p: int)
    requires
        w.wf(),
        0 <= p,
        p - w.stride < q <= p,
        0 <= q <= d.len(),
        w.grouped(p),
    ensures
        last_value(w, d.take(q), (p % (w.stride as int)) as nat) == if p < w.stride {
            0
        } else {
            d[p - w.stride]
        },
    decreases q,
{
    let m = w.stride as int;
    let s = (p % m) as nat;
    if q > 0 {
        let e = d.take(q);
        assert(e.drop_last() =~= d.take(q - 1));
        let r = q - 1;
        vstd::arithmetic::div_mod::lemma_fundamental_div_mod(p, m);
        vstd::arithmetic::div_mod::lemma_fundamental_div_mod(r, m);
        if r == p - m {
            vstd::arithmetic::div_mod::lemma_mod_sub_multiples_vanish(p, m);
            assert(r % m == s);
            assert(e[r] == d[p - m]);
        } else {
            assert(r % m != p % m) by {
                if r % m == p % m {
                    let j = p / m - r / m;
                    assert(m * (p / m) - m * (r / m) == m * j) by (nonlinear_arith)
                        requires
                            j == p / m - r / m,
                    ;
                    assert(0 < m * j < m);
                    assert(j >= 1 ==> m * j >= m) by (nonlinear_arith)
                        requires
                            m >= 1,
                    ;
                    assert(j <= 0 ==> m * j <= 0) by (nonlinear_arith)
                        requires
                            m >= 1,
                    ;
                }
            }
            lemma_last_value(w, d, q - 1, p);
        }
    }
}

/// What a lane has only grows.
proof fn lemma_dealt_grows(w: Deal, a: Seq<u8>, b: Seq<u8>, s: nat)
    ensures
        w.dealt(a, s).len() <= w.dealt(a + b, s).len(),
        w.dealt(a + b, s).take(w.dealt(a, s).len() as int) == w.dealt(a, s),
    decreases b.len(),
{
    if b.len() == 0 {
        assert(a + b =~= a);
        assert(w.dealt(a, s).take(w.dealt(a, s).len() as int) =~= w.dealt(a, s));
    } else {
        lemma_dealt_grows(w, a, b.drop_last(), s);
        assert((a + b).drop_last() =~= a + b.drop_last());
        let n = w.dealt(a, s).len() as int;
        let r = w.dealt(a + b.drop_last(), s);
        assert(w.dealt(a + b, s).take(n) =~= r.take(n));
    }
}

/// The number of whole blocks only grows.
pub proof fn lemma_whole_grows(w: Deal, a: Seq<u8>, b: Seq<u8>, s: nat)
    requires
        w.wf(),
    ensures
        w.whole(a, s) <= w.whole(a + b, s),
{
    lemma_dealt_grows(w, a, b, s);
    vstd::arithmetic::div_mod::lemma_div_is_ordered(
        w.dealt(a, s).len() as int,
        w.dealt(a + b, s).len() as int,
        w.block as int,
    );
}

// ---- the blocks of a lane ----

/// The blocks of lane `s` among those of all lanes.
pub open spec fn of_lane(blocks: Seq<(nat, Seq<u8>)>, s: nat) -> Seq<Seq<u8>>
    decreases blocks.len(),
{
    if blocks.len() == 0 {
        Seq::empty()
    } else if blocks[0].0 == s {
        seq![blocks[0].1] + of_lane(blocks.skip(1), s)
    } else {
        of_lane(blocks.skip(1), s)
    }
}

proof fn lemma_of_lane_add(a: Seq<(nat, Seq<u8>)>, b: Seq<(nat, Seq<u8>)>, s: nat)
    ensures
        of_lane(a + b, s) == of_lane(a, s) + of_lane(b, s),
    decreases a.len(),
{
    if a.len() == 0 {
        assert(a + b =~= b);
        assert(of_lane(a, s) + of_lane(b, s) =~= of_lane(b, s));
    } else {
        lemma_of_lane_add(a.skip(1), b, s);
        assert((a + b).skip(1) =~= a.skip(1) + b);
        assert(of_lane(a + b, s) =~= of_lane(a, s) + of_lane(b, s));
    }
}

/// Blocks of one lane.
proof fn lemma_of_one_lane(v: Seq<(nat, Seq<u8>)>, t: nat, s: nat)
    requires
        forall|k: int| 0 <= k < v.len() ==> (#[trigger] v[k]).0 == t,
    ensures
        of_lane(v, s) == if s == t {
            Seq::new(v.len(), |k: int| v[k].1)
        } else {
            Seq::empty()
        },
    decreases v.len(),
{
    let want = Seq::new(v.len(), |k: int| v[k].1);
    if v.len() == 0 {
        assert(want =~= Seq::empty());
    } else {
        lemma_of_one_lane(v.skip(1), t, s);
        assert(want =~= seq![v[0].1] + Seq::new(v.skip(1).len(), |k: int| v.skip(1)[k].1));
    }
}

proof fn lemma_of_filled(w: Deal, a: Seq<u8>, d: Seq<u8>, k: nat, s: nat)
    ensures
        of_lane(w.all_filled(a, d, k), s) == if s < k {
            Seq::new(w.filled(a, d, s).len(), |i: int| w.filled(a, d, s)[i].1)
        } else {
            Seq::empty()
        },
    decreases k,
{
    if k > 0 {
        lemma_of_filled(w, a, d, (k - 1) as nat, s);
        lemma_of_lane_add(
            w.all_filled(a, d, (k - 1) as nat),
            w.filled(a, d, (k - 1) as nat),
            s,
        );
        lemma_of_one_lane(w.filled(a, d, (k - 1) as nat), (k - 1) as nat, s);
        let all = of_lane(w.all_filled(a, d, k), s);
        if s < k {
            assert(all =~= Seq::new(w.filled(a, d, s).len(), |i: int| w.filled(a, d, s)[i].1));
        } else {
            assert(all =~= Seq::empty());
        }
    }
}

proof fn lemma_of_leftover(w: Deal, d: Seq<u8>, k: nat, s: nat)
    ensures
        of_lane(w.leftover(d, k), s) == if s < k && w.kept(d, s).len() > 0 {
            seq![w.kept(d, s)]
        } else {
            Seq::empty()
        },
    decreases k,
{
    if k > 0 {
        lemma_of_leftover(w, d, (k - 1) as nat, s);
        let rest = w.kept(d, (k - 1) as nat);
        if rest.len() > 0 {
            let one = seq![((k - 1) as nat, rest)];
            lemma_of_lane_add(w.leftover(d, (k - 1) as nat), one, s);
            lemma_of_one_lane(one, (k - 1) as nat, s);
            assert(w.leftover(d, k) =~= w.leftover(d, (k - 1) as nat) + one);
            if s == k - 1 {
                assert(of_lane(w.leftover(d, k), s) =~= seq![rest]);
            } else {
                assert(of_lane(w.leftover(d, k), s) =~= of_lane(w.leftover(d, (k - 1) as nat), s));
            }
        }
    }
}

/// Whole blocks in front of the rest.
proof fn lemma_pieces_front(l: Seq<u8>, from: int, to: int, b: nat)
    requires
        b >= 1,
        0 <= from <= to,
        to * b <= l.len(),
    ensures
        stream::pieces(l.skip(from * b), b) == Seq::new(
            (to - from) as nat,
            |k: int| l.subrange((from + k) * b, (from + k + 1) * b),
        ) + stream::pieces(l.skip(to * b), b),
    decreases to - from,
{
    let f = |k: int| l.subrange((from + k) * b, (from + k + 1) * b);
    let v = Seq::new((to - from) as nat, f);
    if from == to {
        assert(v + stream::pieces(l.skip(to * b), b) =~= stream::pieces(l.skip(to * b), b));
    } else {
        lemma_pieces_front(l, from + 1, to, b);
        assert((from + 1) * b == from * b + b && (from + 1) * b <= to * b && 0 <= from * b)
            by (nonlinear_arith)
            requires
                0 <= from < to,
                b >= 1,
        ;
        let x = l.skip(from * b);
        let v1 = Seq::new(
            (to - (from + 1)) as nat,
            |k: int| l.subrange((from + 1 + k) * b, (from + 1 + k + 1) * b),
        );
        assert(x.take(b as int) =~= l.subrange(from * b, (from + 1) * b));
        assert(x.skip(b as int) =~= l.skip((from + 1) * b));
        assert(v =~= seq![x.take(b as int)] + v1) by {
            assert forall|k: int| 0 <= k < v.len() implies v[k] == (seq![x.take(b as int)] + v1)[k] by {
                if k > 0 {
                    assert(v1[k - 1] == l.subrange(
                        (from + 1 + (k - 1)) * b,
                        (from + 1 + (k - 1) + 1) * b,
                    ));
                }
            }
        }
        if x.len() == b {
            assert(x.take(b as int) =~= x);
            assert(x.skip(b as int) =~= Seq::empty());
            assert(stream::pieces(x.skip(b as int), b) =~= Seq::empty());
            assert(stream::pieces(x, b) =~= seq![x] + stream::pieces(x.skip(b as int), b));
        }
        assert(v + stream::pieces(l.skip(to * b), b) =~= seq![x.take(b as int)] + (v1
            + stream::pieces(l.skip(to * b), b)));
    }
}

/// All the parts, one after the other.
pub open spec fn flat(parts: Seq<Seq<u8>>) -> Seq<u8>
    decreases parts.len(),
{
    if parts.len() == 0 {
        Seq::empty()
    } else {
        parts[0] + flat(parts.skip(1))
    }
}

/// However the data comes in, the blocks of a lane are what it was dealt, cut into blocks.
pub proof fn lemma_lane_blocks(w: Deal, a: Seq<u8>, parts: Seq<Seq<u8>>, s: nat)
    requires
        w.wf(),
        s < w.stride,
    ensures
        of_lane(w.given(a, parts), s) == stream::pieces(
            w.held(a, a + flat(parts), s),
            w.block,
        ),
    decreases parts.len(),
{
    let b = w.block;
    if parts.len() == 0 {
        assert(a + flat(parts) =~= a);
        lemma_of_leftover(w, a, w.stride, s);
        lemma_whole(w, a, s);
        let rest = w.kept(a, s);
        assert((w.whole(a, s) + 1) * b == w.whole(a, s) * b + b) by (nonlinear_arith);
        assert(rest.len() < b);
        assert(stream::pieces(rest, b) =~= if rest.len() > 0 {
            seq![rest]
        } else {
            Seq::empty()
        });
    } else {
        let e = a + parts[0];
        let d = a + flat(parts);
        assert(d =~= e + flat(parts.skip(1)));
        lemma_lane_blocks(w, e, parts.skip(1), s);
        lemma_of_lane_add(w.all_filled(a, e, w.stride), w.given(e, parts.skip(1)), s);
        lemma_of_filled(w, a, e, w.stride, s);
        lemma_dealt_grows(w, e, flat(parts.skip(1)), s);
        lemma_whole(w, e, s);
        let l = w.dealt(d, s);
        let le = w.dealt(e, s);
        let from = w.whole(a, s) as int;
        let to = w.whole(e, s) as int;
        lemma_whole_grows(w, a, parts[0], s);
        lemma_pieces_front(l, from, to, b);
        let v = Seq::new(w.filled(a, e, s).len(), |i: int| w.filled(a, e, s)[i].1);
        let v2 = Seq::new(
            (to - from) as nat,
            |k: int| l.subrange((from + k) * b, (from + k + 1) * b),
        );
        assert forall|k: int| 0 <= k < v.len() implies v[k] == v2[k] by {
            assert(0 <= (from + k) * b && (from + k) * b <= (from + k + 1) * b && (from + k + 1) * b
                <= to * b) by (nonlinear_arith)
                requires
                    0 <= k < to - from,
                    0 <= from,
                    b >= 1,
            ;
            assert(le == l.take(le.len() as int));
            assert(le.subrange((from + k) * b, (from + k + 1) * b) =~= l.subrange(
                (from + k) * b,
                (from + k + 1) * b,
            ));
        }
        assert(v =~= v2);
    }
}

// ---- what a lane is dealt ----

impl Deal {
    /// Lane `s` has this of group `g`.
    pub open spec fn share(self, d: Seq<u8>, s: nat, g: int) -> u8 {
        let x = d[g * self.stride + s] as int;
        let before = if g == 0 || self.version >= 3 && g % (self.block as int) == 0 {
            0
        } else {
            d[(g - 1) * self.stride + s] as int
        };
        ((x - before) % 256) as u8
    }
}

/// The lanes after `m` groups and `j` bytes.
proof fn lemma_dealt_groups(w: Deal, d: Seq<u8>, m: nat, j: nat, s: nat)
    requires
        w.wf(),
        s < w.stride,
        j <= w.stride,
        m * w.stride + j <= w.stride * w.groups,
        m * w.stride + j <= d.len(),
    ensures
        ({
            let l = w.dealt(d.take((m * w.stride + j) as int), s);
            &&& l.len() == m + if s < j {
                1nat
            } else {
                0
            }
            &&& forall|g: int| 0 <= g < l.len() ==> (#[trigger] l[g]) == w.share(d, s, g)
        }),
    decreases m, j,
{
    let st = w.stride as int;
    let p = m * w.stride + j;
    let e = d.take(p as int);
    if j > 0 {
        lemma_dealt_groups(w, d, m, (j - 1) as nat, s);
        let q = p - 1;
        assert(e.drop_last() =~= d.take(q));
        vstd::arithmetic::div_mod::lemma_mod_multiples_vanish(m as int, j - 1, st);
        assert(st * m + (j - 1) == q) by (nonlinear_arith)
            requires
                q == m * st + j - 1,
        ;
        vstd::arithmetic::div_mod::lemma_small_mod((j - 1) as nat, w.stride);
        assert(q % st == j - 1);
        if s == j - 1 {
            assert(m == 0 ==> q < st);
            assert(m > 0 ==> q >= st && q - st == (m - 1) * st + s) by (nonlinear_arith)
                requires
                    q == m * st + s,
                    st >= 1,
                    s >= 0,
            ;
            let l = w.dealt(e, s);
            assert(l[m as int] == w.share(d, s, m as int));
        }
    } else if m > 0 {
        assert((m - 1) * w.stride + w.stride == m * w.stride) by (nonlinear_arith);
        lemma_dealt_groups(w, d, (m - 1) as nat, w.stride, s);
    } else {
        assert(0 * w.stride == 0) by (nonlinear_arith);
    }
}

/// The bytes that do not fill a group go to the last lane as they are.
proof fn lemma_dealt_rest(w: Deal, d: Seq<u8>, p: int, s: nat)
    requires
        w.wf(),
        s < w.stride,
        w.stride * w.groups <= p <= d.len(),
    ensures
        ({
            let m = w.stride * w.groups as int;
            let l = w.dealt(d.take(m), s);
            w.dealt(d.take(p), s) == if s + 1 == w.stride {
                l + d.subrange(m, p)
            } else {
                l
            }
        }),
    decreases p,
{
    let m = w.stride * w.groups as int;
    let l = w.dealt(d.take(m), s);
    if p > m {
        lemma_dealt_rest(w, d, p - 1, s);
        assert(d.take(p).drop_last() =~= d.take(p - 1));
        if s + 1 == w.stride {
            assert(w.dealt(d.take(p), s) =~= l + d.subrange(m, p));
        }
    } else if s + 1 == w.stride {
        assert(l + d.subrange(m, p) =~= l);
    }
}

/// What the lanes have in the end: a share of each group, and the last lane the rest of the data.
pub proof fn lemma_dealt(d: Seq<u8>, stride: nat, block: nat, version: u8, s: nat)
    requires
        stride >= 1,
        block >= 1,
        s < stride,
    ensures
        ({
            let w = deal_of(d.len(), stride, block, version);
            let l = w.dealt(d, s);
            &&& stride * w.groups <= d.len()
            &&& l.len() == w.groups + if s + 1 == stride {
                (d.len() - stride * w.groups) as nat
            } else {
                0
            }
            &&& forall|g: int| 0 <= g < w.groups ==> (#[trigger] l[g]) == w.share(d, s, g)
            &&& s + 1 == stride ==> l.skip(w.groups as int) == d.skip(stride * w.groups as int)
        }),
{
    let w = deal_of(d.len(), stride, block, version);
    vstd::arithmetic::div_mod::lemma_fundamental_div_mod(d.len() as int, stride as int);
    assert(w.groups * stride == stride * w.groups) by (nonlinear_arith);
    let m = (stride * w.groups) as int;
    lemma_dealt_groups(w, d, w.groups, 0, s);
    lemma_dealt_rest(w, d, d.len() as int, s);
    assert(d.take(d.len() as int) =~= d);
    let l = w.dealt(d, s);
    if s + 1 == stride {
        assert(l.skip(w.groups as int) =~= d.skip(m));
    }
}

// ---- the computation ----

/// Blocks with their lanes.
pub open spec fn tagged(v: Seq<(usize, Vec<u8>)>) -> Seq<(nat, Seq<u8>)> {
    Seq::new(v.len(), |k: int| (v[k].0 as nat, v[k].1@))
}

/// The lanes of a stream while its data comes in.
pub struct LaneSplitter {
    stride: usize,
    groups: u64,
    block_size: usize,
    version: u8,
    prev_byte: Vec<u8>,
    lanes: Vec<Vec<u8>>,
    pos: u64,
    seen: Ghost<Seq<u8>>,
}

impl LaneSplitter {
    pub closed spec fn deal(self) -> Deal {
        Deal {
            stride: self.stride as nat,
            groups: self.groups as nat,
            block: self.block_size as nat,
            version: self.version,
        }
    }

    /// The data so far.
    pub closed spec fn seen(self) -> Seq<u8> {
        self.seen@
    }

    spec fn shape(self) -> bool {
        let w = self.deal();
        &&& w.wf()
        &&& w.stride * w.groups <= u64::MAX
        &&& self.prev_byte@.len() == w.stride
        &&& self.lanes@.len() == w.stride
        &&& self.pos == self.seen@.len()
        &&& forall|s: nat|
            s < w.stride ==> (#[trigger] self.prev_byte@[s as int]) == last_value(
                w,
                self.seen@,
                s,
            )
    }

    /// The lanes hold what came since the blocks were taken out after `a`.
    spec fn holds(self, a: Seq<u8>) -> bool {
        let w = self.deal();
        &&& self.shape()
        &&& forall|s: nat|
            s < w.stride ==> (#[trigger] self.lanes@[s as int])@ == w.held(a, self.seen@, s)
        &&& forall|s: nat|
            s < w.stride ==> (#[trigger] w.whole(a, s)) * w.block <= w.dealt(self.seen@, s).len()
    }

    pub closed spec fn wf(self) -> bool {
        self.holds(self.seen@)
    }

    /// Empty lanes for data of `file_size` bytes.
    pub fn new(file_size: u64, stride: usize, block_size: usize, version: u8) -> (r: Self)
        requires
            stride >= 1,
            block_size >= 1,
        ensures
            r.wf(),
            r.seen() == Seq::<u8>::empty(),
            r.deal() == deal_of(file_size as nat, stride as nat, block_size as nat, version),
    {
        let prev_byte: Vec<u8> = vec![0; stride];
        let mut lanes: Vec<Vec<u8>> = Vec::new();
        let mut s: usize = 0;
        while s < stride
            invariant
                s <= stride,
                lanes@.len() == s,
                forall|k: int| 0 <= k < s ==> (#[trigger] lanes@[k])@.len() == 0,
            decreases stride - s,
        {
            lanes.push(Vec::new());
            s += 1;
        }
        let groups: u64 = file_size / (stride as u64);
        let r = LaneSplitter {
            stride,
            groups,
            block_size,
            version,
            prev_byte,
            lanes,
            pos: 0,
            seen: Ghost(Seq::empty()),
        };
        proof {
            let w = r.deal();
            vstd::arithmetic::div_mod::lemma_fundamental_div_mod(file_size as int, stride as int);
            assert forall|k: nat| k < stride implies (#[trigger] r.lanes@[k as int])@ == w.kept(
                Seq::empty(),
                k,
            ) by {
                vstd::arithmetic::div_mod::lemma_small_mod(0, w.block);
                assert(w.dealt(Seq::<u8>::empty(), k) =~= Seq::<u8>::empty());
                assert(0nat / w.block == 0) by (nonlinear_arith)
                    requires
                        w.block >= 1,
                ;
                assert(0 * w.block == 0) by (nonlinear_arith);
                assert(w.kept(Seq::empty(), k) =~= Seq::empty());
                assert(r.lanes@[k as int]@ =~= Seq::empty());
            }
            assert forall|k: nat| k < stride implies (#[trigger] w.whole(Seq::empty(), k)) * w.block
                <= w.dealt(Seq::empty(), k).len() by {
                assert(r.lanes@[k as int]@ == w.kept(Seq::empty(), k));
                assert(w.dealt(Seq::<u8>::empty(), k) =~= Seq::<u8>::empty());
                assert(0nat / w.block == 0) by (nonlinear_arith)
                    requires
                        w.block >= 1,
                ;
                assert(0 * w.block == 0) by (nonlinear_arith);
            }
        }
        r
    }

    /// Deals out one byte.
    fn deal_byte(&mut self, b: u8, a: Ghost<Seq<u8>>)
        requires
            old(self).holds(a@),
            old(self).pos < u64::MAX,
        ensures
            final(self).holds(a@),
            final(self).deal() == old(self).deal(),
            final(self).seen() == old(self).seen().push(b),
    {
        let ghost w = self.deal();
        let ghost d0 = self.seen@;
        let ghost d = d0.push(b);
        let ghost lanes0 = self.lanes@;
        let ghost p = self.pos as int;
        proof {
            assert(d.drop_last() =~= d0);
            assert(self.stride as int * self.groups == w.stride * w.groups);
        }
        let limit: u64 = self.stride as u64 * self.groups;
        let s: usize;
        if self.pos >= limit {
            s = self.stride - 1;
            self.lanes[s].push(b);
        } else {
            s = (self.pos % (self.stride as u64)) as usize;
            proof {
                lemma_last_value(w, d0, p, p);
                assert(d0.take(p) =~= d0);
                let have = w.dealt(d0, s as nat).len() as int;
                let k = w.whole(a@, s as nat) as int;
                assert(w.whole(a@, s as nat) * w.block <= have);
                assert(self.lanes@[s as int]@.len() == have - k * w.block);
                vstd::arithmetic::div_mod::lemma_mod_multiples_vanish(-k, have, w.block as int);
                assert(w.block as int * (-k) + have == have - k * w.block) by (nonlinear_arith);
            }
            let mut before: u8 = self.prev_byte[s];
            if self.version >= 3 && self.lanes[s].len() % self.block_size == 0 {
                before = 0;
            }
            let delta: u8 = b.wrapping_sub(before);
            self.lanes[s].push(delta);
            self.prev_byte.set(s, b);
        }
        self.pos = self.pos + 1;
        self.seen = Ghost(d);
        proof {
            assert(self.lanes@.len() == lanes0.len());
            assert forall|k: nat| k < w.stride implies (#[trigger] self.lanes@[k as int])@ == w.held(
                a@,
                d,
                k,
            ) by {
                assert(lanes0[k as int]@ == w.held(a@, d0, k));
                assert(w.whole(a@, k) * w.block <= w.dealt(d0, k).len());
                assert(self.lanes@[k as int]@ =~= w.held(a@, d, k));
            }
            assert forall|k: nat| k < w.stride implies (#[trigger] w.whole(a@, k)) * w.block
                <= w.dealt(d, k).len() by {
                assert(w.whole(a@, k) * w.block <= w.dealt(d0, k).len());
            }
        }
    }

    /// Takes in the next part of the data, and gives the blocks that are full by then, lane after
    /// lane.
    pub fn split(&mut self, part: &[u8]) -> (r: Vec<(usize, Vec<u8>)>)
        requires
            old(self).wf(),
            old(self).seen().len() + part@.len() <= u64::MAX,
        ensures
            final(self).wf(),
            final(self).deal() == old(self).deal(),
            final(self).seen() == old(self).seen() + part@,
            tagged(r@) == old(self).deal().all_filled(
                old(self).seen(),
                final(self).seen(),
                old(self).deal().stride,
            ),
    {
        let ghost w = self.deal();
        let ghost a = self.seen@;
        let n: usize = part.len();
        let mut i: usize = 0;
        assert(part@.take(0) =~= Seq::<u8>::empty());
        assert(a + part@.take(0) =~= a);
        while i < n
            invariant
                n == part@.len(),
                i <= n,
                self.holds(a),
                self.deal() == w,
                self.seen() == a + part@.take(i as int),
                a.len() + n <= u64::MAX,
            decreases n - i,
        {
            self.deal_byte(part[i], Ghost(a));
            assert((a + part@.take(i as int)).push(part@[i as int]) =~= a + part@.take(i + 1));
            i += 1;
        }
        let ghost d = self.seen@;
        assert(part@.take(n as int) =~= part@);
        let mut out: Vec<(usize, Vec<u8>)> = Vec::new();
        let mut s: usize = 0;
        assert(tagged(out@) =~= w.all_filled(a, d, 0));
        while s < self.stride
            invariant
                self.shape(),
                self.deal() == w,
                w.wf(),
                self.stride == w.stride,
                self.block_size == w.block,
                self.seen@ == d,
                s <= self.stride,
                self.lanes@.len() == self.stride,
                tagged(out@) == w.all_filled(a, d, s as nat),
                forall|k: nat| k < s ==> (#[trigger] self.lanes@[k as int])@ == w.kept(d, k),
                forall|k: nat|
                    s <= k < w.stride ==> (#[trigger] self.lanes@[k as int])@ == w.held(a, d, k),
                forall|k: nat|
                    k < w.stride ==> (#[trigger] w.whole(a, k)) * w.block <= w.dealt(d, k).len(),
            decreases self.stride - s,
        {
            let rest = take_blocks(
                &self.lanes[s],
                s,
                self.block_size,
                &mut out,
                Ghost(w),
                Ghost(a),
                Ghost(d),
            );
            let ghost lanes0 = self.lanes@;
            self.lanes.set(s, rest);
            assert forall|k: nat| k < s + 1 implies (#[trigger] self.lanes@[k as int])@ == w.kept(
                d,
                k,
            ) by {
                if k < s {
                    assert(self.lanes@[k as int] == lanes0[k as int]);
                }
            }
            assert forall|k: nat| s + 1 <= k < w.stride implies (#[trigger] self.lanes@[k as int])@
                == w.held(a, d, k) by {
                assert(self.lanes@[k as int] == lanes0[k as int]);
            }
            s += 1;
        }
        proof {
            assert forall|k: nat| k < w.stride implies (#[trigger] w.whole(d, k)) * w.block
                <= w.dealt(d, k).len() by {
                lemma_whole(w, d, k);
            }
        }
        out
    }

    /// Gives what the lanes have left.
    pub fn finish(self) -> (r: Vec<(usize, Vec<u8>)>)
        requires
            self.wf(),
        ensures
            tagged(r@) == self.deal().leftover(self.seen(), self.deal().stride),
    {
        let ghost w = self.deal();
        let ghost d = self.seen@;
        let stride: usize = self.stride;
        let mut out: Vec<(usize, Vec<u8>)> = Vec::new();
        let mut s: usize = 0;
        assert(tagged(out@) =~= w.leftover(d, 0));
        while s < stride
            invariant
                self.wf(),
                self.deal() == w,
                self.seen@ == d,
                stride == self.stride,
                self.lanes@.len() == stride,
                s <= stride,
                tagged(out@) == w.leftover(d, s as nat),
            decreases stride - s,
        {
            let lane = &self.lanes[s];
            assert(lane@ == w.kept(d, s as nat));
            if lane.len() > 0 {
                let ghost before = out@;
                let mut block: Vec<u8> = Vec::new();
                block.extend_from_slice(lane.as_slice());
                assert(block@ =~= lane@);
                out.push((s, block));
                assert(tagged(out@) =~= tagged(before).push((s as nat, lane@)));
            }
            s += 1;
        }
        out
    }
}

/// A whole number of blocks fits.
proof fn lemma_whole(w: Deal, d: Seq<u8>, s: nat)
    requires
        w.wf(),
    ensures
        w.whole(d, s) * w.block <= w.dealt(d, s).len(),
        w.dealt(d, s).len() < (w.whole(d, s) + 1) * w.block,
{
    let n = w.dealt(d, s).len() as int;
    let b = w.block as int;
    vstd::arithmetic::div_mod::lemma_fundamental_div_mod(n, b);
    vstd::arithmetic::div_mod::lemma_mod_bound(n, b);
    let k = w.whole(d, s) as int;
    assert(b * k == k * b && (k + 1) * b == k * b + b) by (nonlinear_arith);
}

/// Less than a block is left.
pub proof fn lemma_kept_short(w: Deal, d: Seq<u8>, s: nat)
    requires
        w.wf(),
    ensures
        w.kept(d, s).len() < w.block,
{
    lemma_whole(w, d, s);
    assert((w.whole(d, s) + 1) * w.block == w.whole(d, s) * w.block + w.block) by (nonlinear_arith);
}

/// A block that is there has its full length.
pub proof fn lemma_cut_len(w: Deal, d: Seq<u8>, s: nat, k: int)
    requires
        w.wf(),
        0 <= k < w.whole(d, s),
    ensures
        w.cut(d, s, k).len() == w.block,
{
    lemma_whole(w, d, s);
    let b = w.block as int;
    assert(0 <= k * b && (k + 1) * b == k * b + b && (k + 1) * b <= w.whole(d, s) * b)
        by (nonlinear_arith)
        requires
            0 <= k < w.whole(d, s),
            b >= 1,
    ;
}

/// Lanes that have nothing have no blocks.
pub proof fn lemma_whole_none(w: Deal, s: nat)
    requires
        w.wf(),
    ensures
        w.whole(Seq::empty(), s) * w.block == 0,
{
    assert(w.dealt(Seq::<u8>::empty(), s).len() == 0);
    lemma_whole(w, Seq::empty(), s);
}

/// Appends the whole blocks of a lane and gives what is left of it.
fn take_blocks(
    lane: &Vec<u8>,
    s: usize,
    block: usize,
    out: &mut Vec<(usize, Vec<u8>)>,
    w: Ghost<Deal>,
    a: Ghost<Seq<u8>>,
    d: Ghost<Seq<u8>>,
) -> (rest: Vec<u8>)
    requires
        w@.wf(),
        block == w@.block,
        lane@ == w@.held(a@, d@, s as nat),
        w@.whole(a@, s as nat) * w@.block <= w@.dealt(d@, s as nat).len(),
        tagged(old(out)@) == w@.all_filled(a@, d@, s as nat),
    ensures
        rest@ == w@.kept(d@, s as nat),
        tagged(final(out)@) == w@.all_filled(a@, d@, (s + 1) as nat),
{
    let ghost l = w@.dealt(d@, s as nat);
    let ghost from = w@.whole(a@, s as nat) as int;
    let ghost to = w@.whole(d@, s as nat) as int;
    let ghost bl = w@.block as int;
    let ghost first = out@;
    let total: usize = lane.len();
    let n: usize = total / block;
    proof {
        lemma_whole(w@, d@, s as nat);
        vstd::arithmetic::div_mod::lemma_hoist_over_denominator(
            lane@.len() as int,
            from,
            w@.block,
        );
        assert(from * bl + lane@.len() == l.len());
        assert(to == n + from);
    }
    let mut k: usize = 0;
    let mut pos: usize = 0;
    assert(tagged(out@) =~= tagged(first) + w@.filled(a@, d@, s as nat).take(0));
    assert(0 * bl == 0) by (nonlinear_arith);
    while k < n
        invariant
            k <= n,
            n == to - from,
            total == lane@.len(),
            bl == block,
            bl == w@.block,
            bl >= 1,
            pos == k * bl,
            from == w@.whole(a@, s as nat),
            to == w@.whole(d@, s as nat),
            l == w@.dealt(d@, s as nat),
            lane@ == l.skip(from * bl),
            from >= 0,
            from * bl + lane@.len() == l.len(),
            to * bl <= l.len(),
            tagged(out@) == tagged(first) + w@.filled(a@, d@, s as nat).take(k as int),
        decreases n - k,
    {
        proof {
            assert((k + 1) * bl == k * bl + bl && (k + 1) * bl <= n * bl && (from + k) * bl == from
                * bl + k * bl && (from + k + 1) * bl == from * bl + k * bl + bl && to * bl == from
                * bl + n * bl) by (nonlinear_arith)
                requires
                    k + 1 <= n,
                    bl >= 1,
                    n == to - from,
            ;
            assert(pos + bl <= lane@.len());
        }
        let mut one: Vec<u8> = Vec::new();
        let piece = &lane.as_slice()[pos..pos + block];
        one.extend_from_slice(piece);
        proof {
            assert(one@ =~= piece@);
            assert(piece@ =~= l.subrange((from + k) * bl, (from + k + 1) * bl));
            assert(piece@ == w@.cut(d@, s as nat, from + k));
        }
        let ghost before = out@;
        out.push((s, one));
        proof {
            let all = w@.filled(a@, d@, s as nat);
            assert(tagged(out@) =~= tagged(before).push((s as nat, piece@)));
            assert(all[k as int] == (s as nat, piece@));
            assert(all.take(k + 1) =~= all.take(k as int).push(all[k as int]));
            assert(tagged(out@) =~= tagged(first) + all.take(k + 1));
        }
        pos = pos + block;
        k += 1;
    }
    proof {
        let all = w@.filled(a@, d@, s as nat);
        assert(all.take(n as int) =~= all);
        assert(to * bl == from * bl + n * bl) by (nonlinear_arith)
            requires
                n == to - from,
        ;
    }
    let mut rest: Vec<u8> = Vec::new();
    let left = &lane.as_slice()[pos..total];
    rest.extend_from_slice(left);
    assert(rest@ =~= w@.kept(d@, s as nat));
    rest
}

} // verus!
