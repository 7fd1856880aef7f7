//! Streams of shuffled blocks, and how they are read back.

use crate::bytes;
use crate::codec::lanes;
use crate::codec::lanes::{Deal, LaneSplitter};
use crate::codec::merge;
use crate::codec::merge::Lanes;
use crate::codec::shuffle;
use crate::codec::stream;
use crate::crc;
use vstd::prelude::*;

verus! {

/// The records of blocks of lanes.
pub open spec fn lane_records(blocks: Seq<(nat, Seq<u8>)>, window: nat, version: u8) -> Seq<u8>
    decreases blocks.len(),
{
    if blocks.len() == 0 {
        Seq::empty()
    } else {
        stream::stream_record(blocks[0].1, window, version, blocks[0].0) + lane_records(
            blocks.skip(1),
            window,
            version,
        )
    }
}

/// The payload of data that comes in `parts` and is streamed in shuffled blocks.
pub open spec fn shuffled_stream(
    parts: Seq<Seq<u8>>,
    stride: nat,
    window: nat,
    block: nat,
    version: u8,
) -> Seq<u8> {
    let w = lanes::deal_of(lanes::flat(parts).len(), stride, block, version);
    let blocks = w.given(Seq::empty(), parts);
    bytes::le32(blocks.len()) + lane_records(blocks, window, version)
}

// ---- reading back ----

spec fn shown_all(version: u8, v: Seq<Seq<u8>>) -> Seq<Seq<u8>> {
    Seq::new(v.len(), |k: int| merge::shown(version, v[k]))
}

/// The blocks are of the lanes and not too long.
spec fn bounded(w: Deal, blocks: Seq<(nat, Seq<u8>)>) -> bool {
    forall|k: int|
        0 <= k < blocks.len() ==> (#[trigger] blocks[k]).0 < w.stride && blocks[k].1.len()
            <= w.block
}

/// The lanes and the blocks to come belong to the data.
spec fn fits(d: Seq<u8>, w: Deal, st: Lanes, blocks: Seq<(nat, Seq<u8>)>) -> bool {
    &&& w == lanes::deal_of(d.len(), w.stride, w.block, w.version)
    &&& 2 <= w.stride <= 256
    &&& 1 <= w.block <= u32::MAX
    &&& w.version < 3 || w.stride * w.groups == d.len()
    &&& st.wf()
    &&& st.stride == w.stride
    &&& st.orig == d.len()
    &&& st.version == w.version
    &&& st.left == blocks.len()
    &&& bounded(w, blocks)
}

/// All groups before `g` are done, and each lane has the rest of its share in blocks.
spec fn at_group(d: Seq<u8>, w: Deal, st: Lanes, blocks: Seq<(nat, Seq<u8>)>, g: nat) -> bool {
    &&& st.idx == g * w.stride
    &&& g < w.groups
    &&& g % w.block == 0
    &&& w.version < 3 ==> forall|s: int|
        0 <= s < w.stride ==> (#[trigger] st.prev[s]) == if g == 0 {
            0
        } else {
            d[(g - 1) * w.stride + s]
        }
    &&& forall|s: nat|
        s < w.stride ==> (#[trigger] st.queues[s as int]) + shown_all(
            w.version,
            lanes::of_lane(blocks, s),
        ) == shown_all(w.version, stream::pieces(w.dealt(d, s).skip(g as int), w.block))
}

/// All groups are done, and the last lane has the rest of the data.
spec fn at_rest(d: Seq<u8>, w: Deal, st: Lanes, blocks: Seq<(nat, Seq<u8>)>) -> bool {
    let q = st.queues[w.stride - 1] + lanes::of_lane(blocks, (w.stride - 1) as nat);
    &&& w.stride * w.groups <= st.idx <= d.len()
    &&& w.version < 3
    &&& lanes::flat(q) == d.skip(st.idx as int)
    &&& forall|k: int| 0 <= k < q.len() ==> (#[trigger] q[k]).len() > 0
}

spec fn on_the_way(d: Seq<u8>, w: Deal, st: Lanes, blocks: Seq<(nat, Seq<u8>)>) -> bool {
    ||| st.idx == d.len()
    ||| at_rest(d, w, st, blocks)
    ||| exists|g: nat| at_group(d, w, st, blocks, g)
}

/// The pieces make up the data, and none is empty.
pub proof fn lemma_flat_pieces(m: Seq<u8>, b: nat)
    requires
        b >= 1,
    ensures
        lanes::flat(stream::pieces(m, b)) == m,
        forall|k: int|
            0 <= k < stream::pieces(m, b).len() ==> (#[trigger] stream::pieces(m, b)[k]).len() > 0,
    decreases m.len(),
{
    let p = stream::pieces(m, b);
    if m.len() == 0 {
        assert(lanes::flat(p) =~= m);
    } else if m.len() <= b {
        assert(p.skip(1) =~= Seq::empty());
        assert(lanes::flat(p.skip(1)) =~= Seq::empty());
        assert(lanes::flat(p) =~= m);
    } else {
        let r = m.skip(b as int);
        lemma_flat_pieces(r, b);
        assert(p.skip(1) =~= stream::pieces(r, b));
        assert(lanes::flat(p) =~= m);
        assert forall|k: int| 0 <= k < p.len() implies (#[trigger] p[k]).len() > 0 by {
            if k > 0 {
                assert(p[k] == stream::pieces(r, b)[k - 1]);
            }
        }
    }
}

/// One block more.
proof fn lemma_fed(d: Seq<u8>, w: Deal, st: Lanes, blocks: Seq<(nat, Seq<u8>)>)
    requires
        fits(d, w, st, blocks),
        on_the_way(d, w, st, blocks),
        blocks.len() > 0,
    ensures
        ({
            let next = st.fed(blocks[0].0, blocks[0].1);
            &&& fits(d, w, next, blocks.skip(1))
            &&& on_the_way(d, w, next, blocks.skip(1))
            &&& next.idx == st.idx
        }),
{
    let (lane, data) = blocks[0];
    let next = st.fed(lane, data);
    let rest = blocks.skip(1);
    assert(lane < w.stride);
    assert forall|k: int| 0 <= k < rest.len() implies (#[trigger] rest[k]).0 < w.stride
        && rest[k].1.len() <= w.block by {
        assert(rest[k] == blocks[k + 1]);
    }
    if st.idx == d.len() {
    } else if at_rest(d, w, st, blocks) {
        let last = (w.stride - 1) as nat;
        let q = st.queues[last as int] + lanes::of_lane(blocks, last);
        let q2 = next.queues[last as int] + lanes::of_lane(rest, last);
        assert(q2 =~= q);
        assert(at_rest(d, w, next, rest));
    } else {
        let g = choose|g: nat| at_group(d, w, st, blocks, g);
        assert forall|s: nat| s < w.stride implies (#[trigger] next.queues[s as int]) + shown_all(
            w.version,
            lanes::of_lane(rest, s),
        ) == shown_all(w.version, stream::pieces(w.dealt(d, s).skip(g as int), w.block)) by {
            let a = st.queues[s as int] + shown_all(w.version, lanes::of_lane(blocks, s));
            let b = next.queues[s as int] + shown_all(w.version, lanes::of_lane(rest, s));
            assert(a =~= b);
        }
        assert(at_group(d, w, next, rest, g));
    }
}

/// The sums of a lane's shares are the data again, less what was taken off the first.
proof fn lemma_running(d: Seq<u8>, w: Deal, s: nat, g0: nat, f: Seq<u8>, g: nat)
    requires
        w.wf(),
        g0 % w.block == 0,
        g < f.len() <= w.block,
        forall|k: int| 0 <= k <= g ==> (#[trigger] f[k]) == w.share(d, s, g0 + k),
    ensures
        ({
            let x = d[(g0 as int + g) * w.stride + s] as int;
            let base = if w.version >= 3 || g0 == 0 {
                0
            } else {
                d[(g0 - 1) * w.stride + s] as int
            };
            shuffle::running(f, 0, g) == (x - base) % 256
        }),
    decreases g,
{
    let base = if w.version >= 3 || g0 == 0 {
        0
    } else {
        d[(g0 - 1) * w.stride + s] as int
    };
    let x = d[(g0 as int + g) * w.stride + s] as int;
    assert(f[g as int] == w.share(d, s, g0 as int + g));
    if g == 0 {
        assert(f[0] == w.share(d, s, g0 as int));
    } else {
        lemma_running(d, w, s, g0, f, (g - 1) as nat);
        let y = d[(g0 + g - 1) * w.stride + s] as int;
        assert((g0 as int + (g - 1)) * w.stride == (g0 + g - 1) * w.stride);
        assert((g0 as int + g) % (w.block as int) == g) by {
            vstd::arithmetic::div_mod::lemma_fundamental_div_mod(g0 as int, w.block as int);
            vstd::arithmetic::div_mod::lemma_mod_multiples_vanish(
                g0 as int / w.block as int,
                g as int,
                w.block as int,
            );
            vstd::arithmetic::div_mod::lemma_small_mod(g, w.block);
        }
        assert(f[g as int] == (x - y) % 256);
        vstd::arithmetic::div_mod::lemma_add_mod_noop(y - base, x - y, 256);
    }
}

/// The first block of each lane.
proof fn lemma_front(d: Seq<u8>, w: Deal, st: Lanes, blocks: Seq<(nat, Seq<u8>)>, g: nat, s: nat)
    requires
        fits(d, w, st, blocks),
        at_group(d, w, st, blocks, g),
        !st.hungry(),
        s < w.stride,
    ensures
        ({
            let m = w.dealt(d, s).skip(g as int);
            let p = stream::pieces(m, w.block);
            let f = m.take(merge::lesser(w.block, m.len()) as int);
            &&& m.len() >= w.groups - g
            &&& s + 1 < w.stride ==> m.len() == w.groups - g
            &&& st.queues[s as int].len() > 0
            &&& p.len() > 0
            &&& p[0] == f
            &&& st.queues[s as int][0] == merge::shown(w.version, f)
        }),
{
    lanes::lemma_dealt(d, w.stride, w.block, w.version, s);
    let l = w.dealt(d, s);
    let m = l.skip(g as int);
    let p = stream::pieces(m, w.block);
    let f = m.take(merge::lesser(w.block, m.len()) as int);
    if m.len() <= w.block {
        assert(f =~= m);
    }
    assert(p[0] == f);
    let q = st.queues[s as int];
    let r = shown_all(w.version, lanes::of_lane(blocks, s));
    assert(q + r == shown_all(w.version, p));
    if st.left == 0 {
        assert(r =~= Seq::empty());
        assert(q + r =~= q);
    } else {
        assert(!st.lacking());
    }
    assert(q.len() > 0);
    assert((q + r)[0] == q[0]);
    assert(shown_all(w.version, p)[0] == merge::shown(w.version, f));
}

/// What a lane gives next.
proof fn lemma_value(
    d: Seq<u8>,
    w: Deal,
    st: Lanes,
    blocks: Seq<(nat, Seq<u8>)>,
    g0: nat,
    s: nat,
    g: nat,
)
    requires
        fits(d, w, st, blocks),
        at_group(d, w, st, blocks, g0),
        !st.hungry(),
        s < w.stride,
        g < w.block,
        g0 + g < w.groups,
    ensures
        st.value(s as int, g) == d[(g0 as int + g) * w.stride + s],
{
    lemma_front(d, w, st, blocks, g0, s);
    lanes::lemma_dealt(d, w.stride, w.block, w.version, s);
    let l = w.dealt(d, s);
    let m = l.skip(g0 as int);
    let f = m.take(merge::lesser(w.block, m.len()) as int);
    assert forall|k: int| 0 <= k <= g implies (#[trigger] f[k]) == w.share(d, s, g0 + k) by {
        assert(f[k] == l[g0 + k]);
    }
    lemma_running(d, w, s, g0, f, g);
    let x = d[(g0 as int + g) * w.stride + s] as int;
    if w.version >= 3 {
        assert(merge::summed(f)[g as int] == shuffle::running(f, 0, g));
    } else {
        let base = st.prev[s as int] as int;
        vstd::arithmetic::div_mod::lemma_add_mod_noop(base, x - base, 256);
        vstd::arithmetic::div_mod::lemma_small_mod(base as nat, 256);
        vstd::arithmetic::div_mod::lemma_small_mod(x as nat, 256);
    }
}

/// The lanes have what the next groups need.
proof fn lemma_ready(d: Seq<u8>, w: Deal, st: Lanes, blocks: Seq<(nat, Seq<u8>)>, g: nat)
    requires
        fits(d, w, st, blocks),
        at_group(d, w, st, blocks, g),
        !st.hungry(),
    ensures
        st.groups() == w.groups,
        st.idx / st.stride == g,
        st.idx < st.stride * st.groups(),
        !st.lacking(),
        st.count() == merge::lesser(w.block, (w.groups - g) as nat),
        st.count() > 0,
        !st.short(),
{
    vstd::arithmetic::div_mod::lemma_fundamental_div_mod_converse(
        st.idx as int,
        w.stride as int,
        g as int,
        0,
    );
    assert(g * w.stride < w.stride * w.groups) by (nonlinear_arith)
        requires
            g < w.groups,
            w.stride >= 2,
    ;
    assert forall|s: int| 0 <= s < w.stride implies (#[trigger] st.queues[s]).len() != 0 by {
        lemma_front(d, w, st, blocks, g, s as nat);
    }
    lemma_front(d, w, st, blocks, g, 0);
    assert(st.count() == merge::lesser(w.block, (w.groups - g) as nat));
    assert forall|s: int| 0 <= s < w.stride implies (#[trigger] st.queues[s])[0].len()
        >= st.count() by {
        lemma_front(d, w, st, blocks, g, s as nat);
    }
}

/// The next groups are the data.
proof fn lemma_joined(d: Seq<u8>, w: Deal, st: Lanes, blocks: Seq<(nat, Seq<u8>)>, g: nat)
    requires
        fits(d, w, st, blocks),
        at_group(d, w, st, blocks, g),
        !st.hungry(),
    ensures
        st.idx + st.count() * st.stride <= d.len(),
        st.joined(st.count()) == d.subrange(
            st.idx as int,
            (st.idx + st.count() * st.stride) as int,
        ),
{
    lemma_ready(d, w, st, blocks, g);
    lanes::lemma_dealt(d, w.stride, w.block, w.version, 0);
    let c = st.count();
    let m = w.stride as int;
    assert(g * m + c * m <= m * w.groups) by (nonlinear_arith)
        requires
            g + c <= w.groups,
            m >= 2,
    ;
    let want = d.subrange(st.idx as int, (st.idx + c * st.stride) as int);
    assert forall|i: int| 0 <= i < c * m implies st.joined(c)[i] == want[i] by {
        let s = i % m;
        let k = i / m;
        vstd::arithmetic::div_mod::lemma_fundamental_div_mod(i, m);
        vstd::arithmetic::div_mod::lemma_mod_bound(i, m);
        assert(0 <= k < c) by (nonlinear_arith)
            requires
                i == m * k + s,
                0 <= s < m,
                0 <= i < c * m,
        ;
        lemma_value(d, w, st, blocks, g, s as nat, k as nat);
        assert((g as int + k) * m + s == g * m + i) by (nonlinear_arith)
            requires
                i == m * k + s,
        ;
    }
    assert(st.joined(c) =~= want);
}

/// Behind the next groups the lanes are on the way again.
proof fn lemma_after(d: Seq<u8>, w: Deal, st: Lanes, blocks: Seq<(nat, Seq<u8>)>, g: nat)
    requires
        fits(d, w, st, blocks),
        at_group(d, w, st, blocks, g),
        !st.hungry(),
    ensures
        fits(d, w, st.after(st.count()), blocks),
        on_the_way(d, w, st.after(st.count()), blocks),
{
    lemma_ready(d, w, st, blocks, g);
    let c = st.count();
    let next = st.after(c);
    let g1 = g + c;
    assert(next.idx == g1 * w.stride) by (nonlinear_arith)
        requires
            next.idx == g * w.stride + c * w.stride,
            g1 == g + c,
    ;
    if g1 < w.groups {
        assert(c == w.block);
        assert(g1 % w.block == 0) by {
            vstd::arithmetic::div_mod::lemma_mod_add_multiples_vanish(g as int, w.block as int);
        }
        if w.version < 3 {
            assert forall|s: int| 0 <= s < w.stride implies (#[trigger] next.prev[s]) == d[(g1 - 1)
                * w.stride + s] by {
                lemma_value(d, w, st, blocks, g, s as nat, (c - 1) as nat);
            }
        }
        assert forall|s: nat| s < w.stride implies (#[trigger] next.queues[s as int]) + shown_all(
            w.version,
            lanes::of_lane(blocks, s),
        ) == shown_all(w.version, stream::pieces(w.dealt(d, s).skip(g1 as int), w.block)) by {
            lemma_front(d, w, st, blocks, g, s);
            lanes::lemma_dealt(d, w.stride, w.block, w.version, s);
            let m = w.dealt(d, s).skip(g as int);
            let p = stream::pieces(m, w.block);
            let r = shown_all(w.version, lanes::of_lane(blocks, s));
            let q = st.queues[s as int];
            assert(q + r == shown_all(w.version, p));
            assert(m.skip(w.block as int) =~= w.dealt(d, s).skip(g1 as int));
            assert(p.skip(1) =~= stream::pieces(m.skip(w.block as int), w.block));
            assert(shown_all(w.version, p).skip(1) =~= shown_all(w.version, p.skip(1)));
            assert((q + r).skip(1) =~= q.skip(1) + r);
            assert(next.queues[s as int] == q.skip(1));
        }
        assert(at_group(d, w, next, blocks, g1));
    } else {
        assert(g1 == w.groups);
        assert(next.idx == w.stride * w.groups) by (nonlinear_arith)
            requires
                next.idx == g1 * w.stride,
                g1 == w.groups,
        ;
        let last = (w.stride - 1) as nat;
        lanes::lemma_dealt(d, w.stride, w.block, w.version, last);
        if next.idx != d.len() {
            lemma_front(d, w, st, blocks, g, last);
            let m = w.dealt(d, last).skip(g as int);
            let p = stream::pieces(m, w.block);
            let r = lanes::of_lane(blocks, last);
            let q = st.queues[last as int];
            assert(shown_all(w.version, r) =~= r);
            assert(shown_all(w.version, p) =~= p);
            assert(q + r == p);
            lemma_flat_pieces(m, w.block);
            let f = p[0];
            let q2 = next.queues[last as int] + r;
            assert(f + lanes::flat(p.skip(1)) == m);
            assert(m.skip(c as int) =~= w.dealt(d, last).skip(w.groups as int));
            assert((q + r).skip(1) =~= q.skip(1) + r);
            if f.len() > c {
                let t = f.skip(c as int);
                assert(q2 =~= seq![t] + p.skip(1));
                assert(q2.skip(1) =~= p.skip(1));
                assert(lanes::flat(q2) =~= m.skip(c as int));
            } else {
                assert(q2 =~= p.skip(1));
                assert(lanes::flat(q2) =~= m.skip(c as int));
            }
            assert forall|k: int| 0 <= k < q2.len() implies (#[trigger] q2[k]).len() > 0 by {
                if f.len() > c {
                    if k > 0 {
                        assert(q2[k] == p[k]);
                    }
                } else {
                    assert(q2[k] == p[k + 1]);
                }
            }
            assert(at_rest(d, w, next, blocks));
        }
    }
}

/// Lanes on the way give the rest of the data.
proof fn lemma_lanes_back(
    d: Seq<u8>,
    w: Deal,
    st: Lanes,
    blocks: Seq<(nat, Seq<u8>)>,
    window: nat,
    after: Seq<u8>,
)
    requires
        fits(d, w, st, blocks),
        on_the_way(d, w, st, blocks),
        1 <= window <= usize::MAX,
        w.block <= usize::MAX,
    ensures
        merge::lanes_rest(st, lane_records(blocks, window, w.version) + after) == Ok::<
            Seq<u8>,
            Seq<char>,
        >(d.skip(st.idx as int)),
    decreases blocks.len(), st.to_do(),
{
    let input = lane_records(blocks, window, w.version) + after;
    if st.idx == d.len() {
        assert(d.skip(st.idx as int) =~= Seq::empty());
    } else {
        assert(st.idx < d.len()) by {
            if !at_rest(d, w, st, blocks) {
                let g = choose|g: nat| at_group(d, w, st, blocks, g);
                lanes::lemma_dealt(d, w.stride, w.block, w.version, 0);
                assert(g * w.stride < w.stride * w.groups) by (nonlinear_arith)
                    requires
                        g < w.groups,
                        w.stride >= 2,
                ;
            }
        }
        if st.hungry() {
            let (lane, data) = blocks[0];
            let rest = blocks.skip(1);
            let more = lane_records(rest, window, w.version) + after;
            assert(input =~= stream::stream_record(data, window, w.version, lane) + more);
            stream::lemma_stream_record(data, window, w.version, lane, more);
            vstd::arithmetic::div_mod::lemma_small_mod(lane, 256);
            lemma_fed(d, w, st, blocks);
            lemma_lanes_back(d, w, st.fed(lane, data), rest, window, after);
        } else if at_rest(d, w, st, blocks) {
            lemma_rest_piece(d, w, st, blocks);
            let (data, next) = st.piece()->0;
            lemma_lanes_back(d, w, next, blocks, window, after);
            assert(data + d.skip(next.idx as int) =~= d.skip(st.idx as int));
        } else {
            let g = choose|g: nat| at_group(d, w, st, blocks, g);
            lemma_ready(d, w, st, blocks, g);
            lemma_joined(d, w, st, blocks, g);
            lemma_after(d, w, st, blocks, g);
            let c = st.count();
            let next = st.after(c);
            assert(c * st.stride > 0) by (nonlinear_arith)
                requires
                    c > 0,
                    st.stride >= 2,
            ;
            lemma_lanes_back(d, w, next, blocks, window, after);
            assert(st.joined(c) + d.skip(next.idx as int) =~= d.skip(st.idx as int));
        }
    }
}

/// The next block of the last lane is the next of the rest.
proof fn lemma_rest_piece(d: Seq<u8>, w: Deal, st: Lanes, blocks: Seq<(nat, Seq<u8>)>)
    requires
        fits(d, w, st, blocks),
        at_rest(d, w, st, blocks),
        st.idx < d.len(),
        !st.hungry(),
    ensures
        st.piece() is Some,
        ({
            let (data, next) = st.piece()->0;
            &&& data.len() > 0
            &&& next.idx == st.idx + data.len()
            &&& next.idx <= d.len()
            &&& data == d.subrange(st.idx as int, next.idx as int)
            &&& fits(d, w, next, blocks)
            &&& at_rest(d, w, next, blocks)
        }),
{
    let last = w.stride - 1;
    let r = lanes::of_lane(blocks, last as nat);
    let q = st.queues[last] + r;
    if st.left == 0 {
        assert(r =~= Seq::empty());
        assert(q =~= st.queues[last]);
    } else {
        assert(st.queues[last].len() > 0);
    }
    assert(q.len() > 0) by {
        if q.len() == 0 {
            assert(d.skip(st.idx as int).len() == 0);
        }
    }
    let f = st.queues[last][0];
    assert(q[0] == f);
    assert(f + lanes::flat(q.skip(1)) == d.skip(st.idx as int));
    assert((f + lanes::flat(q.skip(1))).len() == d.skip(st.idx as int).len());
    assert(f.len() <= d.len() - st.idx);
    assert(f.take(f.len() as int) =~= f);
    let (data, next) = st.piece()->0;
    assert(data == f);
    assert(data =~= d.subrange(st.idx as int, next.idx as int)) by {
        assert forall|k: int| 0 <= k < f.len() implies f[k] == d[st.idx + k] by {
            assert((f + lanes::flat(q.skip(1)))[k] == d.skip(st.idx as int)[k]);
        }
    }
    let q2 = next.queues[last] + r;
    assert(q2 =~= q.skip(1));
    assert(lanes::flat(q2) =~= d.skip(next.idx as int)) by {
        assert forall|k: int| 0 <= k < d.len() - next.idx implies lanes::flat(q2)[k]
            == d[next.idx + k] by {
            assert((f + lanes::flat(q.skip(1)))[f.len() + k] == d.skip(st.idx as int)[f.len() + k]);
        }
        assert((f + lanes::flat(q.skip(1))).len() == d.skip(st.idx as int).len());
    }
    assert forall|k: int| 0 <= k < q2.len() implies (#[trigger] q2[k]).len() > 0 by {
        assert(q2[k] == q[k + 1]);
    }
}

/// What is given away keeps within its bounds.
proof fn lemma_given_bounded(w: Deal, a: Seq<u8>, parts: Seq<Seq<u8>>)
    requires
        w.wf(),
    ensures
        bounded(w, w.given(a, parts)),
    decreases parts.len(),
{
    if parts.len() == 0 {
        lemma_leftover_bounded(w, a, w.stride);
    } else {
        lemma_given_bounded(w, a + parts[0], parts.skip(1));
        lemma_filled_bounded(w, a, parts[0], w.stride);
    }
}

proof fn lemma_leftover_bounded(w: Deal, d: Seq<u8>, k: nat)
    requires
        w.wf(),
        k <= w.stride,
    ensures
        bounded(w, w.leftover(d, k)),
    decreases k,
{
    if k > 0 {
        lemma_leftover_bounded(w, d, (k - 1) as nat);
        lanes::lemma_kept_short(w, d, (k - 1) as nat);
    }
}

proof fn lemma_filled_bounded(w: Deal, a: Seq<u8>, b: Seq<u8>, k: nat)
    requires
        w.wf(),
        k <= w.stride,
    ensures
        bounded(w, w.all_filled(a, a + b, k)),
    decreases k,
{
    let d = a + b;
    if k > 0 {
        lemma_filled_bounded(w, a, b, (k - 1) as nat);
        let s = (k - 1) as nat;
        lanes::lemma_whole_grows(w, a, b, s);
        let v = w.filled(a, d, s);
        assert forall|i: int| 0 <= i < v.len() implies (#[trigger] v[i]).0 < w.stride
            && v[i].1.len() <= w.block by {
            lanes::lemma_cut_len(w, d, s, w.whole(a, s) + i);
        }
    }
}

/// A stream of shuffled blocks is read back as the data, however the data came in and whatever
/// follows the stream. Where each block is summed up on its own, from version 3 on, this holds
/// of data in whole groups.
pub proof fn lemma_shuffled_roundtrip(
    parts: Seq<Seq<u8>>,
    stride: nat,
    window: nat,
    block: nat,
    version: u8,
    after: Seq<u8>,
)
    requires
        2 <= stride <= 256,
        1 <= window <= usize::MAX,
        1 <= block <= u32::MAX,
        block <= usize::MAX,
        version < 3 || lanes::flat(parts).len() % stride == 0,
        lanes::deal_of(lanes::flat(parts).len(), stride, block, version).given(
            Seq::empty(),
            parts,
        ).len() <= u32::MAX,
    ensures
        merge::shuffled_rest(
            stride,
            lanes::flat(parts).len(),
            version,
            shuffled_stream(parts, stride, window, block, version) + after,
        ) == Ok::<Seq<u8>, Seq<char>>(lanes::flat(parts)),
{
    let d = lanes::flat(parts);
    let w = lanes::deal_of(d.len(), stride, block, version);
    let blocks = w.given(Seq::empty(), parts);
    let input = shuffled_stream(parts, stride, window, block, version) + after;
    let st = merge::no_lanes(stride, d.len(), version, blocks.len());
    assert(input.subrange(0, 4) =~= bytes::le32(blocks.len()));
    bytes::lemma_u32_at(input, 0, blocks.len());
    assert(input.skip(4) =~= lane_records(blocks, window, version) + after);
    vstd::arithmetic::div_mod::lemma_fundamental_div_mod(d.len() as int, stride as int);
    lemma_given_bounded(w, Seq::empty(), parts);
    assert(Seq::<u8>::empty() + d =~= d);
    assert forall|s: nat| s < stride implies #[trigger] lanes::of_lane(blocks, s) == stream::pieces(
        w.dealt(d, s),
        block,
    ) by {
        lanes::lemma_lane_blocks(w, Seq::empty(), parts, s);
        lanes::lemma_whole_none(w, s);
        assert(w.held(Seq::empty(), d, s) =~= w.dealt(d, s));
    }
    if d.len() == 0 {
    } else if w.groups > 0 {
        assert(0 * w.stride == 0) by (nonlinear_arith);
        vstd::arithmetic::div_mod::lemma_small_mod(0, w.block);
        assert forall|s: nat| s < w.stride implies (#[trigger] st.queues[s as int]) + shown_all(
            w.version,
            lanes::of_lane(blocks, s),
        ) == shown_all(w.version, stream::pieces(w.dealt(d, s).skip(0), w.block)) by {
            assert(w.dealt(d, s).skip(0) =~= w.dealt(d, s));
            let r = shown_all(w.version, lanes::of_lane(blocks, s));
            assert(st.queues[s as int] + r =~= r);
        }
        assert(at_group(d, w, st, blocks, 0));
    } else {
        assert(stride * w.groups == 0) by (nonlinear_arith)
            requires
                w.groups == 0,
        ;
        let last = (stride - 1) as nat;
        lanes::lemma_dealt(d, stride, block, version, last);
        let l = w.dealt(d, last);
        assert(l.skip(0) =~= l);
        assert(d.skip(0) =~= d);
        let r = lanes::of_lane(blocks, last);
        assert(st.queues[last as int] + r =~= r);
        lemma_flat_pieces(l, block);
        assert(at_rest(d, w, st, blocks));
    }
    lemma_lanes_back(d, w, st, blocks, window, after);
    assert(d.skip(0) =~= d);
}

// ---- the computation ----

proof fn lemma_lane_records_push(
    blocks: Seq<(nat, Seq<u8>)>,
    b: (nat, Seq<u8>),
    window: nat,
    version: u8,
)
    ensures
        lane_records(blocks.push(b), window, version) == lane_records(blocks, window, version)
            + stream::stream_record(b.1, window, version, b.0),
    decreases blocks.len(),
{
    let r = stream::stream_record(b.1, window, version, b.0);
    if blocks.len() == 0 {
        let one = blocks.push(b);
        assert(one.skip(1) =~= Seq::empty());
        assert(lane_records(one.skip(1), window, version) =~= Seq::empty());
        assert(one[0] == b);
        assert(r + Seq::<u8>::empty() =~= Seq::<u8>::empty() + r);
    } else {
        lemma_lane_records_push(blocks.skip(1), b, window, version);
        assert(blocks.push(b).skip(1) =~= blocks.skip(1).push(b));
        assert(blocks.push(b)[0] == blocks[0]);
        assert(lane_records(blocks.push(b), window, version) =~= lane_records(
            blocks,
            window,
            version,
        ) + r);
    }
}

/// Appends the records of blocks of lanes.
fn push_records(
    out: &mut Vec<u8>,
    blocks: &Vec<(usize, Vec<u8>)>,
    window_size: usize,
    version: u8,
    before: Ghost<Seq<(nat, Seq<u8>)>>,
)
    requires
        window_size >= 1,
        old(out)@ == lane_records(before@, window_size as nat, version),
    ensures
        final(out)@ == lane_records(
            before@ + lanes::tagged(blocks@),
            window_size as nat,
            version,
        ),
{
    let n: usize = blocks.len();
    let ghost all = lanes::tagged(blocks@);
    let mut i: usize = 0;
    assert(before@ + all.take(0) =~= before@);
    while i < n
        invariant
            i <= n,
            n == blocks@.len(),
            all == lanes::tagged(blocks@),
            window_size >= 1,
            out@ == lane_records(before@ + all.take(i as int), window_size as nat, version),
        decreases n - i,
    {
        let (lane, block) = &blocks[i];
        let mut r = stream::encode_alone(block.as_slice(), window_size, version, *lane);
        out.append(&mut r);
        proof {
            lemma_lane_records_push(
                before@ + all.take(i as int),
                all[i as int],
                window_size as nat,
                version,
            );
            assert(before@ + all.take(i + 1) =~= (before@ + all.take(i as int)).push(
                all[i as int],
            ));
        }
        i += 1;
    }
    assert(all.take(n as int) =~= all);
}

proof fn lemma_flat_push(parts: Seq<Seq<u8>>, p: Seq<u8>)
    ensures
        lanes::flat(parts.push(p)) == lanes::flat(parts) + p,
    decreases parts.len(),
{
    if parts.len() == 0 {
        let one = parts.push(p);
        assert(one.skip(1) =~= Seq::empty());
        assert(lanes::flat(one.skip(1)) =~= Seq::empty());
        assert(lanes::flat(one) =~= lanes::flat(parts) + p);
    } else {
        lemma_flat_push(parts.skip(1), p);
        assert(parts.push(p).skip(1) =~= parts.skip(1).push(p));
        assert(lanes::flat(parts.push(p)) =~= lanes::flat(parts) + p);
    }
}

/// What is given away by the time that some parts are in.
spec fn given_by(w: Deal, a: Seq<u8>, parts: Seq<Seq<u8>>) -> Seq<(nat, Seq<u8>)>
    decreases parts.len(),
{
    if parts.len() == 0 {
        Seq::empty()
    } else {
        w.all_filled(a, a + parts[0], w.stride) + given_by(w, a + parts[0], parts.skip(1))
    }
}

proof fn lemma_given_by_push(w: Deal, a: Seq<u8>, parts: Seq<Seq<u8>>, p: Seq<u8>)
    ensures
        given_by(w, a, parts.push(p)) == given_by(w, a, parts) + w.all_filled(
            a + lanes::flat(parts),
            a + lanes::flat(parts) + p,
            w.stride,
        ),
    decreases parts.len(),
{
    let all = parts.push(p);
    if parts.len() == 0 {
        assert(all.skip(1) =~= Seq::empty());
        assert(a + lanes::flat(parts) =~= a);
        assert(given_by(w, a + p, all.skip(1)) =~= Seq::empty());
        assert(given_by(w, a, all) =~= given_by(w, a, parts) + w.all_filled(a, a + p, w.stride));
    } else {
        let e = a + parts[0];
        lemma_given_by_push(w, e, parts.skip(1), p);
        assert(all.skip(1) =~= parts.skip(1).push(p));
        assert(all[0] == parts[0]);
        assert(e + lanes::flat(parts.skip(1)) =~= a + lanes::flat(parts));
        assert(given_by(w, a, all) =~= given_by(w, a, parts) + w.all_filled(
            a + lanes::flat(parts),
            a + lanes::flat(parts) + p,
            w.stride,
        ));
    }
}

proof fn lemma_given_by_grows(w: Deal, a: Seq<u8>, x: Seq<Seq<u8>>, y: Seq<Seq<u8>>)
    ensures
        given_by(w, a, x).len() <= given_by(w, a, x + y).len(),
    decreases x.len(),
{
    if x.len() > 0 {
        lemma_given_by_grows(w, a + x[0], x.skip(1), y);
        assert((x + y).skip(1) =~= x.skip(1) + y);
    }
}

proof fn lemma_given_by(w: Deal, a: Seq<u8>, parts: Seq<Seq<u8>>)
    ensures
        w.given(a, parts) == given_by(w, a, parts) + w.leftover(
            a + lanes::flat(parts),
            w.stride,
        ),
    decreases parts.len(),
{
    if parts.len() == 0 {
        assert(a + lanes::flat(parts) =~= a);
        assert(given_by(w, a, parts) + w.leftover(a, w.stride) =~= w.leftover(a, w.stride));
    } else {
        lemma_given_by(w, a + parts[0], parts.skip(1));
        assert(a + parts[0] + lanes::flat(parts.skip(1)) =~= a + lanes::flat(parts));
        assert(w.given(a, parts) =~= given_by(w, a, parts) + w.leftover(
            a + lanes::flat(parts),
            w.stride,
        ));
    }
}

/// Streams data in shuffled blocks, as it comes in parts of `part_size` bytes. The payload starts
/// with the number of blocks. There are no more blocks than fit in 32 bits.
pub fn compress_stream_shuffled_blocked(
    data: &[u8],
    stride: usize,
    window_size: usize,
    block_size: usize,
    version: u8,
    part_size: usize,
) -> (r: (Vec<u8>, u32, u32))
    requires
        stride >= 1,
        window_size >= 1,
        block_size >= 1,
        part_size >= 1,
        lanes::deal_of(data@.len(), stride as nat, block_size as nat, version).given(
            Seq::empty(),
            stream::pieces(data@, part_size as nat),
        ).len() <= u32::MAX,
    ensures
        r.0@ == shuffled_stream(
            stream::pieces(data@, part_size as nat),
            stride as nat,
            window_size as nat,
            block_size as nat,
            version,
        ),
        r.1 == crc::crc_of(data@),
        r.2 == lanes::deal_of(data@.len(), stride as nat, block_size as nat, version).given(
            Seq::empty(),
            stream::pieces(data@, part_size as nat),
        ).len(),
{
    let n: usize = data.len();
    let ghost parts = stream::pieces(data@, part_size as nat);
    let ghost w = lanes::deal_of(n as nat, stride as nat, block_size as nat, version);
    let ghost mut done: Seq<Seq<u8>> = Seq::empty();
    let mut splitter = LaneSplitter::new(n as u64, stride, block_size, version);
    let mut body: Vec<u8> = Vec::new();
    let mut count: usize = 0;
    let mut sum: u32 = 0;
    let mut i: usize = 0;
    proof {
        lemma_flat_pieces(data@, part_size as nat);
        lemma_given_by(w, Seq::empty(), parts);
        crc::lemma_crc_parts(Seq::empty(), Seq::empty());
        assert(data@.take(0) =~= Seq::<u8>::empty());
        assert(data@.skip(0) =~= data@);
        assert(done + parts =~= parts);
        assert(Seq::<u8>::empty() + data@ =~= data@);
    }
    while i < n
        invariant
            n == data@.len(),
            i <= n,
            n <= u64::MAX,
            window_size >= 1,
            part_size >= 1,
            given_by(w, Seq::empty(), parts).len() <= u32::MAX,
            splitter.wf(),
            splitter.deal() == w,
            splitter.seen() == data@.take(i as int),
            lanes::flat(done) == data@.take(i as int),
            parts == done + stream::pieces(data@.skip(i as int), part_size as nat),
            body@ == lane_records(
                given_by(w, Seq::empty(), done),
                window_size as nat,
                version,
            ),
            count == given_by(w, Seq::empty(), done).len(),
            sum == crc::crc_of(data@.take(i as int)),
        decreases n - i,
    {
        let e: usize = if n - i <= part_size {
            n
        } else {
            i + part_size
        };
        let part = &data[i..e];
        proof {
            let rest = data@.skip(i as int);
            assert(part@ =~= rest.take(e - i));
            assert(rest.take(rest.len() as int) =~= rest);
            assert(rest.skip(e - i) =~= data@.skip(e as int));
            assert(stream::pieces(data@.skip(n as int), part_size as nat) =~= Seq::empty());
            let more = stream::pieces(data@.skip(e as int), part_size as nat);
            assert(stream::pieces(rest, part_size as nat) =~= seq![part@] + more);
            assert(done + (seq![part@] + more) =~= done.push(part@) + more);
            crc::lemma_crc_parts(data@.take(i as int), part@);
            assert(data@.take(i as int) + part@ =~= data@.take(e as int));
            lemma_flat_push(done, part@);
            lemma_given_by_push(w, Seq::empty(), done, part@);
            lemma_given_by_grows(w, Seq::empty(), done.push(part@), more);
            assert(Seq::<u8>::empty() + data@.take(i as int) =~= data@.take(i as int));
        }
        sum = crc::crc32_update(sum, part);
        let blocks = splitter.split(part);
        push_records(
            &mut body,
            &blocks,
            window_size,
            version,
            Ghost(given_by(w, Seq::empty(), done)),
        );
        count = count + blocks.len();
        proof {
            done = done.push(part@);
        }
        i = e;
    }
    proof {
        assert(data@.take(n as int) =~= data@);
        assert(stream::pieces(data@.skip(n as int), part_size as nat) =~= Seq::empty());
        assert(done =~= parts);
    }
    let blocks = splitter.finish();
    push_records(
        &mut body,
        &blocks,
        window_size,
        version,
        Ghost(given_by(w, Seq::empty(), done)),
    );
    count = count + blocks.len();
    let mut out: Vec<u8> = Vec::new();
    bytes::push_u32(&mut out, count as u64);
    out.append(&mut body);
    assert(out@ =~= shuffled_stream(
        parts,
        stride as nat,
        window_size as nat,
        block_size as nat,
        version,
    ));
    (out, sum, count as u32)
}

// ---- what is streamed ----

/// Lane `s` of the data: the `s`-th byte of each group less that of the group before, modulo 256,
/// and for the last lane all bytes behind the last whole group.
pub open spec fn lane_of(d: Seq<u8>, stride: nat, s: nat) -> Seq<u8> {
    let m = d.len() / stride;
    let share = Seq::new(
        m,
        |g: int|
            ((d[g * stride + s] - if g == 0 {
                0
            } else {
                d[(g - 1) * stride + s] as int
            }) % 256) as u8,
    );
    if s + 1 == stride {
        share + d.skip((stride * m) as int)
    } else {
        share
    }
}

/// The records of lane blocks one after the other, as each comes with its lane.
pub open spec fn is_stream_of(payload: Seq<u8>, blocks: Seq<(nat, Seq<u8>)>, window: nat) -> bool {
    payload == bytes::le32(blocks.len()) + lane_records(blocks, window, 1)
}

/// Shuffled data is streamed in the blocks of its lanes: each lane is cut into blocks of the size
/// that is asked for, and its blocks come in their order, whatever comes between them.
pub proof fn lemma_lanes_streamed(
    d: Seq<u8>,
    part: nat,
    stride: nat,
    window: nat,
    block: nat,
)
    requires
        part >= 1,
        stride >= 1,
        block >= 1,
    ensures
        exists|blocks: Seq<(nat, Seq<u8>)>|
            {
                &&& #[trigger] is_stream_of(
                    shuffled_stream(stream::pieces(d, part), stride, window, block, 1),
                    blocks,
                    window,
                )
                &&& forall|s: nat|
                    s < stride ==> #[trigger] lanes::of_lane(blocks, s) == stream::pieces(
                        lane_of(d, stride, s),
                        block,
                    )
            },
{
    let parts = stream::pieces(d, part);
    lemma_flat_pieces(d, part);
    let w = lanes::deal_of(d.len(), stride, block, 1);
    let none = Seq::<u8>::empty();
    let blocks = w.given(none, parts);
    assert(none + d =~= d);
    assert forall|s: nat| s < stride implies #[trigger] lanes::of_lane(blocks, s)
        == stream::pieces(lane_of(d, stride, s), block) by {
        lanes::lemma_lane_blocks(w, none, parts, s);
        lanes::lemma_dealt(d, stride, block, 1, s);
        let l = w.dealt(d, s);
        assert(w.dealt(none, s).len() == 0);
        assert(0nat / block == 0) by (nonlinear_arith)
            requires
                block >= 1,
        ;
        assert(0 * block as int == 0);
        assert(w.held(none, d, s) =~= l);
        let m = d.len() / stride;
        let want = lane_of(d, stride, s);
        assert(l.len() == want.len());
        assert forall|g: int| 0 <= g < l.len() implies l[g] == want[g] by {
            if g < m {
                assert(l[g] == w.share(d, s, g));
            } else {
                assert(l.skip(m as int)[g - m] == l[g]);
            }
        }
        assert(l =~= want);
    }
    assert(is_stream_of(
        shuffled_stream(stream::pieces(d, part), stride, window, block, 1),
        blocks,
        window,
    ));
}

} // verus!
