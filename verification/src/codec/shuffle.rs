//! Bytes sorted by their place in groups of `stride` bytes.
//!
//! All first bytes of the groups come first, then all second bytes, and so on,
//! each as the difference to the one before it. Bytes that do not fill a group
//! stay at the end as they are.

use vstd::prelude::*;

verus! {

/// The number of whole groups.
pub open spec fn groups(n: nat, stride: nat) -> nat {
    n / stride
}

/// The `s`-th byte of group `g`, less that of the group before.
pub open spec fn delta(data: Seq<u8>, stride: nat, s: nat, g: int) -> u8 {
    let x = data[g * stride + s] as int;
    let before = if g > 0 {
        data[(g - 1) * stride + s] as int
    } else {
        0
    };
    ((x - before) % 256) as u8
}

pub open spec fn lane(data: Seq<u8>, stride: nat, s: nat) -> Seq<u8> {
    Seq::new(groups(data.len(), stride), |g: int| delta(data, stride, s, g))
}

/// The first `k` lanes.
pub open spec fn lanes(data: Seq<u8>, stride: nat, k: nat) -> Seq<u8>
    decreases k,
{
    if k == 0 {
        Seq::empty()
    } else {
        lanes(data, stride, (k - 1) as nat) + lane(data, stride, (k - 1) as nat)
    }
}

/// The bytes behind the last whole group.
pub open spec fn remainder(data: Seq<u8>, stride: nat) -> Seq<u8> {
    data.skip(groups(data.len(), stride) * stride as int)
}

pub open spec fn shuffled(data: Seq<u8>, stride: nat) -> Seq<u8> {
    lanes(data, stride, stride) + remainder(data, stride)
}

/// The sum of the bytes from `o` to `o + g`.
pub open spec fn running(data: Seq<u8>, o: int, g: nat) -> u8
    decreases g,
{
    if g == 0 {
        data[o]
    } else {
        ((running(data, o, (g - 1) as nat) + data[o + g]) % 256) as u8
    }
}

/// Group `g` from the lanes.
pub open spec fn row(data: Seq<u8>, stride: nat, g: nat) -> Seq<u8> {
    Seq::new(stride, |s: int| running(data, s * groups(data.len(), stride), g))
}

/// The first `k` groups.
pub open spec fn rows(data: Seq<u8>, stride: nat, k: nat) -> Seq<u8>
    decreases k,
{
    if k == 0 {
        Seq::empty()
    } else {
        rows(data, stride, (k - 1) as nat) + row(data, stride, (k - 1) as nat)
    }
}

pub open spec fn unshuffled(data: Seq<u8>, stride: nat) -> Seq<u8> {
    rows(data, stride, groups(data.len(), stride)) + remainder(data, stride)
}

proof fn lemma_groups(n: nat, stride: nat)
    requires
        stride > 0,
    ensures
        groups(n, stride) * stride <= n,
        n < groups(n, stride) * stride + stride,
{
    vstd::arithmetic::div_mod::lemma_fundamental_div_mod(n as int, stride as int);
    let g = groups(n, stride);
    assert(stride * g == g * stride) by (nonlinear_arith);
}

/// The `s`-th byte of group `g` is a byte of the whole groups.
proof fn lemma_index(g: int, k: int, stride: int, s: int)
    requires
        0 <= g < k,
        0 <= s < stride,
    ensures
        0 <= g * stride + s < k * stride,
        g * stride + stride <= k * stride,
{
    assert(0 <= g * stride && g * stride + stride <= k * stride) by (nonlinear_arith)
        requires
            0 <= g < k,
            0 <= s < stride,
    ;
}

proof fn lemma_lanes_len(data: Seq<u8>, stride: nat, k: nat)
    ensures
        lanes(data, stride, k).len() == k * groups(data.len(), stride),
    decreases k,
{
    let m = groups(data.len(), stride);
    if k > 0 {
        lemma_lanes_len(data, stride, (k - 1) as nat);
        assert(k * m == (k - 1) * m + m) by (nonlinear_arith);
    } else {
        assert(0 * m == 0) by (nonlinear_arith);
    }
}

proof fn lemma_lanes_at(data: Seq<u8>, stride: nat, k: nat, s: nat, g: int)
    requires
        s < k,
        0 <= g < groups(data.len(), stride),
    ensures
        0 <= s * groups(data.len(), stride) + g < lanes(data, stride, k).len(),
        lanes(data, stride, k)[s * groups(data.len(), stride) + g] == delta(data, stride, s, g),
    decreases k,
{
    let m = groups(data.len(), stride);
    lemma_lanes_len(data, stride, k);
    lemma_lanes_len(data, stride, (k - 1) as nat);
    lemma_index(s as int, k as int, m as int, g);
    if s < k - 1 {
        lemma_lanes_at(data, stride, (k - 1) as nat, s, g);
    }
}

proof fn lemma_rows_len(data: Seq<u8>, stride: nat, k: nat)
    ensures
        rows(data, stride, k).len() == k * stride,
    decreases k,
{
    if k > 0 {
        lemma_rows_len(data, stride, (k - 1) as nat);
        assert(k * stride == (k - 1) * stride + stride) by (nonlinear_arith);
    } else {
        assert(0 * stride == 0) by (nonlinear_arith);
    }
}

/// Neither changes the number of bytes.
pub proof fn lemma_shuffle_len(data: Seq<u8>, stride: nat)
    requires
        stride > 0,
    ensures
        shuffled(data, stride).len() == data.len(),
        unshuffled(data, stride).len() == data.len(),
{
    let m = groups(data.len(), stride);
    lemma_groups(data.len(), stride);
    lemma_lanes_len(data, stride, stride);
    lemma_rows_len(data, stride, m);
    assert(stride * m == m * stride) by (nonlinear_arith);
}

/// Summing up a lane gives back the bytes of the groups.
proof fn lemma_running(data: Seq<u8>, stride: nat, s: nat, g: nat)
    requires
        stride > 0,
        s < stride,
        g < groups(data.len(), stride),
    ensures
        running(shuffled(data, stride), s * groups(data.len(), stride) as int, g) == data[g * stride
            + s as int],
    decreases g,
{
    let m = groups(data.len(), stride);
    let sh = shuffled(data, stride);
    lemma_groups(data.len(), stride);
    lemma_lanes_at(data, stride, stride, s, g as int);
    lemma_index(g as int, m as int, stride as int, s as int);
    assert(sh[s * m + g as int] == delta(data, stride, s, g as int));
    if g == 0 {
        assert(0 * stride + s == s) by (nonlinear_arith);
    } else {
        lemma_running(data, stride, s, (g - 1) as nat);
        lemma_index(g - 1, m as int, stride as int, s as int);
        let x = data[g * stride + s as int] as int;
        let y = data[(g - 1) * stride + s] as int;
        assert((y + (x - y) % 256) % 256 == x);
    }
}

proof fn lemma_rows(data: Seq<u8>, stride: nat, k: nat)
    requires
        stride > 0,
        k <= groups(data.len(), stride),
    ensures
        k * stride <= data.len(),
        rows(shuffled(data, stride), stride, k) == data.take(k * stride as int),
    decreases k,
{
    let m = groups(data.len(), stride);
    let sh = shuffled(data, stride);
    lemma_groups(data.len(), stride);
    lemma_shuffle_len(data, stride);
    if k > 0 {
        lemma_rows(data, stride, (k - 1) as nat);
        lemma_index(k - 1, m as int, stride as int, 0);
        assert(k * stride == (k - 1) * stride + stride) by (nonlinear_arith);
        let r = row(sh, stride, (k - 1) as nat);
        assert forall|s: int| 0 <= s < stride implies r[s] == data[(k - 1) * stride + s] by {
            lemma_running(data, stride, s as nat, (k - 1) as nat);
        }
        assert(data.take((k - 1) * stride) + r =~= data.take(k * stride as int));
    } else {
        assert(0 * stride == 0) by (nonlinear_arith);
        assert(rows(sh, stride, 0) =~= data.take(0));
    }
}

/// What does not fill a group stays in place.
pub proof fn lemma_shuffled_rest(data: Seq<u8>, stride: nat, k: int)
    requires
        stride > 0,
        data.len() as int / stride as int * stride <= k < data.len(),
    ensures
        shuffled(data, stride)[k] == data[k],
{
    let m = groups(data.len(), stride);
    lemma_groups(data.len(), stride);
    lemma_shuffle_len(data, stride);
    lemma_lanes_len(data, stride, stride);
    assert(stride * m == m * stride) by (nonlinear_arith);
}

/// Where a byte goes. Of the whole groups, the `s`-th bytes come in a row behind the `s`-th part of
/// the data, each less the one before it, modulo 256.
pub proof fn lemma_shuffled_groups(data: Seq<u8>, stride: nat, s: int, g: int)
    requires
        0 <= s < stride,
        0 <= g < data.len() as int / stride as int,
    ensures
        ({
            let m = data.len() as int / stride as int;
            let out = shuffled(data, stride);
            &&& 0 <= s * m + g < out.len()
            &&& out[s * m + g] == (data[g * stride + s] - if g == 0 {
                0
            } else {
                data[(g - 1) * stride + s] as int
            }) % 256
        }),
{
    let m = groups(data.len(), stride);
    lemma_groups(data.len(), stride);
    lemma_lanes_len(data, stride, stride);
    lemma_lanes_at(data, stride, stride, s as nat, g);
}

/// Unshuffling undoes shuffling.
pub proof fn lemma_shuffle_roundtrip(data: Seq<u8>, stride: nat)
    requires
        stride > 0,
    ensures
        unshuffled(shuffled(data, stride), stride) == data,
{
    let m = groups(data.len(), stride);
    let sh = shuffled(data, stride);
    lemma_groups(data.len(), stride);
    lemma_shuffle_len(data, stride);
    lemma_rows(data, stride, m);
    lemma_lanes_len(data, stride, stride);
    assert(stride * m == m * stride) by (nonlinear_arith);
    assert(remainder(sh, stride) =~= remainder(data, stride));
    assert(data.take(m * stride as int) + data.skip(m * stride as int) =~= data);
}

proof fn lemma_rows_at(data: Seq<u8>, stride: nat, k: nat, g: nat, s: int)
    requires
        g < k,
        0 <= s < stride,
    ensures
        0 <= g * stride + s < rows(data, stride, k).len(),
        rows(data, stride, k)[g * stride + s] == running(
            data,
            s * groups(data.len(), stride),
            g,
        ),
    decreases k,
{
    lemma_rows_len(data, stride, k);
    lemma_rows_len(data, stride, (k - 1) as nat);
    lemma_index(g as int, k as int, stride as int, s);
    if g < k - 1 {
        lemma_rows_at(data, stride, (k - 1) as nat, g, s);
    }
}

/// The differences of the groups are the bytes of the lanes.
proof fn lemma_delta(data: Seq<u8>, stride: nat, s: nat, g: nat)
    requires
        stride > 0,
        s < stride,
        g < groups(data.len(), stride),
    ensures
        delta(unshuffled(data, stride), stride, s, g as int) == data[s * groups(
            data.len(),
            stride,
        ) + g as int],
{
    let m = groups(data.len(), stride);
    let u = unshuffled(data, stride);
    lemma_rows_at(data, stride, m, g, s as int);
    assert(u[g * stride + s as int] == running(data, s * m as int, g));
    if g == 0 {
        assert(running(data, s * m as int, 0) == data[s * m as int]);
    } else {
        lemma_rows_at(data, stride, m, (g - 1) as nat, s as int);
        assert(u[(g - 1) * stride + s] == running(data, s * m as int, (g - 1) as nat));
        let y = running(data, s * m as int, (g - 1) as nat) as int;
        let x = data[s * m + g as int] as int;
        assert(((y + x) % 256 - y) % 256 == x);
    }
}

proof fn lemma_lanes_back(data: Seq<u8>, stride: nat, k: nat)
    requires
        stride > 0,
        k <= stride,
    ensures
        k * groups(data.len(), stride) <= data.len(),
        lanes(unshuffled(data, stride), stride, k) == data.take(
            k * groups(data.len(), stride) as int,
        ),
    decreases k,
{
    let m = groups(data.len(), stride);
    let u = unshuffled(data, stride);
    lemma_shuffle_len(data, stride);
    lemma_groups(data.len(), stride);
    assert(k * m <= stride * m && stride * m == m * stride) by (nonlinear_arith)
        requires
            k <= stride,
    ;
    if k > 0 {
        lemma_lanes_back(data, stride, (k - 1) as nat);
        let l = lane(u, stride, (k - 1) as nat);
        assert(k * m == (k - 1) * m + m) by (nonlinear_arith);
        assert forall|g: int| 0 <= g < m implies l[g] == data[(k - 1) * m + g] by {
            lemma_delta(data, stride, (k - 1) as nat, g as nat);
        }
        assert(data.take((k - 1) * m) + l =~= data.take(k * m as int));
    } else {
        assert(0 * m == 0) by (nonlinear_arith);
        assert(lanes(u, stride, 0) =~= data.take(0));
    }
}

/// Shuffling undoes unshuffling.
pub proof fn lemma_unshuffle_roundtrip(data: Seq<u8>, stride: nat)
    requires
        stride > 0,
    ensures
        shuffled(unshuffled(data, stride), stride) == data,
{
    let m = groups(data.len(), stride);
    let u = unshuffled(data, stride);
    lemma_groups(data.len(), stride);
    lemma_shuffle_len(data, stride);
    lemma_rows_len(data, stride, m);
    lemma_lanes_back(data, stride, stride);
    assert(stride * m == m * stride) by (nonlinear_arith);
    assert(remainder(u, stride) =~= remainder(data, stride));
    assert(data.take(m * stride as int) + data.skip(m * stride as int) =~= data);
}

pub fn byte_shuffle(data: &[u8], stride: usize) -> (out: Vec<u8>)
    requires
        stride > 0,
    ensures
        out@ == shuffled(data@, stride as nat),
{
    let n: usize = data.len();
    let m: usize = n / stride;
    let ghost st = stride as nat;
    proof {
        lemma_groups(n as nat, st);
    }
    let mut out: Vec<u8> = Vec::new();
    let mut s: usize = 0;
    while s < stride
        invariant
            s <= stride,
            stride > 0,
            st == stride,
            n == data@.len(),
            m == groups(n as nat, st),
            m * stride <= n,
            out@ == lanes(data@, st, s as nat),
        decreases stride - s,
    {
        let mut prev: u8 = 0;
        let mut g: usize = 0;
        let ghost before = out@;
        proof {
            assert(out@ =~= before + lane(data@, st, s as nat).take(0));
        }
        while g < m
            invariant
                g <= m,
                s < stride,
                st == stride,
                n == data@.len(),
                m == groups(n as nat, st),
                m * stride <= n,
                prev == if g > 0 {
                    data@[(g - 1) * stride + s]
                } else {
                    0
                },
                out@ == before + lane(data@, st, s as nat).take(g as int),
            decreases m - g,
        {
            proof {
                lemma_index(g as int, m as int, stride as int, s as int);
            }
            let x: u8 = data[g * stride + s];
            let d: u8 = x.wrapping_sub(prev);
            proof {
                assert(d == delta(data@, st, s as nat, g as int));
            }
            out.push(d);
            prev = x;
            g = g + 1;
            proof {
                assert(out@ =~= before + lane(data@, st, s as nat).take(g as int));
            }
        }
        s = s + 1;
        proof {
            assert(lane(data@, st, (s - 1) as nat).take(m as int) =~= lane(
                data@,
                st,
                (s - 1) as nat,
            ));
        }
    }
    let rest = &data[m * stride..n];
    out.extend_from_slice(rest);
    proof {
        assert(rest@ =~= remainder(data@, st));
        assert(out@ =~= shuffled(data@, st));
    }
    out
}

pub fn byte_unshuffle(data: &[u8], stride: usize) -> (out: Vec<u8>)
    requires
        stride > 0,
    ensures
        out@ == unshuffled(data@, stride as nat),
{
    let n: usize = data.len();
    let m: usize = n / stride;
    let ghost st = stride as nat;
    proof {
        lemma_groups(n as nat, st);
    }
    let mut out: Vec<u8> = Vec::new();
    if m > 0 {
        let mut sums: Vec<u8> = vec![0u8; stride];
        let mut g: usize = 0;
        while g < m
            invariant
                g <= m,
                m > 0,
                stride > 0,
                st == stride,
                n == data@.len(),
                m == groups(n as nat, st),
                m * stride <= n,
                sums@.len() == stride,
                forall|s: int|
                    0 <= s < stride ==> #[trigger] sums@[s] == if g == 0 {
                        0
                    } else {
                        running(data@, s * m, (g - 1) as nat)
                    },
                out@ == rows(data@, st, g as nat),
            decreases m - g,
        {
            let mut s: usize = 0;
            let ghost before = out@;
            let ghost r = row(data@, st, g as nat);
            proof {
                assert(out@ =~= before + r.take(0));
            }
            while s < stride
                invariant
                    s <= stride,
                    g < m,
                    st == stride,
                    n == data@.len(),
                    m == groups(n as nat, st),
                    m * stride <= n,
                    sums@.len() == stride,
                    r == row(data@, st, g as nat),
                    forall|k: int|
                        0 <= k < s ==> #[trigger] sums@[k] == running(data@, k * m, g as nat),
                    forall|k: int|
                        s <= k < stride ==> #[trigger] sums@[k] == if g == 0 {
                            0
                        } else {
                            running(data@, k * m, (g - 1) as nat)
                        },
                    out@ == before + r.take(s as int),
                decreases stride - s,
            {
                proof {
                    lemma_index(s as int, stride as int, m as int, g as int);
                    assert(stride * m == m * stride) by (nonlinear_arith);
                }
                let o: usize = s * m;
                let x: u8 = sums[s].wrapping_add(data[o + g]);
                proof {
                    assert(sums@[s as int] == if g == 0 {
                        0
                    } else {
                        running(data@, s * m, (g - 1) as nat)
                    });
                    assert(x == running(data@, s * m, g as nat));
                }
                sums.set(s, x);
                out.push(x);
                s = s + 1;
                proof {
                    assert(out@ =~= before + r.take(s as int));
                }
            }
            g = g + 1;
            proof {
                assert(r.take(stride as int) =~= r);
            }
        }
    }
    let rest = &data[m * stride..n];
    out.extend_from_slice(rest);
    proof {
        assert(rest@ =~= remainder(data@, st));
        assert(out@ =~= unshuffled(data@, st));
    }
    out
}

} // verus!
