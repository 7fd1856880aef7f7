//! Where data is cut into pieces by its content.
//!
//! A piece ends where a rolling fingerprint of the bytes since the least length
//! ends in enough zero bits: more of them before the average length, fewer
//! behind it. Where a piece ends depends on the bytes from its start on and on
//! nothing else, so two files that are alike from some cut on are cut alike from
//! there on.

use crate::codec::bits;
use crate::codec::lz;
use vstd::prelude::*;

verus! {

pub const CDC_MIN: usize = 4096;

pub const CDC_AVG: usize = 16384;

pub const CDC_MAX: usize = 65536;

// ---- the fingerprint ----

/// The mixing step of a split-mix generator.
pub open spec fn mixed(x: u64) -> u64 {
    let a = (x ^ (x >> 30u64)).wrapping_mul(0xBF58_476D_1CE4_E5B9);
    let b = (a ^ (a >> 27u64)).wrapping_mul(0x94D0_49BB_1331_11EB);
    b ^ (b >> 31u64)
}

/// The number that byte `i` adds to a fingerprint: the generator's output for
/// the `i + 2`-th multiple of its step.
pub open spec fn gear_at(i: int) -> u64 {
    mixed(multiple(i + 2) as u64)
}

/// A multiple of the generator's step, modulo 2^64.
pub open spec fn multiple(k: int) -> int {
    (k * 0x9E37_79B9_7F4A_7C15) % 0x1_0000_0000_0000_0000
}

proof fn lemma_multiple(k: int)
    ensures
        multiple(k + 1) == (multiple(k) + 0x9E37_79B9_7F4A_7C15) % 0x1_0000_0000_0000_0000,
        0 <= multiple(k) < 0x1_0000_0000_0000_0000,
{
    let c: int = 0x9E37_79B9_7F4A_7C15;
    let m: int = 0x1_0000_0000_0000_0000;
    assert((k + 1) * c == k * c + c) by (nonlinear_arith);
    vstd::arithmetic::div_mod::lemma_add_mod_noop(k * c, c, m);
    vstd::arithmetic::div_mod::lemma_small_mod(c as nat, m as nat);
}

/// The fingerprint with one more byte.
pub open spec fn rolled(fp: u64, x: u8) -> u64 {
    (fp << 1u64).wrapping_add(gear_at(x as int))
}

pub fn cdc_gear_table() -> (t: [u64; 256])
    ensures
        forall|i: int| 0 <= i < 256 ==> #[trigger] t@[i] == gear_at(i),
{
    let mut t = [0u64; 256];
    let mut x: u64 = 0x9E37_79B9_7F4A_7C15;
    let mut i: usize = 0;
    proof {
        vstd::arithmetic::div_mod::lemma_small_mod(x as nat, 0x1_0000_0000_0000_0000);
    }
    while i < 256
        invariant
            i <= 256,
            x == multiple(i + 1),
            forall|k: int| 0 <= k < i ==> #[trigger] t@[k] == gear_at(k),
        decreases 256 - i,
    {
        proof {
            lemma_multiple(i + 1);
        }
        x = x.wrapping_add(0x9E37_79B9_7F4A_7C15);
        assert(x == multiple(i + 2));
        let mut z: u64 = x;
        z = (z ^ (z >> 30u64)).wrapping_mul(0xBF58_476D_1CE4_E5B9);
        z = (z ^ (z >> 27u64)).wrapping_mul(0x94D0_49BB_1331_11EB);
        t[i] = z ^ (z >> 31u64);
        i = i + 1;
    }
    t
}

/// The mixing step undone.
pub open spec fn unmixed(x: u64) -> int {
    let a = x ^ (x >> 31u64) ^ (x >> 62u64);
    let b = ((a * 0x3196_42B2_D24D_8EC3) % 0x1_0000_0000_0000_0000) as u64;
    let c = b ^ (b >> 27u64) ^ (b >> 54u64);
    let d = ((c * 0x96DE_1B17_3F11_9089) % 0x1_0000_0000_0000_0000) as u64;
    (d ^ (d >> 30u64) ^ (d >> 60u64)) as int
}

/// Factors that undo one another.
proof fn lemma_times(x: u64, c: int, d: int)
    requires
        (c * d) % 0x1_0000_0000_0000_0000 == 1,
        0 <= c,
        0 <= d,
    ensures
        (((x * c) % 0x1_0000_0000_0000_0000) * d) % 0x1_0000_0000_0000_0000 == x,
{
    let m: int = 0x1_0000_0000_0000_0000;
    vstd::arithmetic::div_mod::lemma_mul_mod_noop_left(x * c, d, m);
    assert((x * c) * d == x * (c * d)) by (nonlinear_arith);
    vstd::arithmetic::div_mod::lemma_mul_mod_noop_right(x as int, c * d, m);
    assert(x * 1 == x);
    vstd::arithmetic::div_mod::lemma_small_mod(x as nat, m as nat);
}

/// The numbers of the bytes are those of a split-mix generator: once its mixing is undone, they are
/// the multiples of its step, from the second on. So different bytes have different numbers.
pub proof fn lemma_gear(i: int)
    ensures
        unmixed(gear_at(i)) == ((i + 2) * 0x9E37_79B9_7F4A_7C15) % 0x1_0000_0000_0000_0000,
{
    lemma_multiple(i + 2);
    let x = multiple(i + 2) as u64;
    let m: int = 0x1_0000_0000_0000_0000;
    let y = x ^ (x >> 30u64);
    let z = y.wrapping_mul(0xBF58_476D_1CE4_E5B9);
    let u = z ^ (z >> 27u64);
    let w = u.wrapping_mul(0x94D0_49BB_1331_11EB);
    let g = w ^ (w >> 31u64);
    assert(g ^ (g >> 31u64) ^ (g >> 62u64) == w) by (bit_vector)
        requires
            g == w ^ (w >> 31u64),
    ;
    assert(u ^ (u >> 27u64) ^ (u >> 54u64) == z) by (bit_vector)
        requires
            u == z ^ (z >> 27u64),
    ;
    assert(y ^ (y >> 30u64) ^ (y >> 60u64) == x) by (bit_vector)
        requires
            y == x ^ (x >> 30u64),
    ;
    lemma_times(u, 0x94D0_49BB_1331_11EB, 0x3196_42B2_D24D_8EC3);
    lemma_times(y, 0xBF58_476D_1CE4_E5B9, 0x96DE_1B17_3F11_9089);
    assert(w == (u * 0x94D0_49BB_1331_11EB) % m);
    assert(z == (y * 0xBF58_476D_1CE4_E5B9) % m);
}

// ---- cutting ----

/// How pieces are cut.
#[derive(Clone, Copy)]
pub struct Cut {
    /// What is no longer than this is not cut.
    pub min: usize,
    /// Where the fingerprint starts.
    pub start: usize,
    pub avg: usize,
    pub max: usize,
    /// The bits that must be zero before the average length.
    pub mask_s: u64,
    /// The bits that must be zero behind it.
    pub mask_l: u64,
}

pub open spec fn lesser(a: int, b: int) -> int {
    if a <= b {
        a
    } else {
        b
    }
}

impl Cut {
    /// Whether a piece ends at length `j` with fingerprint `fp`.
    pub open spec fn ends(self, fp: u64, j: int, center: int) -> bool {
        fp & (if j < center {
            self.mask_s
        } else {
            self.mask_l
        }) == 0
    }

    /// The length of the piece, found from the `j`-th byte on.
    pub open spec fn scanned(self, rest: Seq<u8>, j: int, center: int, end: int, fp: u64) -> int
        decreases end - j,
    {
        if j >= end {
            end
        } else {
            let fp2 = rolled(fp, rest[j]);
            if self.ends(fp2, j + 1, center) {
                j + 1
            } else {
                self.scanned(rest, j + 1, center, end, fp2)
            }
        }
    }

    /// The length of the piece at the front of `rest`.
    pub open spec fn first_len(self, rest: Seq<u8>) -> int {
        let end = lesser(self.max as int, rest.len() as int);
        if end <= self.min {
            end
        } else {
            self.scanned(rest, self.start as int, lesser(self.avg as int, end), end, 0)
        }
    }

    /// The pieces from `i` on, as starts and ends.
    pub open spec fn bounds_from(self, data: Seq<u8>, i: int) -> Seq<(int, int)>
        decreases data.len() - i,
    {
        if !(0 <= i < data.len()) {
            Seq::empty()
        } else {
            let l = self.first_len(data.skip(i));
            if !(0 < l <= data.len() - i) {
                Seq::empty()
            } else {
                seq![(i, i + l)] + self.bounds_from(data, i + l)
            }
        }
    }

    pub open spec fn wf(self) -> bool {
        1 <= self.max
    }
}

proof fn lemma_scanned(c: Cut, rest: Seq<u8>, j: int, center: int, end: int, fp: u64)
    requires
        0 <= j,
        0 < end,
    ensures
        0 < c.scanned(rest, j, center, end, fp) <= end,
        c.scanned(rest, j, center, end, fp) == end || j < c.scanned(rest, j, center, end, fp),
    decreases end - j,
{
    if j < end {
        let fp2 = rolled(fp, rest[j]);
        if !c.ends(fp2, j + 1, center) {
            lemma_scanned(c, rest, j + 1, center, end, fp2);
        }
    }
}

/// A piece is not empty, not longer than the greatest length, and, unless it is
/// all that is left or as long as can be, longer than where the fingerprint
/// starts.
pub proof fn lemma_first_len(c: Cut, rest: Seq<u8>)
    requires
        c.wf(),
        rest.len() > 0,
    ensures
        0 < c.first_len(rest) <= rest.len(),
        c.first_len(rest) <= c.max,
        c.first_len(rest) == rest.len() || c.first_len(rest) == c.max || c.first_len(rest)
            > c.start,
{
    let end = lesser(c.max as int, rest.len() as int);
    if end > c.min {
        lemma_scanned(c, rest, c.start as int, lesser(c.avg as int, end), end, 0);
    }
}

/// The pieces follow one another from `i` to `n` without a gap.
pub open spec fn tiles(bounds: Seq<(int, int)>, i: int, n: int) -> bool
    decreases bounds.len(),
{
    if bounds.len() == 0 {
        i == n
    } else {
        &&& bounds[0].0 == i
        &&& i < bounds[0].1 <= n
        &&& tiles(bounds.drop_first(), bounds[0].1, n)
    }
}

/// The pieces make up the data.
pub proof fn lemma_tiles(c: Cut, data: Seq<u8>, i: int)
    requires
        c.wf(),
        0 <= i <= data.len(),
    ensures
        tiles(c.bounds_from(data, i), i, data.len() as int),
    decreases data.len() - i,
{
    if i < data.len() {
        lemma_first_len(c, data.skip(i));
        let l = c.first_len(data.skip(i));
        lemma_tiles(c, data, i + l);
        assert(c.bounds_from(data, i).drop_first() =~= c.bounds_from(data, i + l));
    }
}

/// From a cut on, data is cut by what stands there alone: two pieces of data
/// that are alike from cuts on are cut into the same pieces from there on.
pub proof fn lemma_resync(c: Cut, a: Seq<u8>, i: int, b: Seq<u8>, j: int)
    requires
        0 <= i <= a.len(),
        0 <= j <= b.len(),
        a.skip(i) == b.skip(j),
    ensures
        c.bounds_from(a, i).len() == c.bounds_from(b, j).len(),
        forall|k: int|
            0 <= k < c.bounds_from(a, i).len() ==> {
                let x = #[trigger] c.bounds_from(a, i)[k];
                let y = c.bounds_from(b, j)[k];
                &&& x.0 - i == y.0 - j
                &&& x.1 - i == y.1 - j
            },
    decreases a.len() - i,
{
    assert(a.len() - i == b.len() - j) by {
        assert(a.skip(i).len() == b.skip(j).len());
    }
    let l = c.first_len(a.skip(i));
    if i < a.len() && 0 < l <= a.len() - i {
        assert(a.skip(i + l) =~= a.skip(i).skip(l));
        assert(b.skip(j + l) =~= b.skip(j).skip(l));
        lemma_resync(c, a, i + l, b, j + l);
        let x = c.bounds_from(a, i);
        let y = c.bounds_from(b, j);
        let x1 = c.bounds_from(a, i + l);
        let y1 = c.bounds_from(b, j + l);
        assert forall|k: int| 0 <= k < x.len() implies ({
            let p = #[trigger] x[k];
            let q = y[k];
            &&& p.0 - i == q.0 - j
            &&& p.1 - i == q.1 - j
        }) by {
            if k > 0 {
                assert(x[k] == x1[k - 1]);
                assert(y[k] == y1[k - 1]);
            }
        }
    }
}

// ---- the parameters ----

/// The least of `p`, `2 p`, `4 p`, ... that is not below `x`.
pub open spec fn doubled(p: nat, x: nat) -> nat
    decreases
            if p < x {
                x - p
            } else {
                0
            },
{
    if p >= x || p == 0 {
        p
    } else {
        doubled(2 * p, x)
    }
}

pub proof fn lemma_doubled(p: nat, x: nat)
    requires
        p > 0,
    ensures
        doubled(p, x) >= x,
        doubled(p, x) >= p,
        x >= p ==> doubled(p, x) < 2 * x,
        p >= x ==> doubled(p, x) == p,
    decreases
            if p < x {
                x - p
            } else {
                0
            },
{
    if p < x {
        lemma_doubled(2 * p, x);
    }
}

pub proof fn lemma_doubled_mono(p: nat, x: nat, y: nat)
    requires
        p > 0,
        x <= y,
    ensures
        doubled(p, x) <= doubled(p, y),
    decreases
            if p < y {
                y - p
            } else {
                0
            },
{
    if p < x {
        lemma_doubled_mono(2 * p, x, y);
    } else {
        lemma_doubled(p, y);
    }
}

/// The least power of two from 1024 on that is not below `x`.
fn power_of_two_from(x: usize) -> (p: usize)
    requires
        doubled(1024, x as nat) <= usize::MAX,
    ensures
        p == doubled(1024, x as nat),
{
    let mut p: usize = 1024;
    while p < x
        invariant
            p > 0,
            doubled(p as nat, x as nat) == doubled(1024, x as nat),
            doubled(1024, x as nat) <= usize::MAX,
        decreases
                if p < x {
                    x - p
                } else {
                    0
                },
    {
        proof {
            lemma_doubled(2 * p as nat, x as nat);
        }
        p = 2 * p;
    }
    p
}

pub open spec fn quadrupled(x: nat) -> usize {
    if 4 * x <= usize::MAX {
        (4 * x) as usize
    } else {
        usize::MAX
    }
}

/// How blocks of about `block_size` bytes are cut.
pub open spec fn block_cut(block_size: nat) -> Cut {
    let avg = doubled(1024, block_size);
    let min = if avg / 4 >= 512 {
        (avg / 4) as usize
    } else {
        512
    };
    Cut {
        min,
        start: min,
        avg: avg as usize,
        max: quadrupled(avg),
        mask_s: (4 * avg - 1) as u64,
        mask_l: (avg / 4 - 1) as u64,
    }
}

/// The largest block size whose cut can be made.
pub open spec fn cuttable(block_size: nat) -> bool {
    doubled(1024, block_size) <= usize::MAX && doubled(1024, block_size) <= 0x2000_0000_0000_0000
}

fn make_block_cut(block_size: usize) -> (c: Cut)
    requires
        cuttable(block_size as nat),
    ensures
        c == block_cut(block_size as nat),
        c.wf(),
{
    proof {
        lemma_doubled(1024, block_size as nat);
    }
    let avg: usize = power_of_two_from(block_size);
    let min: usize = if avg / 4 >= 512 {
        avg / 4
    } else {
        512
    };
    let max: usize = if avg <= usize::MAX / 4 {
        4 * avg
    } else {
        usize::MAX
    };
    Cut {
        min,
        start: min,
        avg,
        max,
        mask_s: 4 * (avg as u64) - 1,
        mask_l: (avg as u64) / 4 - 1,
    }
}

/// Whether blocks of about `block_size` bytes can be cut.
pub fn is_cuttable(block_size: usize) -> (r: bool)
    ensures
        r == cuttable(block_size as nat),
{
    let limit: u128 = if usize::MAX as u128 <= 0x2000_0000_0000_0000 {
        usize::MAX as u128
    } else {
        0x2000_0000_0000_0000
    };
    let mut p: u128 = 1024;
    while p < block_size as u128
        invariant
            0 < p <= limit,
            limit <= 0x2000_0000_0000_0000,
            limit == lesser(usize::MAX as int, 0x2000_0000_0000_0000),
            doubled(p as nat, block_size as nat) == doubled(1024, block_size as nat),
        decreases
                if p < block_size {
                    block_size - p
                } else {
                    0
                },
    {
        proof {
            lemma_doubled(2 * p as nat, block_size as nat);
        }
        if 2 * p > limit {
            return false;
        }
        p = 2 * p;
    }
    true
}

/// The average length: from a number of KiB, if one is given, rounded up to a
/// power of two.
pub open spec fn cdc_avg(avg_kb: Option<usize>) -> nat {
    match avg_kb {
        Some(kb) => if kb > 0 {
            doubled(1024, (1024 * kb) as nat)
        } else {
            CDC_AVG as nat
        },
        None => CDC_AVG as nat,
    }
}

/// The parameters can be worked out without overflow.
pub open spec fn cdc_allowed(avg_kb: Option<usize>) -> bool {
    4 * cdc_avg(avg_kb) <= usize::MAX && cdc_avg(avg_kb) <= 0x2000_0000_0000_0000
}

/// The least, average and greatest length of chunks.
pub fn cdc_params(avg_kb: Option<usize>) -> (r: (usize, usize, usize))
    requires
        cdc_allowed(avg_kb),
    ensures
        r.1 == cdc_avg(avg_kb),
        r.0 == r.1 / 4,
        r.2 == 4 * r.1,
        r.1 >= 1024,
        avg_kb is None ==> r == (CDC_MIN, CDC_AVG, CDC_MAX),
{
    let avg: usize = match avg_kb {
        Some(kb) => {
            if kb > 0 {
                proof {
                    lemma_doubled(1024, (1024 * kb) as nat);
                }
                power_of_two_from(1024 * kb)
            } else {
                CDC_AVG
            }
        },
        None => CDC_AVG,
    };
    (avg / 4, avg, avg * 4)
}

/// How chunks are cut. The fingerprint starts at the least length.
pub open spec fn chunk_cut(avg_kb: Option<usize>) -> Cut {
    let avg = cdc_avg(avg_kb);
    Cut {
        min: (avg / 4) as usize,
        start: (avg / 4) as usize,
        avg: avg as usize,
        max: (4 * avg) as usize,
        mask_s: (4 * avg - 1) as u64,
        mask_l: (avg / 4 - 1) as u64,
    }
}

// ---- the computation ----

impl Cut {
    /// The length of the piece at `i`.
    fn cut_at(&self, data: &[u8], gear: &[u64; 256], i: usize) -> (l: usize)
        requires
            self.wf(),
            i < data@.len(),
            forall|k: int| 0 <= k < 256 ==> #[trigger] gear@[k] == gear_at(k),
        ensures
            l == self.first_len(data@.skip(i as int)),
            0 < l <= data@.len() - i,
    {
        let ghost rest = data@.skip(i as int);
        proof {
            lemma_first_len(*self, rest);
        }
        let n: usize = data.len();
        let left: usize = n - i;
        let end: usize = if self.max <= left {
            self.max
        } else {
            left
        };
        if end <= self.min {
            return end;
        }
        let center: usize = if self.avg <= end {
            self.avg
        } else {
            end
        };
        let mut fp: u64 = 0;
        let mut j: usize = self.start;
        while j < end
            invariant
                end <= left == n - i,
                n == data@.len(),
                rest == data@.skip(i as int),
                i < data@.len(),
                end > self.min,
                end == lesser(self.max as int, rest.len() as int),
                center == lesser(self.avg as int, end as int),
                forall|k: int| 0 <= k < 256 ==> #[trigger] gear@[k] == gear_at(k),
                self.first_len(rest) == self.scanned(
                    rest,
                    j as int,
                    center as int,
                    end as int,
                    fp,
                ),
                0 < self.first_len(rest) <= rest.len(),
            decreases end - j,
        {
            let x: u8 = data[i + j];
            assert(rest[j as int] == x);
            assert(gear@[x as int] == gear_at(x as int));
            fp = (fp << 1u64).wrapping_add(gear[x as usize]);
            j = j + 1;
            let mask: u64 = if j < center {
                self.mask_s
            } else {
                self.mask_l
            };
            if fp & mask == 0 {
                return j;
            }
        }
        end
    }

    /// The pieces of `data`, as starts and ends.
    fn cut_all(&self, data: &[u8]) -> (bounds: Vec<(usize, usize)>)
        requires
            self.wf(),
        ensures
            pairs(bounds@) == self.bounds_from(data@, 0),
    {
        let gear = cdc_gear_table();
        let n: usize = data.len();
        let mut bounds: Vec<(usize, usize)> = Vec::new();
        let mut i: usize = 0;
        let ghost want = self.bounds_from(data@, 0);
        proof {
            assert(pairs(bounds@) + want =~= want);
        }
        while i < n
            invariant
                i <= n == data@.len(),
                self.wf(),
                forall|k: int| 0 <= k < 256 ==> #[trigger] gear@[k] == gear_at(k),
                want == pairs(bounds@) + self.bounds_from(data@, i as int),
            decreases n - i,
        {
            let l: usize = self.cut_at(data, &gear, i);
            let ghost before = bounds@;
            bounds.push((i, i + l));
            proof {
                assert(pairs(bounds@) =~= pairs(before).push((i as int, i + l)));
                assert(pairs(before) + (seq![(i as int, i + l)] + self.bounds_from(data@, i + l))
                    =~= pairs(bounds@) + self.bounds_from(data@, i + l));
            }
            i = i + l;
        }
        proof {
            assert(pairs(bounds@) + Seq::<(int, int)>::empty() =~= pairs(bounds@));
        }
        bounds
    }
}

pub open spec fn pairs(v: Seq<(usize, usize)>) -> Seq<(int, int)> {
    Seq::new(v.len(), |i: int| (v[i].0 as int, v[i].1 as int))
}

/// Blocks of about `block_size` bytes, cut by content, as starts and ends.
pub fn cdc_block_bounds(data: &[u8], block_size: usize) -> (bounds: Vec<(usize, usize)>)
    requires
        cuttable(block_size as nat),
    ensures
        pairs(bounds@) == block_cut(block_size as nat).bounds_from(data@, 0),
{
    make_block_cut(block_size).cut_all(data)
}

/// Blocks of `block` bytes from `i` on, the last one shorter.
pub open spec fn fixed_from(n: int, block: int, i: int) -> Seq<(int, int)>
    decreases n - i,
{
    if !(0 <= i < n) || block <= 0 {
        Seq::empty()
    } else {
        let e = lesser(i + block, n);
        seq![(i, e)] + fixed_from(n, block, e)
    }
}

/// The blocks: cut by content, or at fixed lengths.
pub open spec fn blocks(data: Seq<u8>, block_size: nat, fixed: bool) -> Seq<(int, int)> {
    if fixed {
        fixed_from(data.len() as int, block_size as int, 0)
    } else {
        block_cut(block_size).bounds_from(data, 0)
    }
}

pub open spec fn blocks_allowed(block_size: nat, fixed: bool) -> bool {
    if fixed {
        block_size > 0
    } else {
        cuttable(block_size)
    }
}

proof fn lemma_fixed_tiles(n: int, block: int, i: int)
    requires
        0 <= i <= n,
        block > 0,
    ensures
        tiles(fixed_from(n, block, i), i, n),
    decreases n - i,
{
    if i < n {
        let e = lesser(i + block, n);
        lemma_fixed_tiles(n, block, e);
        assert(fixed_from(n, block, i).drop_first() =~= fixed_from(n, block, e));
    }
}

/// Blocks make up the data, either way.
pub proof fn lemma_blocks_tile(data: Seq<u8>, block_size: nat, fixed: bool)
    requires
        blocks_allowed(block_size, fixed),
    ensures
        tiles(blocks(data, block_size, fixed), 0, data.len() as int),
{
    if fixed {
        lemma_fixed_tiles(data.len() as int, block_size as int, 0);
    } else {
        lemma_doubled(1024, block_size);
        lemma_tiles(block_cut(block_size), data, 0);
    }
}

proof fn lemma_fixed_len(n: int, block: int, i: int, k: int)
    requires
        0 <= i <= n,
        block > 0,
        0 <= k < fixed_from(n, block, i).len(),
    ensures
        fixed_from(n, block, i)[k].1 - fixed_from(n, block, i)[k].0 <= block,
    decreases n - i,
{
    if i < n && k > 0 {
        let e = lesser(i + block, n);
        lemma_fixed_len(n, block, e, k - 1);
        assert(fixed_from(n, block, i)[k] == fixed_from(n, block, e)[k - 1]);
    }
}

/// No block is longer than its size, or four times the next power of two where it is cut by
/// content.
pub proof fn lemma_block_len(data: Seq<u8>, block_size: nat, fixed: bool, k: int)
    requires
        blocks_allowed(block_size, fixed),
        0 <= k < blocks(data, block_size, fixed).len(),
    ensures
        ({
            let b = blocks(data, block_size, fixed)[k];
            b.1 - b.0 <= 4 * doubled(1024, block_size)
        }),
        fixed ==> blocks(data, block_size, fixed)[k].1 - blocks(data, block_size, fixed)[k].0
            <= block_size,
{
    lemma_doubled(1024, block_size);
    if fixed {
        lemma_fixed_len(data.len() as int, block_size as int, 0, k);
    } else {
        lemma_bounds_len(block_cut(block_size), data, 0, k);
    }
}

/// The blocks of `data`. With `fixed` they are cut at fixed lengths.
pub fn block_boundaries(data: &[u8], block_size: usize, fixed: bool) -> (bounds: Vec<
    (usize, usize),
>)
    requires
        blocks_allowed(block_size as nat, fixed),
    ensures
        pairs(bounds@) == blocks(data@, block_size as nat, fixed),
{
    if !fixed {
        return cdc_block_bounds(data, block_size);
    }
    let n: usize = data.len();
    let mut bounds: Vec<(usize, usize)> = Vec::new();
    let mut i: usize = 0;
    let ghost want = fixed_from(n as int, block_size as int, 0);
    proof {
        assert(pairs(bounds@) + want =~= want);
    }
    while i < n
        invariant
            i <= n == data@.len(),
            block_size > 0,
            want == pairs(bounds@) + fixed_from(n as int, block_size as int, i as int),
        decreases n - i,
    {
        let e: usize = if block_size <= n - i {
            i + block_size
        } else {
            n
        };
        let ghost before = bounds@;
        bounds.push((i, e));
        proof {
            assert(pairs(bounds@) =~= pairs(before).push((i as int, e as int)));
            assert(pairs(before) + (seq![(i as int, e as int)] + fixed_from(
                n as int,
                block_size as int,
                e as int,
            )) =~= pairs(bounds@) + fixed_from(n as int, block_size as int, e as int));
        }
        i = e;
    }
    proof {
        assert(pairs(bounds@) + Seq::<(int, int)>::empty() =~= pairs(bounds@));
    }
    bounds
}

/// The content-defined chunks of `data`, as starts and lengths.
pub fn cdc_chunks(data: &[u8], avg_kb: Option<usize>) -> (chunks: Vec<(usize, usize)>)
    requires
        cdc_allowed(avg_kb),
    ensures
        ({
            let bounds = chunk_cut(avg_kb).bounds_from(data@, 0);
            &&& chunks@.len() == bounds.len()
            &&& forall|k: int|
                0 <= k < bounds.len() ==> {
                    &&& (#[trigger] chunks@[k]).0 == bounds[k].0
                    &&& chunks@[k].1 == bounds[k].1 - bounds[k].0
                }
        }),
{
    let (min, avg, max) = cdc_params(avg_kb);
    let cut = Cut {
        min,
        start: min,
        avg,
        max,
        mask_s: 4 * (avg as u64) - 1,
        mask_l: (avg as u64) / 4 - 1,
    };
    assert(cut == chunk_cut(avg_kb));
    let bounds = cut.cut_all(data);
    let ghost want = cut.bounds_from(data@, 0);
    proof {
        lemma_tiles(cut, data@, 0);
    }
    let mut chunks: Vec<(usize, usize)> = Vec::new();
    let mut k: usize = 0;
    while k < bounds.len()
        invariant
            k <= bounds@.len(),
            pairs(bounds@) == want,
            tiles(want, 0, data@.len() as int),
            chunks@.len() == k,
            forall|j: int|
                0 <= j < k ==> {
                    &&& (#[trigger] chunks@[j]).0 == want[j].0
                    &&& chunks@[j].1 == want[j].1 - want[j].0
                },
        decreases bounds@.len() - k,
    {
        proof {
            lemma_tile_at(want, 0, data@.len() as int, k as int);
            assert(want[k as int] == (bounds@[k as int].0 as int, bounds@[k as int].1 as int));
        }
        let (s, e) = bounds[k];
        chunks.push((s, e - s));
        k = k + 1;
    }
    chunks
}

/// Each of the pieces lies in the data and is not empty.
pub proof fn lemma_tile_at(bounds: Seq<(int, int)>, i: int, n: int, k: int)
    requires
        tiles(bounds, i, n),
        0 <= k < bounds.len(),
    ensures
        i <= bounds[k].0 < bounds[k].1 <= n,
    decreases bounds.len(),
{
    if k > 0 {
        lemma_tile_at(bounds.drop_first(), bounds[0].1, n, k - 1);
        assert(bounds.drop_first()[k - 1] == bounds[k]);
    }
}

/// No piece is longer than the greatest length.
pub proof fn lemma_bounds_len(c: Cut, data: Seq<u8>, i: int, k: int)
    requires
        c.wf(),
        0 <= i <= data.len(),
        0 <= k < c.bounds_from(data, i).len(),
    ensures
        c.bounds_from(data, i)[k].1 - c.bounds_from(data, i)[k].0 <= c.max,
    decreases data.len() - i,
{
    if i < data.len() {
        lemma_first_len(c, data.skip(i));
        let l = c.first_len(data.skip(i));
        if k > 0 {
            lemma_bounds_len(c, data, i + l, k - 1);
            assert(c.bounds_from(data, i)[k] == c.bounds_from(data, i + l)[k - 1]);
        }
    }
}

/// Every piece but the last is longer than where the fingerprint starts.
pub proof fn lemma_bounds_least(c: Cut, data: Seq<u8>, i: int, k: int)
    requires
        c.wf(),
        c.start < c.max,
        0 <= i <= data.len(),
        0 <= k < c.bounds_from(data, i).len() - 1,
    ensures
        c.bounds_from(data, i)[k].1 - c.bounds_from(data, i)[k].0 > c.start,
    decreases data.len() - i,
{
    if i < data.len() {
        lemma_first_len(c, data.skip(i));
        let l = c.first_len(data.skip(i));
        if k > 0 {
            lemma_bounds_least(c, data, i + l, k - 1);
            assert(c.bounds_from(data, i)[k] == c.bounds_from(data, i + l)[k - 1]);
        } else {
            assert(c.bounds_from(data, i + l).len() > 0);
        }
    }
}

/// Chunks make up the data. None is longer than four times the average, and all but the last are
/// longer than a quarter of it.
pub proof fn lemma_chunks(data: Seq<u8>, avg_kb: Option<usize>)
    requires
        cdc_allowed(avg_kb),
    ensures
        ({
            let bounds = chunk_cut(avg_kb).bounds_from(data, 0);
            let avg = cdc_avg(avg_kb) as int;
            &&& tiles(bounds, 0, data.len() as int)
            &&& forall|k: int|
                0 <= k < bounds.len() ==> (#[trigger] bounds[k]).1 - bounds[k].0 <= 4 * avg
            &&& forall|k: int|
                0 <= k < bounds.len() - 1 ==> (#[trigger] bounds[k]).1 - bounds[k].0 > avg / 4
        }),
{
    let c = chunk_cut(avg_kb);
    let bounds = c.bounds_from(data, 0);
    let avg = cdc_avg(avg_kb) as int;
    lemma_cdc_avg(avg_kb);
    lemma_tiles(c, data, 0);
    assert forall|k: int| 0 <= k < bounds.len() implies (#[trigger] bounds[k]).1 - bounds[k].0 <= 4
        * avg by {
        lemma_bounds_len(c, data, 0, k);
    }
    assert forall|k: int| 0 <= k < bounds.len() - 1 implies (#[trigger] bounds[k]).1 - bounds[k].0
        > avg / 4 by {
        lemma_bounds_least(c, data, 0, k);
    }
}

pub proof fn lemma_cdc_avg(avg_kb: Option<usize>)
    requires
        cdc_allowed(avg_kb),
    ensures
        cdc_avg(avg_kb) >= 1024,
        chunk_cut(avg_kb).wf(),
        chunk_cut(avg_kb).max == 4 * cdc_avg(avg_kb),
{
    match avg_kb {
        Some(kb) => {
            lemma_doubled(1024, (1024 * kb) as nat);
        },
        None => {},
    }
}

// ---- where pieces end ----

/// The fingerprint of the bytes: each step doubles what there is and adds the number of the byte,
/// modulo 2^64.
pub open spec fn print_of(bytes: Seq<u8>) -> nat
    decreases bytes.len(),
{
    if bytes.len() == 0 {
        0
    } else {
        ((2 * print_of(bytes.drop_last()) + gear_at(bytes.last() as int))
            % 0x1_0000_0000_0000_0000) as nat
    }
}

proof fn lemma_rolled(fp: u64, x: u8)
    ensures
        rolled(fp, x) == (2 * fp + gear_at(x as int)) % 0x1_0000_0000_0000_0000,
{
    let g = gear_at(x as int) as int;
    let m: int = 0x1_0000_0000_0000_0000;
    assert(fp << 1u64 == (2 * fp) % 0x1_0000_0000_0000_0000) by (bit_vector);
    vstd::arithmetic::div_mod::lemma_add_mod_noop(2 * fp, g, m);
    vstd::arithmetic::div_mod::lemma_small_mod(g as nat, m as nat);
    let y = (fp << 1u64) as int;
    if y + g >= m {
        vstd::arithmetic::div_mod::lemma_fundamental_div_mod_converse(y + g, m, 1, y + g - m);
    } else {
        vstd::arithmetic::div_mod::lemma_small_mod((y + g) as nat, m as nat);
    }
}

/// The bytes from `start` up to length `l` of the piece at the front of `rest`.
pub open spec fn looked_at(rest: Seq<u8>, start: int, l: int) -> Seq<u8> {
    rest.subrange(start, l)
}

proof fn lemma_print_next(rest: Seq<u8>, start: int, j: int, fp: u64)
    requires
        0 <= start <= j < rest.len(),
        fp == print_of(looked_at(rest, start, j)),
    ensures
        rolled(fp, rest[j]) == print_of(looked_at(rest, start, j + 1)),
{
    let s = looked_at(rest, start, j + 1);
    assert(s.drop_last() =~= looked_at(rest, start, j));
    assert(s.last() == rest[j]);
    lemma_rolled(fp, rest[j]);
}

/// A mask of low bits asks that a power of two divides.
proof fn lemma_masked(fp: u64, mask: u64, p: nat, e: nat)
    requires
        e < 64,
        p == bits::p2(e),
        mask == p - 1,
    ensures
        fp & mask == 0 <==> fp as nat % p == 0,
        p > 0,
{
    lz::lemma_pow2_is_p2(e);
    bits::lemma_p2_pos(e);
    vstd::bits::lemma_u64_pow2_no_overflow(e);
    vstd::bits::lemma_u64_low_bits_mask_is_mod(fp, e);
}

/// The power of two that comes of doubling.
proof fn lemma_doubled_power(e: nat, x: nat) -> (r: nat)
    ensures
        doubled(bits::p2(e), x) == bits::p2(r),
        r >= e,
    decreases
            if bits::p2(e) < x {
                x - bits::p2(e)
            } else {
                0
            },
{
    bits::lemma_p2_pos(e);
    if bits::p2(e) < x {
        assert(bits::p2(e + 1) == 2 * bits::p2(e));
        lemma_doubled_power(e + 1, x)
    } else {
        e
    }
}

/// How often 2 is a factor of a power of two of moderate size.
proof fn lemma_power_small(r: nat)
    requires
        10 <= r,
        bits::p2(r) <= 0x2000_0000_0000_0000,
    ensures
        r <= 61,
        4 * bits::p2(r) == bits::p2(r + 2),
        bits::p2(r) / 4 == bits::p2((r - 2) as nat),
        bits::p2(r) >= 1024,
{
    bits::lemma_p2_small();
    bits::lemma_p2_mono(10, r);
    assert(bits::p2(62) == 0x4000_0000_0000_0000) by {
        lz::lemma_pow2_is_p2(62);
        vstd::arithmetic::power2::lemma2_to64_rest();
    }
    if r >= 62 {
        bits::lemma_p2_mono(62, r);
    }
    assert(bits::p2(r + 2) == 2 * bits::p2(r + 1));
    assert(bits::p2(r + 1) == 2 * bits::p2(r));
    assert(bits::p2(r) == 2 * bits::p2((r - 1) as nat));
    assert(bits::p2((r - 1) as nat) == 2 * bits::p2((r - 2) as nat));
}

/// The first length at which the scan ends is where it ends.
proof fn lemma_scan_ends(
    c: Cut,
    rest: Seq<u8>,
    start: int,
    j: int,
    center: int,
    end: int,
    fp: u64,
)
    requires
        0 <= start <= j <= end <= rest.len(),
        fp == print_of(looked_at(rest, start, j)),
    ensures
        ({
            let l = c.scanned(rest, j, center, end, fp);
            &&& j <= l <= end
            &&& l < end ==> {
                &&& j < l
                &&& print_of(looked_at(rest, start, l)) <= u64::MAX
                &&& c.ends(print_of(looked_at(rest, start, l)) as u64, l, center)
            }
            &&& forall|m: int|
                j < m < l ==> {
                    &&& #[trigger] print_of(looked_at(rest, start, m)) <= u64::MAX
                    &&& !c.ends(print_of(looked_at(rest, start, m)) as u64, m, center)
                }
        }),
    decreases end - j,
{
    if j < end {
        let fp2 = rolled(fp, rest[j]);
        lemma_print_next(rest, start, j, fp);
        if !c.ends(fp2, j + 1, center) {
            lemma_scan_ends(c, rest, start, j + 1, center, end, fp2);
            let l = c.scanned(rest, j + 1, center, end, fp2);
            assert forall|m: int| j < m < l implies {
                &&& #[trigger] print_of(looked_at(rest, start, m)) <= u64::MAX
                &&& !c.ends(print_of(looked_at(rest, start, m)) as u64, m, center)
            } by {
                if m > j + 1 {
                }
            }
        }
    }
}

/// A piece may end at length `l`: the fingerprint of its bytes behind the first `least` is
/// divisible by four times the average before the average, and by a quarter of it from there on.
pub open spec fn may_end(piece: Seq<u8>, least: nat, avg: nat, l: int) -> bool {
    print_of(piece.subrange(least as int, l)) % (if l < avg {
        4 * avg
    } else {
        avg / 4
    }) == 0
}

/// The piece at `s` ends where the fingerprint says so, and at the first such length: only the
/// greatest length, or the end of the data, ends it else.
pub open spec fn ends_first(
    data: Seq<u8>,
    s: int,
    e: int,
    least: nat,
    avg: nat,
    greatest: nat,
) -> bool {
    let rest = data.skip(s);
    &&& s < e <= data.len()
    &&& e - s <= greatest
    &&& e == data.len() || e - s == greatest || (e - s > least && may_end(rest, least, avg, e - s))
    &&& forall|m: int| least < m < e - s ==> !#[trigger] may_end(rest, least, avg, m)
}

proof fn lemma_first_ends(c: Cut, rest: Seq<u8>, r: nat)
    requires
        10 <= r,
        bits::p2(r) <= 0x2000_0000_0000_0000,
        c.avg == bits::p2(r),
        c.mask_s == 4 * c.avg - 1,
        c.mask_l == c.avg / 4 - 1,
        c.start == c.min,
        c.min < c.max,
        rest.len() > 0,
    ensures
        ({
            let l = c.first_len(rest);
            &&& 0 < l <= rest.len()
            &&& l <= c.max
            &&& l == rest.len() || l == c.max || (l > c.min && may_end(
                rest,
                c.min as nat,
                c.avg as nat,
                l,
            ))
            &&& forall|m: int|
                c.min < m < l ==> !#[trigger] may_end(rest, c.min as nat, c.avg as nat, m)
        }),
{
    lemma_first_len(c, rest);
    lemma_power_small(r);
    let end = lesser(c.max as int, rest.len() as int);
    if end > c.min {
        let start = c.start as int;
        let center = lesser(c.avg as int, end);
        let l = c.first_len(rest);
        assert(looked_at(rest, start, start) =~= Seq::<u8>::empty());
        lemma_scan_ends(c, rest, start, start, center, end, 0);
        if l < end {
            let fp = print_of(looked_at(rest, start, l)) as u64;
            lemma_masked(fp, c.mask_s, 4 * c.avg as nat, r + 2);
            lemma_masked(fp, c.mask_l, c.avg as nat / 4, (r - 2) as nat);
        }
        assert forall|m: int| c.min < m < l implies !#[trigger] may_end(
            rest,
            c.min as nat,
            c.avg as nat,
            m,
        ) by {
            let fp = print_of(looked_at(rest, start, m)) as u64;
            lemma_masked(fp, c.mask_s, 4 * c.avg as nat, r + 2);
            lemma_masked(fp, c.mask_l, c.avg as nat / 4, (r - 2) as nat);
        }
    }
}

proof fn lemma_bounds_end(c: Cut, data: Seq<u8>, i: int, k: int, r: nat)
    requires
        10 <= r,
        bits::p2(r) <= 0x2000_0000_0000_0000,
        c.avg == bits::p2(r),
        c.mask_s == 4 * c.avg - 1,
        c.mask_l == c.avg / 4 - 1,
        c.start == c.min,
        c.min < c.max,
        0 <= i <= data.len(),
        0 <= k < c.bounds_from(data, i).len(),
    ensures
        ({
            let b = c.bounds_from(data, i)[k];
            &&& i <= b.0
            &&& ends_first(data, b.0, b.1, c.min as nat, c.avg as nat, c.max as nat)
        }),
    decreases data.len() - i,
{
    if i < data.len() {
        let rest = data.skip(i);
        lemma_first_ends(c, rest, r);
        let l = c.first_len(rest);
        if k > 0 {
            lemma_bounds_end(c, data, i + l, k - 1, r);
            assert(c.bounds_from(data, i)[k] == c.bounds_from(data, i + l)[k - 1]);
        }
    }
}

/// Chunks are cut by content. Their average is 16 KiB, or the least power of two that is not below
/// the number of KiB that is given, and each chunk ends at the first length behind a quarter of the
/// average at which the fingerprint since then has enough zero bits at its end: two more than the
/// average has before that, and two less from there on. Nothing else ends a chunk but four times
/// the average and the end of the data.
pub proof fn lemma_chunk_ends(data: Seq<u8>, avg_kb: Option<usize>, k: int)
    requires
        cdc_allowed(avg_kb),
        0 <= k < chunk_cut(avg_kb).bounds_from(data, 0).len(),
    ensures
        ({
            let b = chunk_cut(avg_kb).bounds_from(data, 0)[k];
            let avg = cdc_avg(avg_kb);
            &&& 0 <= b.0
            &&& ends_first(data, b.0, b.1, avg / 4, avg, 4 * avg)
        }),
        ({
            let avg = cdc_avg(avg_kb);
            &&& exists|e: nat| avg == bits::p2(e)
            &&& avg_kb is None || avg_kb == Some(0usize) ==> avg == 16384
            &&& avg_kb matches Some(kb) ==> (kb > 0 ==> 1024 * kb <= avg < 2048 * kb)
        }),
{
    bits::lemma_p2_small();
    assert(bits::p2(10) == 1024 && bits::p2(14) == 16384);
    let r: nat = match avg_kb {
        Some(kb) => {
            if kb > 0 {
                lemma_doubled(1024, (1024 * kb) as nat);
                lemma_doubled_power(10, (1024 * kb) as nat)
            } else {
                14
            }
        },
        None => 14,
    };
    assert(cdc_avg(avg_kb) == bits::p2(r));
    lemma_cdc_avg(avg_kb);
    lemma_bounds_end(chunk_cut(avg_kb), data, 0, k, r);
}

/// Blocks are cut by content in the same way. Their average is the least power of two from 1 KiB on
/// that is not below the size, and what is looked at starts behind 512 bytes or a quarter of the
/// average, whichever is more.
pub proof fn lemma_block_ends(data: Seq<u8>, block_size: nat, avg: nat, k: int)
    requires
        cuttable(block_size),
        exists|e: nat| avg == bits::p2(e),
        avg >= 1024,
        avg >= block_size,
        avg == 1024 || avg < 2 * block_size,
        4 * avg <= usize::MAX,
        0 <= k < blocks(data, block_size, false).len(),
    ensures
        ({
            let b = blocks(data, block_size, false)[k];
            let least: nat = if avg == 1024 {
                512
            } else {
                avg / 4
            };
            &&& 0 <= b.0
            &&& ends_first(data, b.0, b.1, least, avg, 4 * avg)
        }),
{
    bits::lemma_p2_small();
    assert(bits::p2(10) == 1024);
    let d = doubled(1024, block_size);
    lemma_doubled(1024, block_size);
    let r = lemma_doubled_power(10, block_size);
    let e = choose|e: nat| avg == bits::p2(e);
    assert(d == avg) by {
        if r < e {
            bits::lemma_p2_mono(r + 1, e);
            assert(bits::p2(r + 1) == 2 * bits::p2(r));
        } else if e < r {
            bits::lemma_p2_mono(e + 1, r);
            assert(bits::p2(e + 1) == 2 * bits::p2(e));
        }
    }
    lemma_power_small(r);
    if avg > 1024 {
        assert(r > 10);
        bits::lemma_p2_mono(11, r);
        assert(bits::p2(11) == 2048);
    }
    lemma_bounds_end(block_cut(block_size), data, 0, k, r);
}

proof fn lemma_fixed_at_from(n: int, block: int, i: int, k: int)
    requires
        0 <= i <= n,
        block > 0,
        0 <= k,
    ensures
        k < fixed_from(n, block, i).len() <==> i + k * block < n,
        k < fixed_from(n, block, i).len() ==> fixed_from(n, block, i)[k] == (
            i + k * block,
            lesser(i + (k + 1) * block, n),
        ),
    decreases n - i,
{
    assert(0 * block == 0 && (k + 1) * block == k * block + block) by (nonlinear_arith);
    assert(k > 0 ==> k * block == (k - 1) * block + block) by (nonlinear_arith);
    assert(k * block >= 0) by (nonlinear_arith)
        requires
            k >= 0,
            block > 0,
    ;
    if i < n {
        let e = lesser(i + block, n);
        if k > 0 {
            assert((k - 1) * block >= 0) by (nonlinear_arith)
                requires
                    k >= 1,
                    block > 0,
            ;
            lemma_fixed_at_from(n, block, e, k - 1);
            if k < fixed_from(n, block, i).len() {
                assert(fixed_from(n, block, i)[k] == fixed_from(n, block, e)[k - 1]);
            }
        }
    }
}

/// Blocks of a fixed length are cut at its multiples.
pub proof fn lemma_fixed_at(data: Seq<u8>, block_size: nat, k: int)
    requires
        block_size > 0,
        0 <= k,
    ensures
        k < blocks(data, block_size, true).len() <==> k * block_size < data.len(),
        k < blocks(data, block_size, true).len() ==> blocks(data, block_size, true)[k] == (
            k * block_size,
            lesser((k + 1) * block_size, data.len() as int),
        ),
{
    lemma_fixed_at_from(data.len() as int, block_size as int, 0, k);
}

/// Chunks of up to 256 MiB on average, and blocks of up to 2 GiB, can be cut.
pub proof fn lemma_cuts_allowed(avg_kb: Option<usize>, block_size: nat)
    requires
        avg_kb matches Some(kb) ==> kb <= 262144,
        block_size <= 0x8000_0000,
    ensures
        cdc_allowed(avg_kb),
        cuttable(block_size),
{
    reveal_with_fuel(doubled, 23);
    lemma_doubled_mono(1024, block_size, 0x8000_0000);
    match avg_kb {
        Some(kb) => {
            lemma_doubled_mono(1024, (1024 * kb) as nat, 0x1000_0000);
        },
        None => {},
    }
}

} // verus!
