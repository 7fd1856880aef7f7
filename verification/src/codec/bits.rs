//! Bit streams, most significant bit first.
//!
//! A stream is modelled as a `Seq<bool>`. [`BitWriter`] appends to one and
//! [`BitReader`] takes one apart; past its end a reader sees zero bits.

use vstd::prelude::*;

verus! {

/// Bit `k` of `v`, counted from the least significant one.
pub open spec fn bit(v: u64, k: int) -> bool {
    (v >> (k as u64)) & 1 == 1
}

/// The low `n` bits of `v`, most significant first.
pub open spec fn num_bits(v: u64, n: nat) -> Seq<bool> {
    Seq::new(n, |i: int| bit(v, n - 1 - i))
}

/// The number that a bit sequence spells, most significant bit first.
pub open spec fn bits_num(b: Seq<bool>) -> nat
    decreases b.len(),
{
    if b.len() == 0 {
        0
    } else {
        2 * bits_num(b.drop_last()) + if b.last() { 1nat } else { 0nat }
    }
}

/// The bits of a byte sequence, each byte most significant bit first.
pub open spec fn bits_of(s: Seq<u8>) -> Seq<bool> {
    Seq::new(8 * s.len(), |i: int| bit(s[i / 8] as u64, 7 - i % 8))
}

pub open spec fn zeros(n: nat) -> Seq<bool> {
    Seq::new(n, |i: int| false)
}

/// `b` filled up with zero bits to a whole number of bytes.
pub open spec fn zero_pad(b: Seq<bool>) -> Seq<bool> {
    b + zeros(((8 - b.len() % 8) % 8) as nat)
}

/// The byte whose bits are the eight bits of `b` from `o` on (zero past the end).
pub open spec fn byte_at(b: Seq<bool>, o: int) -> u8 {
    bits_num(Seq::new(8, |k: int| o + k < b.len() && b[o + k])) as u8
}

/// The bytes that hold `b`, the last one filled up with zero bits.
pub open spec fn pack(b: Seq<bool>) -> Seq<u8> {
    Seq::new(((b.len() + 7) / 8) as nat, |i: int| byte_at(b, 8 * i))
}

/// The number that the first `n` bits of `b` spell, zero bits standing in past the end.
pub open spec fn front_num(b: Seq<bool>, n: nat) -> nat {
    bits_num(Seq::new(n, |i: int| i < b.len() && b[i]))
}

/// What is left of `b` after its first `n` bits.
pub open spec fn after(b: Seq<bool>, n: nat) -> Seq<bool> {
    if n <= b.len() {
        b.skip(n as int)
    } else {
        Seq::empty()
    }
}

pub open spec fn p2(n: nat) -> nat
    decreases n,
{
    if n == 0 {
        1
    } else {
        2 * p2((n - 1) as nat)
    }
}

/// The first powers of two.
pub proof fn lemma_p2_small()
    ensures
        p2(0) == 1,
        p2(1) == 2,
        p2(2) == 4,
        p2(3) == 8,
        p2(4) == 16,
        p2(5) == 32,
        p2(6) == 64,
        p2(7) == 128,
        p2(8) == 256,
        p2(9) == 512,
        p2(10) == 1024,
        p2(11) == 2048,
        p2(12) == 4096,
        p2(13) == 8192,
        p2(14) == 16384,
        p2(15) == 32768,
        p2(16) == 65536,
{
    reveal_with_fuel(p2, 17);
}

pub proof fn lemma_p2_pos(n: nat)
    ensures
        p2(n) >= 1,
    decreases n,
{
    if n > 0 {
        lemma_p2_pos((n - 1) as nat);
    }
}

pub proof fn lemma_p2_add(a: nat, b: nat)
    ensures
        p2(a + b) == p2(a) * p2(b),
    decreases b,
{
    if b == 0 {
        assert(p2(a) * 1 == p2(a)) by (nonlinear_arith);
    } else {
        lemma_p2_add(a, (b - 1) as nat);
        let x = p2(a) as int;
        let y = p2((b - 1) as nat) as int;
        assert(2 * (x * y) == x * (2 * y)) by (nonlinear_arith);
    }
}

pub proof fn lemma_p2_mono(a: nat, b: nat)
    requires
        a <= b,
    ensures
        p2(a) <= p2(b),
    decreases b - a,
{
    if a < b {
        lemma_p2_mono(a, (b - 1) as nat);
    }
}

/// A shift by `n` is a product with a power of two.
pub proof fn lemma_shl_p2(n: u64)
    requires
        n < 64,
    ensures
        (1u64 << n) == p2(n as nat),
    decreases n,
{
    if n == 0 {
        assert(1u64 << 0u64 == 1) by (bit_vector);
    } else {
        let m: u64 = (n - 1) as u64;
        lemma_shl_p2(m);
        assert((1u64 << n) == 2 * (1u64 << m)) by (bit_vector)
            requires
                0 < n < 64,
                m == n - 1,
        ;
    }
}

/// A number below `2^n` is what its low `n` bits spell.
pub proof fn lemma_num_bits_value(v: u64, n: nat)
    requires
        n <= 64,
        v < p2(n),
    ensures
        bits_num(num_bits(v, n)) == v,
    decreases n,
{
    let b = num_bits(v, n);
    if n > 0 {
        let h = v >> 1u64;
        assert(v == 2 * h + (v & 1) && (v & 1 == 0 || v & 1 == 1)) by (bit_vector)
            requires
                h == v >> 1u64,
        ;
        lemma_num_bits_value(h, (n - 1) as nat);
        assert(b.drop_last() =~= num_bits(h, (n - 1) as nat)) by {
            assert forall|i: int| 0 <= i < n - 1 implies b.drop_last()[i] == num_bits(
                h,
                (n - 1) as nat,
            )[i] by {
                let k: u64 = (n - 1 - i) as u64;
                let k1: u64 = (n - 2 - i) as u64;
                assert((v >> k) == ((v >> 1u64) >> k1)) by (bit_vector)
                    requires
                        0 < k < 64,
                        k1 == k - 1,
                ;
            }
        }
        assert(v >> 0u64 == v) by (bit_vector);
        assert(b.last() == bit(v, 0));
    }
}

/// Bit sequences of one length spell different numbers.
pub proof fn lemma_bits_num_injective(a: Seq<bool>, b: Seq<bool>)
    requires
        a.len() == b.len(),
        bits_num(a) == bits_num(b),
    ensures
        a == b,
    decreases a.len(),
{
    if a.len() > 0 {
        lemma_bits_num_injective(a.drop_last(), b.drop_last());
        assert(a =~= a.drop_last().push(a.last()));
        assert(b =~= b.drop_last().push(b.last()));
    } else {
        assert(a =~= b);
    }
}

pub proof fn lemma_bits_num_bound(b: Seq<bool>)
    ensures
        bits_num(b) < p2(b.len()),
    decreases b.len(),
{
    if b.len() > 0 {
        lemma_bits_num_bound(b.drop_last());
    }
}

pub proof fn lemma_bits_num_concat(a: Seq<bool>, b: Seq<bool>)
    ensures
        bits_num(a + b) == bits_num(a) * p2(b.len()) + bits_num(b),
    decreases b.len(),
{
    if b.len() == 0 {
        assert(a + b =~= a);
        assert(bits_num(a) * 1 == bits_num(a)) by (nonlinear_arith);
    } else {
        lemma_bits_num_concat(a, b.drop_last());
        assert((a + b).drop_last() =~= a + b.drop_last());
        let x = bits_num(a) as int;
        let y = p2((b.len() - 1) as nat) as int;
        assert(x * (2 * y) == 2 * (x * y)) by (nonlinear_arith);
    }
}

/// The bits of the number that a bit sequence spells are that sequence.
pub proof fn lemma_value_num_bits(b: Seq<bool>, v: u64)
    requires
        b.len() <= 64,
        v == bits_num(b),
    ensures
        num_bits(v, b.len()) == b,
{
    lemma_bits_num_bound(b);
    lemma_num_bits_value(v, b.len());
    lemma_bits_num_injective(num_bits(v, b.len()), b);
}

/// A number that was written is read back, and what follows it is left.
pub proof fn lemma_front_write(v: u64, n: nat, z: Seq<bool>)
    requires
        n <= 64,
        v < p2(n),
    ensures
        front_num(num_bits(v, n) + z, n) == v,
        after(num_bits(v, n) + z, n) == z,
{
    let b = num_bits(v, n) + z;
    lemma_num_bits_value(v, n);
    assert(Seq::new(n, |i: int| i < b.len() && b[i]) =~= num_bits(v, n));
    assert(b.skip(n as int) =~= z);
}

pub proof fn lemma_bits_of_concat(a: Seq<u8>, b: Seq<u8>)
    ensures
        bits_of(a + b) == bits_of(a) + bits_of(b),
{
    let l = bits_of(a + b);
    let r = bits_of(a) + bits_of(b);
    assert forall|i: int| 0 <= i < l.len() implies l[i] == r[i] by {
        if i >= 8 * a.len() {
            assert((i - 8 * a.len()) / 8 == i / 8 - a.len());
            assert((i - 8 * a.len()) % 8 == i % 8);
        }
    }
    assert(l =~= r);
}

pub proof fn lemma_bits_of_push(a: Seq<u8>, x: u8)
    ensures
        bits_of(a.push(x)) == bits_of(a) + num_bits(x as u64, 8),
{
    let one = seq![x];
    assert(a.push(x) =~= a + one);
    lemma_bits_of_concat(a, one);
    assert(bits_of(one) =~= num_bits(x as u64, 8));
}

/// Byte sequences with the same bits are the same.
pub proof fn lemma_bits_of_injective(a: Seq<u8>, b: Seq<u8>)
    requires
        bits_of(a) == bits_of(b),
    ensures
        a == b,
{
    assert(bits_of(a).len() == 8 * a.len());
    assert(bits_of(b).len() == 8 * b.len());
    assert forall|j: int| 0 <= j < a.len() implies a[j] == b[j] by {
        let x = num_bits(a[j] as u64, 8);
        let y = num_bits(b[j] as u64, 8);
        assert forall|k: int| 0 <= k < 8 implies x[k] == y[k] by {
            let i = 8 * j + k;
            assert(i / 8 == j && i % 8 == k);
            assert(bits_of(a)[i] == bit(a[j] as u64, 7 - k));
            assert(bits_of(b)[i] == bit(b[j] as u64, 7 - k));
        }
        assert(x =~= y);
        lemma_p2_eight();
        lemma_num_bits_value(a[j] as u64, 8);
        lemma_num_bits_value(b[j] as u64, 8);
    }
    assert(a =~= b);
}

pub proof fn lemma_p2_eight()
    ensures
        p2(8) == 256,
{
    reveal_with_fuel(p2, 9);
}

/// Packing keeps the bits and adds zero bits up to the next byte.
pub proof fn lemma_pack_bits(b: Seq<bool>)
    ensures
        bits_of(pack(b)) == zero_pad(b),
{
    let p = pack(b);
    let l = bits_of(p);
    let r = zero_pad(b);
    assert(l.len() == r.len());
    assert forall|i: int| 0 <= i < l.len() implies l[i] == r[i] by {
        let j = i / 8;
        let k = i % 8;
        let w = Seq::new(8, |k: int| 8 * j + k < b.len() && b[8 * j + k]);
        lemma_p2_eight();
        lemma_bits_num_bound(w);
        assert(p[j] == bits_num(w));
        lemma_value_num_bits(w, p[j] as u64);
        assert(num_bits(p[j] as u64, 8)[k] == w[k]);
        assert(8 * j + k == i);
    }
    assert(l =~= r);
}

/// `prefix` followed by the packed bits is the only byte sequence that holds
/// the bits of `prefix`, then `b`, then the filling zero bits.
pub proof fn lemma_pack_unique(out: Seq<u8>, prefix: Seq<u8>, b: Seq<bool>)
    requires
        bits_of(out) == zero_pad(bits_of(prefix) + b),
    ensures
        out == prefix + pack(b),
{
    lemma_bits_of_concat(prefix, pack(b));
    lemma_pack_bits(b);
    assert(zero_pad(bits_of(prefix) + b) =~= bits_of(prefix) + zero_pad(b));
    lemma_bits_of_injective(out, prefix + pack(b));
}

/// Collects bits into bytes.
pub struct BitWriter {
    out: Vec<u8>,
    bit_buf: u64,
    bit_pos: usize,
}

impl BitWriter {
    /// Fewer than 32 bits wait in the buffer.
    pub closed spec fn inv(&self) -> bool {
        self.bit_pos < 32
    }

    /// All bits written so far.
    pub closed spec fn bits(&self) -> Seq<bool> {
        bits_of(self.out@) + num_bits(self.bit_buf, self.bit_pos as nat)
    }

    pub fn new() -> (w: Self)
        ensures
            w.inv(),
            w.bits() == Seq::<bool>::empty(),
    {
        let w = BitWriter { out: Vec::new(), bit_buf: 0, bit_pos: 0 };
        assert(w.bits() =~= Seq::<bool>::empty());
        w
    }

    /// A writer that goes on behind the bytes of `out`.
    pub fn from_vec(out: Vec<u8>) -> (w: Self)
        ensures
            w.inv(),
            w.bits() == bits_of(out@),
    {
        let w = BitWriter { out, bit_buf: 0, bit_pos: 0 };
        assert(w.bits() =~= bits_of(out@));
        w
    }

    /// Appends the low `n` bits of `val`.
    pub fn write(&mut self, val: u32, n: usize)
        requires
            old(self).inv(),
            n <= 32,
        ensures
            final(self).inv(),
            final(self).bits() == old(self).bits() + num_bits(val as u64, n as nat),
    {
        let ghost before = self.bits();
        let ghost buf0 = self.bit_buf;
        let ghost pos0 = self.bit_pos;
        let nn: u64 = n as u64;
        proof {
            lemma_shl_p2(nn);
            lemma_p2_pos(n as nat);
        }
        let mask: u64 = (1u64 << nn) - 1;
        self.bit_buf = (self.bit_buf << nn) | (val as u64 & mask);
        self.bit_pos = self.bit_pos + n;
        proof {
            lemma_append_bits(buf0, pos0 as nat, val as u64, n as nat);
            assert(self.bits() =~= before + num_bits(val as u64, n as nat));
        }
        if self.bit_pos >= 32 {
            let ghost mid = self.bits();
            let ghost out0 = self.out@;
            let ghost pos1 = self.bit_pos as nat;
            self.bit_pos = self.bit_pos - 32;
            let p: u64 = self.bit_pos as u64;
            let b: u64 = self.bit_buf;
            let x0: u8 = ((b >> (p + 24)) & 0xFF) as u8;
            let x1: u8 = ((b >> (p + 16)) & 0xFF) as u8;
            let x2: u8 = ((b >> (p + 8)) & 0xFF) as u8;
            let x3: u8 = ((b >> p) & 0xFF) as u8;
            self.out.push(x0);
            self.out.push(x1);
            self.out.push(x2);
            self.out.push(x3);
            proof {
                lemma_bits_of_push(out0, x0);
                lemma_bits_of_push(out0.push(x0), x1);
                lemma_bits_of_push(out0.push(x0).push(x1), x2);
                lemma_bits_of_push(out0.push(x0).push(x1).push(x2), x3);
                lemma_byte_bits(b, p + 24, x0);
                lemma_byte_bits(b, p + 16, x1);
                lemma_byte_bits(b, p + 8, x2);
                lemma_byte_bits(b, p as int, x3);
                assert(self.bits() =~= mid);
            }
        }
    }

    /// The bytes written, the last one filled up with zero bits.
    pub fn finish(self) -> (r: Vec<u8>)
        requires
            self.inv(),
        ensures
            bits_of(r@) == zero_pad(self.bits()),
    {
        let mut out = self.out;
        let mut pos: usize = self.bit_pos;
        let buf: u64 = self.bit_buf;
        while pos >= 8
            invariant
                pos < 32,
                buf == self.bit_buf,
                bits_of(out@) + num_bits(buf, pos as nat) == self.bits(),
            decreases pos,
        {
            let ghost out0 = out@;
            let ghost pos0 = pos as nat;
            pos = pos - 8;
            let x: u8 = ((buf >> (pos as u64)) & 0xFF) as u8;
            out.push(x);
            proof {
                lemma_bits_of_push(out0, x);
                lemma_byte_bits(buf, pos as int, x);
                assert(num_bits(buf, pos0) =~= num_bits(x as u64, 8) + num_bits(buf, pos as nat));
                assert(bits_of(out@) + num_bits(buf, pos as nat) =~= bits_of(out0) + num_bits(
                    buf,
                    pos0,
                ));
            }
        }
        if pos > 0 {
            let ghost out0 = out@;
            let s: u64 = 8 - pos as u64;
            let x: u8 = ((buf << s) & 0xFF) as u8;
            out.push(x);
            proof {
                lemma_bits_of_push(out0, x);
                lemma_last_byte(buf, pos as nat, x);
                assert(bits_of(out@) =~= zero_pad(self.bits()));
            }
        } else {
            assert(bits_of(out@) =~= zero_pad(self.bits()));
        }
        out
    }
}

/// Shifting `n` bits of `v` into `buf` appends them to its low `pos` bits.
proof fn lemma_append_bits(buf: u64, pos: nat, v: u64, n: nat)
    requires
        pos < 32,
        n <= 32,
    ensures
        num_bits((buf << (n as u64)) | (v & (((1u64 << (n as u64)) - 1) as u64)), pos + n)
            == num_bits(buf, pos) + num_bits(v, n),
{
    let nn = n as u64;
    let mask: u64 = ((1u64 << nn) - 1) as u64;
    let r = (buf << nn) | (v & mask);
    let a = num_bits(r, pos + n);
    let b = num_bits(buf, pos) + num_bits(v, n);
    lemma_p2_pos(n);
    lemma_shl_p2(nn);
    assert forall|i: int| 0 <= i < pos + n implies a[i] == b[i] by {
        let k: u64 = (pos + n - 1 - i) as u64;
        let one: u64 = 1u64 << nn;
        if i < pos {
            let k1: u64 = (k - nn) as u64;
            assert((r >> k) & 1 == (buf >> k1) & 1) by (bit_vector)
                requires
                    nn <= 32,
                    nn <= k < 64,
                    k1 == k - nn,
                    one == 1u64 << nn,
                    mask == one - 1,
                    r == (buf << nn) | (v & mask),
            ;
        } else {
            assert((r >> k) & 1 == (v >> k) & 1) by (bit_vector)
                requires
                    nn <= 32,
                    k < nn,
                    one == 1u64 << nn,
                    mask == one - 1,
                    r == (buf << nn) | (v & mask),
            ;
        }
    }
    assert(a =~= b);
}

/// The byte cut out of `b` at bit `p` has the eight bits of `b` from there on.
proof fn lemma_byte_bits(b: u64, p: int, x: u8)
    requires
        0 <= p <= 56,
        x == ((b >> (p as u64)) & 0xFF) as u8,
    ensures
        forall|i: int| 0 <= i < 8 ==> #[trigger] num_bits(x as u64, 8)[i] == bit(b, p + 7 - i),
{
    let q = p as u64;
    assert forall|i: int| 0 <= i < 8 implies #[trigger] num_bits(x as u64, 8)[i] == bit(
        b,
        p + 7 - i,
    ) by {
        let k: u64 = (7 - i) as u64;
        let y: u64 = (b >> q) & 0xFF;
        assert(y < 256) by (bit_vector)
            requires
                y == (b >> q) & 0xFF,
        ;
        let kq: u64 = (k + q) as u64;
        assert((y >> k) & 1 == (b >> kq) & 1) by (bit_vector)
            requires
                q <= 56,
                k < 8,
                kq == k + q,
                y == (b >> q) & 0xFF,
        ;
    }
}

/// The last, partly filled byte: the waiting bits, then zero bits.
proof fn lemma_last_byte(buf: u64, pos: nat, x: u8)
    requires
        0 < pos < 8,
        x == ((buf << ((8 - pos) as u64)) & 0xFF) as u8,
    ensures
        num_bits(x as u64, 8) == num_bits(buf, pos) + zeros((8 - pos) as nat),
{
    let s: u64 = (8 - pos) as u64;
    let y: u64 = (buf << s) & 0xFF;
    assert(y < 256) by (bit_vector)
        requires
            y == (buf << s) & 0xFF,
    ;
    let a = num_bits(x as u64, 8);
    let b = num_bits(buf, pos) + zeros((8 - pos) as nat);
    assert forall|i: int| 0 <= i < 8 implies a[i] == b[i] by {
        let k: u64 = (7 - i) as u64;
        if i < pos {
            let k1: u64 = (k - s) as u64;
            assert((y >> k) & 1 == (buf >> k1) & 1) by (bit_vector)
                requires
                    0 < s < 8,
                    s <= k < 8,
                    k1 == k - s,
                    y == (buf << s) & 0xFF,
            ;
        } else {
            assert((y >> k) & 1 == 0) by (bit_vector)
                requires
                    0 < s < 8,
                    k < s,
                    y == (buf << s) & 0xFF,
            ;
        }
    }
    assert(a =~= b);
}

/// Takes a byte sequence apart into bits.
pub struct BitReader<'a> {
    data: &'a [u8],
    idx: usize,
    bit_buf: u64,
    bits_left: usize,
}

impl<'a> BitReader<'a> {
    pub closed spec fn inv(&self) -> bool {
        &&& self.idx <= self.data@.len()
        &&& self.bits_left <= 64
    }

    /// The bits not yet consumed.
    pub closed spec fn rest(&self) -> Seq<bool> {
        num_bits(self.bit_buf, self.bits_left as nat) + bits_of(self.data@.skip(self.idx as int))
    }

    /// How many bits are at hand without another [`fill`](BitReader::fill); no
    /// limit once the data are used up, for then only zero bits follow.
    pub closed spec fn ready(&self, n: nat) -> bool {
        n <= self.bits_left || self.idx == self.data@.len()
    }

    /// A buffer that is ready for `n` bits is ready for fewer.
    pub proof fn lemma_ready(&self, n: nat)
        requires
            self.ready(n),
        ensures
            forall|m: nat| m <= n ==> #[trigger] self.ready(m),
    {
    }

    pub fn new(data: &'a [u8]) -> (r: Self)
        ensures
            r.inv(),
            r.rest() == bits_of(data@),
            r.ready(56),
    {
        let mut br = BitReader { data, idx: 0, bit_buf: 0, bits_left: 0 };
        assert(data@.skip(0) =~= data@);
        assert(br.rest() =~= bits_of(data@));
        br.fill();
        br
    }

    /// Brings bytes into the buffer: at least 56 bits, or all that is left.
    pub fn fill(&mut self)
        requires
            old(self).inv(),
        ensures
            final(self).inv(),
            final(self).rest() == old(self).rest(),
            final(self).ready(56),
    {
        while self.bits_left <= 56 && self.idx < self.data.len()
            invariant
                self.inv(),
                self.rest() == old(self).rest(),
                self.data@ == old(self).data@,
            decreases self.data@.len() - self.idx,
        {
            let x: u8 = self.data[self.idx];
            let ghost buf0 = self.bit_buf;
            let ghost left0 = self.bits_left as nat;
            let ghost idx0 = self.idx as int;
            let ghost rest0 = self.rest();
            self.bit_buf = (self.bit_buf << 8u64) | (x as u64);
            self.bits_left = self.bits_left + 8;
            self.idx = self.idx + 1;
            proof {
                lemma_append_byte(buf0, left0, x);
                let d = self.data@;
                assert(d.skip(idx0) =~= seq![x] + d.skip(idx0 + 1));
                lemma_bits_of_concat(seq![x], d.skip(idx0 + 1));
                assert(bits_of(seq![x]) =~= num_bits(x as u64, 8));
                assert(self.rest() =~= rest0);
            }
        }
    }

    /// The number that the next `n` bits spell, without consuming them.
    pub fn peek(&self, n: usize) -> (v: u32)
        requires
            self.inv(),
            n < 32,
            self.ready(n as nat),
        ensures
            v == front_num(self.rest(), n as nat),
            v < p2(n as nat),
    {
        let ghost w = Seq::new(n as nat, |i: int| i < self.rest().len() && self.rest()[i]);
        proof {
            lemma_bits_num_bound(w);
            lemma_p2_pos(n as nat);
            lemma_shl_p2(n as u64);
            lemma_p2_mono(n as nat, 31);
            assert(p2(31) == 0x8000_0000) by {
                reveal_with_fuel(p2, 32);
            }
        }
        let mask: u64 = (1u64 << (n as u64)) - 1;
        if self.bits_left >= n {
            let shift: u64 = (self.bits_left - n) as u64;
            if shift >= 64 {
                assert(n == 0);
                return 0;
            }
            let v: u64 = (self.bit_buf >> shift) & mask;
            proof {
                lemma_cut_bits(self.bit_buf, self.bits_left as nat, n as nat, v);
                assert(num_bits(v, n as nat) =~= w);
                lemma_num_bits_value(v, n as nat);
            }
            v as u32
        } else {
            let left: u64 = self.bits_left as u64;
            proof {
                lemma_shl_p2(left);
                lemma_p2_pos(left as nat);
            }
            let low: u64 = (1u64 << left) - 1;
            let up: u64 = (n - self.bits_left) as u64;
            let v: u64 = (self.bit_buf & low) << up;
            proof {
                lemma_fill_bits(self.bit_buf, self.bits_left as nat, n as nat, v);
                assert(self.data@.skip(self.idx as int) =~= Seq::<u8>::empty());
                assert(num_bits(v, n as nat) =~= w);
                lemma_num_bits_value(v, n as nat);
            }
            v as u32
        }
    }

    /// Drops the next `n` bits.
    pub fn consume(&mut self, n: usize)
        requires
            old(self).inv(),
            old(self).ready(n as nat),
        ensures
            final(self).inv(),
            final(self).rest() == after(old(self).rest(), n as nat),
            forall|m: nat| old(self).ready(n as nat + m) ==> final(self).ready(m),
    {
        if self.bits_left >= n {
            let ghost l0 = self.bits_left as nat;
            let ghost rest0 = self.rest();
            self.bits_left = self.bits_left - n;
            proof {
                assert(self.rest() =~= after(rest0, n as nat));
            }
        } else {
            assert(self.data@.skip(self.idx as int) =~= Seq::<u8>::empty());
            let ghost rest0 = self.rest();
            self.bits_left = 0;
            proof {
                assert(self.rest() =~= after(rest0, n as nat));
            }
        }
    }
}

proof fn lemma_append_byte(buf: u64, left: nat, x: u8)
    requires
        left <= 56,
    ensures
        num_bits((buf << 8u64) | (x as u64), left + 8) == num_bits(buf, left) + num_bits(
            x as u64,
            8,
        ),
{
    let r = (buf << 8u64) | (x as u64);
    let a = num_bits(r, left + 8);
    let b = num_bits(buf, left) + num_bits(x as u64, 8);
    assert forall|i: int| 0 <= i < left + 8 implies a[i] == b[i] by {
        let k: u64 = (left + 7 - i) as u64;
        let xx = x as u64;
        if i < left {
            let k1: u64 = (k - 8) as u64;
            assert((r >> k) & 1 == (buf >> k1) & 1) by (bit_vector)
                requires
                    8 <= k < 64,
                    k1 == k - 8,
                    xx < 256,
                    r == (buf << 8u64) | xx,
            ;
        } else {
            assert((r >> k) & 1 == (xx >> k) & 1) by (bit_vector)
                requires
                    k < 8,
                    r == (buf << 8u64) | xx,
            ;
        }
    }
    assert(a =~= b);
}

/// Cutting `n` bits out of the buffer's `left` low bits.
proof fn lemma_cut_bits(buf: u64, left: nat, n: nat, v: u64)
    requires
        n <= left <= 64,
        n < 32,
        left - n < 64,
        v == (buf >> ((left - n) as u64)) & (((1u64 << (n as u64)) - 1) as u64),
    ensures
        num_bits(v, n) == num_bits(buf, left).take(n as int),
        v < p2(n),
{
    let s = (left - n) as u64;
    let nn = n as u64;
    let one: u64 = 1u64 << nn;
    lemma_shl_p2(nn);
    lemma_p2_pos(n);
    let mask: u64 = (one - 1) as u64;
    assert(v <= mask) by (bit_vector)
        requires
            v == (buf >> s) & mask,
    ;
    let a = num_bits(v, n);
    let b = num_bits(buf, left).take(n as int);
    assert forall|i: int| 0 <= i < n implies a[i] == b[i] by {
        let k: u64 = (n - 1 - i) as u64;
        let ks: u64 = (k + s) as u64;
        assert((v >> k) & 1 == (buf >> ks) & 1) by (bit_vector)
            requires
                k < nn < 32,
                s < 64,
                ks == k + s,
                ks < 64,
                one == 1u64 << nn,
                mask == one - 1,
                v == (buf >> s) & mask,
        ;
    }
    assert(a =~= b);
}

/// The buffer's last `left` bits with zero bits behind them.
proof fn lemma_fill_bits(buf: u64, left: nat, n: nat, v: u64)
    requires
        left < n < 32,
        v == (buf & (((1u64 << (left as u64)) - 1) as u64)) << ((n - left) as u64),
    ensures
        num_bits(v, n) == num_bits(buf, left) + zeros((n - left) as nat),
        v < p2(n),
{
    let l = left as u64;
    let up = (n - left) as u64;
    let nn = n as u64;
    let one: u64 = 1u64 << l;
    let top: u64 = 1u64 << nn;
    lemma_shl_p2(l);
    lemma_shl_p2(nn);
    lemma_p2_pos(left);
    let low: u64 = (one - 1) as u64;
    assert(v < top) by (bit_vector)
        requires
            l < nn < 32,
            up == nn - l,
            one == 1u64 << l,
            low == one - 1,
            top == 1u64 << nn,
            v == (buf & low) << up,
    ;
    let a = num_bits(v, n);
    let b = num_bits(buf, left) + zeros((n - left) as nat);
    assert forall|i: int| 0 <= i < n implies a[i] == b[i] by {
        let k: u64 = (n - 1 - i) as u64;
        if i < left {
            let k1: u64 = (k - up) as u64;
            assert((v >> k) & 1 == (buf >> k1) & 1) by (bit_vector)
                requires
                    l < nn < 32,
                    up == nn - l,
                    up <= k < nn,
                    k1 == k - up,
                    one == 1u64 << l,
                    low == one - 1,
                    v == (buf & low) << up,
            ;
        } else {
            assert((v >> k) & 1 == 0) by (bit_vector)
                requires
                    l < nn < 32,
                    up == nn - l,
                    k < up,
                    v == (buf & low) << up,
            ;
        }
    }
    assert(a =~= b);
}

/// The bit at `k`, as a number; zero past the end.
pub open spec fn bit_or_zero(b: Seq<bool>, k: int) -> int {
    if k < b.len() && b[k] {
        1
    } else {
        0
    }
}

/// The first of eight bits is the highest of its byte.
pub proof fn lemma_packed_byte(b: Seq<bool>, j: int)
    requires
        0 <= j,
        8 * j < b.len(),
    ensures
        pack(b).len() == (b.len() + 7) / 8,
        pack(b)[j] == 128 * bit_or_zero(b, 8 * j) + 64 * bit_or_zero(b, 8 * j + 1) + 32
            * bit_or_zero(b, 8 * j + 2) + 16 * bit_or_zero(b, 8 * j + 3) + 8 * bit_or_zero(
            b,
            8 * j + 4,
        ) + 4 * bit_or_zero(b, 8 * j + 5) + 2 * bit_or_zero(b, 8 * j + 6) + bit_or_zero(
            b,
            8 * j + 7,
        ),
{
    let o = 8 * j;
    let w = Seq::new(8, |k: int| o + k < b.len() && b[o + k]);
    assert(w.drop_last().len() == 7);
    let w7 = w.drop_last();
    let w6 = w7.drop_last();
    let w5 = w6.drop_last();
    let w4 = w5.drop_last();
    let w3 = w4.drop_last();
    let w2 = w3.drop_last();
    let w1 = w2.drop_last();
    let w0 = w1.drop_last();
    assert(bits_num(w0) == 0);
    assert(bits_num(w1) == bit_or_zero(b, o));
    assert(bits_num(w2) == 2 * bits_num(w1) + bit_or_zero(b, o + 1));
    assert(bits_num(w3) == 2 * bits_num(w2) + bit_or_zero(b, o + 2));
    assert(bits_num(w4) == 2 * bits_num(w3) + bit_or_zero(b, o + 3));
    assert(bits_num(w5) == 2 * bits_num(w4) + bit_or_zero(b, o + 4));
    assert(bits_num(w6) == 2 * bits_num(w5) + bit_or_zero(b, o + 5));
    assert(bits_num(w7) == 2 * bits_num(w6) + bit_or_zero(b, o + 6));
    assert(bits_num(w) == 2 * bits_num(w7) + bit_or_zero(b, o + 7));
}

} // verus!
