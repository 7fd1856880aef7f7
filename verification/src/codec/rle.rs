//! Code lengths as a run-length coded bit stream.
//!
//! A length is written as 5 bits. Symbol 16 repeats the length before it 3 to 6
//! times, symbol 17 stands for 3 to 10 zeros and symbol 18 for 11 to 138 zeros.

use crate::codec::bits;
use crate::codec::bits::{BitReader, BitWriter};
use crate::text;
use vstd::prelude::*;

verus! {

/// How many times in a row `v` stands in `lens` from `i` on.
pub open spec fn run(lens: Seq<u8>, i: int, v: u8) -> nat
    decreases lens.len() - i,
{
    if 0 <= i < lens.len() && lens[i] == v {
        1 + run(lens, i + 1, v)
    } else {
        0
    }
}

/// The code of `r` zeros in a row.
pub open spec fn zero_bits(r: nat) -> Seq<bool>
    decreases r,
{
    if r == 0 {
        Seq::empty()
    } else if r >= 11 {
        let c = if r <= 138 {
            r
        } else {
            138
        };
        bits::num_bits(18, 5) + bits::num_bits((c - 11) as u64, 7) + zero_bits((r - c) as nat)
    } else if r >= 3 {
        bits::num_bits(17, 5) + bits::num_bits((r - 3) as u64, 3)
    } else {
        bits::num_bits(0, 5) + zero_bits((r - 1) as nat)
    }
}

/// The code of the lengths from `i` on, where `prev` is the length before them.
pub open spec fn rle_bits(lens: Seq<u8>, i: int, prev: Option<u8>) -> Seq<bool>
    decreases
            if i < lens.len() {
                lens.len() - i
            } else {
                0
            },
{
    if !(0 <= i < lens.len()) {
        Seq::empty()
    } else if lens[i] == 0 {
        let r = run(lens, i, 0);
        zero_bits(r) + rle_bits(lens, i + r, Some(0u8))
    } else {
        let v = lens[i];
        let r = run(lens, i, v);
        if prev == Some(v) && r >= 3 {
            let c = if r <= 6 {
                r
            } else {
                6
            };
            bits::num_bits(16, 5) + bits::num_bits((c - 3) as u64, 2) + rle_bits(lens, i + c, prev)
        } else {
            bits::num_bits(v as u64, 5) + rle_bits(lens, i + 1, Some(v))
        }
    }
}

pub open spec fn repeat(v: u8, n: nat) -> Seq<u8> {
    Seq::new(n, |i: int| v)
}

/// Reads lengths until there are `n`. Gives those that were read, and what was
/// wrong if they are not `n`.
pub open spec fn rle_decode(b: Seq<bool>, n: nat, acc: Seq<u8>, prev: Option<u8>) -> (
    Seq<u8>,
    Option<Seq<char>>,
)
    decreases n - acc.len(),
{
    if acc.len() >= n {
        (acc, None)
    } else {
        let sym = bits::front_num(b, 5);
        let rest = bits::after(b, 5);
        if sym <= 15 {
            rle_decode(bits::after(b, 5), n, acc.push(sym as u8), Some(sym as u8))
        } else if sym == 16 {
            let count = 3 + bits::front_num(rest, 2);
            if prev is None {
                (acc, Some("RLE decode: code 16 repeat with no previous value"@))
            } else if acc.len() + count > n {
                (acc, Some("RLE decode: repeat exceeds length"@))
            } else {
                rle_decode(bits::after(rest, 2), n, acc + repeat(prev->0, count), prev)
            }
        } else if sym == 17 {
            let count = 3 + bits::front_num(rest, 3);
            if acc.len() + count > n {
                (acc, Some("RLE decode: repeat exceeds length"@))
            } else {
                rle_decode(bits::after(rest, 3), n, acc + repeat(0, count), Some(0u8))
            }
        } else if sym == 18 {
            let count = 11 + bits::front_num(rest, 7);
            if acc.len() + count > n {
                (acc, Some("RLE decode: repeat exceeds length"@))
            } else {
                rle_decode(bits::after(rest, 7), n, acc + repeat(0, count), Some(0u8))
            }
        } else {
            (acc, Some("RLE decode: invalid symbol "@ + text::dec(sym)))
        }
    }
}

/// What is read are lengths of at most 15, `n` of them if nothing is wrong.
pub proof fn lemma_rle_decode_range(b: Seq<bool>, n: nat, acc: Seq<u8>, prev: Option<u8>)
    requires
        acc.len() <= n,
        forall|i: int| 0 <= i < acc.len() ==> #[trigger] acc[i] <= 15,
        prev is Some ==> prev->0 <= 15,
    ensures
        ({
            let (read, wrong) = rle_decode(b, n, acc, prev);
            &&& read.len() <= n
            &&& wrong is None ==> read.len() == n
            &&& forall|i: int| 0 <= i < read.len() ==> #[trigger] read[i] <= 15
        }),
    decreases n - acc.len(),
{
    if acc.len() < n {
        let sym = bits::front_num(b, 5);
        let rest = bits::after(b, 5);
        if sym <= 15 {
            lemma_rle_decode_range(rest, n, acc.push(sym as u8), Some(sym as u8));
        } else if sym == 16 {
            let count = 3 + bits::front_num(rest, 2);
            if prev is Some && acc.len() + count <= n {
                lemma_rle_decode_range(
                    bits::after(rest, 2),
                    n,
                    acc + repeat(prev->0, count),
                    prev,
                );
            }
        } else if sym == 17 {
            let count = 3 + bits::front_num(rest, 3);
            if acc.len() + count <= n {
                lemma_rle_decode_range(
                    bits::after(rest, 3),
                    n,
                    acc + repeat(0, count),
                    Some(0u8),
                );
            }
        } else if sym == 18 {
            let count = 11 + bits::front_num(rest, 7);
            if acc.len() + count <= n {
                lemma_rle_decode_range(
                    bits::after(rest, 7),
                    n,
                    acc + repeat(0, count),
                    Some(0u8),
                );
            }
        }
    }
}

/// The bytes that hold the code of `lens`.
pub open spec fn rle_bytes(lens: Seq<u8>) -> Seq<u8> {
    bits::pack(rle_bits(lens, 0, None))
}

pub proof fn lemma_run(lens: Seq<u8>, i: int, v: u8)
    requires
        0 <= i <= lens.len(),
    ensures
        i + run(lens, i, v) <= lens.len(),
        forall|j: int| i <= j < i + run(lens, i, v) ==> lens[j] == v,
        i + run(lens, i, v) < lens.len() ==> lens[i + run(lens, i, v)] != v,
    decreases lens.len() - i,
{
    if i < lens.len() && lens[i] == v {
        lemma_run(lens, i + 1, v);
    }
}

proof fn lemma_run_at(lens: Seq<u8>, i: int, v: u8, r: nat)
    requires
        0 <= i,
        i + r <= lens.len(),
        forall|j: int| i <= j < i + r ==> lens[j] == v,
        i + r == lens.len() || lens[i + r as int] != v,
    ensures
        run(lens, i, v) == r,
    decreases r,
{
    if r > 0 {
        lemma_run_at(lens, i + 1, v, (r - 1) as nat);
    }
}

pub proof fn lemma_zero_bits_len(r: nat)
    ensures
        zero_bits(r).len() <= 5 * r,
    decreases r,
{
    if r >= 11 {
        let c = if r <= 138 {
            r
        } else {
            138
        };
        lemma_zero_bits_len((r - c) as nat);
    } else if 0 < r < 3 {
        lemma_zero_bits_len((r - 1) as nat);
    }
}

/// A length takes at most 5 bits.
pub proof fn lemma_rle_len(lens: Seq<u8>, i: int, prev: Option<u8>)
    requires
        0 <= i <= lens.len(),
    ensures
        rle_bits(lens, i, prev).len() <= 5 * (lens.len() - i),
    decreases lens.len() - i,
{
    if i < lens.len() {
        if lens[i] == 0 {
            let r = run(lens, i, 0);
            lemma_run(lens, i, 0);
            lemma_zero_bits_len(r);
            lemma_rle_len(lens, i + r, Some(0u8));
        } else {
            let v = lens[i];
            let r = run(lens, i, v);
            lemma_run(lens, i, v);
            if prev == Some(v) && r >= 3 {
                let c = if r <= 6 {
                    r
                } else {
                    6
                };
                lemma_rle_len(lens, i + c, prev);
            } else {
                lemma_rle_len(lens, i + 1, Some(v));
            }
        }
    }
}

/// Reading back a run of zeros.
proof fn lemma_zero_decode(r: nat, z: Seq<bool>, n: nat, acc: Seq<u8>, prev: Option<u8>)
    requires
        acc.len() + r <= n,
        r > 0,
    ensures
        rle_decode(zero_bits(r) + z, n, acc, prev) == rle_decode(
            z,
            n,
            acc + repeat(0, r),
            Some(0u8),
        ),
    decreases r,
{
    bits::lemma_p2_small();
    if r >= 11 {
        let c = if r <= 138 {
            r
        } else {
            138
        };
        let e = (c - 11) as u64;
        let tail = zero_bits((r - c) as nat) + z;
        let b = zero_bits(r) + z;
        assert(b =~= bits::num_bits(18, 5) + (bits::num_bits(e, 7) + tail));
        bits::lemma_front_write(18, 5, bits::num_bits(e, 7) + tail);
        bits::lemma_front_write(e, 7, tail);
        if r > c {
            lemma_zero_decode((r - c) as nat, z, n, acc + repeat(0, c), Some(0u8));
            assert(acc + repeat(0, c) + repeat(0, (r - c) as nat) =~= acc + repeat(0, r));
        } else {
            assert(tail =~= z);
        }
    } else if r >= 3 {
        let e = (r - 3) as u64;
        let b = zero_bits(r) + z;
        assert(b =~= bits::num_bits(17, 5) + (bits::num_bits(e, 3) + z));
        bits::lemma_front_write(17, 5, bits::num_bits(e, 3) + z);
        bits::lemma_front_write(e, 3, z);
    } else {
        let tail = zero_bits((r - 1) as nat) + z;
        let b = zero_bits(r) + z;
        assert(b =~= bits::num_bits(0, 5) + tail);
        bits::lemma_front_write(0, 5, tail);
        assert(acc.push(0u8) =~= acc + repeat(0, 1));
        if r > 1 {
            lemma_zero_decode((r - 1) as nat, z, n, acc.push(0u8), Some(0u8));
            assert(acc.push(0u8) + repeat(0, (r - 1) as nat) =~= acc + repeat(0, r));
        } else {
            assert(tail =~= z);
        }
    }
}

proof fn lemma_rle_decode(lens: Seq<u8>, i: int, prev: Option<u8>, z: Seq<bool>)
    requires
        0 <= i <= lens.len(),
        forall|j: int| 0 <= j < lens.len() ==> #[trigger] lens[j] <= 15,
    ensures
        rle_decode(rle_bits(lens, i, prev) + z, lens.len(), lens.take(i), prev) == (
            lens,
            None::<Seq<char>>,
        ),
    decreases lens.len() - i,
{
    bits::lemma_p2_small();
    let n = lens.len();
    let acc = lens.take(i);
    if i < n {
        let v = lens[i];
        let r = run(lens, i, v);
        lemma_run(lens, i, v);
        if v == 0 {
            let tail = rle_bits(lens, i + r, Some(0u8)) + z;
            assert(rle_bits(lens, i, prev) + z =~= zero_bits(r) + tail);
            lemma_zero_decode(r, tail, n, acc, prev);
            assert(acc + repeat(0, r) =~= lens.take(i + r as int));
            lemma_rle_decode(lens, i + r, Some(0u8), z);
        } else if prev == Some(v) && r >= 3 {
            let c = if r <= 6 {
                r
            } else {
                6
            };
            let e = (c - 3) as u64;
            let tail = rle_bits(lens, i + c, prev) + z;
            assert(rle_bits(lens, i, prev) + z =~= bits::num_bits(16, 5) + (bits::num_bits(e, 2)
                + tail));
            bits::lemma_front_write(16, 5, bits::num_bits(e, 2) + tail);
            bits::lemma_front_write(e, 2, tail);
            assert(acc + repeat(v, c) =~= lens.take(i + c as int));
            lemma_rle_decode(lens, i + c, prev, z);
        } else {
            let tail = rle_bits(lens, i + 1, Some(v)) + z;
            assert(rle_bits(lens, i, prev) + z =~= bits::num_bits(v as u64, 5) + tail);
            bits::lemma_front_write(v as u64, 5, tail);
            assert(acc.push(v) =~= lens.take(i + 1));
            lemma_rle_decode(lens, i + 1, Some(v), z);
        }
    } else {
        assert(acc =~= lens);
    }
}

/// Lengths of at most 15 come back from their code.
pub proof fn lemma_rle_roundtrip(lens: Seq<u8>)
    requires
        forall|j: int| 0 <= j < lens.len() ==> #[trigger] lens[j] <= 15,
    ensures
        rle_decode(bits::bits_of(rle_bytes(lens)), lens.len(), Seq::empty(), None) == (
            lens,
            None::<Seq<char>>,
        ),
{
    let b = rle_bits(lens, 0, None);
    bits::lemma_pack_bits(b);
    let z = bits::zero_pad(b).skip(b.len() as int);
    assert(bits::zero_pad(b) =~= b + z);
    assert(lens.take(0) =~= Seq::<u8>::empty());
    lemma_rle_decode(lens, 0, None, z);
}

/// Codes the lengths.
pub fn encode_code_lens(lens: &[u8]) -> (r: Vec<u8>)
    ensures
        r@ == rle_bytes(lens@),
{
    let n: usize = lens.len();
    let mut writer = BitWriter::new();
    let mut i: usize = 0;
    let mut prev: Option<u8> = None;
    let ghost all = rle_bits(lens@, 0, None);
    while i < n
        invariant
            i <= n == lens@.len(),
            writer.inv(),
            writer.bits() + rle_bits(lens@, i as int, prev) == all,
        decreases lens@.len() - i,
    {
        let val: u8 = lens[i];
        let mut run_len: usize = 1;
        while run_len < n - i && lens[i + run_len] == val
            invariant
                i < n == lens@.len(),
                1 <= run_len,
                i + run_len <= lens@.len(),
                forall|j: int| i <= j < i + run_len ==> lens@[j] == val,
            decreases lens@.len() - (i + run_len),
        {
            run_len = run_len + 1;
        }
        proof {
            lemma_run_at(lens@, i as int, val, run_len as nat);
        }
        let ghost written = writer.bits();
        if val == 0 {
            let mut remaining: usize = run_len;
            let ghost tail = rle_bits(lens@, i + run_len, Some(0u8));
            proof {
                assert(written + (zero_bits(remaining as nat) + tail) =~= written + zero_bits(
                    remaining as nat,
                ) + tail);
            }
            while remaining > 0
                invariant
                    writer.inv(),
                    writer.bits() + zero_bits(remaining as nat) + tail == all,
                decreases remaining,
            {
                let ghost before = writer.bits();
                let ghost code = zero_bits(remaining as nat);
                if remaining >= 11 {
                    let count: usize = if remaining <= 138 {
                        remaining
                    } else {
                        138
                    };
                    writer.write(18, 5);
                    writer.write((count - 11) as u32, 7);
                    remaining = remaining - count;
                } else if remaining >= 3 {
                    writer.write(17, 5);
                    writer.write((remaining - 3) as u32, 3);
                    remaining = 0;
                } else {
                    writer.write(0, 5);
                    remaining = remaining - 1;
                }
                proof {
                    assert(before + code + tail =~= writer.bits() + zero_bits(remaining as nat)
                        + tail);
                }
            }
            proof {
                assert(writer.bits() + zero_bits(0) + tail =~= writer.bits() + tail);
            }
            i = i + run_len;
            prev = Some(0u8);
        } else if prev == Some(val) && run_len >= 3 {
            let count: usize = if run_len <= 6 {
                run_len
            } else {
                6
            };
            writer.write(16, 5);
            writer.write((count - 3) as u32, 2);
            i = i + count;
            proof {
                assert(writer.bits() + rle_bits(lens@, i as int, prev) =~= written + (
                bits::num_bits(16, 5) + bits::num_bits((count - 3) as u64, 2) + rle_bits(
                    lens@,
                    i as int,
                    prev,
                )));
            }
        } else {
            writer.write(val as u32, 5);
            prev = Some(val);
            i = i + 1;
            proof {
                assert(writer.bits() + rle_bits(lens@, i as int, prev) =~= written + (
                bits::num_bits(val as u64, 5) + rle_bits(lens@, i as int, prev)));
            }
        }
    }
    proof {
        assert(writer.bits() =~= all);
    }
    let r = writer.finish();
    proof {
        assert(bits::bits_of(Seq::<u8>::empty()) + all =~= all);
        bits::lemma_pack_unique(r@, Seq::empty(), all);
        assert(Seq::<u8>::empty() + bits::pack(all) =~= bits::pack(all));
    }
    r
}

fn fill_run(out: &mut [u8], i: usize, count: usize, v: u8)
    requires
        i + count <= old(out)@.len(),
    ensures
        final(out)@ == old(out)@.take(i as int) + repeat(v, count as nat) + old(out)@.skip(
            i + count,
        ),
{
    let mut j: usize = 0;
    let end: usize = out.len();
    let ghost before = out@;
    while j < count
        invariant
            j <= count,
            i + count <= end == before.len(),
            out@ == before.take(i as int) + repeat(v, j as nat) + before.skip(i + j),
        decreases count - j,
    {
        out[i + j] = v;
        j = j + 1;
        proof {
            assert(out@ =~= before.take(i as int) + repeat(v, j as nat) + before.skip(i + j));
        }
    }
}

/// Reads as many lengths as `out` holds. What cannot be read stays as it was.
pub fn decode_code_lens(encoded: &[u8], out: &mut [u8]) -> (r: Result<(), String>)
    ensures
        ({
            let (read, wrong) = rle_decode(
                bits::bits_of(encoded@),
                old(out)@.len(),
                Seq::empty(),
                None,
            );
            &&& final(out)@ == read + old(out)@.skip(read.len() as int)
            &&& match r {
                Ok(_) => wrong is None,
                Err(e) => wrong == Some(e@),
            }
        }),
{
    let mut reader = BitReader::new(encoded);
    let mut i: usize = 0;
    let mut prev: Option<u8> = None;
    let ghost first = out@;
    let ghost want = rle_decode(bits::bits_of(encoded@), out@.len(), Seq::empty(), None);
    proof {
        bits::lemma_p2_small();
        assert(out@.take(0) =~= Seq::<u8>::empty());
        assert(out@ =~= out@.take(0) + first.skip(0));
    }
    while i < out.len()
        invariant
            i <= out@.len() == first.len(),
            first == old(out)@,
            want == rle_decode(bits::bits_of(encoded@), first.len(), Seq::empty(), None),
            reader.inv(),
            out@ == out@.take(i as int) + first.skip(i as int),
            rle_decode(reader.rest(), first.len(), out@.take(i as int), prev) == want,
            bits::p2(2) == 4 && bits::p2(3) == 8 && bits::p2(5) == 32 && bits::p2(7) == 128,
        decreases out@.len() - i,
    {
        reader.fill();
        let ghost acc = out@.take(i as int);
        proof {
            reader.lemma_ready(56);
            assert(reader.ready(5 + 2) && reader.ready(5 + 3) && reader.ready(5 + 7));
        }
        let sym: u32 = reader.peek(5);
        reader.consume(5);
        if sym <= 15 {
            out[i] = sym as u8;
            prev = Some(sym as u8);
            i = i + 1;
            proof {
                assert(out@.take(i as int) =~= acc.push(sym as u8));
                assert(out@ =~= out@.take(i as int) + first.skip(i as int));
            }
        } else if sym == 16 {
            let extra: u32 = reader.peek(2);
            reader.consume(2);
            let count: usize = 3 + extra as usize;
            match prev {
                None => {
                    return Err("RLE decode: code 16 repeat with no previous value".to_string());
                },
                Some(p) => {
                    if count > out.len() - i {
                        return Err("RLE decode: repeat exceeds length".to_string());
                    }
                    fill_run(out, i, count, p);
                    i = i + count;
                    proof {
                        assert(out@.take(i as int) =~= acc + repeat(p, count as nat));
                        assert(out@ =~= out@.take(i as int) + first.skip(i as int));
                    }
                },
            }
        } else if sym == 17 {
            let extra: u32 = reader.peek(3);
            reader.consume(3);
            let count: usize = 3 + extra as usize;
            if count > out.len() - i {
                return Err("RLE decode: repeat exceeds length".to_string());
            }
            fill_run(out, i, count, 0);
            i = i + count;
            proof {
                assert(out@.take(i as int) =~= acc + repeat(0, count as nat));
                assert(out@ =~= out@.take(i as int) + first.skip(i as int));
            }
            prev = Some(0u8);
        } else if sym == 18 {
            let extra: u32 = reader.peek(7);
            reader.consume(7);
            let count: usize = 11 + extra as usize;
            if count > out.len() - i {
                return Err("RLE decode: repeat exceeds length".to_string());
            }
            fill_run(out, i, count, 0);
            i = i + count;
            proof {
                assert(out@.take(i as int) =~= acc + repeat(0, count as nat));
                assert(out@ =~= out@.take(i as int) + first.skip(i as int));
            }
            prev = Some(0u8);
        } else {
            return Err(text::with_number("RLE decode: invalid symbol ", sym as u64));
        }
    }
    Ok(())
}

// ---- what runs cost ----

/// The bits that a run of `r` times the same length takes: 138 zeros take 12 bits, and of others
/// the first takes 5 bits and each six behind it 7.
pub open spec fn run_cost(v: u8, r: int) -> int {
    if v == 0 {
        let q = r % 138;
        12 * (r / 138) + if q >= 11 {
            12
        } else if q >= 3 {
            8
        } else {
            5 * q
        }
    } else {
        let q = (r - 1) % 6;
        5 + 7 * ((r - 1) / 6) + if q >= 3 {
            7
        } else {
            5 * q
        }
    }
}

/// Lengths `lens` from `i` to `e` are all the same, and the one behind them is another.
pub open spec fn is_run(lens: Seq<u8>, i: int, e: int) -> bool {
    &&& 0 <= i < e <= lens.len()
    &&& forall|k: int| i <= k < e ==> #[trigger] lens[k] == lens[i]
    &&& e < lens.len() ==> lens[e] != lens[i]
}

proof fn lemma_run_is(lens: Seq<u8>, i: int, e: int, v: u8)
    requires
        0 <= i <= e <= lens.len(),
        forall|k: int| i <= k < e ==> #[trigger] lens[k] == v,
        e < lens.len() ==> lens[e] != v,
    ensures
        run(lens, i, v) == e - i,
    decreases e - i,
{
    if i < e {
        assert(lens[i] == v);
        lemma_run_is(lens, i + 1, e, v);
    }
}

proof fn lemma_zero_cost(r: nat)
    ensures
        zero_bits(r).len() == run_cost(0, r as int),
    decreases r,
{
    if r >= 11 {
        let c: nat = if r <= 138 {
            r
        } else {
            138
        };
        lemma_zero_cost((r - c) as nat);
    } else if 1 <= r < 3 {
        lemma_zero_cost((r - 1) as nat);
    }
}

/// The rest of a run behind its first length, of which `e - i` are left.
proof fn lemma_rest_cost(lens: Seq<u8>, i: int, e: int, v: u8)
    requires
        v > 0,
        0 <= i <= e <= lens.len(),
        forall|k: int| i <= k < e ==> #[trigger] lens[k] == v,
        e < lens.len() ==> lens[e] != v,
    ensures
        rle_bits(lens, i, Some(v)).len() == run_cost(v, e - i + 1) - 5 + rle_bits(
            lens,
            e,
            Some(v),
        ).len(),
    decreases e - i,
{
    let r = e - i;
    if r > 0 {
        assert(lens[i] == v);
        lemma_run_is(lens, i, e, v);
        if r >= 3 {
            let c = if r <= 6 {
                r
            } else {
                6
            };
            lemma_rest_cost(lens, i + c, e, v);
        } else {
            lemma_rest_cost(lens, i + 1, e, v);
        }
    }
}

/// Code lengths are written run by run, and what a run takes depends on it alone.
pub proof fn lemma_run_cost(lens: Seq<u8>, i: int, e: int, prev: Option<u8>)
    requires
        is_run(lens, i, e),
        prev != Some(lens[i]),
    ensures
        rle_bits(lens, i, prev).len() == run_cost(lens[i], e - i) + rle_bits(
            lens,
            e,
            Some(lens[i]),
        ).len(),
{
    let v = lens[i];
    lemma_run_is(lens, i, e, v);
    if v == 0 {
        lemma_zero_cost((e - i) as nat);
    } else {
        lemma_rest_cost(lens, i + 1, e, v);
    }
}

} // verus!
