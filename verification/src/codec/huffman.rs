//! Huffman coded symbols with their code lengths in front.
//!
//! The header is the longest code length (one byte), the number of bytes of the
//! coded code lengths (one byte, or two for the wide form) and those bytes. The
//! codes of the symbols follow, padded with zero bits.

use crate::bytes;
use crate::codec::bits;
use crate::codec::bits::{BitReader, BitWriter};
use crate::codec::canon;
use crate::codec::lengths;
use crate::codec::rle;
use crate::codec::table;
use crate::codec::table::Tables;
use crate::codec::tree;
use crate::text;
use vstd::prelude::*;
use vstd::string::*;

verus! {

pub const HUFF_UINT16_ALPHABET_SIZE: usize = 286;

pub const HUFF_ALPHABET_SIZE: usize = 256;

pub open spec fn ints8(data: Seq<u8>) -> Seq<int> {
    Seq::new(data.len(), |i: int| data[i] as int)
}

pub open spec fn ints16(data: Seq<u16>) -> Seq<int> {
    Seq::new(data.len(), |i: int| data[i] as int)
}

/// How often `s` stands in `data`.
pub open spec fn occurrences(data: Seq<int>, s: int) -> nat
    decreases data.len(),
{
    if data.len() == 0 {
        0
    } else {
        occurrences(data.drop_last(), s) + if data.last() == s {
            1nat
        } else {
            0nat
        }
    }
}

/// The frequency of each symbol below `n`.
pub open spec fn frequencies(data: Seq<int>, n: nat) -> Seq<usize> {
    Seq::new(n, |s: int| occurrences(data, s) as usize)
}

/// How many symbols below `n` occur.
pub open spec fn kinds(data: Seq<int>, n: nat) -> nat {
    tree::active_sum(frequencies(data, n), n, |s: int| 1nat)
}

/// The code lengths for `data`.
pub open spec fn lens_for(data: Seq<int>, n: nat) -> Seq<u8> {
    Seq::new(n, |s: int| lengths::code_len(frequencies(data, n), n, 15, s) as u8)
}

/// The codes of the symbols one after the other.
pub open spec fn stream_bits(lens: Seq<u8>, max_bits: nat, data: Seq<int>) -> Seq<bool>
    decreases data.len(),
{
    if data.len() == 0 {
        Seq::empty()
    } else {
        stream_bits(lens, max_bits, data.drop_last()) + canon::code_bits(
            lens,
            max_bits,
            data.last(),
        )
    }
}

/// The header for code lengths.
pub open spec fn header(lens: Seq<u8>, wide: bool) -> Seq<u8> {
    let coded = rle::rle_bytes(lens);
    seq![canon::max_len(lens) as u8] + if wide {
        bytes::le16(coded.len())
    } else {
        seq![coded.len() as u8]
    } + coded
}

/// The coded form of `data`. There is none for fewer than 256 symbols or fewer
/// than two kinds of symbols.
pub open spec fn huff_encoded(data: Seq<int>, n: nat, wide: bool) -> Option<Seq<u8>> {
    if data.len() < 256 || kinds(data, n) <= 1 {
        None
    } else {
        let lens = lens_for(data, n);
        Some(header(lens, wide) + bits::pack(stream_bits(lens, canon::max_len(lens), data)))
    }
}

// ---- what decoding gives ----

/// What a coded form starts with: the code lengths, the longest length, and the
/// bytes behind the header. `name` stands in front of the messages.
pub open spec fn huff_opened(data: Seq<u8>, n: nat, wide: bool, name: Seq<char>) -> Result<
    (Seq<u8>, nat, Seq<u8>),
    Seq<char>,
> {
    let fixed: int = if wide {
        3
    } else {
        2
    };
    if data.len() < fixed {
        Err(name + ": data too short for header"@)
    } else {
        let max_bits = data[0] as nat;
        let coded = if wide {
            data[1] + 256 * data[2]
        } else {
            data[1] as int
        };
        if max_bits > 15 || max_bits == 0 {
            Err(name + ": invalid maxBits "@ + text::dec(max_bits))
        } else if data.len() < fixed + coded {
            Err(name + ": data too short for RLE header"@)
        } else {
            let (lens, wrong) = rle::rle_decode(
                bits::bits_of(data.subrange(fixed, fixed + coded)),
                n,
                Seq::empty(),
                None,
            );
            match wrong {
                Some(e) => Err(e),
                None => if table::oversubscribed(lens, max_bits) {
                    Err(name + ": oversubscribed code lengths"@)
                } else {
                    Ok((lens, max_bits, data.skip(fixed + coded)))
                },
            }
        }
    }
}

/// The symbol at the front of `b`.
pub open spec fn next_symbol(lens: Seq<u8>, max_bits: nat, b: Seq<bool>) -> Option<int> {
    table::lookup(lens, max_bits, bits::front_num(b, 15) as int)
}

/// The next `k` symbols of `b` behind `acc`, or nothing if some 15 bits do not
/// start with a code.
pub open spec fn read_symbols(
    lens: Seq<u8>,
    max_bits: nat,
    b: Seq<bool>,
    k: nat,
    acc: Seq<u8>,
) -> Option<Seq<u8>>
    decreases k,
{
    if k == 0 {
        Some(acc)
    } else {
        match next_symbol(lens, max_bits, b) {
            None => None,
            Some(s) => read_symbols(
                lens,
                max_bits,
                bits::after(b, lens[s] as nat),
                (k - 1) as nat,
                acc.push(s as u8),
            ),
        }
    }
}

pub open spec fn huff_decoded(data: Seq<u8>, expected_len: nat) -> Result<Seq<u8>, Seq<char>> {
    match huff_opened(data, 256, false, "huff"@) {
        Err(e) => Err(e),
        Ok((lens, max_bits, stream)) => match read_symbols(
            lens,
            max_bits,
            bits::bits_of(stream),
            expected_len,
            Seq::empty(),
        ) {
            None => Err("huff: invalid code"@),
            Some(out) => Ok(out),
        },
    }
}

// ---- facts about the code lengths ----

pub proof fn lemma_frequencies_push(data: Seq<int>, x: int, n: nat)
    requires
        0 <= x < n,
        data.len() < usize::MAX,
    ensures
        frequencies(data.push(x), n) == frequencies(data, n).update(
            x,
            (frequencies(data, n)[x] + 1) as usize,
        ),
        frequencies(data, n)[x] <= data.len(),
{
    assert(data.push(x).drop_last() =~= data);
    lemma_occurrences(data, x);
    assert forall|s: int| 0 <= s < n implies frequencies(data.push(x), n)[s] == frequencies(
        data,
        n,
    ).update(x, (frequencies(data, n)[x] + 1) as usize)[s] by {
        lemma_occurrences(data, s);
    }
    assert(frequencies(data.push(x), n) =~= frequencies(data, n).update(
        x,
        (frequencies(data, n)[x] + 1) as usize,
    ));
}

pub proof fn lemma_occurrences(data: Seq<int>, s: int)
    ensures
        occurrences(data, s) <= data.len(),
        occurrences(data, s) > 0 <==> data.contains(s),
    decreases data.len(),
{
    if data.len() > 0 {
        let q = data.drop_last();
        lemma_occurrences(q, s);
        if data.last() == s {
            assert(data[data.len() - 1] == s);
        }
        if data.contains(s) && data.last() != s {
            let i = choose|i: int| 0 <= i < data.len() && data[i] == s;
            assert(q[i] == s);
        }
        if q.contains(s) {
            let i = choose|i: int| 0 <= i < q.len() && q[i] == s;
            assert(data[i] == s);
        }
    }
}

proof fn lemma_total_update(freq: Seq<usize>, x: int, v: usize, k: nat)
    requires
        0 <= x < freq.len(),
        k <= freq.len(),
    ensures
        tree::total(freq.update(x, v), k) - tree::total(freq, k) == if x < k {
            v - freq[x]
        } else {
            0
        },
    decreases k,
{
    if k > 0 {
        lemma_total_update(freq, x, v, (k - 1) as nat);
    }
}

/// The frequencies of symbols below `n` sum to their number.
pub proof fn lemma_total(data: Seq<int>, n: nat)
    requires
        forall|i: int| 0 <= i < data.len() ==> 0 <= #[trigger] data[i] < n,
        data.len() <= usize::MAX,
    ensures
        tree::total(frequencies(data, n), n) == data.len(),
    decreases data.len(),
{
    if data.len() > 0 {
        let q = data.drop_last();
        let x = data.last();
        assert(data[data.len() - 1] == x);
        assert forall|i: int| 0 <= i < q.len() implies 0 <= #[trigger] q[i] < n by {
            assert(q[i] == data[i]);
        }
        lemma_total(q, n);
        assert(data =~= q.push(x));
        lemma_frequencies_push(q, x, n);
        lemma_total_update(frequencies(q, n), x, (frequencies(q, n)[x] + 1) as usize, n);
    } else {
        lemma_total_zero(frequencies(data, n), n);
    }
}

proof fn lemma_total_zero(freq: Seq<usize>, k: nat)
    requires
        k <= freq.len(),
        forall|s: int| 0 <= s < freq.len() ==> freq[s] == 0,
    ensures
        tree::total(freq, k) == 0,
    decreases k,
{
    if k > 0 {
        lemma_total_zero(freq, (k - 1) as nat);
    }
}

/// The code lengths of data with two kinds of symbols or more make a prefix
/// code that has a code for every symbol of the data.
pub proof fn lemma_lens_for(data: Seq<int>, n: nat)
    requires
        n <= 32768,
        data.len() <= usize::MAX,
        forall|i: int| 0 <= i < data.len() ==> 0 <= #[trigger] data[i] < n,
        kinds(data, n) >= 2,
    ensures
        ({
            let lens = lens_for(data, n);
            &&& canon::prefix_lens(lens, canon::max_len(lens))
            &&& 1 <= canon::max_len(lens) <= 15
            &&& forall|s: int| 0 <= s < n ==> #[trigger] lens[s] <= 15
            &&& forall|i: int| 0 <= i < data.len() ==> lens[#[trigger] data[i]] > 0
        }),
{
    let freq = frequencies(data, n);
    let lens = lens_for(data, n);
    bits::lemma_p2_small();
    lengths::lemma_code_lens(freq, n, 15);
    lengths::lemma_kinds(freq, n);
    assert forall|s: int| 0 <= s < n implies #[trigger] lens[s] == lengths::code_len(
        freq,
        n,
        15,
        s,
    ) by {
        assert(lengths::code_len(freq, n, 15, s) <= 15);
    }
    assert(canon::as_nats(lens) =~= lengths::code_lens(freq, n, 15));
    canon::lemma_max_len(lens);
    assert forall|i: int| 0 <= i < data.len() implies lens[#[trigger] data[i]] > 0 by {
        let s = data[i];
        lemma_occurrences(data, s);
        assert(data.contains(s));
        assert(freq[s] > 0);
        assert(lengths::code_len(freq, n, 15, s) > 0);
        assert(lens[s] == lengths::code_len(freq, n, 15, s));
    }
    if canon::max_len(lens) > 15 {
        let i = choose|i: int| 0 <= i < lens.len() && #[trigger] lens[i] == canon::max_len(lens);
        assert(lens[i] == lengths::code_len(freq, n, 15, i));
        assert(false);
    }
    assert(tree::by_freq(freq, n).len() >= 2);
    tree::lemma_by_freq(freq, n);
    let s = tree::by_freq(freq, n)[0];
    assert(freq[s] > 0);
    assert(lens[s] == lengths::code_len(freq, n, 15, s));
    assert(lens[s] <= canon::max_len(lens));
}

// ---- reading back what was written ----

pub proof fn lemma_stream_front(lens: Seq<u8>, max_bits: nat, data: Seq<int>)
    requires
        data.len() > 0,
    ensures
        stream_bits(lens, max_bits, data) == canon::code_bits(lens, max_bits, data[0])
            + stream_bits(lens, max_bits, data.drop_first()),
    decreases data.len(),
{
    let rest = data.drop_first();
    if data.len() == 1 {
        assert(stream_bits(lens, max_bits, data.drop_last()) =~= Seq::<bool>::empty());
        assert(stream_bits(lens, max_bits, rest) =~= Seq::<bool>::empty());
        assert(stream_bits(lens, max_bits, data) =~= canon::code_bits(lens, max_bits, data[0])
            + stream_bits(lens, max_bits, rest));
    } else {
        lemma_stream_front(lens, max_bits, data.drop_last());
        assert(data.drop_last().drop_first() =~= rest.drop_last());
        assert(stream_bits(lens, max_bits, data) =~= canon::code_bits(lens, max_bits, data[0])
            + stream_bits(lens, max_bits, rest));
    }
}

/// The next symbol of a stream is the one whose code it starts with.
pub proof fn lemma_next_symbol(lens: Seq<u8>, max_bits: nat, s: int, z: Seq<bool>)
    requires
        canon::prefix_lens(lens, max_bits),
        0 <= s < lens.len(),
        lens[s] > 0,
    ensures
        next_symbol(lens, max_bits, canon::code_bits(lens, max_bits, s) + z) == Some(s),
        bits::after(canon::code_bits(lens, max_bits, s) + z, lens[s] as nat) == z,
{
    canon::lemma_code_front(lens, max_bits, s, z);
    table::lemma_lookup(
        lens,
        max_bits,
        s,
        bits::front_num(canon::code_bits(lens, max_bits, s) + z, 15),
    );
}

proof fn lemma_read_symbols(
    lens: Seq<u8>,
    max_bits: nat,
    data: Seq<u8>,
    z: Seq<bool>,
    acc: Seq<u8>,
)
    requires
        canon::prefix_lens(lens, max_bits),
        lens.len() == 256,
        forall|i: int| 0 <= i < data.len() ==> lens[#[trigger] data[i] as int] > 0,
    ensures
        read_symbols(
            lens,
            max_bits,
            stream_bits(lens, max_bits, ints8(data)) + z,
            data.len(),
            acc,
        ) == Some(acc + data),
    decreases data.len(),
{
    if data.len() == 0 {
        assert(acc + data =~= acc);
    } else {
        let s = data[0] as int;
        let rest = data.drop_first();
        let tail = stream_bits(lens, max_bits, ints8(rest)) + z;
        assert(lens[data[0] as int] > 0);
        lemma_stream_front(lens, max_bits, ints8(data));
        assert(ints8(data).drop_first() =~= ints8(rest));
        assert(stream_bits(lens, max_bits, ints8(data)) + z =~= canon::code_bits(
            lens,
            max_bits,
            s,
        ) + tail);
        lemma_next_symbol(lens, max_bits, s, tail);
        assert forall|i: int| 0 <= i < rest.len() implies lens[#[trigger] rest[i] as int] > 0 by {
            assert(rest[i] == data[i + 1]);
        }
        lemma_read_symbols(lens, max_bits, rest, z, acc.push(data[0]));
        assert(acc.push(data[0]) + rest =~= acc + data);
    }
}

/// The header of an encoder is taken apart again.
pub proof fn lemma_opened(data: Seq<int>, n: nat, wide: bool, name: Seq<char>, stream: Seq<u8>)
    requires
        n <= 400,
        data.len() <= usize::MAX,
        forall|i: int| 0 <= i < data.len() ==> 0 <= #[trigger] data[i] < n,
        kinds(data, n) >= 2,
    ensures
        huff_opened(header(lens_for(data, n), wide) + stream, n, wide, name) == Ok::<
            (Seq<u8>, nat, Seq<u8>),
            Seq<char>,
        >((lens_for(data, n), canon::max_len(lens_for(data, n)), stream)),
{
    let lens = lens_for(data, n);
    let coded = rle::rle_bytes(lens);
    let all = header(lens, wide) + stream;
    let fixed: int = if wide {
        3
    } else {
        2
    };
    lemma_lens_for(data, n);
    rle::lemma_rle_len(lens, 0, None);
    assert(coded.len() <= 250);
    rle::lemma_rle_roundtrip(lens);
    table::lemma_not_oversubscribed(lens, canon::max_len(lens));
    assert(all.subrange(fixed, fixed + coded.len()) =~= coded);
    assert(all.skip(fixed + coded.len()) =~= stream);
    assert(all[0] == canon::max_len(lens));
    if wide {
        assert(all[1] == (coded.len() % 256) as u8);
        assert(all[2] == 0);
    } else {
        assert(all[1] == coded.len() as u8);
    }
}

/// Bytes come back from their Huffman coded form.
pub proof fn lemma_huff_roundtrip(data: Seq<u8>)
    requires
        data.len() <= usize::MAX,
        huff_encoded(ints8(data), 256, false) is Some,
    ensures
        huff_decoded(huff_encoded(ints8(data), 256, false)->0, data.len()) == Ok::<
            Seq<u8>,
            Seq<char>,
        >(data),
{
    let ints = ints8(data);
    let lens = lens_for(ints, 256);
    let max_bits = canon::max_len(lens);
    let b = stream_bits(lens, max_bits, ints);
    lemma_opened(ints, 256, false, "huff"@, bits::pack(b));
    lemma_lens_for(ints, 256);
    bits::lemma_pack_bits(b);
    let z = bits::zero_pad(b).skip(b.len() as int);
    assert(bits::zero_pad(b) =~= b + z);
    assert forall|i: int| 0 <= i < data.len() implies lens[#[trigger] data[i] as int] > 0 by {
        assert(lens[ints[i]] > 0);
    }
    lemma_read_symbols(lens, max_bits, data, z, Seq::empty());
    assert(Seq::<u8>::empty() + data =~= data);
}

// ---- the computation ----

fn count_symbols(data: &[u16], n: usize) -> (freq: Vec<usize>)
    requires
        forall|i: int| 0 <= i < data@.len() ==> #[trigger] data@[i] < n,
    ensures
        freq@ == frequencies(ints16(data@), n as nat),
{
    let mut freq: Vec<usize> = vec![0usize; n];
    let mut i: usize = 0;
    let len: usize = data.len();
    proof {
        assert(freq@ =~= frequencies(ints16(data@.take(0)), n as nat));
    }
    while i < len
        invariant
            i <= len == data@.len(),
            freq@.len() == n,
            forall|i: int| 0 <= i < data@.len() ==> #[trigger] data@[i] < n,
            freq@ == frequencies(ints16(data@.take(i as int)), n as nat),
        decreases len - i,
    {
        let x: usize = data[i] as usize;
        assert(data@[i as int] < n);
        proof {
            let q = ints16(data@.take(i as int));
            lemma_frequencies_push(q, x as int, n as nat);
            assert(ints16(data@.take(i + 1)) =~= q.push(x as int));
        }
        let c: usize = freq[x];
        freq.set(x, c + 1);
        i = i + 1;
    }
    assert(data@.take(i as int) =~= data@);
    freq
}

fn count_kinds(freq: &Vec<usize>) -> (k: usize)
    ensures
        k == tree::active_sum(freq@, freq@.len(), |s: int| 1nat),
{
    let mut k: usize = 0;
    let mut i: usize = 0;
    let n: usize = freq.len();
    while i < n
        invariant
            i <= n == freq@.len(),
            k <= i,
            k == tree::active_sum(freq@, i as nat, |s: int| 1nat),
        decreases n - i,
    {
        if freq[i] > 0 {
            k = k + 1;
        }
        i = i + 1;
    }
    k
}

/// Codes symbols below `n`.
fn encode_symbols(data: &[u16], n: usize, wide: bool) -> (r: Option<Vec<u8>>)
    requires
        n <= 400,
        forall|i: int| 0 <= i < data@.len() ==> #[trigger] data@[i] < n,
    ensures
        match r {
            None => huff_encoded(ints16(data@), n as nat, wide) is None,
            Some(v) => huff_encoded(ints16(data@), n as nat, wide) == Some(v@),
        },
{
    if data.len() < 256 {
        return None;
    }
    let ghost ints = ints16(data@);
    let freq = count_symbols(data, n);
    if count_kinds(&freq) <= 1 {
        return None;
    }
    let mut code_lens: Vec<u8> = vec![0u8; n];
    let len: usize = data.len();
    proof {
        assert forall|i: int| 0 <= i < ints.len() implies 0 <= #[trigger] ints[i] < n by {
            assert(data@[i] < n);
        }
        lemma_total(ints, n as nat);
        lemma_lens_for(ints, n as nat);
        bits::lemma_p2_small();
        lengths::lemma_code_lens(freq@, n as nat, 15);
    }
    lengths::huff_assign_lengths(15, n, freq.as_slice(), code_lens.as_mut_slice());
    let ghost lens = lens_for(ints, n as nat);
    proof {
        assert forall|s: int| 0 <= s < n implies code_lens@[s] == lens[s] by {
            assert(lengths::code_len(freq@, n as nat, 15, s) <= 15);
        }
        assert(code_lens@ =~= lens);
    }
    let max_bits: u8 = canon::longest(code_lens.as_slice());
    let codes = canon::assign_codes(code_lens.as_slice(), max_bits as usize);
    let rle_data = rle::encode_code_lens(code_lens.as_slice());
    proof {
        rle::lemma_rle_len(lens, 0, None);
        assert(rle_data@.len() <= 250);
    }
    let mut out: Vec<u8> = Vec::new();
    out.push(max_bits);
    if wide {
        bytes::push_u16(&mut out, rle_data.len() as u64);
    } else {
        out.push(rle_data.len() as u8);
    }
    out.extend_from_slice(rle_data.as_slice());
    let ghost head = out@;
    proof {
        assert(head =~= header(lens, wide));
    }
    let mut bw = BitWriter::from_vec(out);
    let mut i: usize = 0;
    proof {
        assert(bw.bits() =~= bits::bits_of(head) + stream_bits(
            lens,
            max_bits as nat,
            ints.take(0),
        ));
    }
    while i < len
        invariant
            i <= len == data@.len(),
            n <= 400,
            ints == ints16(data@),
            lens.len() == n,
            code_lens@ == lens,
            codes@.len() == n,
            canon::prefix_lens(lens, max_bits as nat),
            forall|s: int|
                0 <= s < lens.len() && lens[s] > 0 ==> #[trigger] codes@[s] == canon::code_of(
                    lens,
                    max_bits as nat,
                    s,
                ),
            forall|i: int| 0 <= i < data@.len() ==> #[trigger] data@[i] < n,
            forall|i: int| 0 <= i < ints.len() ==> lens[#[trigger] ints[i]] > 0,
            bw.inv(),
            bw.bits() == bits::bits_of(head) + stream_bits(
                lens,
                max_bits as nat,
                ints.take(i as int),
            ),
        decreases len - i,
    {
        let x: usize = data[i] as usize;
        assert(data@[i as int] < n);
        assert(lens[ints[i as int]] > 0);
        assert(lens[x as int] <= max_bits);
        let ghost before = bw.bits();
        bw.write(codes[x], code_lens[x] as usize);
        proof {
            assert(codes@[x as int] == canon::code_of(lens, max_bits as nat, x as int));
            assert(ints.take(i + 1).drop_last() =~= ints.take(i as int));
            assert(bw.bits() =~= bits::bits_of(head) + stream_bits(
                lens,
                max_bits as nat,
                ints.take(i + 1),
            ));
        }
        i = i + 1;
    }
    assert(ints.take(len as int) =~= ints);
    let out = bw.finish();
    proof {
        bits::lemma_pack_unique(out@, head, stream_bits(lens, max_bits as nat, ints));
    }
    Some(out)
}

/// Codes symbols of the 286 letter alphabet.
pub fn huff_encode_uint16(data: &[u16], version: u8) -> (r: Option<Vec<u8>>)
    requires
        forall|i: int| 0 <= i < data@.len() ==> #[trigger] data@[i] < HUFF_UINT16_ALPHABET_SIZE,
    ensures
        match r {
            None => huff_encoded(ints16(data@), 286, version >= 2) is None,
            Some(v) => huff_encoded(ints16(data@), 286, version >= 2) == Some(v@),
        },
{
    encode_symbols(data, HUFF_UINT16_ALPHABET_SIZE, version >= 2)
}

/// Codes bytes.
pub fn huff_encode(data: &[u8]) -> (r: Option<Vec<u8>>)
    ensures
        match r {
            None => huff_encoded(ints8(data@), 256, false) is None,
            Some(v) => huff_encoded(ints8(data@), 256, false) == Some(v@),
        },
{
    if data.len() < 256 {
        return None;
    }
    let mut wide: Vec<u16> = Vec::new();
    let mut i: usize = 0;
    while i < data.len()
        invariant
            i <= data@.len(),
            wide@.len() == i,
            forall|j: int| 0 <= j < i ==> #[trigger] wide@[j] == data@[j],
        decreases data@.len() - i,
    {
        wide.push(data[i] as u16);
        i = i + 1;
    }
    assert(ints16(wide@) =~= ints8(data@));
    encode_symbols(wide.as_slice(), HUFF_ALPHABET_SIZE, false)
}

/// The message `name: what`.
fn message(name: &str, what: &str) -> (s: String)
    ensures
        s@ == name@ + what@,
{
    let mut s = name.to_string();
    s.append(what);
    s
}

/// Takes a header apart and builds the tables for what follows it.
fn open_stream<'a>(data: &'a [u8], n: usize, wide: bool, name: &str) -> (r: Result<
    (Tables, &'a [u8]),
    String,
>)
    requires
        n <= 400,
    ensures
        match (r, huff_opened(data@, n as nat, wide, name@)) {
            (Ok((tables, stream)), Ok((lens, max_bits, rest))) => tables.wf(lens, max_bits)
                && lens.len() == n && stream@ == rest,
            (Err(e), Err(message)) => e@ == message,
            _ => false,
        },
{
    let fixed: usize = if wide {
        3
    } else {
        2
    };
    if data.len() < fixed {
        return Err(message(name, ": data too short for header"));
    }
    let max_bits: usize = data[0] as usize;
    let coded: usize = if wide {
        data[1] as usize + 256 * data[2] as usize
    } else {
        data[1] as usize
    };
    if max_bits > 15 || max_bits == 0 {
        let head = message(name, ": invalid maxBits ");
        return Err(text::with_number(head.as_str(), max_bits as u64));
    }
    if data.len() < fixed + coded {
        return Err(message(name, ": data too short for RLE header"));
    }
    let mut code_lens: Vec<u8> = vec![0u8; n];
    let ghost zero = code_lens@;
    let ghost want = rle::rle_decode(
        bits::bits_of(data@.subrange(fixed as int, fixed + coded)),
        n as nat,
        Seq::empty(),
        None,
    );
    proof {
        rle::lemma_rle_decode_range(
            bits::bits_of(data@.subrange(fixed as int, fixed + coded)),
            n as nat,
            Seq::empty(),
            None,
        );
    }
    match rle::decode_code_lens(&data[fixed..fixed + coded], code_lens.as_mut_slice()) {
        Err(e) => {
            return Err(e);
        },
        Ok(_) => {},
    }
    proof {
        assert(code_lens@ =~= want.0);
    }
    match table::build_tables(code_lens.as_slice(), max_bits) {
        None => Err(message(name, ": oversubscribed code lengths")),
        Some(tables) => {
            let rest = &data[fixed + coded..data.len()];
            assert(rest@ =~= data@.skip(fixed + coded));
            Ok((tables, rest))
        },
    }
}

/// Takes the header of coded symbols of the 286 letter alphabet apart.
pub fn build_huff16_tables_and_stream(data: &[u8], version: u8) -> (r: Result<
    (Tables, &[u8]),
    String,
>)
    ensures
        match (r, huff_opened(data@, 286, version >= 2, "huffUint16"@)) {
            (Ok((tables, stream)), Ok((lens, max_bits, rest))) => tables.wf(lens, max_bits)
                && lens.len() == 286 && stream@ == rest,
            (Err(e), Err(message)) => e@ == message,
            _ => false,
        },
{
    open_stream(data, HUFF_UINT16_ALPHABET_SIZE, version >= 2, "huffUint16")
}

/// Reads the symbol at the front of a stream.
pub fn read_symbol(
    tables: &Tables,
    reader: &mut BitReader,
    lens: Ghost<Seq<u8>>,
    max_bits: Ghost<nat>,
) -> (r: Option<u16>)
    requires
        old(reader).inv(),
        tables.wf(lens@, max_bits@),
        old(reader).ready(15),
    ensures
        final(reader).inv(),
        forall|m: nat| old(reader).ready((15 + m) as nat) ==> #[trigger] final(reader).ready(m),
        match next_symbol(lens@, max_bits@, old(reader).rest()) {
            None => r is None && final(reader).rest() == old(reader).rest(),
            Some(s) => r == Some(s as u16) && 0 <= s < lens@.len() && final(reader).rest()
                == bits::after(old(reader).rest(), lens@[s] as nat),
        },
{
    proof {
        bits::lemma_p2_small();
        reader.lemma_ready(15);
    }
    let v: usize = reader.peek(15) as usize;
    let (sym, n) = tables.find(v, lens, max_bits);
    let ghost before = *reader;
    if n == 0 {
        proof {
            assert forall|m: nat| before.ready((15 + m) as nat) implies #[trigger] reader.ready(
                m,
            ) by {
                before.lemma_ready(15 + m);
            }
        }
        return None;
    }
    reader.consume(n as usize);
    proof {
        assert forall|m: nat| before.ready((15 + m) as nat) implies #[trigger] reader.ready(m) by {
            before.lemma_ready(15 + m);
            assert(before.ready(n as nat + m));
        }
    }
    Some(sym)
}

/// Decodes `expected_len` bytes.
pub fn huff_decode(data: &[u8], expected_len: usize) -> (r: Result<Vec<u8>, String>)
    ensures
        match (r, huff_decoded(data@, expected_len as nat)) {
            (Ok(v), Ok(want)) => v@ == want,
            (Err(e), Err(message)) => e@ == message,
            _ => false,
        },
{
    let opened = open_stream(data, HUFF_ALPHABET_SIZE, false, "huff");
    match opened {
        Err(e) => Err(e),
        Ok((tables, stream)) => {
            let ghost parts = huff_opened(data@, 256, false, "huff"@)->Ok_0;
            let ghost lens = parts.0;
            let ghost max_bits = parts.1;
            let ghost want = read_symbols(
                lens,
                max_bits,
                bits::bits_of(stream@),
                expected_len as nat,
                Seq::empty(),
            );
            let mut out: Vec<u8> = Vec::new();
            let mut reader = BitReader::new(stream);
            while out.len() < expected_len
                invariant
                    out@.len() <= expected_len,
                    reader.inv(),
                    tables.wf(lens, max_bits),
                    lens.len() == 256,
                    huff_decoded(data@, expected_len as nat) == match want {
                        None => Err::<Seq<u8>, Seq<char>>("huff: invalid code"@),
                        Some(v) => Ok(v),
                    },
                    read_symbols(
                        lens,
                        max_bits,
                        reader.rest(),
                        (expected_len - out@.len()) as nat,
                        out@,
                    ) == want,
                decreases expected_len - out@.len(),
            {
                reader.fill();
                proof {
                    reader.lemma_ready(56);
                }
                match read_symbol(&tables, &mut reader, Ghost(lens), Ghost(max_bits)) {
                    None => {
                        return Err("huff: invalid code".to_string());
                    },
                    Some(sym) => {
                        out.push(sym as u8);
                    },
                }
            }
            Ok(out)
        },
    }
}

// ---- what is coded ----

/// Symbols are coded wherever there are 256 of them or more and not all are the same. The coded
/// form is the longest code length, the size of the code lengths, the code lengths, and as many
/// bytes as the codes of the symbols need together.
pub proof fn lemma_coded(data: Seq<int>, n: nat, wide: bool)
    requires
        data.len() <= usize::MAX,
        forall|i: int| 0 <= i < data.len() ==> 0 <= #[trigger] data[i] < n,
    ensures
        huff_encoded(data, n, wide) is Some <==> data.len() >= 256 && exists|i: int, j: int|
            0 <= i < j < data.len() && #[trigger] data[i] != #[trigger] data[j],
        huff_encoded(data, n, wide) is Some ==> ({
            let lens = lens_for(data, n);
            huff_encoded(data, n, wide)->0.len() == (if wide {
                3int
            } else {
                2
            }) + rle::rle_bytes(lens).len() + (stream_bits(
                lens,
                canon::max_len(lens),
                data,
            ).len() + 7) / 8
        }),
{
    let freq = frequencies(data, n);
    let order = tree::by_freq(freq, n);
    lengths::lemma_kinds(freq, n);
    tree::lemma_by_freq(freq, n);
    assert forall|s: int| 0 <= s < n implies (freq[s] > 0 <==> data.contains(s)) by {
        lemma_occurrences(data, s);
    }
    if exists|i: int, j: int|
        0 <= i < j < data.len() && #[trigger] data[i] != #[trigger] data[j] {
        let (i, j) = choose|i: int, j: int|
            0 <= i < j < data.len() && #[trigger] data[i] != #[trigger] data[j];
        assert(data.contains(data[i]) && data.contains(data[j]));
        assert(order.contains(data[i]) && order.contains(data[j]));
        let a = choose|a: int| 0 <= a < order.len() && order[a] == data[i];
        let b = choose|b: int| 0 <= b < order.len() && order[b] == data[j];
        assert(a != b);
        assert(order.len() >= 2);
    }
    if order.len() >= 2 {
        assert(order[0] != order[1]);
        assert(freq[order[0]] > 0 && freq[order[1]] > 0);
        assert(data.contains(order[0]) && data.contains(order[1]));
        let a = choose|a: int| 0 <= a < data.len() && data[a] == order[0];
        let b = choose|b: int| 0 <= b < data.len() && data[b] == order[1];
        assert(data[a] != data[b]);
        if a < b {
            assert(data[a] != data[b]);
        } else {
            assert(data[b] != data[a]);
        }
    }
}

/// Where everything stands in coded symbols: the longest code length, the size of the code lengths
/// in one byte or, lowest first, in two, the code lengths, and the codes one after the other.
pub proof fn lemma_coded_layout(data: Seq<int>, n: nat, wide: bool)
    requires
        huff_encoded(data, n, wide) is Some,
        rle::rle_bytes(lens_for(data, n)).len() <= 255,
    ensures
        ({
            let out = huff_encoded(data, n, wide)->0;
            let lens = lens_for(data, n);
            let coded = rle::rle_bytes(lens);
            let o: int = if wide {
                3
            } else {
                2
            };
            &&& out[0] == canon::max_len(lens) as u8
            &&& out[1] == coded.len()
            &&& wide ==> out[2] == 0
            &&& out.subrange(o, o + coded.len()) == coded
            &&& out.skip(o + coded.len()) == bits::pack(
                stream_bits(lens, canon::max_len(lens), data),
            )
        }),
{
    let out = huff_encoded(data, n, wide)->0;
    let lens = lens_for(data, n);
    let coded = rle::rle_bytes(lens);
    let o: int = if wide {
        3
    } else {
        2
    };
    assert(out.subrange(o, o + coded.len()) =~= coded);
    assert(out.skip(o + coded.len()) =~= bits::pack(
        stream_bits(lens, canon::max_len(lens), data),
    ));
}

} // verus!
