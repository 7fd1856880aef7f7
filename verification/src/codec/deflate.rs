//! Blocks of repeats and literals, Huffman coded.
//!
//! A coded block is five numbers of four bytes (the size of the coded symbols,
//! the number of symbols, the number of distances, the size of the coded
//! distances, the size of the extra bits) and the three parts. A symbol below
//! 256 is a literal byte, the others are length codes. Each length has a
//! distance code. Extra bits of length and distance stand in the third part.

use crate::bytes;
use crate::codec::bits;
use crate::codec::bits::{BitReader, BitWriter};
use crate::codec::canon;
use crate::codec::cost;
use crate::codec::huffman;
use crate::codec::lz;
use crate::codec::lz::{Block, Chains, Search, TableIndex, Token};
use crate::codec::symbols;
use crate::codec::table::Tables;
use crate::text;
use vstd::prelude::*;
use vstd::string::*;

verus! {

// ---- tokens as three streams ----

pub open spec fn symbol_of(t: Token) -> int {
    match t {
        Token::Literal(x) => x as int,
        Token::Repeat(len, dist) => 256 + symbols::len_code(len),
    }
}

pub open spec fn symbols_of(toks: Seq<Token>) -> Seq<int> {
    Seq::new(toks.len(), |i: int| symbol_of(toks[i]))
}

/// The distance codes of the repeats.
pub open spec fn dists_of(toks: Seq<Token>) -> Seq<u8>
    decreases toks.len(),
{
    if toks.len() == 0 {
        Seq::empty()
    } else {
        let head = dists_of(toks.drop_last());
        match toks.last() {
            Token::Literal(x) => head,
            Token::Repeat(len, dist) => head.push(symbols::dist_code((dist - 1) as nat) as u8),
        }
    }
}

/// The extra bits of a token.
pub open spec fn extra_of(t: Token) -> Seq<bool> {
    match t {
        Token::Literal(x) => Seq::empty(),
        Token::Repeat(len, dist) => {
            let l = symbols::len_code(len);
            let d = symbols::dist_code((dist - 1) as nat);
            bits::num_bits((len - symbols::len_base(l)) as u64, symbols::len_extra(l))
                + bits::num_bits((dist - 1 - symbols::dist_base(d)) as u64, symbols::dist_extra(d))
        },
    }
}

pub open spec fn extras_of(toks: Seq<Token>) -> Seq<bool>
    decreases toks.len(),
{
    if toks.len() == 0 {
        Seq::empty()
    } else {
        extras_of(toks.drop_last()) + extra_of(toks.last())
    }
}

/// The distance codes in the form in which they are written.
pub open spec fn dist_part(dists: Seq<u8>) -> Seq<u8> {
    match huffman::huff_encoded(huffman::ints8(dists), 256, false) {
        Some(coded) => coded,
        None => dists,
    }
}

/// The five sizes and the three parts.
pub open spec fn framed(
    sym_part: Seq<u8>,
    num_syms: nat,
    num_dist: nat,
    dist_part: Seq<u8>,
    extra_part: Seq<u8>,
) -> Seq<u8> {
    bytes::le32(sym_part.len()) + bytes::le32(num_syms) + bytes::le32(num_dist) + bytes::le32(
        dist_part.len(),
    ) + bytes::le32(extra_part.len()) + sym_part + dist_part + extra_part
}

/// The coded form of `n` bytes that the tokens stand for, if it is shorter.
#[verifier::opaque]
pub open spec fn packed(toks: Seq<Token>, n: nat, version: u8) -> Option<Seq<u8>> {
    match huffman::huff_encoded(symbols_of(toks), 286, version >= 2) {
        None => None,
        Some(sym_part) => {
            let dists = dists_of(toks);
            let dist_part = dist_part(dists);
            let extra_part = bits::pack(extras_of(toks));
            if 20 + sym_part.len() + dist_part.len() + extra_part.len() >= n {
                None
            } else {
                Some(framed(sym_part, toks.len(), dists.len(), dist_part, extra_part))
            }
        },
    }
}

/// The coded form of a block, searched with tables `c`.
pub open spec fn deflated(b: Block, c: Chains, version: u8) -> Option<Seq<u8>> {
    if b.data.len() < 128 {
        None
    } else {
        packed(b.tokens_from(c, 0).0, b.data.len(), version)
    }
}

/// The tables after a block.
pub open spec fn chains_after(b: Block, c: Chains) -> Chains {
    if b.data.len() < 128 {
        c
    } else {
        b.tokens_from(c, 0).1
    }
}

/// A block is coded wherever that makes it shorter: five numbers of four bytes, the coded symbols,
/// the distances in the shorter of their forms and the extra bits are less than the data. Below 128
/// bytes, or where the symbols cannot be coded, it is not.
pub proof fn lemma_coded_if_shorter(b: Block, c: Chains, version: u8)
    ensures
        ({
            let toks = b.tokens_from(c, 0).0;
            let syms = huffman::huff_encoded(
                Seq::new(toks.len(), |i: int| symbol_of(toks[i])),
                286,
                version >= 2,
            );
            let dists = dists_of(toks);
            let dist_len = match huffman::huff_encoded(
                Seq::new(dists.len(), |i: int| dists[i] as int),
                256,
                false,
            ) {
                Some(d) => d.len(),
                None => dists.len(),
            };
            let extra_len = (extras_of(toks).len() + 7) / 8;
            match deflated(b, c, version) {
                Some(out) => {
                    &&& b.data.len() >= 128
                    &&& syms is Some
                    &&& out.len() == 20 + syms->0.len() + dist_len + extra_len
                    &&& out.len() < b.data.len()
                },
                None => b.data.len() < 128 || syms is None || 20 + syms->0.len() + dist_len
                    + extra_len >= b.data.len(),
            }
        }),
{
    reveal(packed);
    let toks = b.tokens_from(c, 0).0;
    let dists = dists_of(toks);
    assert(symbols_of(toks) =~= Seq::new(toks.len(), |i: int| symbol_of(toks[i])));
    assert(huffman::ints8(dists) =~= Seq::new(dists.len(), |i: int| dists[i] as int));
    bits::lemma_pack_bits(extras_of(toks));
}

// ---- decoding ----

/// The next `n` extra bits as a number, and those behind them.
pub open spec fn take_extra(e: Seq<bool>, n: nat) -> Option<(nat, Seq<bool>)> {
    if e.len() < n {
        None
    } else {
        Some((bits::front_num(e, n), bits::after(e, n)))
    }
}

/// What a length code `l` does to the output: the output then and the extra
/// bits that are left.
#[verifier::opaque]
pub open spec fn repeat_applied(dists: Seq<u8>, di: nat, e: Seq<bool>, l: int, out: Seq<u8>) -> Result<
    (Seq<u8>, Seq<bool>),
    Seq<char>,
> {
    if l > 28 {
        Err("deflateStyle: invalid length code "@ + text::dec(l as nat))
    } else {
        match take_extra(e, symbols::len_extra(l)) {
            None => Err("deflateStyle: extra bits underrun"@),
            Some((x, e1)) => if di >= dists.len() {
                Err("deflateStyle: dist underrun"@)
            } else if dists[di as int] >= 32 {
                Err("deflateStyle: invalid dist code "@ + text::dec(dists[di as int] as nat))
            } else {
                let d = dists[di as int] as int;
                match take_extra(e1, symbols::dist_extra(d)) {
                    None => Err("deflateStyle: extra bits underrun"@),
                    Some((y, e2)) => {
                        let dist = symbols::dist_base(d) + y + 1;
                        if dist > out.len() {
                            Err("deflateStyle: bad dist "@ + text::dec(dist))
                        } else {
                            Ok((lz::copied(out, dist, symbols::len_base(l) + x), e2))
                        }
                    },
                }
            },
        }
    }
}

/// The output after `k` more symbols.
pub open spec fn inflated_from(
    lens: Seq<u8>,
    max_bits: nat,
    dists: Seq<u8>,
    b: Seq<bool>,
    e: Seq<bool>,
    di: nat,
    k: nat,
    out: Seq<u8>,
) -> Result<Seq<u8>, Seq<char>>
    decreases k,
{
    if k == 0 {
        Ok(out)
    } else {
        match huffman::next_symbol(lens, max_bits, b) {
            None => Err("huffUint16: invalid code"@),
            Some(s) => {
                let b1 = bits::after(b, lens[s] as nat);
                if s < 256 {
                    inflated_from(
                        lens,
                        max_bits,
                        dists,
                        b1,
                        e,
                        di,
                        (k - 1) as nat,
                        out.push(s as u8),
                    )
                } else {
                    match repeat_applied(dists, di, e, s - 256, out) {
                        Err(m) => Err(m),
                        Ok((out1, e1)) => inflated_from(
                            lens,
                            max_bits,
                            dists,
                            b1,
                            e1,
                            di + 1,
                            (k - 1) as nat,
                            out1,
                        ),
                    }
                }
            },
        }
    }
}

/// The distance codes of a coded block.
pub open spec fn dists_read(part: Seq<u8>, num_dist: nat) -> Result<Seq<u8>, Seq<char>> {
    if num_dist == 0 {
        Ok(Seq::empty())
    } else if part.len() == num_dist {
        Ok(part)
    } else {
        huffman::huff_decoded(part, num_dist)
    }
}

/// What a coded block stands for.
#[verifier::opaque]
pub open spec fn inflated(data: Seq<u8>, expected_len: nat, version: u8) -> Result<
    Seq<u8>,
    Seq<char>,
> {
    if data.len() < 20 {
        Err("deflateStyle: too short"@)
    } else {
        let sym_size = bytes::u32_at(data, 0);
        let num_syms = bytes::u32_at(data, 4);
        let num_dist = bytes::u32_at(data, 8);
        let dist_size = bytes::u32_at(data, 12);
        let extra_size = bytes::u32_at(data, 16);
        let o1 = 20 + sym_size;
        let o2 = o1 + dist_size;
        let o3 = o2 + extra_size;
        if o1 > data.len() {
            Err("deflateStyle: sym overrun"@)
        } else {
            match huffman::huff_opened(
                data.subrange(20, o1 as int),
                286,
                version >= 2,
                "huffUint16"@,
            ) {
                Err(m) => Err(m),
                Ok((lens, max_bits, stream)) => if o2 > data.len() {
                    Err("deflateStyle: dist overrun"@)
                } else {
                    match dists_read(data.subrange(o1 as int, o2 as int), num_dist) {
                        Err(m) => Err(m),
                        Ok(dists) => if o3 > data.len() {
                            Err("deflateStyle: extra bits overrun"@)
                        } else {
                            match inflated_from(
                                lens,
                                max_bits,
                                dists,
                                bits::bits_of(stream),
                                bits::bits_of(data.subrange(o2 as int, o3 as int)),
                                0,
                                num_syms,
                                Seq::empty(),
                            ) {
                                Err(m) => Err(m),
                                Ok(out) => if out.len() != expected_len {
                                    Err(
                                        "deflateStyle: got "@ + text::dec(out.len()) + " want "@
                                            + text::dec(expected_len),
                                    )
                                } else {
                                    Ok(out)
                                },
                            }
                        },
                    }
                },
            }
        }
    }
}

// ---- reading back what was written ----

proof fn lemma_extras_front(toks: Seq<Token>)
    requires
        toks.len() > 0,
    ensures
        extras_of(toks) == extra_of(toks[0]) + extras_of(toks.drop_first()),
    decreases toks.len(),
{
    let rest = toks.drop_first();
    if toks.len() == 1 {
        assert(extras_of(toks.drop_last()) =~= Seq::<bool>::empty());
        assert(extras_of(rest) =~= Seq::<bool>::empty());
        assert(extras_of(toks) =~= extra_of(toks[0]) + extras_of(rest));
    } else {
        lemma_extras_front(toks.drop_last());
        assert(toks.drop_last().drop_first() =~= rest.drop_last());
        assert(extras_of(toks) =~= extra_of(toks[0]) + extras_of(rest));
    }
}

proof fn lemma_dists_concat(a: Seq<Token>, b: Seq<Token>)
    ensures
        dists_of(a + b) == dists_of(a) + dists_of(b),
    decreases b.len(),
{
    if b.len() == 0 {
        assert(a + b =~= a);
        assert(dists_of(a) + dists_of(b) =~= dists_of(a));
    } else {
        lemma_dists_concat(a, b.drop_last());
        assert((a + b).drop_last() =~= a + b.drop_last());
        assert(dists_of(a + b) =~= dists_of(a) + dists_of(b));
    }
}

/// A repeat does to the output what its codes say.
proof fn lemma_repeat_applied(
    len: nat,
    dist: nat,
    dists: Seq<u8>,
    di: nat,
    z: Seq<bool>,
    out: Seq<u8>,
)
    requires
        3 <= len <= 258,
        1 <= dist <= 65536,
        dist <= out.len(),
        di < dists.len(),
        dists[di as int] == symbols::dist_code((dist - 1) as nat),
    ensures
        repeat_applied(
            dists,
            di,
            extra_of(Token::Repeat(len, dist)) + z,
            symbols::len_code(len),
            out,
        ) == Ok::<(Seq<u8>, Seq<bool>), Seq<char>>((lz::copied(out, dist, len), z)),
{
    reveal(repeat_applied);
    symbols::lemma_len_code(len);
    symbols::lemma_dist_code((dist - 1) as nat);
    let l = symbols::len_code(len);
    let d = symbols::dist_code((dist - 1) as nat);
    symbols::lemma_len_ranges(l);
    symbols::lemma_dist_ranges(d);
    let x = (len - symbols::len_base(l)) as u64;
    let y = (dist - 1 - symbols::dist_base(d)) as u64;
    let nx = symbols::len_extra(l);
    let ny = symbols::dist_extra(d);
    let e = extra_of(Token::Repeat(len, dist)) + z;
    assert(e =~= bits::num_bits(x, nx) + (bits::num_bits(y, ny) + z));
    bits::lemma_front_write(x, nx, bits::num_bits(y, ny) + z);
    bits::lemma_front_write(y, ny, z);
}

proof fn lemma_dists_front(toks: Seq<Token>)
    requires
        toks.len() > 0,
    ensures
        dists_of(toks) == match toks[0] {
            Token::Literal(x) => dists_of(toks.drop_first()),
            Token::Repeat(len, dist) => seq![symbols::dist_code((dist - 1) as nat) as u8]
                + dists_of(toks.drop_first()),
        },
{
    let t = toks[0];
    let rest = toks.drop_first();
    assert(toks =~= seq![t] + rest);
    lemma_dists_concat(seq![t], rest);
    assert(seq![t].drop_last() =~= Seq::<Token>::empty());
    reveal_with_fuel(dists_of, 2);
    match t {
        Token::Literal(x) => {
            assert(dists_of(seq![t]) =~= Seq::<u8>::empty());
            assert(dists_of(toks) =~= dists_of(rest));
        },
        Token::Repeat(len, dist) => {
            assert(dists_of(seq![t]) =~= seq![symbols::dist_code((dist - 1) as nat) as u8]);
        },
    }
}

proof fn lemma_expand_front(out: Seq<u8>, toks: Seq<Token>)
    requires
        toks.len() > 0,
    ensures
        lz::expand(out, toks) == lz::expand(lz::applied(out, toks[0]), toks.drop_first()),
{
    let t = toks[0];
    let rest = toks.drop_first();
    assert(toks =~= seq![t] + rest);
    lz::lemma_expand_concat(out, seq![t], rest);
    assert(seq![t].drop_last() =~= Seq::<Token>::empty());
    reveal_with_fuel(lz::expand, 2);
}

proof fn lemma_reachable_rest(out: Seq<u8>, toks: Seq<Token>)
    requires
        toks.len() > 0,
        lz::reachable(out, toks),
    ensures
        lz::reachable(lz::applied(out, toks[0]), toks.drop_first()),
        toks[0] is Repeat ==> toks[0]->Repeat_1 <= out.len(),
{
    let rest = toks.drop_first();
    let out1 = lz::applied(out, toks[0]);
    assert forall|k: int| 0 <= k < rest.len() && (#[trigger] rest[k]) is Repeat implies rest[k]->Repeat_1
        <= lz::expand(out1, rest.take(k)).len() by {
        assert(rest[k] == toks[k + 1]);
        assert(toks.take(k + 1).drop_first() =~= rest.take(k));
        lemma_expand_front(out, toks.take(k + 1));
    }
    assert(toks.take(0) =~= Seq::<Token>::empty());
    assert(toks[0] is Repeat ==> toks[0]->Repeat_1 <= lz::expand(out, toks.take(0)).len());
}

pub proof fn lemma_symbol_range(t: Token)
    requires
        lz::fits_codes(t),
    ensures
        0 <= symbol_of(t) < 285,
        symbol_of(t) < 256 <==> t is Literal,
{
    match t {
        Token::Literal(x) => {},
        Token::Repeat(len, dist) => {
            symbols::lemma_len_code(len);
        },
    }
}

/// The streams start with the codes of the first token.
proof fn lemma_streams_front(
    lens: Seq<u8>,
    max_bits: nat,
    toks: Seq<Token>,
    z: Seq<bool>,
    ez: Seq<bool>,
)
    requires
        canon::prefix_lens(lens, max_bits),
        lens.len() == 286,
        toks.len() > 0,
        lens[symbol_of(toks[0])] > 0,
        lz::fits_codes(toks[0]),
    ensures
        ({
            let s = symbol_of(toks[0]);
            let rest = toks.drop_first();
            let b = huffman::stream_bits(lens, max_bits, symbols_of(toks)) + z;
            &&& huffman::next_symbol(lens, max_bits, b) == Some(s)
            &&& bits::after(b, lens[s] as nat) == huffman::stream_bits(
                lens,
                max_bits,
                symbols_of(rest),
            ) + z
            &&& extras_of(toks) + ez == extra_of(toks[0]) + (extras_of(rest) + ez)
        }),
{
    let s = symbol_of(toks[0]);
    let rest = toks.drop_first();
    let b = huffman::stream_bits(lens, max_bits, symbols_of(toks)) + z;
    let b1 = huffman::stream_bits(lens, max_bits, symbols_of(rest)) + z;
    huffman::lemma_stream_front(lens, max_bits, symbols_of(toks));
    assert(symbols_of(toks).drop_first() =~= symbols_of(rest));
    assert(b =~= canon::code_bits(lens, max_bits, s) + b1);
    lemma_symbol_range(toks[0]);
    huffman::lemma_next_symbol(lens, max_bits, s, b1);
    lemma_extras_front(toks);
    assert(extras_of(toks) + ez =~= extra_of(toks[0]) + (extras_of(rest) + ez));
}

/// The streams of the tokens give back what the tokens stand for.
proof fn lemma_inflated_from(
    lens: Seq<u8>,
    max_bits: nat,
    dists: Seq<u8>,
    toks: Seq<Token>,
    z: Seq<bool>,
    ez: Seq<bool>,
    di: nat,
    out: Seq<u8>,
)
    requires
        canon::prefix_lens(lens, max_bits),
        lens.len() == 286,
        forall|k: int| 0 <= k < toks.len() ==> lens[#[trigger] symbol_of(toks[k])] > 0,
        forall|k: int| 0 <= k < toks.len() ==> #[trigger] lz::fits_codes(toks[k]),
        lz::reachable(out, toks),
        di + dists_of(toks).len() == dists.len(),
        dists.skip(di as int) == dists_of(toks),
    ensures
        inflated_from(
            lens,
            max_bits,
            dists,
            huffman::stream_bits(lens, max_bits, symbols_of(toks)) + z,
            extras_of(toks) + ez,
            di,
            toks.len(),
            out,
        ) == Ok::<Seq<u8>, Seq<char>>(lz::expand(out, toks)),
    decreases toks.len(),
{
    if toks.len() > 0 {
        let t = toks[0];
        let rest = toks.drop_first();
        let e1 = extras_of(rest) + ez;
        let out1 = lz::applied(out, t);
        assert(lz::fits_codes(toks[0]));
        assert(lens[symbol_of(toks[0])] > 0);
        lemma_streams_front(lens, max_bits, toks, z, ez);
        lemma_dists_front(toks);
        lemma_expand_front(out, toks);
        lemma_reachable_rest(out, toks);
        lemma_symbol_range(t);
        assert forall|k: int| 0 <= k < rest.len() implies lens[#[trigger] symbol_of(rest[k])] > 0 by {
            assert(lens[symbol_of(toks[k + 1])] > 0);
        }
        assert forall|k: int| 0 <= k < rest.len() implies #[trigger] lz::fits_codes(rest[k]) by {
            assert(lz::fits_codes(toks[k + 1]));
        }
        match t {
            Token::Literal(x) => {
                assert(extra_of(t) + e1 =~= e1);
                lemma_inflated_from(lens, max_bits, dists, rest, z, ez, di, out1);
            },
            Token::Repeat(len, dist) => {
                let d = symbols::dist_code((dist - 1) as nat);
                symbols::lemma_dist_code((dist - 1) as nat);
                assert(dists.skip(di as int)[0] == d);
                lemma_repeat_applied(len, dist, dists, di, e1, out);
                assert(dists.skip(di as int + 1) =~= dists_of(rest)) by {
                    assert(dists.skip(di as int + 1) =~= dists.skip(di as int).drop_first());
                    assert(dists_of(toks).drop_first() =~= dists_of(rest));
                }
                lemma_inflated_from(lens, max_bits, dists, rest, z, ez, di + 1, out1);
            },
        }
    }
}

/// Distance codes are below 32, and there is at most one for each token.
pub proof fn lemma_dists_range(toks: Seq<Token>)
    requires
        forall|k: int| 0 <= k < toks.len() ==> #[trigger] lz::fits_codes(toks[k]),
    ensures
        forall|i: int| 0 <= i < dists_of(toks).len() ==> #[trigger] dists_of(toks)[i] < 32,
        dists_of(toks).len() <= toks.len(),
    decreases toks.len(),
{
    if toks.len() > 0 {
        let q = toks.drop_last();
        assert forall|k: int| 0 <= k < q.len() implies #[trigger] lz::fits_codes(q[k]) by {
            assert(lz::fits_codes(toks[k]));
        }
        lemma_dists_range(q);
        assert(lz::fits_codes(toks[toks.len() - 1]));
        match toks.last() {
            Token::Literal(x) => {},
            Token::Repeat(len, dist) => {
                symbols::lemma_dist_code((dist - 1) as nat);
            },
        }
    }
}

/// The distance codes are read back from either form.
proof fn lemma_dists_read(dists: Seq<u8>)
    requires
        dists.len() <= usize::MAX,
        forall|i: int| 0 <= i < dists.len() ==> #[trigger] dists[i] < 32,
    ensures
        dists_read(dist_part(dists), dists.len()) == Ok::<Seq<u8>, Seq<char>>(dists),
{
    if dists.len() == 0 {
        assert(dists =~= Seq::<u8>::empty());
    } else if huffman::huff_encoded(huffman::ints8(dists), 256, false) is Some {
        cost::lemma_coded_shorter(dists);
        huffman::lemma_huff_roundtrip(dists);
    }
}

/// Five words and three parts, one after the other.
proof fn lemma_frame_parts(
    w0: Seq<u8>,
    w1: Seq<u8>,
    w2: Seq<u8>,
    w3: Seq<u8>,
    w4: Seq<u8>,
    a: Seq<u8>,
    b: Seq<u8>,
    c: Seq<u8>,
)
    requires
        w0.len() == 4,
        w1.len() == 4,
        w2.len() == 4,
        w3.len() == 4,
        w4.len() == 4,
    ensures
        ({
            let data = w0 + w1 + w2 + w3 + w4 + a + b + c;
            let o1 = 20 + a.len() as int;
            let o2 = o1 + b.len();
            &&& data.len() == o2 + c.len()
            &&& data.subrange(0, 4) == w0
            &&& data.subrange(4, 8) == w1
            &&& data.subrange(8, 12) == w2
            &&& data.subrange(12, 16) == w3
            &&& data.subrange(16, 20) == w4
            &&& data.subrange(20, o1) == a
            &&& data.subrange(o1, o2) == b
            &&& data.subrange(o2, data.len() as int) == c
        }),
{
    let data = w0 + w1 + w2 + w3 + w4 + a + b + c;
    let o1 = 20 + a.len() as int;
    let o2 = o1 + b.len();
    assert(data.subrange(0, 4) =~= w0);
    assert(data.subrange(4, 8) =~= w1);
    assert(data.subrange(8, 12) =~= w2);
    assert(data.subrange(12, 16) =~= w3);
    assert(data.subrange(16, 20) =~= w4);
    assert(data.subrange(20, o1) =~= a);
    assert(data.subrange(o1, o2) =~= b);
    assert(data.subrange(o2, data.len() as int) =~= c);
}

#[verifier::rlimit(50)]
#[verifier::spinoff_prover]
proof fn lemma_framed(a: Seq<u8>, k: nat, d: nat, b: Seq<u8>, c: Seq<u8>)
    requires
        a.len() <= u32::MAX,
        b.len() <= u32::MAX,
        c.len() <= u32::MAX,
        k <= u32::MAX,
        d <= u32::MAX,
    ensures
        ({
            let data = framed(a, k, d, b, c);
            let o1 = 20 + a.len();
            let o2 = o1 + b.len();
            &&& data.len() == o2 + c.len()
            &&& bytes::u32_at(data, 0) == a.len()
            &&& bytes::u32_at(data, 4) == k
            &&& bytes::u32_at(data, 8) == d
            &&& bytes::u32_at(data, 12) == b.len()
            &&& bytes::u32_at(data, 16) == c.len()
            &&& data.subrange(20, o1 as int) == a
            &&& data.subrange(o1 as int, o2 as int) == b
            &&& data.subrange(o2 as int, data.len() as int) == c
        }),
{
    let data = framed(a, k, d, b, c);
    lemma_frame_parts(
        bytes::le32(a.len()),
        bytes::le32(k),
        bytes::le32(d),
        bytes::le32(b.len()),
        bytes::le32(c.len()),
        a,
        b,
        c,
    );
    bytes::lemma_u32_at(data, 0, a.len());
    bytes::lemma_u32_at(data, 4, k);
    bytes::lemma_u32_at(data, 8, d);
    bytes::lemma_u32_at(data, 12, b.len());
    bytes::lemma_u32_at(data, 16, c.len());
}

/// The five numbers in front of a coded block fit in 32 bits each.
pub open spec fn headed(toks: Seq<Token>, version: u8) -> bool {
    &&& toks.len() <= u32::MAX
    &&& dist_part(dists_of(toks)).len() <= u32::MAX
    &&& bits::pack(extras_of(toks)).len() <= u32::MAX
    &&& match huffman::huff_encoded(symbols_of(toks), 286, version >= 2) {
        Some(sym_part) => sym_part.len() <= u32::MAX,
        None => true,
    }
}

/// What is in front of the coded form of a block tells all that decoding needs. That is so of any
/// block below 4 GiB.
pub open spec fn countable(b: Block, c: Chains, version: u8) -> bool {
    b.data.len() <= u32::MAX || headed(b.tokens_from(c, 0).0, version)
}

/// A coded block decodes to what its tokens stand for.
proof fn lemma_packed(toks: Seq<Token>, data: Seq<u8>, version: u8, coded: Seq<u8>)
    requires
        data.len() <= usize::MAX,
        data.len() <= u32::MAX || headed(toks, version),
        toks.len() <= data.len(),
        forall|k: int| 0 <= k < toks.len() ==> #[trigger] lz::fits_codes(toks[k]),
        lz::reachable(Seq::empty(), toks),
        lz::expand(Seq::empty(), toks) == data,
        packed(toks, data.len(), version) == Some(coded),
    ensures
        inflated(coded, data.len(), version) == Ok::<Seq<u8>, Seq<char>>(data),
        coded.len() < data.len(),
{
    reveal(inflated);
    reveal(packed);
    let wide = version >= 2;
    let syms = symbols_of(toks);
    let sym_part = huffman::huff_encoded(syms, 286, wide)->0;
    let dists = dists_of(toks);
    let part = dist_part(dists);
    let extra = extras_of(toks);
    let extra_part = bits::pack(extra);
    let all = framed(sym_part, toks.len(), dists.len(), part, extra_part);
    lemma_dists_range(toks);
    lemma_framed(sym_part, toks.len(), dists.len(), part, extra_part);
    lemma_dists_read(dists);
    assert forall|i: int| 0 <= i < syms.len() implies 0 <= #[trigger] syms[i] < 286 by {
        assert(lz::fits_codes(toks[i]));
        lemma_symbol_range(toks[i]);
    }
    let lens = huffman::lens_for(syms, 286);
    let max_bits = canon::max_len(lens);
    let b = huffman::stream_bits(lens, max_bits, syms);
    huffman::lemma_opened(syms, 286, wide, "huffUint16"@, bits::pack(b));
    huffman::lemma_lens_for(syms, 286);
    bits::lemma_pack_bits(b);
    bits::lemma_pack_bits(extra);
    let z = bits::zero_pad(b).skip(b.len() as int);
    let ez = bits::zero_pad(extra).skip(extra.len() as int);
    assert(bits::zero_pad(b) =~= b + z);
    assert(bits::zero_pad(extra) =~= extra + ez);
    assert forall|k: int| 0 <= k < toks.len() implies lens[#[trigger] symbol_of(toks[k])] > 0 by {
        assert(lens[syms[k]] > 0);
    }
    assert(dists.skip(0) =~= dists);
    lemma_inflated_from(lens, max_bits, dists, toks, z, ez, 0, Seq::empty());
}

/// A block comes back from its coded form, whatever the tables knew before.
pub proof fn lemma_deflate_roundtrip(b: Block, c: Chains, version: u8)
    requires
        b.wf(),
        b.fresh(c, 0),
        countable(b, c, version),
        deflated(b, c, version) is Some,
    ensures
        inflated(deflated(b, c, version)->0, b.data.len(), version) == Ok::<Seq<u8>, Seq<char>>(
            b.data,
        ),
        deflated(b, c, version)->0.len() < b.data.len(),
{
    let toks = b.tokens_from(c, 0).0;
    let data = b.data;
    lz::lemma_tokens(b, c, 0);
    assert(data.take(0) =~= Seq::<u8>::empty());
    assert(deflated(b, c, version) == packed(toks, data.len(), version));
    lemma_packed(toks, data, version, deflated(b, c, version)->0);
}

/// Whatever tokens data is cut into, their coded form stands for the data: a reader takes every cut
/// whose repeats reach back no further than the data, not only the one that a writer here makes.
pub proof fn lemma_any_tokens(toks: Seq<Token>, version: u8)
    requires
        forall|k: int| 0 <= k < toks.len() ==> #[trigger] lz::fits_codes(toks[k]),
        lz::reachable(Seq::empty(), toks),
        lz::expand(Seq::empty(), toks).len() <= u32::MAX,
        toks.len() <= lz::expand(Seq::empty(), toks).len(),
        packed(toks, lz::expand(Seq::empty(), toks).len(), version) is Some,
    ensures
        ({
            let data = lz::expand(Seq::empty(), toks);
            inflated(packed(toks, data.len(), version)->0, data.len(), version) == Ok::<
                Seq<u8>,
                Seq<char>,
            >(data)
        }),
{
    let data = lz::expand(Seq::empty(), toks);
    lemma_packed(toks, data, version, packed(toks, data.len(), version)->0);
}

/// What a coded block stands for has the expected length: any other length is refused.
pub proof fn lemma_inflated_len(coded: Seq<u8>, n: nat, m: nat, version: u8)
    requires
        inflated(coded, n, version) is Ok,
        m != n,
    ensures
        inflated(coded, n, version)->Ok_0.len() == n,
        inflated(coded, m, version) is Err,
{
    reveal(inflated);
}

/// Data that is coded as one block comes back, and only where its length is expected.
pub proof fn lemma_alone_roundtrip(data: Seq<u8>, window: nat, version: u8, m: nat)
    requires
        1 <= window <= usize::MAX,
        data.len() <= usize::MAX,
        countable(
            lone_block(data, window),
            no_chains(lz::hash_params(window).1, window),
            version,
        ),
        deflated_alone(data, window, version) is Some,
    ensures
        ({
            let coded = deflated_alone(data, window, version)->0;
            &&& inflated(coded, data.len(), version) == Ok::<Seq<u8>, Seq<char>>(data)
            &&& m != data.len() ==> inflated(coded, m, version) is Err
            &&& coded.len() < data.len()
        }),
{
    let b = lone_block(data, window);
    let c = no_chains(lz::hash_params(window).1, window);
    assert(b.fresh(c, 0));
    lemma_deflate_roundtrip(b, c, version);
    if m != data.len() {
        lemma_inflated_len(deflated_alone(data, window, version)->0, data.len(), m, version);
    }
}

// ---- the computation ----

/// The three streams of a block while it is coded.
pub struct CompressBuffers {
    pub symbols: Vec<u16>,
    pub dist_codes: Vec<u8>,
    pub extra_bits: Vec<u8>,
}

impl CompressBuffers {
    pub fn new() -> (b: Self)
        ensures
            b.symbols@ == Seq::<u16>::empty(),
            b.dist_codes@ == Seq::<u8>::empty(),
            b.extra_bits@ == Seq::<u8>::empty(),
    {
        CompressBuffers { symbols: Vec::new(), dist_codes: Vec::new(), extra_bits: Vec::new() }
    }

    /// The buffers hold the streams of the tokens.
    pub open spec fn hold(&self, toks: Seq<Token>) -> bool {
        &&& huffman::ints16(self.symbols@) == symbols_of(toks)
        &&& self.dist_codes@ == dists_of(toks)
        &&& self.extra_bits@ == bits::pack(extras_of(toks))
    }
}

proof fn lemma_push_token(toks: Seq<Token>, t: Token)
    ensures
        symbols_of(toks.push(t)) == symbols_of(toks).push(symbol_of(t)),
        dists_of(toks.push(t)) == match t {
            Token::Literal(x) => dists_of(toks),
            Token::Repeat(len, dist) => dists_of(toks).push(
                symbols::dist_code((dist - 1) as nat) as u8,
            ),
        },
        extras_of(toks.push(t)) == extras_of(toks) + extra_of(t),
{
    assert(toks.push(t).drop_last() =~= toks);
    assert(symbols_of(toks.push(t)) =~= symbols_of(toks).push(symbol_of(t)));
}

fn push_literal(symbols: &mut Vec<u16>, x: u8, toks: Ghost<Seq<Token>>)
    requires
        huffman::ints16(old(symbols)@) == symbols_of(toks@),
    ensures
        huffman::ints16(final(symbols)@) == symbols_of(toks@.push(Token::Literal(x))),
{
    proof {
        lemma_push_token(toks@, Token::Literal(x));
    }
    let ghost before = symbols@;
    symbols.push(x as u16);
    assert(huffman::ints16(symbols@) =~= huffman::ints16(before).push(x as int));
}

fn push_repeat(
    symbols: &mut Vec<u16>,
    dist_codes: &mut Vec<u8>,
    bw: &mut BitWriter,
    len: usize,
    dist: usize,
    toks: Ghost<Seq<Token>>,
)
    requires
        3 <= len <= 258,
        1 <= dist <= 65536,
        huffman::ints16(old(symbols)@) == symbols_of(toks@),
        old(dist_codes)@ == dists_of(toks@),
        old(bw).inv(),
        old(bw).bits() == extras_of(toks@),
    ensures
        huffman::ints16(final(symbols)@) == symbols_of(
            toks@.push(Token::Repeat(len as nat, dist as nat)),
        ),
        final(dist_codes)@ == dists_of(toks@.push(Token::Repeat(len as nat, dist as nat))),
        final(bw).inv(),
        final(bw).bits() == extras_of(toks@.push(Token::Repeat(len as nat, dist as nat))),
{
    let ghost t = Token::Repeat(len as nat, dist as nat);
    proof {
        lemma_push_token(toks@, t);
        symbols::lemma_len_code(len as nat);
        symbols::lemma_dist_code((dist - 1) as nat);
        symbols::lemma_len_ranges(symbols::len_code(len as nat));
        symbols::lemma_dist_ranges(symbols::dist_code((dist - 1) as nat));
    }
    let ghost before = symbols@;
    let (len_code, len_extra, len_n) = symbols::len_to_code(len as u16);
    let (dist_code, dist_extra, dist_n) = symbols::dist_to_code((dist - 1) as u16);
    symbols.push(256 + len_code as u16);
    dist_codes.push(dist_code);
    bw.write(len_extra as u32, len_n as usize);
    bw.write(dist_extra as u32, dist_n as usize);
    proof {
        assert(huffman::ints16(symbols@) =~= huffman::ints16(before).push(symbol_of(t)));
        assert(bw.bits() =~= extras_of(toks@) + extra_of(t));
    }
}

/// Appends the streams of literals at `i` and of a repeat behind them.
fn push_tokens(
    symbols: &mut Vec<u16>,
    dist_codes: &mut Vec<u8>,
    bw: &mut BitWriter,
    data: &[u8],
    i: usize,
    skip: usize,
    len: usize,
    dist: usize,
    toks: Ghost<Seq<Token>>,
)
    requires
        i + skip <= data@.len(),
        len > 0 ==> 3 <= len <= 258 && 1 <= dist <= 65536,
        huffman::ints16(old(symbols)@) == symbols_of(toks@),
        old(dist_codes)@ == dists_of(toks@),
        old(bw).inv(),
        old(bw).bits() == extras_of(toks@),
    ensures
        ({
            let all = toks@ + lz::emitted(data@, i as int, skip as nat, len as nat, dist as nat);
            &&& huffman::ints16(final(symbols)@) == symbols_of(all)
            &&& final(dist_codes)@ == dists_of(all)
            &&& final(bw).bits() == extras_of(all)
        }),
        final(bw).inv(),
{
    let ghost mut now = toks@;
    let end: usize = data.len();
    let mut k: usize = 0;
    proof {
        assert(now =~= toks@ + lz::literals_at(data@, i as int, 0));
    }
    while k < skip
        invariant
            k <= skip,
            i + skip <= end == data@.len(),
            now == toks@ + lz::literals_at(data@, i as int, k as nat),
            huffman::ints16(symbols@) == symbols_of(now),
            dists_of(now) == dists_of(toks@),
            extras_of(now) == extras_of(toks@),
        decreases skip - k,
    {
        push_literal(symbols, data[i + k], Ghost(now));
        proof {
            lemma_push_token(now, Token::Literal(data@[i + k]));
            assert(extras_of(now) + Seq::<bool>::empty() =~= extras_of(now));
            now = now.push(Token::Literal(data@[i + k]));
            assert(now =~= toks@ + lz::literals_at(data@, i as int, (k + 1) as nat));
        }
        k = k + 1;
    }
    if len > 0 {
        push_repeat(symbols, dist_codes, bw, len, dist, Ghost(now));
        proof {
            now = now.push(Token::Repeat(len as nat, dist as nat));
        }
    }
    proof {
        assert(now =~= toks@ + lz::emitted(
            data@,
            i as int,
            skip as nat,
            len as nat,
            dist as nat,
        ));
    }
}

proof fn lemma_tokens_step(b: Block, c: Chains, i: int, toks: Seq<Token>)
    requires
        i < b.data.len(),
        b.step(c, i).2 > 0,
    ensures
        ({
            let (head, c2, used) = b.step(c, i);
            &&& toks + b.tokens_from(c, i).0 == (toks + head) + b.tokens_from(c2, i + used).0
            &&& b.tokens_from(c, i).1 == b.tokens_from(c2, i + used).1
        }),
{
    let (head, c2, used) = b.step(c, i);
    let rest = b.tokens_from(c2, i + used);
    assert(toks + (head + rest.0) =~= (toks + head) + rest.0);
}

/// Codes a block: finds its tokens, fills the buffers with their streams and
/// puts the parts together if that makes the block shorter. The tables go on
/// from block to block.
#[verifier::rlimit(40)]
pub fn deflate_style_encode_with_buffers<T: TableIndex>(
    data: &[u8],
    head: &mut [T],
    prev: &mut [T],
    buffers: &mut CompressBuffers,
    window_size: usize,
    version: u8,
    base: usize,
    hash_bits: usize,
) -> (r: Option<Vec<u8>>)
    requires
        window_size >= 1,
        1 <= hash_bits <= 32,
        base + data@.len() <= usize::MAX,
        base + data@.len() <= T::limit() + 1,
        old(head)@.len() >= bits::p2(hash_bits as nat),
        old(prev)@.len() >= window_size,
        lz::below(lz::positions(old(head)@), base as int),
        lz::below(lz::positions(old(prev)@), base as int),
    ensures
        ({
            let b = lz::block_of::<T>(data@, window_size as nat, base as nat, hash_bits as nat);
            let c = lz::chains(old(head)@, old(prev)@);
            &&& match (r, deflated(b, c, version)) {
                (None, None) => true,
                (Some(v), Some(want)) => v@ == want,
                _ => false,
            }
            &&& lz::chains(final(head)@, final(prev)@) == chains_after(b, c)
            &&& data@.len() < 128 ==> *final(buffers) == *old(buffers)
            &&& data@.len() >= 128 ==> final(buffers).hold(b.tokens_from(c, 0).0)
        }),
        final(head)@.len() == old(head)@.len(),
        final(prev)@.len() == old(prev)@.len(),
{
    let n: usize = data.len();
    if n < 128 {
        return None;
    }
    let search = Search { data, window: window_size, base, hash_bits };
    let ghost b = lz::block_of::<T>(data@, window_size as nat, base as nat, hash_bits as nat);
    let ghost c0 = lz::chains(head@, prev@);
    let ghost all = b.tokens_from(c0, 0);
    let mut syms: Vec<u16> = Vec::new();
    let mut dist_codes: Vec<u8> = Vec::new();
    let mut bw = BitWriter::new();
    let ghost mut toks: Seq<Token> = Seq::empty();
    proof {
        T::lemma_modulus();
        assert(search.block::<T>() == b);
        assert(b.fresh(c0, 0));
        assert(huffman::ints16(syms@) =~= symbols_of(toks));
        assert(toks + all.0 =~= all.0);
        lz::lemma_tokens(b, c0, 0);
    }
    let mut i: usize = 0;
    while i < n
        invariant
            i <= n == data@.len(),
            search.wf::<T>(),
            search.data@ == data@,
            search.block::<T>() == b,
            b.wf(),
            b.data == data@,
            b.fresh(lz::chains(head@, prev@), i as int),
            all.0 == toks + b.tokens_from(lz::chains(head@, prev@), i as int).0,
            all.1 == b.tokens_from(lz::chains(head@, prev@), i as int).1,
            huffman::ints16(syms@) == symbols_of(toks),
            dist_codes@ == dists_of(toks),
            bw.inv(),
            bw.bits() == extras_of(toks),
            head@.len() == old(head)@.len(),
            prev@.len() == old(prev)@.len(),
        decreases n - i,
    {
        let ghost c = lz::chains(head@, prev@);
        proof {
            lz::lemma_step(b, c, i as int);
            lemma_tokens_step(b, c, i as int, toks);
        }
        let (skip, len, dist) = search.step(head, prev, i);
        push_tokens(&mut syms, &mut dist_codes, &mut bw, data, i, skip, len, dist, Ghost(toks));
        proof {
            toks = toks + b.step(c, i as int).0;
        }
        i = i + (skip + len);
    }
    proof {
        assert(toks + b.tokens_from(lz::chains(head@, prev@), i as int).0 =~= toks);
        assert(all.0 == toks);
    }
    let extra_bits = bw.finish();
    proof {
        assert(bits::bits_of(Seq::<u8>::empty()) + extras_of(toks) =~= extras_of(toks));
        bits::lemma_pack_unique(extra_bits@, Seq::empty(), extras_of(toks));
        assert(Seq::<u8>::empty() + bits::pack(extras_of(toks)) =~= bits::pack(extras_of(toks)));
        assert forall|k: int| 0 <= k < syms@.len() implies #[trigger] syms@[k] < 286 by {
            assert(huffman::ints16(syms@)[k] == symbols_of(toks)[k]);
            assert(lz::fits_codes(toks[k]));
            lemma_symbol_range(toks[k]);
        }
    }
    let coded_syms = huffman::huff_encode_uint16(syms.as_slice(), version);
    let mut dist_comp: Vec<u8> = Vec::new();
    match huffman::huff_encode(dist_codes.as_slice()) {
        Some(comp) => {
            dist_comp = comp;
        },
        None => {
            dist_comp.extend_from_slice(dist_codes.as_slice());
            assert(dist_comp@ =~= dist_codes@);
        },
    }
    proof {
        reveal(packed);
        assert(dist_comp@ == dist_part(dists_of(toks)));
    }
    let num_syms: usize = syms.len();
    let num_dist: usize = dist_codes.len();
    let mut out: Option<Vec<u8>> = None;
    match coded_syms {
        None => {},
        Some(sym_comp) => {
            let total: u128 = 20 + sym_comp.len() as u128 + dist_comp.len() as u128
                + extra_bits.len() as u128;
            if total < n as u128 {
                let mut v: Vec<u8> = Vec::new();
                bytes::push_u32(&mut v, sym_comp.len() as u64);
                bytes::push_u32(&mut v, num_syms as u64);
                bytes::push_u32(&mut v, num_dist as u64);
                bytes::push_u32(&mut v, dist_comp.len() as u64);
                bytes::push_u32(&mut v, extra_bits.len() as u64);
                v.extend_from_slice(sym_comp.as_slice());
                v.extend_from_slice(dist_comp.as_slice());
                v.extend_from_slice(extra_bits.as_slice());
                proof {
                    assert(symbols_of(toks).len() == num_syms);
                    assert(v@ =~= framed(
                        sym_comp@,
                        num_syms as nat,
                        num_dist as nat,
                        dist_comp@,
                        extra_bits@,
                    ));
                }
                out = Some(v);
            }
        },
    }
    buffers.symbols = syms;
    buffers.dist_codes = dist_codes;
    buffers.extra_bits = extra_bits;
    out
}

/// Tables that know no position.
pub open spec fn no_chains(hash_size: nat, window: nat) -> Chains {
    Chains {
        head: Seq::new(hash_size, |k: int| None::<nat>),
        prev: Seq::new(window, |k: int| None::<nat>),
    }
}

/// The modulus of the tables: they keep 16 bits where the window is small and
/// `reach`, the size of what is searched, is too.
pub open spec fn table_modulus(window: nat, reach: nat) -> nat {
    if window <= 65536 && reach <= 65536 {
        0x1_0000
    } else {
        0x1_0000_0000
    }
}

/// A block of its own.
pub open spec fn lone_block(data: Seq<u8>, window: nat) -> Block {
    Block {
        data,
        modulus: table_modulus(window, data.len()),
        window,
        base: 0,
        hash_bits: lz::hash_params(window).0,
    }
}

/// The coded form of `data` as a block of its own.
pub open spec fn deflated_alone(data: Seq<u8>, window: nat, version: u8) -> Option<Seq<u8>> {
    deflated(lone_block(data, window), no_chains(lz::hash_params(window).1, window), version)
}

/// New tables of a type.
pub fn new_tables<T: TableIndex>(hash_size: usize, window_size: usize) -> (r: (Vec<T>, Vec<T>))
    ensures
        r.0@.len() == hash_size,
        r.1@.len() == window_size,
        lz::chains(r.0@, r.1@) == no_chains(hash_size as nat, window_size as nat),
        forall|bound: int| #[trigger] lz::below(lz::positions(r.0@), bound),
        forall|bound: int| #[trigger] lz::below(lz::positions(r.1@), bound),
{
    let head: Vec<T> = sentinels(hash_size);
    let prev: Vec<T> = sentinels(window_size);
    proof {
        assert(lz::positions(head@) =~= no_chains(hash_size as nat, window_size as nat).head);
        assert(lz::positions(prev@) =~= no_chains(hash_size as nat, window_size as nat).prev);
    }
    (head, prev)
}

fn sentinels<T: TableIndex>(n: usize) -> (v: Vec<T>)
    ensures
        v@.len() == n,
        forall|k: int| 0 <= k < n ==> (#[trigger] v@[k]).position() is None,
{
    let mut v: Vec<T> = Vec::new();
    let mut i: usize = 0;
    while i < n
        invariant
            i <= n,
            v@.len() == i,
            forall|k: int| 0 <= k < i ==> (#[trigger] v@[k]).position() is None,
        decreases n - i,
    {
        v.push(T::sentinel());
        i = i + 1;
    }
    v
}

/// Codes `data` as a block of its own.
pub fn deflate_style_encode_with_version(data: &[u8], window_size: usize, version: u8) -> (r: Option<
    Vec<u8>,
>)
    requires
        data@.len() >= 128 ==> window_size >= 1,
    ensures
        match (r, deflated_alone(data@, window_size as nat, version)) {
            (None, None) => true,
            (Some(v), Some(want)) => v@ == want,
            _ => false,
        },
{
    if data.len() < 128 {
        return None;
    }
    let mut buffers = CompressBuffers::new();
    let (hash_bits, hash_size) = lz::get_hash_params(window_size);
    if window_size <= 65536 && data.len() <= 65536 {
        let (mut head, mut prev) = new_tables::<u16>(hash_size, window_size);
        deflate_style_encode_with_buffers(
            data,
            head.as_mut_slice(),
            prev.as_mut_slice(),
            &mut buffers,
            window_size,
            version,
            0,
            hash_bits,
        )
    } else {
        let (mut head, mut prev) = new_tables::<u32>(hash_size, window_size);
        deflate_style_encode_with_buffers(
            data,
            head.as_mut_slice(),
            prev.as_mut_slice(),
            &mut buffers,
            window_size,
            version,
            0,
            hash_bits,
        )
    }
}

/// Codes `data` as a block of its own, with the window of 64 KiB.
pub fn deflate_style_encode(data: &[u8]) -> (r: Option<Vec<u8>>)
    ensures
        match (r, deflated_alone(data@, 65536, 2)) {
            (None, None) => true,
            (Some(v), Some(want)) => v@ == want,
            _ => false,
        },
{
    deflate_style_encode_with_version(data, 65536, 2)
}

/// Extra bits that are read one number at a time.
struct ExtraBits<'a> {
    reader: BitReader<'a>,
    left: u128,
}

impl<'a> ExtraBits<'a> {
    closed spec fn inv(&self) -> bool {
        &&& self.reader.inv()
        &&& self.left == self.reader.rest().len()
    }

    fn new(data: &'a [u8]) -> (r: Self)
        ensures
            r.inv(),
            r.reader.rest() == bits::bits_of(data@),
    {
        ExtraBits { reader: BitReader::new(data), left: 8 * data.len() as u128 }
    }

    /// Takes `n` bits, or nothing if fewer are left.
    fn take(&mut self, n: usize) -> (r: Option<u16>)
        requires
            old(self).inv(),
            n <= 15,
        ensures
            final(self).inv(),
            match (r, take_extra(old(self).reader.rest(), n as nat)) {
                (None, None) => true,
                (Some(x), Some((want, rest))) => x == want && final(self).reader.rest() == rest && x
                    < bits::p2(n as nat),
                _ => false,
            },
    {
        if self.left < n as u128 {
            return None;
        }
        self.reader.fill();
        proof {
            self.reader.lemma_ready(56);
            bits::lemma_p2_mono(n as nat, 15);
            bits::lemma_p2_small();
        }
        let x: u32 = self.reader.peek(n);
        self.reader.consume(n);
        self.left = self.left - n as u128;
        Some(x as u16)
    }
}

/// Appends `len` bytes, each as the one `dist` bytes before it.
fn copy_back(out: &mut Vec<u8>, dist: usize, len: usize)
    requires
        1 <= dist <= old(out)@.len(),
    ensures
        final(out)@ == lz::copied(old(out)@, dist as nat, len as nat),
{
    let ghost before = out@;
    let mut k: usize = 0;
    while k < len
        invariant
            k <= len,
            1 <= dist <= before.len(),
            out@ == lz::copied(before, dist as nat, k as nat),
        decreases len - k,
    {
        proof {
            lz::lemma_copied(before, dist as nat, k as nat);
        }
        let x: u8 = out[out.len() - dist];
        out.push(x);
        k = k + 1;
    }
}

/// Does what length code `l` says to the output.
fn apply_repeat(dists: &Vec<u8>, di: usize, extra: &mut ExtraBits, l: u16, out: &mut Vec<u8>) -> (r:
    Result<(), String>)
    requires
        old(extra).inv(),
        l <= 29,
    ensures
        final(extra).inv(),
        match (r, repeat_applied(
            dists@,
            di as nat,
            old(extra).reader.rest(),
            l as int,
            old(out)@,
        )) {
            (Ok(_), Ok((want, rest))) => final(out)@ == want && final(extra).reader.rest() == rest,
            (Err(e), Err(m)) => e@ == m,
            _ => false,
        },
{
    proof {
        reveal(repeat_applied);
    }
    if l > 28 {
        return Err(text::with_number("deflateStyle: invalid length code ", l as u64));
    }
    proof {
        symbols::lemma_len_ranges(l as int);
        bits::lemma_p2_small();
    }
    let n: u8 = symbols::len_extra_bits(l as u8);
    let x: u16 = match extra.take(n as usize) {
        None => {
            return Err("deflateStyle: extra bits underrun".to_string());
        },
        Some(x) => x,
    };
    if di >= dists.len() {
        return Err("deflateStyle: dist underrun".to_string());
    }
    let d: u8 = dists[di];
    if d >= 32 {
        return Err(text::with_number("deflateStyle: invalid dist code ", d as u64));
    }
    proof {
        symbols::lemma_dist_ranges(d as int);
        symbols::lemma_dist_top(d as int);
        symbols::lemma_len_top(l as int);
    }
    let n: u8 = symbols::dist_extra_bits(d);
    let y: u16 = match extra.take(n as usize) {
        None => {
            return Err("deflateStyle: extra bits underrun".to_string());
        },
        Some(y) => y,
    };
    let len: usize = symbols::code_to_len(l as u8, x) as usize;
    let dist: usize = symbols::code_to_dist(d, y) as usize + 1;
    if dist > out.len() {
        return Err(text::with_number("deflateStyle: bad dist ", dist as u64));
    }
    copy_back(out, dist, len);
    Ok(())
}

/// The distance codes of a coded block.
fn read_dists(part: &[u8], num_dist: usize) -> (r: Result<Vec<u8>, String>)
    ensures
        match (r, dists_read(part@, num_dist as nat)) {
            (Ok(v), Ok(want)) => v@ == want,
            (Err(e), Err(m)) => e@ == m,
            _ => false,
        },
{
    if num_dist == 0 {
        Ok(Vec::new())
    } else if part.len() == num_dist {
        let mut v: Vec<u8> = Vec::new();
        v.extend_from_slice(part);
        assert(v@ =~= part@);
        Ok(v)
    } else {
        huffman::huff_decode(part, num_dist)
    }
}

/// Decodes a block of `expected_len` bytes.
pub fn deflate_style_decode_with_version(data: &[u8], expected_len: usize, version: u8) -> (r: Result<
    Vec<u8>,
    String,
>)
    ensures
        match (r, inflated(data@, expected_len as nat, version)) {
            (Ok(v), Ok(want)) => v@ == want,
            (Err(e), Err(m)) => e@ == m,
            _ => false,
        },
{
    proof {
        reveal(inflated);
    }
    if data.len() < 20 {
        return Err("deflateStyle: too short".to_string());
    }
    let sym_size: usize = bytes::get_u32(data, 0) as usize;
    let num_syms: usize = bytes::get_u32(data, 4) as usize;
    let num_dist: usize = bytes::get_u32(data, 8) as usize;
    let dist_size: usize = bytes::get_u32(data, 12) as usize;
    let extra_size: usize = bytes::get_u32(data, 16) as usize;
    if sym_size > data.len() - 20 {
        return Err("deflateStyle: sym overrun".to_string());
    }
    let o1: usize = 20 + sym_size;
    let opened = huffman::build_huff16_tables_and_stream(&data[20..o1], version);
    match opened {
        Err(e) => Err(e),
        Ok((tables, stream)) => {
            let ghost parts = huffman::huff_opened(
                data@.subrange(20, o1 as int),
                286,
                version >= 2,
                "huffUint16"@,
            )->Ok_0;
            if dist_size > data.len() - o1 {
                return Err("deflateStyle: dist overrun".to_string());
            }
            let o2: usize = o1 + dist_size;
            let dists: Vec<u8> = match read_dists(&data[o1..o2], num_dist) {
                Err(e) => {
                    return Err(e);
                },
                Ok(v) => v,
            };
            if extra_size > data.len() - o2 {
                return Err("deflateStyle: extra bits overrun".to_string());
            }
            let o3: usize = o2 + extra_size;
            let out = inflate(
                &tables,
                stream,
                &dists,
                &data[o2..o3],
                num_syms,
                Ghost(parts.0),
                Ghost(parts.1),
            );
            match out {
                Err(e) => Err(e),
                Ok(v) => {
                    if v.len() != expected_len {
                        let mut m = text::with_number("deflateStyle: got ", v.len() as u64);
                        let tail = text::with_number(" want ", expected_len as u64);
                        m.append(tail.as_str());
                        proof {
                            assert(m@ =~= "deflateStyle: got "@ + text::dec(v@.len()) + " want "@
                                + text::dec(expected_len as nat));
                        }
                        Err(m)
                    } else {
                        Ok(v)
                    }
                },
            }
        },
    }
}

/// Decodes a block of `expected_len` bytes in the current version.
pub fn deflate_style_decode(data: &[u8], expected_len: usize) -> (r: Result<Vec<u8>, String>)
    ensures
        match (r, inflated(data@, expected_len as nat, 2)) {
            (Ok(v), Ok(want)) => v@ == want,
            (Err(e), Err(m)) => e@ == m,
            _ => false,
        },
{
    deflate_style_decode_with_version(data, expected_len, 2)
}

/// Decodes `num_syms` symbols from the three streams.
fn inflate(
    tables: &Tables,
    stream: &[u8],
    dists: &Vec<u8>,
    extra_part: &[u8],
    num_syms: usize,
    lens: Ghost<Seq<u8>>,
    max_bits: Ghost<nat>,
) -> (r: Result<Vec<u8>, String>)
    requires
        tables.wf(lens@, max_bits@),
        lens@.len() == 286,
    ensures
        match (r, inflated_from(
            lens@,
            max_bits@,
            dists@,
            bits::bits_of(stream@),
            bits::bits_of(extra_part@),
            0,
            num_syms as nat,
            Seq::empty(),
        )) {
            (Ok(v), Ok(want)) => v@ == want,
            (Err(e), Err(m)) => e@ == m,
            _ => false,
        },
{
    let mut reader = BitReader::new(stream);
    let mut extra = ExtraBits::new(extra_part);
    let mut out: Vec<u8> = Vec::new();
    let mut di: usize = 0;
    let mut k: usize = 0;
    let ghost want = inflated_from(
        lens@,
        max_bits@,
        dists@,
        bits::bits_of(stream@),
        bits::bits_of(extra_part@),
        0,
        num_syms as nat,
        Seq::empty(),
    );
    while k < num_syms
        invariant
            k <= num_syms,
            di <= k,
            reader.inv(),
            extra.inv(),
            tables.wf(lens@, max_bits@),
            lens@.len() == 286,
            want == inflated_from(
                lens@,
                max_bits@,
                dists@,
                bits::bits_of(stream@),
                bits::bits_of(extra_part@),
                0,
                num_syms as nat,
                Seq::empty(),
            ),
            want == inflated_from(
                lens@,
                max_bits@,
                dists@,
                reader.rest(),
                extra.reader.rest(),
                di as nat,
                (num_syms - k) as nat,
                out@,
            ),
        decreases num_syms - k,
    {
        reader.fill();
        proof {
            reader.lemma_ready(56);
        }
        match huffman::read_symbol(tables, &mut reader, lens, max_bits) {
            None => {
                return Err("huffUint16: invalid code".to_string());
            },
            Some(sym) => {
                if sym < 256 {
                    out.push(sym as u8);
                } else {
                    match apply_repeat(dists, di, &mut extra, sym - 256, &mut out) {
                        Err(e) => {
                            return Err(e);
                        },
                        Ok(_) => {},
                    }
                    di = di + 1;
                }
            },
        }
        k = k + 1;
    }
    Ok(out)
}

// ---- what a coded block holds ----

/// Where everything stands in a coded block: the size of the coded symbols, the number of symbols,
/// the number of distances, the size of the distances, the size of the extra bits, and then the
/// symbols, the distances and the extra bits. Distances are coded wherever they can be.
#[verifier::rlimit(50)]
#[verifier::spinoff_prover]
pub proof fn lemma_coded_layout(b: Block, c: Chains, version: u8)
    requires
        deflated(b, c, version) is Some,
        b.data.len() <= u32::MAX,
        b.tokens_from(c, 0).0.len() <= b.data.len(),
        dists_of(b.tokens_from(c, 0).0).len() <= b.data.len(),
    ensures
        ({
            let toks = b.tokens_from(c, 0).0;
            let out = deflated(b, c, version)->0;
            let syms = huffman::huff_encoded(
                Seq::new(toks.len(), |i: int| symbol_of(toks[i])),
                286,
                version >= 2,
            )->0;
            let codes = dists_of(toks);
            let dists = match huffman::huff_encoded(
                Seq::new(codes.len(), |i: int| codes[i] as int),
                256,
                false,
            ) {
                Some(d) => d,
                None => codes,
            };
            let extra = bits::pack(extras_of(toks));
            &&& bytes::u32_at(out, 0) == syms.len()
            &&& bytes::u32_at(out, 4) == toks.len()
            &&& bytes::u32_at(out, 8) == codes.len()
            &&& bytes::u32_at(out, 12) == dists.len()
            &&& bytes::u32_at(out, 16) == extra.len()
            &&& out.skip(20) == syms + dists + extra
        }),
{
    reveal(packed);
    let toks = b.tokens_from(c, 0).0;
    let out = deflated(b, c, version)->0;
    let codes = dists_of(toks);
    assert(symbols_of(toks) =~= Seq::new(toks.len(), |i: int| symbol_of(toks[i])));
    assert(huffman::ints8(codes) =~= Seq::new(codes.len(), |i: int| codes[i] as int));
    let syms = huffman::huff_encoded(symbols_of(toks), 286, version >= 2)->0;
    let dists = dist_part(codes);
    let extra = bits::pack(extras_of(toks));
    lemma_framed(syms, toks.len(), codes.len(), dists, extra);
    assert(out.skip(20) =~= syms + dists + extra);
}

} // verus!
