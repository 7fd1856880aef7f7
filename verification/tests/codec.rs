//! The codec: round trips, known values and faults.

use bounce::codec::blocked::{deflate_blocked_decode, deflate_blocked_encode_with_version};
use bounce::codec::blocked::{deflate_blocked_encode, deflate_blocked_encode_with_settings};
use bounce::codec::blocked::{num_threads, Settings};
use bounce::codec::cdc::{cdc_block_bounds, cdc_chunks, cdc_gear_table, cdc_params};
use bounce::codec::chunked::{cdc_compress, cdc_decompress};
use bounce::codec::deflate::{deflate_style_decode, deflate_style_encode};
use bounce::codec::deflate::{deflate_style_decode_with_version, deflate_style_encode_with_version};
use bounce::codec::deflate::CompressBuffers;
use bounce::codec::huffman::{huff_decode, huff_encode, huff_encode_uint16};
use bounce::codec::lengths::huff_assign_lengths;
use bounce::codec::lz::get_hash_params;
use bounce::codec::rle::{decode_code_lens, encode_code_lens};
use bounce::codec::shuffle::{byte_shuffle, byte_unshuffle};
use bounce::codec::smart::{method_name, smart_compress, smart_compress_with_version};
use bounce::codec::smart::{smart_decompress, smart_decompress_with_version, CompressMethod};
use bounce::codec::symbols::{build_len_lookup, code_to_dist, code_to_len};
use bounce::codec::symbols::{dist_extra_bits, dist_to_code, len_extra_bits, len_to_code};
use std::collections::HashSet;

/// The entropy of the bytes, in bits.
fn entropy(data: &[u8]) -> f64 {
    let mut freq = [0u32; 256];
    for &b in data {
        freq[b as usize] += 1;
    }
    let n = data.len() as f64;
    freq.iter()
        .filter(|&&f| f > 0)
        .map(|&f| {
            let p = f as f64 / n;
            -p * p.log2()
        })
        .sum()
}

fn is_dense(data: &[u8]) -> bool {
    entropy(data) > 7.5
}

/// What the entropy says of each chunk.
fn screens(data: &[u8]) -> Vec<bool> {
    cdc_chunks(data, None).iter().map(|&(s, n)| is_dense(&data[s..s + n])).collect()
}

/// The payloads of the blocks of a blocked stream.
fn blocked_payloads(blob: &[u8]) -> Vec<Vec<u8>> {
    let num = u32::from_le_bytes(blob[0..4].try_into().unwrap()) as usize;
    let mut pos = 4;
    let mut out = Vec::with_capacity(num);
    for _ in 0..num {
        let comp = u32::from_le_bytes(blob[pos..pos + 4].try_into().unwrap()) as usize;
        pos += 10;
        out.push(blob[pos..pos + comp].to_vec());
        pos += comp;
    }
    out
}

fn structured_floats(n: usize) -> Vec<u8> {
    let mut data = Vec::with_capacity(n * 4);
    for i in 0..n as u32 {
        let v = 0.02f32 + (i as f32 / 4000.0).sin() * 0.003 + (i as f32 / 130.0).cos() * 0.0005;
        data.extend_from_slice(&v.to_le_bytes());
    }
    data
}

fn noise(n: usize) -> Vec<u8> {
    let mut data = vec![0u8; n];
    let mut x: u64 = 0x1234_5678;
    for b in data.iter_mut() {
        x = x.wrapping_mul(6364136223846793005).wrapping_add(1442695040888963407);
        *b = (x >> 33) as u8;
    }
    data
}

#[test]
fn test_cdc_blocks_shift_dedup() {
    let data = structured_floats(160 * 1024);
    let a = deflate_blocked_encode_with_version(&data, 65536, 128 * 1024, 2).unwrap();

    let mut shifted = data.clone();
    shifted.splice(2048..2048, (0..100u32).map(|i| (i % 256) as u8));
    let b = deflate_blocked_encode_with_version(&shifted, 65536, 128 * 1024, 2).unwrap();

    let pa = blocked_payloads(&a);
    let sb: HashSet<Vec<u8>> = blocked_payloads(&b).into_iter().collect();
    let shared: usize = pa.iter().filter(|p| sb.contains(*p)).map(|p| p.len()).sum();
    let total: usize = pa.iter().map(|p| p.len()).sum();
    let pct = shared * 100 / total;
    assert!(pct >= 60, "shift deduped only {pct}% of blocked payload bytes");
}

#[test]
fn test_cdc_bounds_resync_after_shift() {
    let data = structured_floats(160 * 1024);
    let mut shifted = data.clone();
    shifted.splice(2048..2048, (0..100u32).map(|i| (i % 256) as u8));

    let cdc_a = cdc_block_bounds(&data, 128 * 1024);
    let cdc_set: HashSet<&[u8]> =
        cdc_block_bounds(&shifted, 128 * 1024).iter().map(|&(s, e)| &shifted[s..e]).collect();
    let cdc_shared: usize = cdc_a
        .iter()
        .map(|&(s, e)| &data[s..e])
        .filter(|c| cdc_set.contains(*c))
        .map(|c| c.len())
        .sum();
    let cdc_total: usize = cdc_a.iter().map(|&(s, e)| e - s).sum();
    assert!(
        cdc_shared * 100 / cdc_total >= 60,
        "cdc re-synced only {}%",
        cdc_shared * 100 / cdc_total
    );

    let fixed_set: HashSet<&[u8]> = shifted.chunks(128 * 1024).collect();
    let fixed_shared: usize =
        data.chunks(128 * 1024).filter(|c| fixed_set.contains(*c)).map(|c| c.len()).sum();
    assert!(fixed_shared * 100 / data.len() <= 20, "fixed boundaries unexpectedly re-synced");
}

#[test]
fn test_cdc_roundtrip() {
    let mut data = Vec::with_capacity(512 * 1024);
    for i in 0..(128 * 1024u32) {
        let v = 0.01f32 + (i as f32 / 50000.0).sin() * 0.001;
        data.extend_from_slice(&v.to_le_bytes());
    }
    let blob = cdc_compress(&data, 65536, 128 * 1024, 2, &screens(&data));
    assert_eq!(&blob[..4], b"BNCD");
    assert!(blob.len() < data.len(), "cdc did not compress structured data");
    let back = cdc_decompress(&blob).unwrap();
    assert_eq!(back, data);
}

/// The payloads of the chunks of a container.
fn cdc_payloads(blob: &[u8]) -> Vec<Vec<u8>> {
    let count = u32::from_le_bytes(blob[5..9].try_into().unwrap()) as usize;
    let mut pos = 9;
    let mut sizes = Vec::with_capacity(count);
    for _ in 0..count {
        sizes.push(u32::from_le_bytes(blob[pos + 4..pos + 8].try_into().unwrap()) as usize);
        pos += 10;
    }
    sizes
        .into_iter()
        .map(|s| {
            let p = blob[pos..pos + s].to_vec();
            pos += s;
            p
        })
        .collect()
}

#[test]
fn test_cdc_locality() {
    let mut data = noise(256 * 1024);
    let a = cdc_compress(&data, 65536, 128 * 1024, 2, &screens(&data));
    data[200 * 1024] ^= 0xFF;
    let b = cdc_compress(&data, 65536, 128 * 1024, 2, &screens(&data));

    let pa = cdc_payloads(&a);
    let shared: HashSet<Vec<u8>> = cdc_payloads(&b).into_iter().collect();
    let shared_bytes: usize = pa.iter().filter(|p| shared.contains(*p)).map(|p| p.len()).sum();
    let total: usize = pa.iter().map(|p| p.len()).sum();
    assert!(
        shared_bytes * 100 / total >= 80,
        "only {}% of payload bytes deduped after a 1-byte edit",
        shared_bytes * 100 / total
    );
}

fn roundtrip(data: &[u8]) {
    match smart_compress(data, is_dense(data)) {
        Some((comp, method)) => {
            let back = smart_decompress(&comp, method, data.len()).unwrap();
            assert_eq!(back, data, "roundtrip mismatch via {}", method_name(method));
        }
        None => {}
    }
}

#[test]
fn roundtrip_text() {
    let mut s = String::new();
    for i in 0..4000 {
        s.push_str(&format!("line {} the quick brown fox jumps over\n", i % 97));
    }
    roundtrip(s.as_bytes());
}

#[test]
fn roundtrip_repeated() {
    let data = vec![0xABu8; 100_000];
    roundtrip(&data);
}

#[test]
fn roundtrip_method_ids_stable() {
    for m in [
        CompressMethod::Plain,
        CompressMethod::Blocked,
        CompressMethod::Shuffle,
        CompressMethod::ShuffleBlk,
        CompressMethod::Shuffle2,
        CompressMethod::Shuffle2Blk,
    ] {
        assert_eq!(CompressMethod::from_u8(m.to_u8()), Some(m));
    }
    assert_eq!(CompressMethod::from_u8(200), None);
}

#[test]
fn roundtrip_f32_weights() {
    let weights: Vec<f32> = (0..10_000).map(|i| (i as f32) * 0.001).collect();
    let bytes: Vec<u8> = weights.iter().flat_map(|w| w.to_le_bytes()).collect();
    roundtrip(&bytes);
}

#[test]
fn test_entropy_screening_and_early_exit() {
    let mut rng_data = vec![0u8; 2000];
    for i in 0..2000 {
        rng_data[i] = ((i * 127 + 33) % 256) as u8;
    }
    let high = entropy(&rng_data);
    assert!(high > 7.5, "Expected high entropy, got {}", high);

    let compressible_data = vec![0u8; 10_000];
    let low = entropy(&compressible_data);
    assert!(low < 1.0, "Expected low entropy, got {}", low);

    roundtrip(&rng_data);
    roundtrip(&compressible_data);
}

#[test]
fn test_huff_assign_lengths_edge_cases() {
    let mut code_lens = [0u8; 286];
    let freq = [0usize; 286];
    huff_assign_lengths(15, 286, &freq, &mut code_lens);
    assert!(code_lens.iter().all(|&l| l == 0));

    let mut code_lens = [0u8; 286];
    let mut freq = [0usize; 286];
    freq[42] = 100;
    huff_assign_lengths(15, 286, &freq, &mut code_lens);
    assert_eq!(code_lens[42], 1);
    assert!(code_lens.iter().enumerate().all(|(idx, &l)| idx == 42 || l == 0));

    let mut code_lens = [0u8; 286];
    let mut freq = [0usize; 286];
    freq[0] = 1;
    freq[1] = 1;
    for i in 2..45 {
        freq[i] = freq[i - 1] + freq[i - 2];
    }
    huff_assign_lengths(15, 286, &freq, &mut code_lens);
    for (i, &l) in code_lens.iter().enumerate() {
        if freq[i] > 0 {
            assert!(l <= 15, "length {} for symbol {} exceeds 15", l, i);
            assert!(l > 0, "symbol {} with frequency {} has length 0", i, freq[i]);
        } else {
            assert_eq!(l, 0);
        }
    }
}

#[test]
fn test_cross_version_roundtrip() {
    let mut data = vec![0u8; 1000];
    for i in 0..data.len() {
        data[i] = (i % 256) as u8;
    }

    if let Some((comp1, method1)) =
        smart_compress_with_version(&data, 65536, 131072, 1, is_dense(&data))
    {
        let decomp1 = smart_decompress_with_version(&comp1, method1, data.len(), 1).unwrap();
        assert_eq!(decomp1, data);
    }

    if let Some((comp2, method2)) =
        smart_compress_with_version(&data, 65536, 131072, 2, is_dense(&data))
    {
        let decomp2 = smart_decompress_with_version(&comp2, method2, data.len(), 2).unwrap();
        assert_eq!(decomp2, data);
    }
}

#[test]
fn lengths_follow_the_frequencies() {
    let mut lens = [0u8; 4];
    huff_assign_lengths(15, 4, &[8, 4, 2, 1], &mut lens);
    assert_eq!(lens, [1, 2, 3, 3]);
    let mut even = [0u8; 4];
    huff_assign_lengths(15, 4, &[5, 5, 5, 5], &mut even);
    assert_eq!(even, [2, 2, 2, 2]);
}

#[test]
fn code_lengths_come_back() {
    let mut lens = vec![0u8; 286];
    lens[0] = 3;
    lens[1] = 3;
    lens[2] = 3;
    lens[3] = 3;
    lens[4] = 3;
    lens[200] = 7;
    let coded = encode_code_lens(&lens);
    assert!(coded.len() < 286);
    let mut back = vec![9u8; 286];
    decode_code_lens(&coded, &mut back).unwrap();
    assert_eq!(back, lens);
}

#[test]
fn code_lengths_with_faults() {
    let mut out = vec![0u8; 5];
    assert_eq!(
        decode_code_lens(&[0x80, 0], &mut out),
        Err("RLE decode: code 16 repeat with no previous value".to_string())
    );
    assert_eq!(
        decode_code_lens(&[0b10010_111, 0b1111_0000], &mut out),
        Err("RLE decode: repeat exceeds length".to_string())
    );
    assert_eq!(
        decode_code_lens(&[0b10001_111, 0], &mut out),
        Err("RLE decode: repeat exceeds length".to_string())
    );
    assert_eq!(
        decode_code_lens(&[0xFF, 0xFF], &mut out),
        Err("RLE decode: invalid symbol 31".to_string())
    );
}

#[test]
fn huffman_coding_comes_back() {
    let mut data = Vec::new();
    for i in 0..500usize {
        data.push(if i % 3 == 0 { 7u8 } else { (i % 5) as u8 });
    }
    let coded = huff_encode(&data).unwrap();
    assert!(coded.len() < data.len());
    assert_eq!(huff_decode(&coded, data.len()).unwrap(), data);
}

#[test]
fn huffman_decoding_with_faults() {
    assert_eq!(huff_decode(&[1], 3), Err("huff: data too short for header".to_string()));
    assert_eq!(huff_decode(&[0, 0], 3), Err("huff: invalid maxBits 0".to_string()));
    assert_eq!(huff_decode(&[16, 0], 3), Err("huff: invalid maxBits 16".to_string()));
    assert_eq!(huff_decode(&[5, 4, 0], 3), Err("huff: data too short for RLE header".to_string()));
    // One code of one bit, and a stream that starts with the other bit.
    let mut lens = [0u8; 256];
    lens[9] = 1;
    let header = encode_code_lens(&lens);
    let mut blob = vec![1u8, header.len() as u8];
    blob.extend_from_slice(&header);
    blob.push(0b0000_1000);
    assert_eq!(huff_decode(&blob, 4).unwrap(), vec![9u8; 4]);
    assert_eq!(huff_decode(&blob, 5), Err("huff: invalid code".to_string()));
    // Three codes of one bit do not fit.
    lens[10] = 1;
    lens[11] = 1;
    let header = encode_code_lens(&lens);
    let mut blob = vec![1u8, header.len() as u8];
    blob.extend_from_slice(&header);
    blob.push(0);
    assert_eq!(huff_decode(&blob, 4), Err("huff: oversubscribed code lengths".to_string()));
}

#[test]
fn deflate_comes_back() {
    let mut text = Vec::new();
    for i in 0..900u32 {
        text.extend_from_slice(format!("item {} of the list {}; ", i * i % 1009, i % 40).as_bytes());
    }
    let coded = deflate_style_encode(&text).unwrap();
    assert!(coded.len() < text.len());
    assert_eq!(deflate_style_decode(&coded, text.len()).unwrap(), text);
    let narrow = deflate_style_encode_with_version(&text, 4096, 1).unwrap();
    assert_eq!(deflate_style_decode_with_version(&narrow, text.len(), 1).unwrap(), text);
    assert!(deflate_style_encode(&text[..127]).is_none());
    // Too few tokens for a code of their own.
    assert!(deflate_style_encode(&vec![3u8; 5000]).is_none());
    assert!(deflate_style_encode(&noise(4000)).is_none());
}

/// A coded block put together from its parts.
fn block_of(syms: &[u16], num_dist: u32, dists: &[u8], extra: &[u8]) -> Vec<u8> {
    let part = huff_encode_uint16(syms, 2).unwrap();
    let mut out = Vec::new();
    for n in [part.len() as u32, syms.len() as u32, num_dist, dists.len() as u32, extra.len() as u32] {
        out.extend_from_slice(&n.to_le_bytes());
    }
    out.extend_from_slice(&part);
    out.extend_from_slice(dists);
    out.extend_from_slice(extra);
    out
}

fn with_tail(first: &[u16]) -> Vec<u16> {
    let mut syms = first.to_vec();
    syms.extend(std::iter::repeat(97u16).take(400));
    syms
}

#[test]
fn deflate_decoding_with_faults() {
    let plain = with_tail(&[98]);
    let good = block_of(&plain, 0, &[], &[]);
    assert_eq!(deflate_style_decode(&good, 401).unwrap()[..3], [98, 97, 97]);
    assert_eq!(
        deflate_style_decode(&good, 400),
        Err("deflateStyle: got 401 want 400".to_string())
    );
    assert_eq!(deflate_style_decode(&good[..19], 401), Err("deflateStyle: too short".to_string()));
    assert_eq!(deflate_style_decode(&good[..25], 401), Err("deflateStyle: sym overrun".to_string()));
    let short = block_of(&plain, 4, &[1, 2, 3, 4], &[]);
    assert_eq!(
        deflate_style_decode(&short[..short.len() - 1], 401),
        Err("deflateStyle: dist overrun".to_string())
    );
    let extra = block_of(&plain, 0, &[], &[1, 2]);
    assert_eq!(
        deflate_style_decode(&extra[..extra.len() - 1], 401),
        Err("deflateStyle: extra bits overrun".to_string())
    );
    let code = block_of(&with_tail(&[98, 285]), 0, &[], &[]);
    assert_eq!(
        deflate_style_decode(&code, 401),
        Err("deflateStyle: invalid length code 29".to_string())
    );
    let bits = block_of(&with_tail(&[98, 256 + 8]), 1, &[0], &[]);
    assert_eq!(
        deflate_style_decode(&bits, 401),
        Err("deflateStyle: extra bits underrun".to_string())
    );
    let none = block_of(&with_tail(&[98, 256]), 0, &[], &[]);
    assert_eq!(deflate_style_decode(&none, 404), Err("deflateStyle: dist underrun".to_string()));
    let high = block_of(&with_tail(&[98, 256]), 1, &[32], &[]);
    assert_eq!(
        deflate_style_decode(&high, 404),
        Err("deflateStyle: invalid dist code 32".to_string())
    );
    let far = block_of(&with_tail(&[98, 256]), 1, &[1], &[]);
    assert_eq!(deflate_style_decode(&far, 404), Err("deflateStyle: bad dist 2".to_string()));
    // A repeat of three bytes from one byte back.
    let near = block_of(&with_tail(&[98, 256]), 1, &[0], &[]);
    assert_eq!(deflate_style_decode(&near, 404).unwrap()[..5], [98, 98, 98, 98, 97]);
}

#[test]
fn blocked_streams_come_back() {
    let data = structured_floats(20_000);
    let blob = deflate_blocked_encode_with_version(&data, 32768, 8192, 2).unwrap();
    assert!(blocked_payloads(&blob).len() > 1);
    assert_eq!(deflate_blocked_decode(&blob, data.len()).unwrap(), data);
    let fixed = Settings { fixed_blocks: true, workers: 3 };
    let other = deflate_blocked_encode_with_settings(&data, 32768, 10_000, 2, fixed).unwrap();
    assert_eq!(u32::from_le_bytes(other[0..4].try_into().unwrap()), 8);
    assert_eq!(deflate_blocked_decode(&other, data.len()).unwrap(), data);
}

#[test]
fn blocked_decoding_with_faults() {
    assert_eq!(deflate_blocked_decode(&[1, 0], 5), Err("blocked: too short".to_string()));
    assert_eq!(
        deflate_blocked_decode(&[1, 0, 0, 0, 9], 5),
        Err("blocked: block 0 header overrun".to_string())
    );
    let mut one = vec![1u8, 0, 0, 0];
    one.extend_from_slice(&[3, 0, 0, 0, 3, 0, 0, 0, 0, 0, 7, 8, 9]);
    assert_eq!(deflate_blocked_decode(&one, 3).unwrap(), vec![7, 8, 9]);
    assert_eq!(
        deflate_blocked_decode(&one[..15], 3),
        Err("blocked: block 0 data overrun".to_string())
    );
    assert_eq!(deflate_blocked_decode(&one, 2), Err("blocked: output overrun".to_string()));
    assert_eq!(deflate_blocked_decode(&one, 4), Err("blocked: got 3 want 4".to_string()));
    one[8] = 2;
    assert_eq!(
        deflate_blocked_decode(&one, 2),
        Err("blocked: raw block size mismatch".to_string())
    );
}

#[test]
fn shuffling_comes_back() {
    assert_eq!(byte_shuffle(&[1, 10, 3, 20, 7, 40, 99], 2), vec![1, 2, 4, 10, 10, 20, 99]);
    assert_eq!(byte_unshuffle(&[1, 2, 4, 10, 10, 20, 99], 2), vec![1, 10, 3, 20, 7, 40, 99]);
    let data = noise(1003);
    assert_eq!(byte_unshuffle(&byte_shuffle(&data, 4), 4), data);
    assert_eq!(byte_shuffle(&data, 4).len(), data.len());
}

#[test]
fn chunks_tile_the_data() {
    let data = noise(200_000);
    let chunks = cdc_chunks(&data, None);
    assert_eq!(chunks[0].0, 0);
    assert_eq!(chunks.iter().map(|c| c.1).sum::<usize>(), data.len());
    assert!(chunks.windows(2).all(|w| w[0].0 + w[0].1 == w[1].0));
    assert_eq!(cdc_params(None), (4096, 16384, 65536));
    assert_eq!(cdc_params(Some(3)), (1024, 4096, 16384));
    assert_eq!(cdc_gear_table().len(), 256);
    assert_ne!(cdc_gear_table()[0], cdc_gear_table()[1]);
}

#[test]
fn equal_chunks_are_stored_alike() {
    let data = structured_floats(60_000);
    let mut edited = data.clone();
    let last = edited.len() - 1;
    edited[last] ^= 1;
    let a = cdc_payloads(&cdc_compress(&data, 65536, 131072, 2, &screens(&data)));
    let b = cdc_payloads(&cdc_compress(&edited, 65536, 131072, 2, &screens(&edited)));
    assert_eq!(a[0], b[0]);
}

#[test]
fn containers_with_faults() {
    assert_eq!(
        cdc_decompress(b"BNCX00000"),
        Err("not a BNCD (dedup-friendly) stream".to_string())
    );
    assert_eq!(cdc_decompress(b"BNCD\x02"), Err("not a BNCD (dedup-friendly) stream".to_string()));
    let mut blob = b"BNCD\x02\x01\x00\x00\x00".to_vec();
    assert_eq!(cdc_decompress(&blob), Err("truncated BNCD index".to_string()));
    blob.extend_from_slice(&[2, 0, 0, 0, 2, 0, 0, 0, 0, 1]);
    assert_eq!(cdc_decompress(&blob), Err("truncated BNCD payload".to_string()));
    blob.extend_from_slice(&[5, 6]);
    assert_eq!(cdc_decompress(&blob).unwrap(), vec![5, 6]);
    blob[17] = 77;
    blob[18] = 0;
    assert_eq!(cdc_decompress(&blob), Err("invalid method in BNCD stream".to_string()));
}

#[test]
fn names_and_numbers_of_methods() {
    assert_eq!(method_name(CompressMethod::Plain), "plain");
    assert_eq!(method_name(CompressMethod::Blocked), "blocked");
    assert_eq!(method_name(CompressMethod::Shuffle), "shuf+defl");
    assert_eq!(method_name(CompressMethod::ShuffleBlk), "shuf+blk");
    assert_eq!(method_name(CompressMethod::Shuffle2), "shuf2+defl");
    assert_eq!(method_name(CompressMethod::Shuffle2Blk), "shuf2+blk");
    assert_eq!(CompressMethod::Shuffle2Blk.to_u8(), 5);
}

#[test]
fn sizes_of_the_tables() {
    assert_eq!(get_hash_params(1024), (16, 65536));
    assert_eq!(get_hash_params(131072), (17, 131072));
    assert_eq!(get_hash_params(524288), (19, 524288));
    assert_eq!(get_hash_params(1 << 24), (20, 1048576));
    assert_eq!(num_threads(8, 3), 3);
    assert_eq!(num_threads(8, 100), 8);
    let buffers = CompressBuffers::new();
    assert!(buffers.symbols.is_empty());
}

#[test]
fn shuffled_floats_do_best_shuffled() {
    let data = structured_floats(8000);
    let (c, m) = smart_compress(&data, false).unwrap();
    assert!(m == CompressMethod::Shuffle || m == CompressMethod::Shuffle2);
    let (d, n) = smart_compress(&data, true).unwrap();
    assert_eq!(n, CompressMethod::Plain);
    assert!(c.len() < d.len());
    assert_eq!(smart_decompress(&c, m, data.len()).unwrap(), data);
    assert!(smart_compress(&data[..100], false).is_none());
}

#[test]
fn large_data_goes_by_a_sample() {
    let data = structured_floats(300_000);
    let (c, m) = smart_compress(&data, false).unwrap();
    assert!(m == CompressMethod::ShuffleBlk || m == CompressMethod::Shuffle2Blk);
    assert_eq!(smart_decompress(&c, m, data.len()).unwrap(), data);
}

#[test]
fn blocks_of_the_standard_size() {
    let data = structured_floats(40_000);
    let blob = deflate_blocked_encode(&data).unwrap();
    assert_eq!(deflate_blocked_decode(&blob, data.len()).unwrap(), data);
    assert!(deflate_blocked_encode(&data[..100]).is_none());
}

#[test]
fn lengths_and_distances_as_codes() {
    assert_eq!(len_to_code(3), (0, 0, 0));
    assert_eq!(len_to_code(12), (8, 1, 1));
    assert_eq!(len_to_code(258), (28, 0, 0));
    assert_eq!(code_to_len(8, 1), 12);
    assert_eq!(len_extra_bits(20), 4);
    assert_eq!(build_len_lookup()[12], 8);
    assert_eq!(dist_to_code(0), (0, 0, 0));
    assert_eq!(dist_to_code(5), (4, 1, 1));
    assert_eq!(code_to_dist(4, 1), 5);
    assert_eq!(dist_extra_bits(4), 1);
    for d in [0u16, 1, 77, 4095, 32768, 65535] {
        let (code, extra, bits) = dist_to_code(d);
        assert_eq!(code_to_dist(code, extra), d);
        assert_eq!(dist_extra_bits(code), bits);
    }
}

#[test]
fn chunks_keep_to_their_lengths() {
    let data = noise(1_500_000);
    for (kb, avg) in [(1usize, 1024usize), (16, 16384), (64, 65536)] {
        let chunks = cdc_chunks(&data, Some(kb));
        let mut at = 0;
        for (k, &(start, len)) in chunks.iter().enumerate() {
            assert_eq!(start, at);
            assert!(len <= 4 * avg);
            assert!(len > avg / 4 || k + 1 == chunks.len());
            at += len;
        }
        assert_eq!(at, data.len());
    }
}

#[test]
fn containers_cut_short_are_refused() {
    let data = structured_floats(5_000);
    let blob = cdc_compress(&data, 65536, 131072, 2, &screens(&data));
    assert_eq!(cdc_decompress(&blob).unwrap(), data);
    for n in (0..blob.len()).step_by(97).chain([8, 9, 18, 19, blob.len() - 1]) {
        assert!(cdc_decompress(&blob[..n]).is_err());
    }
}

#[test]
fn other_lengths_are_refused() {
    let data = structured_floats(2_000);
    let coded = deflate_style_encode_with_version(&data, 65536, 2).unwrap();
    let n = data.len();
    assert_eq!(deflate_style_decode_with_version(&coded, n, 2).unwrap(), data);
    for m in [0, 1, n - 1, n + 1, 2 * n] {
        assert_eq!(
            deflate_style_decode_with_version(&coded, m, 2),
            Err(format!("deflateStyle: got {} want {}", n, m))
        );
    }
}

#[test]
fn unshuffling_comes_back() {
    for n in [0usize, 1, 5, 1000, 1003] {
        let data = noise(n);
        for stride in [1, 2, 3, 4] {
            assert_eq!(byte_shuffle(&byte_unshuffle(&data, stride), stride), data);
        }
    }
}
