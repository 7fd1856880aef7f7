//! Streams, lanes and the reader.

use bounce::codec::blocked::{deflate_blocked_decode_with_version, deflate_blocked_encode_with_version};
use bounce::codec::lanes::LaneSplitter;
use bounce::codec::merge::LaneJoiner;
use bounce::codec::reader::{read_payload, DecompressReader, Want};
use bounce::codec::shuffled::compress_stream_shuffled_blocked;
use bounce::codec::smart::{smart_compress_with_version, CompressMethod};
use bounce::codec::stream::{compress_stream_blocked, encode_alone, open_block, stored_len, Totals};
use bounce::crc::{crc32, crc32_update};

fn sample(n: usize) -> Vec<u8> {
    (0..n).map(|i| ((i / 7) % 31 + (i % 4) * 50) as u8).collect()
}

#[test]
fn crc32_known_vector() {
    assert_eq!(crc32(b"123456789"), 0xCBF4_3926);
}

#[test]
fn crc32_goes_on() {
    assert_eq!(crc32(b""), 0);
    assert_eq!(crc32(b"a"), 0xE8B7_BE43);
    let data = sample(1000);
    for cut in [0, 1, 7, 8, 9, 500, 1000] {
        assert_eq!(crc32_update(crc32(&data[..cut]), &data[cut..]), crc32(&data));
    }
    assert_eq!(crc32_update(0, &data), crc32(&data));
}

#[test]
fn blocks_are_coded_on_their_own() {
    let data = sample(3000);
    let record = encode_alone(&data, 65536, 1, 3);
    assert_eq!(record[9], 3);
    assert_eq!(record[8], 1);
    assert_eq!(stored_len(&record[..10]) as usize, record.len() - 10);
    assert_eq!(open_block(&record[..10], record[10..].to_vec(), 1).unwrap(), data);
    let raw = encode_alone(b"short", 65536, 1, 0);
    assert_eq!(raw, vec![5, 0, 0, 0, 5, 0, 0, 0, 0, 0, b's', b'h', b'o', b'r', b't']);
}

#[test]
fn totals_of_a_stream() {
    let data = sample(2500);
    let mut t = Totals::new();
    let a = t.add_block(&data[..2000], 65536, 1);
    let b = t.add_block(&data[2000..], 65536, 1);
    assert_eq!((t.crc, t.orig_size, t.num_blocks), (crc32(&data), 2500, 2));
    let (payload, totals) = compress_stream_blocked(&data, 65536, 2000, 1);
    assert_eq!(payload, [vec![2, 0, 0, 0], a, b].concat());
    assert_eq!(totals.num_blocks, 2);
}

#[test]
fn streams_of_blocks_come_back() {
    let data = sample(10_001);
    let (payload, _) = compress_stream_blocked(&data, 65536, 1000, 1);
    assert!(payload.len() < data.len());
    let mut longer = payload.clone();
    longer.extend_from_slice(b"what follows");
    let n = payload.len() as u64;
    let back = read_payload(CompressMethod::Blocked, n, 10_001, false, 1, &longer).unwrap();
    assert_eq!(back, data);
    assert_eq!(deflate_blocked_decode_with_version(&payload, 10_001, 1).unwrap(), data);
}

#[test]
fn shuffled_streams_come_back() {
    for n in [0usize, 1, 3, 4, 4000, 4001, 4002, 4003, 12_345] {
        let data = sample(n);
        for (stride, m) in [(4, CompressMethod::ShuffleBlk), (2, CompressMethod::Shuffle2Blk)] {
            for (block, part) in [(500, 6000), (1000, 777), (1, 64)] {
                if block == 1 && n > 100 {
                    continue;
                }
                let (payload, crc, _) =
                    compress_stream_shuffled_blocked(&data, stride, 65536, block, 1, part);
                assert_eq!(crc, crc32(&data));
                let size = payload.len() as u64;
                let back = read_payload(m, size, n as u64, false, 1, &payload).unwrap();
                assert_eq!(back, data);
            }
        }
    }
}

#[test]
fn shuffled_streams_of_version_three() {
    let data = sample(8000);
    let (payload, _, count) = compress_stream_shuffled_blocked(&data, 4, 65536, 600, 3, 2400);
    assert_eq!(count, 16);
    let back =
        read_payload(CompressMethod::ShuffleBlk, payload.len() as u64, 8000, false, 3, &payload);
    assert_eq!(back.unwrap(), data);
}

#[test]
fn lanes_are_dealt_out() {
    let mut lanes = LaneSplitter::new(9, 2, 2, 1);
    assert_eq!(lanes.split(&[1, 10, 3]), vec![(0, vec![1, 2])]);
    assert_eq!(lanes.split(&[20, 7, 40, 9, 41, 200]), vec![
        (0, vec![4, 2]),
        (1, vec![10, 10]),
        (1, vec![20, 1]),
    ]);
    assert_eq!(lanes.finish(), vec![(1, vec![200])]);
}

#[test]
fn lanes_are_joined() {
    let mut lanes = LaneJoiner::new(2, 9, 1, 3);
    assert!(lanes.hungry());
    lanes.feed(0, vec![1, 2, 4, 2]);
    assert!(lanes.hungry());
    lanes.feed(7, vec![10, 10, 20, 1, 200]);
    assert!(!lanes.hungry());
    assert_eq!(lanes.next_piece().unwrap(), vec![1, 10, 3, 20, 7, 40, 9, 41]);
    assert_eq!(lanes.next_piece().unwrap(), vec![200]);
    assert!(lanes.done());
}

#[test]
fn lanes_with_faults() {
    let mut empty = LaneJoiner::new(2, 4, 1, 0);
    assert!(!empty.hungry());
    assert!(empty.next_piece().is_none());
    let mut uneven = LaneJoiner::new(2, 4, 1, 2);
    uneven.feed(0, vec![1, 2]);
    uneven.feed(1, vec![1]);
    assert!(uneven.next_piece().is_none());
}

#[test]
fn payloads_of_every_method_come_back() {
    let data = sample(5000);
    let (c, m) = smart_compress_with_version(&data, 65536, 131072, 1, false).unwrap();
    assert_eq!(read_payload(m, c.len() as u64, 5000, false, 1, &c).unwrap(), data);
    assert_eq!(
        read_payload(CompressMethod::Plain, 10, 10, true, 1, &data).unwrap(),
        data[..10].to_vec()
    );
    assert_eq!(
        read_payload(CompressMethod::Plain, 9000, 9000, true, 1, &data).unwrap(),
        data
    );
}

#[test]
fn payloads_with_faults() {
    let data = sample(5000);
    let (payload, _) = compress_stream_blocked(&data, 65536, 1000, 1);
    let short = payload.len() - 1;
    assert_eq!(
        read_payload(CompressMethod::Blocked, short as u64, 5000, false, 1, &payload[..short]),
        Err("failed to fill whole buffer".to_string())
    );
    assert_eq!(
        read_payload(CompressMethod::Plain, 100, 5000, false, 1, &payload[..50]),
        Err("failed to fill whole buffer".to_string())
    );
    assert_eq!(
        read_payload(CompressMethod::ShuffleBlk, 4, 5000, false, 1, &[0, 0, 0, 0]),
        Err("shuffled stream: lane data missing".to_string())
    );
    let mut broken = payload.clone();
    broken[14] = 0xFF;
    broken[15] = 0xFF;
    broken[16] = 0xFF;
    assert_eq!(
        read_payload(CompressMethod::Blocked, 9, 5000, false, 1, &broken),
        Err("deflateStyle: sym overrun".to_string())
    );
}

#[test]
fn an_empty_block_ends_a_stream() {
    let mut payload = vec![2u8, 0, 0, 0];
    payload.extend_from_slice(&[0, 0, 0, 0, 0, 0, 0, 0, 0, 0]);
    payload.extend_from_slice(&[1, 0, 0, 0, 1, 0, 0, 0, 0, 0, 5]);
    let back = read_payload(CompressMethod::Blocked, 25, 1, false, 1, &payload).unwrap();
    assert!(back.is_empty());
}

#[test]
fn the_reader_goes_step_by_step() {
    let payload = [1u8, 0, 0, 0, 3, 0, 0, 0, 3, 0, 0, 0, 0, 0, 7, 8, 9];
    let mut r = DecompressReader::new(CompressMethod::Blocked, 17, 3, false, 1);
    assert!(matches!(r.want(), Want::Exactly(4)));
    r.feed(payload[..4].to_vec()).unwrap();
    assert!(matches!(r.want(), Want::Exactly(10)));
    r.feed(payload[4..14].to_vec()).unwrap();
    assert!(matches!(r.want(), Want::Exactly(3)));
    r.feed(payload[14..].to_vec()).unwrap();
    assert!(matches!(r.want(), Want::Take));
    assert_eq!(r.pending_len(), 3);
    assert_eq!(r.take(2), vec![7, 8]);
    assert_eq!(r.take(2), vec![9]);
    assert!(matches!(r.want(), Want::Nothing));
}

#[test]
fn blocks_cut_by_content_come_back_through_the_reader() {
    let data = sample(200_000);
    let blob = deflate_blocked_encode_with_version(&data, 65536, 8192, 2).unwrap();
    let n = blob.len() as u64;
    let longer = [blob, b"what follows".to_vec()].concat();
    let back = read_payload(CompressMethod::Blocked, n, 200_000, false, 2, &longer).unwrap();
    assert_eq!(back, data);
}
