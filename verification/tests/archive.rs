//! Archives in memory, paths and the command line.

use bounce::archive::container::{extract, extract_to_writer, list_entries, open_archive};
use bounce::archive::container::{wanted, wanted_size, write_front};
use bounce::archive::create::{create, required_space, ArchiveBuilder, InputMember};
use bounce::archive::directory::{pack_cd_crc, read_cd_index, unpack_cd_crc};
use bounce::archive::entry::{from_bits, push_header, read_entry_header, to_bits, EntryMeta};
use bounce::archive::member::{check_member, choose_stream_method, extract_entry_payload};
use bounce::archive::member::{level_block, level_window, pays_off, sample_range, store, Press};
use bounce::archive::member::LARGE;
use bounce::archive::walk::Walk;
use bounce::codec::blocked::Settings;
use bounce::codec::smart::CompressMethod;
use bounce::codec::shuffled::compress_stream_shuffled_blocked;
use bounce::crc::crc32;
use bounce::options::{check_usage, parse_command, parse_options, Command};
use bounce::paths::{check_target, normalize_rel, safe_join};
use bounce::space::{has_room, parse_free_space};
use bounce::text::{decimal, format_duration};

fn press() -> Press {
    Press::for_level(1, Settings { fixed_blocks: false, workers: 1 }, 4)
}

fn file(path: &str, data: &[u8]) -> InputMember {
    InputMember {
        path: path.to_string(),
        mode: 0o100644,
        mtime: 1_700_000_000,
        data: data.to_vec(),
        skip_shuffle: false,
    }
}

fn strings(v: &[&str]) -> Vec<String> {
    v.iter().map(|s| s.to_string()).collect()
}

#[test]
fn create_list_test_extract_roundtrip() {
    let text: String = (0..2000)
        .map(|i| format!("compressible line {}\n", i % 50))
        .collect();
    let files = vec![
        file("src/a.txt", text.as_bytes()),
        file("src/empty", b""),
        file("src/nested/b.bin", &vec![7u8; 40_000]),
    ];
    let (archive, stats) = create(&files, press()).unwrap();
    assert_eq!(stats.files, 3);

    let entries = list_entries(&archive).unwrap();
    assert_eq!(entries.len(), 3);
    assert_eq!(entries[0].path, "src/a.txt");
    assert_eq!(entries[1].path, "src/empty");
    assert_eq!(entries[2].path, "src/nested/b.bin");

    let verified = bounce::archive::container::test(&archive).unwrap();
    assert_eq!(verified, 3);

    let sel = extract(&archive, "restored_sel", &strings(&["src/a.txt"])).unwrap();
    assert_eq!(sel.len(), 1);
    assert_eq!(sel[0].target, "restored_sel/src/a.txt");
    assert_eq!(sel[0].data, text.as_bytes());

    let all = extract(&archive, "restored", &[]).unwrap();
    assert_eq!(all.len(), 3);
    assert_eq!(all[0].data, text.as_bytes());
    assert_eq!(all[2].data, vec![7u8; 40_000]);

    let len = archive.len();
    let cd_offset = u64::from_le_bytes(archive[len - 8..].try_into().unwrap()) as usize;
    let truncated = &archive[..cd_offset];

    let entries_fallback = list_entries(truncated).unwrap();
    assert_eq!(entries_fallback.len(), 3);
    assert_eq!(entries_fallback[0].path, "src/a.txt");

    let fallback =
        extract(truncated, "restored_fallback", &strings(&["src/nested/b.bin"])).unwrap();
    assert_eq!(fallback.len(), 1);
    assert_eq!(fallback[0].target, "restored_fallback/src/nested/b.bin");
    assert_eq!(fallback[0].data, vec![7u8; 40_000]);
}

#[test]
fn rejects_path_traversal() {
    let dest = "/tmp/whatever";
    assert!(safe_join(dest, "../etc/passwd").is_err());
    assert!(safe_join(dest, "/etc/passwd").is_err());
    assert!(safe_join(dest, "ok/sub/file.txt").is_ok());
}

#[test]
fn paths_under_a_directory() {
    assert_eq!(safe_join("out", "a/b").unwrap(), "out/a/b");
    assert_eq!(safe_join("out/", "a/b").unwrap(), "out/a/b");
    assert_eq!(safe_join("", "a").unwrap(), "a");
    assert_eq!(safe_join("out", "a..b/..c").unwrap(), "out/a..b/..c");
    assert_eq!(
        safe_join("out", "a/../b"),
        Err("refusing unsafe path in archive: a/../b".to_string())
    );
    assert_eq!(
        safe_join("out", "a/.."),
        Err("refusing unsafe path in archive: a/..".to_string())
    );
    assert_eq!(
        safe_join("out", "/a"),
        Err("refusing absolute path in archive: /a".to_string())
    );
}

#[test]
fn normalized_paths_are_safe() {
    assert_eq!(normalize_rel("./a//b/../c/."), "a/b/c");
    assert_eq!(normalize_rel("/abs/x"), "abs/x");
    assert_eq!(normalize_rel("../.."), "");
    assert_eq!(normalize_rel("d\u{e9}j\u{e0}/vu"), "d\u{e9}j\u{e0}/vu");
    for p in ["./a//b/../c/.", "/abs/x", "../..", "a/b"] {
        assert!(safe_join("out", &normalize_rel(p)).is_ok());
    }
}

fn meta(path: &str) -> EntryMeta {
    EntryMeta {
        path: path.to_string(),
        mode: 0o755,
        mtime: -5,
        orig_size: 11,
        stored_size: 7,
        method: 2,
        stored_raw: true,
        crc: 0xDEAD_BEEF,
        offset: 42,
    }
}

#[test]
fn headers_come_back() {
    let m = meta("dir/f\u{fc}r.txt");
    let mut head = Vec::new();
    push_header(&mut head, &m);
    assert_eq!(head.len(), 36 + m.path.len());
    head.extend_from_slice(b"payload");
    let back = read_entry_header(&head, 42).unwrap();
    assert_eq!(back.path, m.path);
    assert_eq!((back.mode, back.mtime, back.orig_size), (0o755, -5, 11));
    assert_eq!((back.stored_size, back.method, back.stored_raw), (7, 2, true));
    assert_eq!((back.crc, back.offset), (0xDEAD_BEEF, 42));
    assert!(read_entry_header(&head[..45], 42).is_none());
    assert!(read_entry_header(&head[..1], 42).is_none());
}

#[test]
fn the_bytes_of_a_header() {
    let mut head = Vec::new();
    push_header(&mut head, &meta("ab"));
    let want = [
        2, 0, b'a', b'b', 0xED, 1, 0, 0, 0xFB, 0xFF, 0xFF, 0xFF, 0xFF, 0xFF, 0xFF, 0xFF, 11, 0, 0,
        0, 0, 0, 0, 0, 7, 0, 0, 0, 0, 0, 0, 0, 2, 1, 0xEF, 0xBE, 0xAD, 0xDE,
    ];
    assert_eq!(head, want);
}

#[test]
fn paths_that_are_not_text() {
    let mut head = Vec::new();
    push_header(&mut head, &meta("ab"));
    head[2] = 0xFF;
    assert_eq!(read_entry_header(&head, 0).unwrap().path, "\u{fffd}b");
}

#[test]
fn an_index_whose_path_is_not_text() {
    let (mut archive, _) = create(&[file("ab", b"data")], press()).unwrap();
    let len = archive.len();
    let start = u64::from_le_bytes(archive[len - 8..].try_into().unwrap()) as usize;
    assert_eq!(read_cd_index(&archive, 1, 1).unwrap().len(), 1);
    archive[start + 6] = 0xFF;
    assert!(read_cd_index(&archive, 1, 1).is_none());
    assert_eq!(list_entries(&archive).unwrap()[0].path, "ab");
}

#[test]
fn an_index_that_is_of_no_use() {
    let (archive, _) = create(&[file("a", b"x"), file("b", b"y")], press()).unwrap();
    assert_eq!(read_cd_index(&archive, 2, 1).unwrap()[1].path, "b");
    assert!(read_cd_index(&archive, 3, 1).is_none());
    assert!(read_cd_index(&archive[..16], 2, 1).is_none());
    let len = archive.len();
    let mut bad = archive.clone();
    bad[len - 8] = 3;
    bad[len - 7] = 0;
    assert!(read_cd_index(&bad, 2, 1).is_none());
    let mut more = archive.clone();
    more.insert(len - 8, 0);
    assert!(read_cd_index(&more, 2, 1).is_none());
}

#[test]
fn signed_numbers_as_bits() {
    for n in [0i64, 1, -1, i64::MAX, i64::MIN, -5] {
        assert_eq!(to_bits(n), n as u64);
        assert_eq!(from_bits(n as u64), n);
    }
}

#[test]
fn packed_numbers() {
    assert_eq!(pack_cd_crc(0x1234_5678, 5, true, 0o100644), 0x81A4_0105_1234_5678);
    assert_eq!(unpack_cd_crc(0x81A4_0105_1234_5678), (0x1234_5678, 5, true, 0o100644));
    assert_eq!(unpack_cd_crc(pack_cd_crc(1, 0, false, 0x7_0001)), (1, 0, false, 1));
}

#[test]
fn the_front_of_an_archive() {
    assert_eq!(write_front(258), vec![b'B', b'N', b'C', b'1', 1, 2, 1, 0, 0]);
    assert_eq!(open_archive(&write_front(258)).unwrap(), (258, 1));
    assert_eq!(
        open_archive(b"BNC2\x01\0\0\0\0"),
        Err("not a bounce archive (bad magic)".to_string())
    );
    assert_eq!(open_archive(b"BN"), Err("not a bounce archive (bad magic)".to_string()));
    assert_eq!(open_archive(b"BNC1"), Err("failed to fill whole buffer".to_string()));
    assert_eq!(
        open_archive(b"BNC1\x02\0\0\0\0"),
        Err("unsupported archive version 2".to_string())
    );
    assert_eq!(open_archive(b"BNC1\x01\0\0"), Err("failed to fill whole buffer".to_string()));
}

fn one_member(data: &[u8]) -> Vec<u8> {
    create(&[file("m", data)], press()).unwrap().0
}

#[test]
fn members_with_faults() {
    let good = one_member(b"hello");
    assert_eq!(bounce::archive::container::test(&good).unwrap(), 1);
    let mut size = good.clone();
    size[9 + 15] = 6;
    assert_eq!(bounce::archive::container::test(&size), Err("m: size mismatch (5 != 6)".to_string()));
    let mut sum = good.clone();
    sum[9 + 33] ^= 1;
    assert_eq!(bounce::archive::container::test(&sum), Err("m: CRC mismatch (corrupt)".to_string()));
    assert_eq!(
        extract_to_writer(&sum, &[]),
        Err("m: CRC mismatch (corrupt), aborting".to_string())
    );
    let mut method = good.clone();
    method[9 + 31] = 9;
    assert_eq!(bounce::archive::container::test(&method), Ok(1));
    method[9 + 32] = 0;
    assert_eq!(bounce::archive::container::test(&method), Err("unknown codec method 9".to_string()));
    assert_eq!(bounce::archive::container::test(&good[..48]), Err("failed to fill whole buffer".to_string()));
    assert_eq!(bounce::archive::container::test(&good[..20]), Err("failed to fill whole buffer".to_string()));
    assert_eq!(
        list_entries(&good[..20]).map(|v| v.len()),
        Err("failed to fill whole buffer".to_string())
    );
    let mut back = good[..51].to_vec();
    for k in 0..8 {
        back[9 + 23 + k] = if k == 7 { 0x80 } else { 0 };
    }
    assert_eq!(
        list_entries(&back).map(|v| v.len()),
        Err("invalid seek to a negative or overflowing position".to_string())
    );
    assert_eq!(
        extract_to_writer(&back, &strings(&["other"])),
        Err("invalid seek to a negative or overflowing position".to_string())
    );
}

#[test]
fn what_passes_the_test_is_extracted() {
    let files = [file("a", b"first"), file("b", &[7u8; 5000])];
    let (archive, _) = create(&files, press()).unwrap();
    for i in 0..archive.len() {
        let mut changed = archive.clone();
        changed[i] ^= 4;
        let tested = bounce::archive::container::test(&changed);
        let taken = extract_to_writer(&changed, &[]);
        assert_eq!(tested.is_ok(), taken.is_ok());
        if let (Ok(n), Ok((_, m))) = (tested, taken) {
            assert_eq!(n, m);
        }
    }
}

#[test]
fn unsafe_members_are_refused() {
    let (archive, _) = create(&[file("../up", b"x")], press()).unwrap();
    assert_eq!(
        extract(&archive, "out", &[]).map(|v| v.len()),
        Err("refusing unsafe path in archive: ../up".to_string())
    );
    assert_eq!(extract_to_writer(&archive, &[]).unwrap(), (b"x".to_vec(), 1));
}

#[test]
fn nothing_to_archive() {
    assert_eq!(
        create(&[], press()).map(|r| r.0),
        Err("no regular files to archive".to_string())
    );
}

#[test]
fn members_one_after_the_other() {
    let files = [file("a", b"first"), file("b", b""), file("c", b"last")];
    let (archive, stats) = create(&files, press()).unwrap();
    assert_eq!((stats.files, stats.orig_total, stats.stored_total), (3, 9, 9));
    assert_eq!(extract_to_writer(&archive, &[]).unwrap(), (b"firstlast".to_vec(), 3));
    assert_eq!(
        extract_to_writer(&archive, &strings(&["c", "a"])).unwrap(),
        (b"firstlast".to_vec(), 2)
    );
    assert_eq!(extract_to_writer(&archive, &strings(&["x"])).unwrap(), (vec![], 0));
    let entries = list_entries(&archive).unwrap();
    assert_eq!(wanted_size(&entries, &[]), 9);
    assert_eq!(wanted_size(&entries, &strings(&["c"])), 4);
    assert!(wanted(&[], "anything"));
    assert!(!wanted(&strings(&["c"]), "a"));
}

#[test]
fn what_the_index_keeps() {
    let (archive, _) = create(&[file("a", b"first")], press()).unwrap();
    let listed = list_entries(&archive).unwrap();
    assert_eq!((listed[0].mode, listed[0].mtime, listed[0].offset), (0o100644, 0, 9));
    let len = archive.len();
    let start = u64::from_le_bytes(archive[len - 8..].try_into().unwrap()) as usize;
    let scanned = list_entries(&archive[..start]).unwrap();
    assert_eq!(scanned[0].mtime, 1_700_000_000);
    assert_eq!(scanned[0].crc, crc32(b"first"));
}

#[test]
fn members_are_put_together_step_by_step() {
    let mut x: u64 = 1;
    let data: Vec<u8> = (0..5000)
        .map(|_| {
            x = x.wrapping_mul(6364136223846793005).wrapping_add(1442695040888963407);
            (x >> 60) as u8
        })
        .collect();
    let stored = store(&data, press(), false);
    assert!(!stored.stored_raw);
    let mut b = ArchiveBuilder::new();
    let mut out = write_front(1);
    out.extend_from_slice(&b.add("m", 0o100644, 1_700_000_000, 5000, &stored));
    out.extend_from_slice(&stored.payload);
    assert_eq!(b.offset, out.len() as u64);
    out.extend_from_slice(&b.directory());
    assert_eq!(out, one_member(&data));
    let m = &list_entries(&out).unwrap()[0];
    let (back, crc) = extract_entry_payload(&stored.payload, m, 1).unwrap();
    assert_eq!((back, crc), (data.clone(), crc32(&data)));
    assert!(check_member(m, 5000, crc, "").is_ok());
}

#[test]
fn streamed_members_are_completed() {
    let mut b = ArchiveBuilder::new();
    let mut head = b.reserve("dir/m", 0o644, 77);
    let (place, patch) = b.add_streamed("dir/m", 0o644, 77, 1000, 300, 3, 0xABCD);
    assert_eq!(place, 9 + 14 + 5);
    let at = (place - 9) as usize;
    head.splice(at..at + patch.len(), patch.iter().cloned());
    let m = read_entry_header(&head, 9).unwrap();
    assert_eq!((m.orig_size, m.stored_size, m.method), (1000, 300, 3));
    assert_eq!((m.mode, m.mtime, m.stored_raw, m.crc), (0o644, 77, false, 0xABCD));
    assert_eq!(b.offset, 9 + 41 + 300);
    assert_eq!((b.stats.files, b.stats.orig_total, b.stats.stored_total), (1, 1000, 300));
}

#[test]
fn sizes_of_levels() {
    assert_eq!((level_window(1), level_block(1)), (65536, 262144));
    assert_eq!((level_window(2), level_block(2)), (131072, 262144));
    assert_eq!(level_window(10), 32 * 1024 * 1024);
    assert_eq!(level_window(200), usize::MAX / 2);
    let far = Press::for_level(60, Settings::standard(), 4);
    assert!(far.suits(127) && !far.suits(128));
    assert!(press().suits(u64::MAX));
    let (archive, _) = create(&[file("tiny", b"stays as it is")], far).unwrap();
    assert_eq!(extract_to_writer(&archive, &[]).unwrap().0, b"stays as it is");
    assert_eq!(required_space(1000), 1000 + 10 + 1048576);
    assert_eq!(sample_range(10), (5, 5));
    assert_eq!(sample_range(1 << 30), (1 << 29, 1048576));
}

#[test]
fn methods_for_streams() {
    let mut floats = Vec::new();
    for i in 0..5000u32 {
        floats.extend_from_slice(&(0.5f32 + (i as f32 / 900.0).sin() * 0.01).to_le_bytes());
    }
    let m = choose_stream_method(&floats, press(), false);
    assert!(m == CompressMethod::ShuffleBlk || m == CompressMethod::Shuffle2Blk);
    assert_eq!(choose_stream_method(&floats, press(), true), CompressMethod::Blocked);
    assert_eq!(choose_stream_method(b"tiny", press(), false), CompressMethod::Blocked);
}

#[test]
fn lengths_of_time() {
    assert_eq!(format_duration(0), "0s");
    assert_eq!(format_duration(59), "59s");
    assert_eq!(format_duration(60), "01:00");
    assert_eq!(format_duration(754), "12:34");
    assert_eq!(format_duration(6005), "100:05");
    assert_eq!(decimal(u64::MAX), "18446744073709551615");
}

#[test]
fn commands_by_name() {
    for (name, c) in [
        ("c", Command::Create),
        ("extract", Command::Extract),
        ("l", Command::List),
        ("test", Command::Test),
        ("--help", Command::Help),
        ("-V", Command::Version),
    ] {
        assert!(parse_command(&name.to_string()) == Some(c));
    }
    assert!(parse_command(&"zip".to_string()).is_none());
    assert_eq!(
        check_usage(Command::Create, 1),
        Err("usage: bounce create <archive.bnc> <files...>".to_string())
    );
    assert_eq!(
        check_usage(Command::Extract, 0),
        Err("usage: bounce extract <archive.bnc> [files...]".to_string())
    );
    assert_eq!(
        check_usage(Command::List, 0),
        Err("usage: bounce list <archive.bnc>".to_string())
    );
    assert_eq!(
        check_usage(Command::Test, 0),
        Err("usage: bounce test <archive.bnc>".to_string())
    );
    assert_eq!(check_usage(Command::Create, 2), Ok(()));
}

fn fault(args: &[&str]) -> String {
    match parse_options(&strings(args)) {
        Ok(_) => panic!("accepted"),
        Err(e) => e,
    }
}

#[test]
fn options_of_commands() {
    let o = parse_options(&strings(&["-3", "a.bnc", "-v", "x", "-o", "dir", "-", "-q"])).unwrap();
    assert_eq!(o.level, 3);
    assert_eq!(o.output, "dir");
    assert_eq!(o.positionals, strings(&["a.bnc", "x", "-"]));
    assert!(o.verbose && o.quiet && !o.force && !o.to_stdout);
    let d = parse_options(&[]).unwrap();
    assert_eq!((d.level, d.output.as_str()), (1, "."));
    let p = parse_options(&strings(&["--force", "--stdout", "-007", "-255"])).unwrap();
    assert!(p.force && p.to_stdout);
    assert_eq!(p.level, 255);
    assert_eq!(fault(&["-o"]), "missing value for --output");
    assert_eq!(fault(&["-0"]), "level must be >= 1");
    assert_eq!(fault(&["-256"]), "invalid compression level: -256");
    assert_eq!(fault(&["-99999999999999"]), "invalid compression level: -99999999999999");
    assert_eq!(fault(&["-x"]), "unknown option: -x");
    assert_eq!(fault(&["-1x"]), "unknown option: -1x");
}

#[test]
fn room_on_the_disk() {
    let table = "Filesystem 1024-blocks Used Available Capacity Mounted on\n/dev/sda1 100 58 42 58% /\n";
    assert_eq!(parse_free_space(table), Some(42 * 1024));
    assert_eq!(parse_free_space("head\n a\tb  c +7"), Some(7 * 1024));
    assert_eq!(parse_free_space("head\na b c"), None);
    assert_eq!(parse_free_space("head\na b c +"), None);
    assert_eq!(parse_free_space("head\na b c 4x"), None);
    assert_eq!(parse_free_space("head\na b c 99999999999999999999"), None);
    assert_eq!(parse_free_space("only one line 5"), None);
    assert_eq!(parse_free_space(""), None);
    assert!(has_room(Some(10), 10));
    assert!(!has_room(Some(9), 10));
    assert!(has_room(None, 10));
}

#[test]
fn large_lanes_in_a_small_payload() {
    let n = LARGE as usize + 3;
    let data: Vec<u8> = (0..n).map(|i| (i % 4) as u8 * 60 + (i >> 24) as u8).collect();
    let (payload, crc, _) =
        compress_stream_shuffled_blocked(&data, 4, 65536, 1 << 20, 1, 16 << 20);
    assert!((payload.len() as u64) < LARGE);
    let mut m = meta("weights");
    m.orig_size = n as u64;
    m.stored_size = payload.len() as u64;
    m.method = CompressMethod::ShuffleBlk.to_u8();
    m.stored_raw = false;
    m.crc = crc;
    let (back, sum) = extract_entry_payload(&payload, &m, 1).unwrap();
    assert_eq!(sum, crc);
    assert!(back == data);
}

#[test]
fn large_data_that_does_not_shrink() {
    let mut x = 88172645463325252u64;
    let mut data = Vec::with_capacity(LARGE as usize);
    while (data.len() as u64) < LARGE {
        x ^= x << 13;
        x ^= x >> 7;
        x ^= x << 17;
        data.extend_from_slice(&x.to_le_bytes());
    }
    let stored = store(&data, press(), true);
    assert!(stored.stored_raw);
    assert_eq!(stored.method, 0);
    assert!(stored.payload == data);
    assert!(pays_off(10, 9) && !pays_off(10, 10));
}

#[test]
fn streamed_members_stored_as_they_are() {
    let mut b = ArchiveBuilder::new();
    let head = b.reserve("big", 0o644, 77);
    let (place, patch) = b.add_raw("big", 0o644, 77, 1000, 0xABCD);
    let mut done = head.clone();
    let at = place as usize - 9;
    done[at..at + patch.len()].copy_from_slice(&patch);
    let m = read_entry_header(&done, 9).unwrap();
    assert_eq!((m.orig_size, m.stored_size, m.method), (1000, 1000, 0));
    assert!(m.stored_raw);
    assert_eq!(m.crc, 0xABCD);
    assert_eq!(b.offset, 9 + head.len() as u64 + 1000);
}

#[test]
fn stored_sizes() {
    let floats: Vec<u8> =
        (0..3000u32).flat_map(|i| (1.0f32 + i as f32 / 8192.0).to_le_bytes()).collect();
    for data in [&b""[..], b"short", &[9u8; 4000], &floats] {
        let stored = store(data, press(), false);
        assert!(stored.payload.len() <= data.len());
        assert_eq!(stored.stored_raw, stored.payload.len() == data.len());
    }
}

#[test]
fn listing_without_the_index() {
    let files = [file("a", b"first"), file("dir/b", &[7u8; 5000]), file("c", b"")];
    let (archive, _) = create(&files, press()).unwrap();
    let n = archive.len();
    let cut = u64::from_le_bytes(archive[n - 8..].try_into().unwrap()) as usize;
    let with = list_entries(&archive).unwrap();
    let without = list_entries(&archive[..cut]).unwrap();
    assert_eq!(with.len(), without.len());
    for (a, b) in with.iter().zip(&without) {
        assert_eq!(a.path, b.path);
        assert_eq!((a.orig_size, a.stored_size), (b.orig_size, b.stored_size));
        assert_eq!((a.method, a.stored_raw, a.crc), (b.method, b.stored_raw, b.crc));
        assert_eq!((a.offset, a.mode, a.mtime), (b.offset, b.mode % 65536, 0));
    }
}

#[test]
fn a_walk_by_headers_and_by_the_index() {
    let files = [file("a", b"first"), file("b", b"second"), file("c", b"third")];
    let (archive, _) = create(&files, press()).unwrap();
    let (count, version) = open_archive(&archive).unwrap();
    let header = |place: u64| {
        let m = read_entry_header(&archive[place as usize..], place).unwrap();
        let start = place + 36 + m.path.len() as u64;
        (m, start)
    };
    let filter = strings(&["b"]);
    for index in [None, read_cd_index(&archive, count, version)] {
        let by_index = index.is_some();
        let mut walk = Walk::new(&filter, count, index);
        let mut seen = Vec::new();
        while let Some(place) = walk.seek() {
            let (m, start) = header(place);
            seen.push((m.path.clone(), walk.visit(&m, start).unwrap()));
        }
        let b = ("b".to_string(), true);
        if by_index {
            assert_eq!(seen, [b]);
        } else {
            assert_eq!(seen, [("a".to_string(), false), b, ("c".to_string(), false)]);
        }
    }
    let mut walk = Walk::new(&[], count, None);
    let place = walk.seek().unwrap();
    let (mut m, start) = header(place);
    m.stored_size = 1 << 63;
    assert_eq!(
        walk.pass(&m, start),
        Err("invalid seek to a negative or overflowing position".to_string())
    );
    m.stored_size = u64::MAX;
    assert_eq!(walk.pass(&m, start), Ok(()));
    assert_eq!(walk.seek(), Some(start - 1));
}

#[test]
fn files_that_are_there_already() {
    assert_eq!(check_target("out/a", false, false), Ok(()));
    assert_eq!(check_target("out/a", true, true), Ok(()));
    assert_eq!(
        check_target("out/a", true, false),
        Err("out/a exists (use -f to overwrite)".to_string())
    );
}
