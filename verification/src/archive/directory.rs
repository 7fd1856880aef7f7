//! The index at the end of an archive.
//!
//! The number of members (4) and one record for each: two bytes with the length
//! of the path, the path, the place of the header (8), the size of the data (8),
//! the size of what is stored (8), from version 2 on the time of the last change
//! (8), and a packed number (8). The last eight bytes of the archive say where
//! the index starts.

use crate::archive::entry;
use crate::archive::entry::{Entry, EntryMeta};
use crate::bytes;
use vstd::prelude::*;
use vstd::utf8::*;

verus! {

// ---- the packed number ----

/// From the low end: the checksum (32 bits), the method (8), whether the data is stored as it is
/// (8), and the low 16 bits of the mode.
#[verifier::opaque]
pub open spec fn packed(crc: u32, method: u8, raw: bool, mode: u32) -> nat {
    (crc + 0x1_0000_0000 * method + 0x100_0000_0000 * (if raw {
        1int
    } else {
        0
    }) + 0x1_0000_0000_0000 * (mode % 65536)) as nat
}

#[verifier::opaque]
pub open spec fn unpacked(n: nat) -> (u32, u8, bool, u32) {
    (
        (n % 0x1_0000_0000) as u32,
        (n / 0x1_0000_0000 % 256) as u8,
        n / 0x100_0000_0000 % 2 != 0,
        (n / 0x1_0000_0000_0000 % 65536) as u32,
    )
}

/// All but the high bits of the mode is unpacked again.
pub proof fn lemma_pack_roundtrip(crc: u32, method: u8, raw: bool, mode: u32)
    ensures
        packed(crc, method, raw, mode) <= u64::MAX,
        unpacked(packed(crc, method, raw, mode)) == (crc, method, raw, (mode % 65536) as u32),
{
    reveal(packed);
    reveal(unpacked);
    let n = packed(crc, method, raw, mode) as int;
    let bit: int = if raw {
        1
    } else {
        0
    };
    let low = mode as int % 65536;
    let q = method + 256 * bit + 65536 * low;
    assert(n == q * 0x1_0000_0000 + crc);
    vstd::arithmetic::div_mod::lemma_fundamental_div_mod_converse(n, 0x1_0000_0000, q, crc as int);
    vstd::arithmetic::div_mod::lemma_div_denominator(n, 0x1_0000_0000, 256);
    vstd::arithmetic::div_mod::lemma_div_denominator(n, 0x1_0000_0000, 65536);
    assert(q / 256 == bit + 256 * low);
    assert(q / 65536 == low);
}

pub fn pack_cd_crc(crc: u32, method: u8, stored_raw: bool, mode: u32) -> (r: u64)
    ensures
        r == packed(crc, method, stored_raw, mode),
{
    proof {
        reveal(packed);
    }
    let raw: u64 = if stored_raw {
        1
    } else {
        0
    };
    crc as u64 + 0x1_0000_0000 * (method as u64) + 0x100_0000_0000 * raw + 0x1_0000_0000_0000 * ((
    mode % 65536) as u64)
}

pub fn unpack_cd_crc(val: u64) -> (r: (u32, u8, bool, u32))
    ensures
        r == unpacked(val as nat),
{
    proof {
        reveal(unpacked);
    }
    (
        (val % 0x1_0000_0000) as u32,
        (val / 0x1_0000_0000 % 256) as u8,
        val / 0x100_0000_0000 % 2 != 0,
        (val / 0x1_0000_0000_0000 % 65536) as u32,
    )
}

// ---- a record ----

/// What the index keeps of a member.
pub open spec fn indexed(e: Entry, version: u8) -> Entry {
    Entry {
        mtime: if version >= 2 {
            e.mtime
        } else {
            0
        },
        mode: (e.mode % 65536) as u32,
        ..e
    }
}

pub open spec fn time_bytes(e: Entry, version: u8) -> Seq<u8> {
    if version >= 2 {
        bytes::le64(entry::i64_bits(e.mtime))
    } else {
        Seq::empty()
    }
}

pub open spec fn record_bytes(e: Entry, version: u8) -> Seq<u8> {
    entry::path_bytes(e.path) + bytes::le64(e.offset as nat) + bytes::le64(e.orig_size as nat)
        + bytes::le64(e.stored_size as nat) + time_bytes(e, version) + bytes::le64(
        packed(e.crc, e.method, e.stored_raw, e.mode),
    )
}

/// The bytes of a record but for the path.
pub open spec fn fixed_len(version: u8) -> nat {
    if version >= 2 {
        42
    } else {
        34
    }
}

pub open spec fn record_len(rest: Seq<u8>, version: u8) -> nat {
    fixed_len(version) + bytes::u16_at(rest, 0)
}

/// The record at the start of `rest`, unless it is cut short or its path is not UTF-8.
#[verifier::opaque]
pub open spec fn record_at(rest: Seq<u8>, version: u8) -> Option<Entry> {
    if rest.len() < 2 || rest.len() < record_len(rest, version) {
        None
    } else {
        let n = bytes::u16_at(rest, 0) as int;
        let path = rest.subrange(2, 2 + n);
        if !valid_utf8(path) {
            None
        } else {
            let (crc, method, stored_raw, mode) = unpacked(
                bytes::u64_at(rest, fixed_len(version) - 8 + n),
            );
            Some(
                Entry {
                    path: decode_utf8(path),
                    mode,
                    mtime: if version >= 2 {
                        entry::i64_of(bytes::u64_at(rest, 26 + n))
                    } else {
                        0
                    },
                    orig_size: bytes::u64_at(rest, 10 + n) as u64,
                    stored_size: bytes::u64_at(rest, 18 + n) as u64,
                    method,
                    stored_raw,
                    crc,
                    offset: bytes::u64_at(rest, 2 + n) as u64,
                },
            )
        }
    }
}

proof fn lemma_parts(
    l: Seq<u8>,
    p: Seq<u8>,
    offset: Seq<u8>,
    orig: Seq<u8>,
    stored: Seq<u8>,
    time: Seq<u8>,
    tags: Seq<u8>,
    rest: Seq<u8>,
)
    requires
        l.len() == 2,
        offset.len() == 8,
        orig.len() == 8,
        stored.len() == 8,
        time.len() == 8 || time.len() == 0,
        tags.len() == 8,
    ensures
        ({
            let n = p.len() as int;
            let t = time.len() as int;
            let r = (l + p) + offset + orig + stored + time + tags;
            let all = r + rest;
            &&& r.len() == 34 + t + n
            &&& all.subrange(0, 2) == l
            &&& all.subrange(2, 2 + n) == p
            &&& all.subrange(2 + n, 10 + n) == offset
            &&& all.subrange(10 + n, 18 + n) == orig
            &&& all.subrange(18 + n, 26 + n) == stored
            &&& all.subrange(26 + n, 26 + t + n) == time
            &&& all.subrange(26 + t + n, 34 + t + n) == tags
            &&& all.skip(34 + t + n) == rest
        }),
{
    let n = p.len() as int;
    let t = time.len() as int;
    let all = (l + p) + offset + orig + stored + time + tags + rest;
    assert(all.subrange(0, 2) =~= l);
    assert(all.subrange(2, 2 + n) =~= p);
    assert(all.subrange(2 + n, 10 + n) =~= offset);
    assert(all.subrange(10 + n, 18 + n) =~= orig);
    assert(all.subrange(18 + n, 26 + n) =~= stored);
    assert(all.subrange(26 + n, 26 + t + n) =~= time);
    assert(all.subrange(26 + t + n, 34 + t + n) =~= tags);
    assert(all.skip(34 + t + n) =~= rest);
}

proof fn lemma_record_parts(e: Entry, version: u8, rest: Seq<u8>)
    ensures
        ({
            let p = encode_utf8(e.path);
            let n = p.len() as int;
            let f = fixed_len(version) as int;
            let r = record_bytes(e, version);
            let all = r + rest;
            &&& r.len() == f + n
            &&& all.subrange(0, 2) == bytes::le16(p.len())
            &&& all.subrange(2, 2 + n) == p
            &&& all.subrange(2 + n, 10 + n) == bytes::le64(e.offset as nat)
            &&& all.subrange(10 + n, 18 + n) == bytes::le64(e.orig_size as nat)
            &&& all.subrange(18 + n, 26 + n) == bytes::le64(e.stored_size as nat)
            &&& version >= 2 ==> all.subrange(26 + n, 34 + n) == bytes::le64(
                entry::i64_bits(e.mtime),
            )
            &&& all.subrange(f - 8 + n, f + n) == bytes::le64(
                packed(e.crc, e.method, e.stored_raw, e.mode),
            )
            &&& all.skip(f + n) == rest
        }),
{
    lemma_parts(
        bytes::le16(encode_utf8(e.path).len()),
        encode_utf8(e.path),
        bytes::le64(e.offset as nat),
        bytes::le64(e.orig_size as nat),
        bytes::le64(e.stored_size as nat),
        time_bytes(e, version),
        bytes::le64(packed(e.crc, e.method, e.stored_raw, e.mode)),
        rest,
    );
}

/// A record is read back as what the index keeps.
#[verifier::rlimit(50)]
#[verifier::spinoff_prover]
pub proof fn lemma_record_roundtrip(e: Entry, version: u8, rest: Seq<u8>)
    requires
        entry::short_path(e.path),
    ensures
        ({
            let r = record_bytes(e, version);
            &&& record_at(r + rest, version) == Some(indexed(e, version))
            &&& record_len(r + rest, version) == r.len()
            &&& (r + rest).skip(r.len() as int) == rest
        }),
{
    reveal(record_at);
    let n = encode_utf8(e.path).len() as int;
    let f = fixed_len(version) as int;
    let tag = packed(e.crc, e.method, e.stored_raw, e.mode);
    let all = record_bytes(e, version) + rest;
    lemma_record_parts(e, version, rest);
    bytes::lemma_u16_at(all, 0, encode_utf8(e.path).len());
    entry::lemma_path_text(e.path);
    bytes::lemma_u64_at(all, 2 + n, e.offset as nat);
    bytes::lemma_u64_at(all, 10 + n, e.orig_size as nat);
    bytes::lemma_u64_at(all, 18 + n, e.stored_size as nat);
    lemma_pack_roundtrip(e.crc, e.method, e.stored_raw, e.mode);
    if version >= 2 {
        bytes::lemma_u64_at(all, 26 + n, entry::i64_bits(e.mtime));
    }
    bytes::lemma_u64_at(all, f - 8 + n, tag);
}

/// Where everything stands in a record of the index: the length of the path, the path, and from
/// behind it where the header is, the two sizes, the time from version 2 on, and one number that
/// holds the checksum, the method, whether the data is stored as it is, and 16 bits of the mode.
#[verifier::rlimit(50)]
#[verifier::spinoff_prover]
pub proof fn lemma_record_layout(e: Entry, version: u8)
    requires
        encode_utf8(e.path).len() <= 65535,
    ensures
        ({
            let r = record_bytes(e, version);
            let p = encode_utf8(e.path);
            let n = p.len() as int;
            let t: int = if version >= 2 {
                8
            } else {
                0
            };
            &&& r.len() == 34 + t + n
            &&& bytes::u16_at(r, 0) == n
            &&& r.subrange(2, 2 + n) == p
            &&& bytes::u64_at(r, 2 + n) == e.offset
            &&& bytes::u64_at(r, 10 + n) == e.orig_size
            &&& bytes::u64_at(r, 18 + n) == e.stored_size
            &&& version >= 2 ==> bytes::u64_at(r, 26 + n) == if e.mtime >= 0 {
                e.mtime as int
            } else {
                e.mtime + 0x1_0000_0000_0000_0000
            }
            &&& bytes::u64_at(r, 26 + t + n) == e.crc + 0x1_0000_0000 * e.method + (
            if e.stored_raw {
                0x100_0000_0000int
            } else {
                0
            }) + 0x1_0000_0000_0000 * (e.mode % 65536)
        }),
{
    reveal(packed);
    let n = encode_utf8(e.path).len() as int;
    let f = fixed_len(version) as int;
    let r = record_bytes(e, version);
    lemma_record_parts(e, version, Seq::empty());
    assert(r + Seq::<u8>::empty() =~= r);
    bytes::lemma_u16_at(r, 0, encode_utf8(e.path).len());
    bytes::lemma_u64_at(r, 2 + n, e.offset as nat);
    bytes::lemma_u64_at(r, 10 + n, e.orig_size as nat);
    bytes::lemma_u64_at(r, 18 + n, e.stored_size as nat);
    if version >= 2 {
        bytes::lemma_u64_at(r, 26 + n, entry::i64_bits(e.mtime));
    }
    lemma_pack_roundtrip(e.crc, e.method, e.stored_raw, e.mode);
    bytes::lemma_u64_at(r, f - 8 + n, packed(e.crc, e.method, e.stored_raw, e.mode));
}

// ---- the index ----

pub open spec fn records(entries: Seq<Entry>, version: u8) -> Seq<u8>
    decreases entries.len(),
{
    if entries.len() == 0 {
        Seq::empty()
    } else {
        record_bytes(entries[0], version) + records(entries.skip(1), version)
    }
}

/// The number of members and their records.
pub open spec fn index_bytes(entries: Seq<Entry>, version: u8) -> Seq<u8> {
    bytes::le32(entries.len()) + records(entries, version)
}

/// The index with the place where it starts behind it.
pub open spec fn directory_bytes(entries: Seq<Entry>, version: u8, start: nat) -> Seq<u8> {
    index_bytes(entries, version) + bytes::le64(start)
}

/// `count` records that fill `rest`. Headers stand before the index.
pub open spec fn records_in(rest: Seq<u8>, count: nat, start: nat, version: u8) -> Option<
    Seq<Entry>,
>
    decreases count,
{
    if count == 0 {
        if rest.len() == 0 {
            Some(Seq::empty())
        } else {
            None
        }
    } else {
        match record_at(rest, version) {
            None => None,
            Some(e) => if e.offset >= start {
                None
            } else {
                match records_in(
                    rest.skip(record_len(rest, version) as int),
                    (count - 1) as nat,
                    start,
                    version,
                ) {
                    None => None,
                    Some(more) => Some(seq![e] + more),
                }
            },
        }
    }
}

/// The members in an index that starts at `start`. It is of no use unless it has as many members
/// as the header of the archive says.
pub open spec fn members_in(index: Seq<u8>, count: nat, start: nat, version: u8) -> Option<
    Seq<Entry>,
> {
    if index.len() < 4 || bytes::u32_at(index, 0) != count {
        None
    } else {
        records_in(index.skip(4), count, start, version)
    }
}

/// Where the index of an archive of `len` bytes starts if `tail` are its last eight bytes.
pub open spec fn index_start(len: nat, tail: Seq<u8>) -> Option<nat> {
    let start = bytes::u64_at(tail, 0);
    if start < 9 || start >= len - 8 {
        None
    } else {
        Some(start)
    }
}

/// The members in the index of an archive.
#[verifier::opaque]
pub open spec fn cd_index(data: Seq<u8>, count: nat, version: u8) -> Option<Seq<Entry>> {
    let end = data.len() - 8;
    if data.len() < 17 {
        None
    } else {
        match index_start(data.len(), data.skip(end)) {
            None => None,
            Some(start) => members_in(data.subrange(start as int, end), count, start, version),
        }
    }
}

pub open spec fn all_indexed(entries: Seq<Entry>, version: u8) -> Seq<Entry> {
    Seq::new(entries.len(), |k: int| indexed(entries[k], version))
}

/// The index can hold the members: their paths are short and their headers stand before it.
pub open spec fn indexable(entries: Seq<Entry>, start: nat) -> bool {
    forall|k: int|
        0 <= k < entries.len() ==> entry::short_path((#[trigger] entries[k]).path)
            && entries[k].offset < start
}

proof fn lemma_records_sound(rest: Seq<u8>, count: nat, start: nat, version: u8)
    requires
        records_in(rest, count, start, version) is Some,
    ensures
        ({
            let v = records_in(rest, count, start, version)->0;
            &&& v.len() == count
            &&& forall|k: int| 0 <= k < v.len() ==> (#[trigger] v[k]).offset < start
        }),
    decreases count,
{
    if count > 0 {
        let e = record_at(rest, version)->0;
        let after = rest.skip(record_len(rest, version) as int);
        lemma_records_sound(after, (count - 1) as nat, start, version);
        let more = records_in(after, (count - 1) as nat, start, version)->0;
        let v = records_in(rest, count, start, version)->0;
        assert(v =~= seq![e] + more);
        assert forall|k: int| 0 <= k < v.len() implies (#[trigger] v[k]).offset < start by {
            if k > 0 {
                assert(v[k] == more[k - 1]);
            }
        }
    }
}

/// An index that is accepted has as many members as it should, and their headers stand before it.
#[verifier::rlimit(50)]
#[verifier::spinoff_prover]
pub proof fn lemma_index_sound(data: Seq<u8>, count: nat, version: u8)
    ensures
        cd_index(data, count, version) matches Some(v) ==> {
            let start = bytes::u64_at(data, data.len() - 8);
            &&& v.len() == count
            &&& 9 <= start < data.len() - 8
            &&& bytes::u32_at(data, start as int) == count
            &&& forall|k: int| 0 <= k < v.len() ==> (#[trigger] v[k]).offset < start
        },
{
    reveal(cd_index);
    if cd_index(data, count, version) is Some {
        let end = data.len() - 8;
        let tail = data.skip(end);
        assert(tail[0] == data[end] && tail[1] == data[end + 1] && tail[2] == data[end + 2]
            && tail[3] == data[end + 3] && tail[4] == data[end + 4] && tail[5] == data[end + 5]
            && tail[6] == data[end + 6] && tail[7] == data[end + 7]);
        let start = bytes::u64_at(data, end) as int;
        let index = data.subrange(start, end);
        assert(index[0] == data[start] && index[1] == data[start + 1] && index[2] == data[start + 2]
            && index[3] == data[start + 3]);
        lemma_records_sound(index.skip(4), count, start as nat, version);
    }
}

proof fn lemma_records_roundtrip(entries: Seq<Entry>, start: nat, version: u8)
    requires
        indexable(entries, start),
    ensures
        records_in(records(entries, version), entries.len(), start, version) == Some(
            all_indexed(entries, version),
        ),
    decreases entries.len(),
{
    if entries.len() == 0 {
        assert(all_indexed(entries, version) =~= Seq::empty());
    } else {
        let rest = entries.skip(1);
        assert(entry::short_path(entries[0].path) && entries[0].offset < start);
        assert forall|k: int| 0 <= k < rest.len() implies entry::short_path(
            (#[trigger] rest[k]).path,
        ) && rest[k].offset < start by {
            assert(rest[k] == entries[k + 1]);
        }
        lemma_record_roundtrip(entries[0], version, records(rest, version));
        lemma_records_roundtrip(rest, start, version);
        assert(all_indexed(entries, version) =~= seq![indexed(entries[0], version)] + all_indexed(
            rest,
            version,
        ));
    }
}

/// An index between what comes before it and its place.
proof fn lemma_index_parts(front: Seq<u8>, count: Seq<u8>, body: Seq<u8>, start: Seq<u8>)
    requires
        count.len() == 4,
        start.len() == 8,
    ensures
        ({
            let index = count + body;
            let data = front + (index + start);
            let end = data.len() - 8;
            let tail = data.skip(end);
            &&& data.len() == front.len() + 12 + body.len()
            &&& tail == start
            &&& tail.subrange(0, 8) == start
            &&& data.subrange(front.len() as int, end) == index
            &&& index.subrange(0, 4) == count
            &&& index.skip(4) == body
        }),
{
    let index = count + body;
    let data = front + (index + start);
    let end = data.len() - 8;
    let tail = data.skip(end);
    assert(tail =~= start);
    assert(tail.subrange(0, 8) =~= start);
    assert(data.subrange(front.len() as int, end) =~= index);
    assert(index.subrange(0, 4) =~= count);
    assert(index.skip(4) =~= body);
}

/// The index behind the members is read back.
#[verifier::rlimit(50)]
#[verifier::spinoff_prover]
pub proof fn lemma_index_roundtrip(front: Seq<u8>, entries: Seq<Entry>, version: u8)
    requires
        9 <= front.len() <= u64::MAX,
        entries.len() <= u32::MAX,
        indexable(entries, front.len()),
    ensures
        cd_index(
            front + directory_bytes(entries, version, front.len()),
            entries.len(),
            version,
        ) == Some(all_indexed(entries, version)),
{
    reveal(cd_index);
    let index = index_bytes(entries, version);
    let start = front.len();
    let data = front + directory_bytes(entries, version, start);
    let tail = data.skip(data.len() - 8);
    lemma_index_parts(
        front,
        bytes::le32(entries.len()),
        records(entries, version),
        bytes::le64(start),
    );
    bytes::lemma_u64_at(tail, 0, start);
    bytes::lemma_u32_at(index, 0, entries.len());
    lemma_records_roundtrip(entries, start, version);
}

// ---- the computation ----

proof fn lemma_records_push(entries: Seq<Entry>, e: Entry, version: u8)
    ensures
        records(entries.push(e), version) == records(entries, version) + record_bytes(e, version),
    decreases entries.len(),
{
    let r = record_bytes(e, version);
    if entries.len() == 0 {
        let one = entries.push(e);
        assert(one.skip(1) =~= Seq::empty());
        assert(records(one.skip(1), version) =~= Seq::empty());
        assert(one[0] == e);
        assert(r + Seq::<u8>::empty() =~= Seq::<u8>::empty() + r);
    } else {
        lemma_records_push(entries.skip(1), e, version);
        assert(entries.push(e).skip(1) =~= entries.skip(1).push(e));
        assert(entries.push(e)[0] == entries[0]);
        let a = record_bytes(entries[0], version);
        let b = records(entries.skip(1), version);
        assert(a + (b + r) =~= a + b + r);
    }
}

/// Appends a record.
fn push_record(out: &mut Vec<u8>, m: &EntryMeta, version: u8)
    ensures
        final(out)@ == old(out)@ + record_bytes(m@, version),
{
    let ghost before = out@;
    let ghost p = entry::path_bytes(m@.path);
    let ghost a = bytes::le64(m@.offset as nat);
    let ghost b = bytes::le64(m@.orig_size as nat);
    let ghost c = bytes::le64(m@.stored_size as nat);
    let ghost t = time_bytes(m@, version);
    let ghost k = bytes::le64(packed(m@.crc, m@.method, m@.stored_raw, m@.mode));
    entry::push_path(out, m.path.as_str());
    bytes::push_u64(out, m.offset);
    bytes::push_u64(out, m.orig_size);
    bytes::push_u64(out, m.stored_size);
    assert(out@ =~= before + p + a + b + c + Seq::<u8>::empty());
    if version >= 2 {
        bytes::push_u64(out, entry::to_bits(m.mtime));
    }
    assert(out@ =~= before + p + a + b + c + t);
    bytes::push_u64(out, pack_cd_crc(m.crc, m.method, m.stored_raw, m.mode));
    assert(before + p + a + b + c + t + k =~= before + (p + a + b + c + t + k));
}

/// The index of an archive whose members end at `start`, with its place behind it.
pub fn write_directory(entries: &Vec<EntryMeta>, version: u8, start: u64) -> (out: Vec<u8>)
    ensures
        out@ == directory_bytes(entry::entries_of(entries@), version, start as nat),
{
    let ghost all = entry::entries_of(entries@);
    let n: usize = entries.len();
    let mut out: Vec<u8> = Vec::new();
    bytes::push_u32(&mut out, n as u64);
    let mut i: usize = 0;
    proof {
        assert(all.take(0) =~= Seq::empty());
        assert(records(all.take(0), version) =~= Seq::empty());
        assert(out@ =~= bytes::le32(n as nat) + records(all.take(0), version));
    }
    while i < n
        invariant
            i <= n,
            n == entries@.len(),
            all == entry::entries_of(entries@),
            out@ == bytes::le32(n as nat) + records(all.take(i as int), version),
        decreases n - i,
    {
        push_record(&mut out, &entries[i], version);
        proof {
            lemma_records_push(all.take(i as int), all[i as int], version);
            assert(all.take(i + 1) =~= all.take(i as int).push(all[i as int]));
            assert(bytes::le32(n as nat) + (records(all.take(i as int), version) + record_bytes(
                all[i as int],
                version,
            )) =~= bytes::le32(n as nat) + records(all.take(i as int), version) + record_bytes(
                all[i as int],
                version,
            ));
        }
        i += 1;
    }
    assert(all.take(n as int) =~= all);
    bytes::push_u64(&mut out, start);
    out
}

/// Reads the record at the start of `rest`.
fn read_record(rest: &[u8], version: u8) -> (r: Option<EntryMeta>)
    ensures
        match (r, record_at(rest@, version)) {
            (Some(m), Some(e)) => m@ == e,
            (None, None) => true,
            _ => false,
        },
        r is Some ==> 2 <= rest@.len() && record_len(rest@, version) <= rest@.len(),
{
    proof {
        reveal(record_at);
    }
    let total: usize = rest.len();
    if total < 2 {
        return None;
    }
    let n: usize = bytes::get_u16(rest, 0) as usize;
    let fixed: usize = if version >= 2 {
        42
    } else {
        34
    };
    if total < fixed + n {
        return None;
    }
    let mut p: Vec<u8> = Vec::new();
    let part = &rest[2..2 + n];
    p.extend_from_slice(part);
    assert(p@ =~= rest@.subrange(2, 2 + n));
    let path = match entry::from_utf8(p) {
        None => {
            return None;
        },
        Some(s) => s,
    };
    let mtime: i64 = if version >= 2 {
        entry::from_bits(bytes::get_u64(rest, 26 + n))
    } else {
        0
    };
    let (crc, method, stored_raw, mode) = unpack_cd_crc(bytes::get_u64(rest, fixed - 8 + n));
    Some(
        EntryMeta {
            path,
            mode,
            mtime,
            orig_size: bytes::get_u64(rest, 10 + n),
            stored_size: bytes::get_u64(rest, 18 + n),
            method,
            stored_raw,
            crc,
            offset: bytes::get_u64(rest, 2 + n),
        },
    )
}

/// Where the index of an archive of `len` bytes starts, by its last eight bytes.
pub fn find_index(len: u64, tail: &[u8]) -> (r: Option<u64>)
    requires
        len >= 17,
        tail@.len() == 8,
    ensures
        match (r, index_start(len as nat, tail@)) {
            (Some(a), Some(b)) => a == b,
            (None, None) => true,
            _ => false,
        },
{
    let start: u64 = bytes::get_u64(tail, 0);
    if start < 9 || start >= len - 8 {
        None
    } else {
        Some(start)
    }
}

/// Reads the members from an index that starts at `start`.
pub fn read_index(index: &[u8], header_count: u32, start: u64, version: u8) -> (r: Option<
    Vec<EntryMeta>,
>)
    ensures
        match (r, members_in(index@, header_count as nat, start as nat, version)) {
            (Some(v), Some(want)) => entry::entries_of(v@) == want,
            (None, None) => true,
            _ => false,
        },
{
    let total: usize = index.len();
    if total < 4 || bytes::get_u32(index, 0) != header_count {
        return None;
    }
    let ghost want = records_in(index@.skip(4), header_count as nat, start as nat, version);
    let mut entries: Vec<EntryMeta> = Vec::new();
    let mut pos: usize = 4;
    let mut i: u32 = 0;
    proof {
        assert(entry::entries_of(entries@) =~= Seq::empty());
        if want is Some {
            assert(Seq::<Entry>::empty() + want->0 =~= want->0);
        }
    }
    while i < header_count
        invariant
            i <= header_count,
            total == index@.len(),
            4 <= pos <= total,
            want == match records_in(
                index@.skip(pos as int),
                (header_count - i) as nat,
                start as nat,
                version,
            ) {
                None => None::<Seq<Entry>>,
                Some(more) => Some(entry::entries_of(entries@) + more),
            },
            want == members_in(index@, header_count as nat, start as nat, version),
        decreases header_count - i,
    {
        let rest = &index[pos..total];
        assert(rest@ =~= index@.skip(pos as int));
        let m = match read_record(rest, version) {
            None => {
                return None;
            },
            Some(m) => m,
        };
        if m.offset >= start {
            return None;
        }
        let n: usize = bytes::get_u16(rest, 0) as usize;
        let used: usize = if version >= 2 {
            42 + n
        } else {
            34 + n
        };
        let ghost before = entries@;
        let ghost e = m@;
        entries.push(m);
        proof {
            assert(rest@.skip(used as int) =~= index@.skip(pos + used));
            assert(entry::entries_of(entries@) =~= entry::entries_of(before).push(e));
            let next = records_in(
                index@.skip(pos + used),
                (header_count - i - 1) as nat,
                start as nat,
                version,
            );
            if next is Some {
                assert(entry::entries_of(before) + (seq![e] + next->0) =~= entry::entries_of(
                    entries@,
                ) + next->0);
            }
        }
        pos = pos + used;
        i += 1;
    }
    if pos == total {
        assert(entry::entries_of(entries@) + Seq::<Entry>::empty() =~= entry::entries_of(
            entries@,
        ));
        Some(entries)
    } else {
        None
    }
}

/// Reads the members from the index of an archive, if it has one that can be used.
pub fn read_cd_index(data: &[u8], header_count: u32, version: u8) -> (r: Option<Vec<EntryMeta>>)
    ensures
        match (r, cd_index(data@, header_count as nat, version)) {
            (Some(v), Some(want)) => entry::entries_of(v@) == want,
            (None, None) => true,
            _ => false,
        },
{
    proof {
        reveal(cd_index);
    }
    let total: usize = data.len();
    if total < 17 {
        return None;
    }
    let tail = &data[total - 8..total];
    assert(tail@ =~= data@.skip(total - 8));
    match find_index(total as u64, tail) {
        None => None,
        Some(start) => {
            let index = &data[start as usize..total - 8];
            read_index(index, header_count, start, version)
        },
    }
}

} // verus!
