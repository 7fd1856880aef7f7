//! The header of a member.
//!
//! Two bytes with the length of the path, the path, the mode (4), the time of
//! the last change (8), the size of the data (8), the size of what is stored (8),
//! the method (1), a byte that is not 0 if the data is stored as it is, and the
//! checksum of the data (4).

use crate::bytes;
use vstd::prelude::*;
use vstd::string::*;
use vstd::utf8::*;

verus! {

/// What is known of a member.
pub struct EntryMeta {
    pub path: String,
    pub mode: u32,
    pub mtime: i64,
    pub orig_size: u64,
    pub stored_size: u64,
    pub method: u8,
    pub stored_raw: bool,
    pub crc: u32,
    /// Where the header stands in the archive.
    pub offset: u64,
}

/// What is known of a member, with the path as text.
pub struct Entry {
    pub path: Seq<char>,
    pub mode: u32,
    pub mtime: i64,
    pub orig_size: u64,
    pub stored_size: u64,
    pub method: u8,
    pub stored_raw: bool,
    pub crc: u32,
    pub offset: u64,
}

impl View for EntryMeta {
    type V = Entry;

    open spec fn view(&self) -> Entry {
        Entry {
            path: self.path@,
            mode: self.mode,
            mtime: self.mtime,
            orig_size: self.orig_size,
            stored_size: self.stored_size,
            method: self.method,
            stored_raw: self.stored_raw,
            crc: self.crc,
            offset: self.offset,
        }
    }
}

impl Clone for EntryMeta {
    fn clone(&self) -> (r: Self)
        ensures
            r@ == self@,
    {
        EntryMeta {
            path: self.path.clone(),
            mode: self.mode,
            mtime: self.mtime,
            orig_size: self.orig_size,
            stored_size: self.stored_size,
            method: self.method,
            stored_raw: self.stored_raw,
            crc: self.crc,
            offset: self.offset,
        }
    }
}

/// The entries of some members.
pub open spec fn entries_of(v: Seq<EntryMeta>) -> Seq<Entry> {
    Seq::new(v.len(), |k: int| v[k]@)
}

// ---- signed numbers ----

/// The 64 bits of a signed number.
pub open spec fn i64_bits(n: i64) -> nat {
    if n >= 0 {
        n as nat
    } else {
        (n + 0x1_0000_0000_0000_0000) as nat
    }
}

pub open spec fn i64_of(bits: nat) -> i64 {
    if bits <= i64::MAX {
        bits as i64
    } else {
        (bits - 0x1_0000_0000_0000_0000) as i64
    }
}

pub fn to_bits(n: i64) -> (r: u64)
    ensures
        r == i64_bits(n),
{
    if n >= 0 {
        n as u64
    } else {
        u64::MAX - (-(n + 1)) as u64
    }
}

pub fn from_bits(bits: u64) -> (r: i64)
    ensures
        r == i64_of(bits as nat),
{
    if bits <= i64::MAX as u64 {
        bits as i64
    } else {
        -((u64::MAX - bits) as i64) - 1
    }
}

// ---- paths as bytes ----

/// The text that `String::from_utf8_lossy` makes of bytes that are not UTF-8.
pub uninterp spec fn utf8_lossy(bytes: Seq<u8>) -> Seq<char>;

/// The text of a path: the bytes as UTF-8, or what stands in for it.
pub open spec fn path_text(bytes: Seq<u8>) -> Seq<char> {
    if valid_utf8(bytes) {
        decode_utf8(bytes)
    } else {
        utf8_lossy(bytes)
    }
}

/// `String::from_utf8_lossy`: text that is UTF-8 is decoded as it is. What the characters are that
/// stand in for other bytes is not said here, but that they depend on the bytes alone.
#[verifier::external_body]
fn from_utf8_lossy(bytes: &[u8]) -> (r: String)
    ensures
        valid_utf8(bytes@) ==> r@ == decode_utf8(bytes@),
        !valid_utf8(bytes@) ==> r@ == utf8_lossy(bytes@),
{
    String::from_utf8_lossy(bytes).into_owned()
}

/// `String::from_utf8`: the text of bytes that are UTF-8, and nothing for others.
#[verifier::external_body]
pub(crate) fn from_utf8(bytes: Vec<u8>) -> (r: Option<String>)
    ensures
        match r {
            Some(s) => valid_utf8(bytes@) && s@ == decode_utf8(bytes@),
            None => !valid_utf8(bytes@),
        },
{
    String::from_utf8(bytes).ok()
}

/// What the text of a path is written as is read as the text.
pub proof fn lemma_path_text(path: Seq<char>)
    ensures
        valid_utf8(encode_utf8(path)),
        decode_utf8(encode_utf8(path)) == path,
        path_text(encode_utf8(path)) == path,
{
    encode_utf8_valid_utf8(path);
    encode_utf8_decode_utf8(path);
}

// ---- the header ----

/// The fields behind the path.
pub open spec fn field_bytes(e: Entry) -> Seq<u8> {
    bytes::le32(e.mode as nat) + bytes::le64(i64_bits(e.mtime)) + size_bytes(
        e.orig_size,
        e.stored_size,
        e.method,
        e.stored_raw,
        e.crc,
    )
}

/// The fields that are known when the data has been seen.
#[verifier::opaque]
pub open spec fn size_bytes(orig: u64, stored: u64, method: u8, raw: bool, crc: u32) -> Seq<u8> {
    bytes::le64(orig as nat) + bytes::le64(stored as nat) + seq![
        method,
        if raw {
            1u8
        } else {
            0u8
        },
    ] + bytes::le32(crc as nat)
}

/// The path behind its length.
pub open spec fn path_bytes(path: Seq<char>) -> Seq<u8> {
    bytes::le16(encode_utf8(path).len()) + encode_utf8(path)
}

#[verifier::opaque]
pub open spec fn header_bytes(e: Entry) -> Seq<u8> {
    path_bytes(e.path) + field_bytes(e)
}

/// The length of a header with a path of `n` bytes.
pub open spec fn header_len(n: nat) -> nat {
    36 + n
}

/// The length of the header at the start of `head`.
pub open spec fn header_len_at(head: Seq<u8>) -> nat {
    header_len(bytes::u16_at(head, 0))
}

/// The header at the start of `head`, unless it is cut short.
pub open spec fn entry_at(head: Seq<u8>, offset: u64) -> Option<Entry> {
    if head.len() < 2 || head.len() < header_len_at(head) {
        None
    } else {
        let n = bytes::u16_at(head, 0) as int;
        Some(
            Entry {
                path: path_text(head.subrange(2, 2 + n)),
                mode: bytes::u32_at(head, 2 + n) as u32,
                mtime: i64_of(bytes::u64_at(head, 6 + n)),
                orig_size: bytes::u64_at(head, 14 + n) as u64,
                stored_size: bytes::u64_at(head, 22 + n) as u64,
                method: head[30 + n],
                stored_raw: head[31 + n] != 0,
                crc: bytes::u32_at(head, 32 + n) as u32,
                offset,
            },
        )
    }
}

/// A header that is read knows where it stands.
pub proof fn lemma_entry_offset(head: Seq<u8>, offset: u64)
    ensures
        entry_at(head, offset) is Some ==> entry_at(head, offset)->0.offset == offset,
{
}

/// The path fits behind its length.
pub open spec fn short_path(path: Seq<char>) -> bool {
    encode_utf8(path).len() <= u16::MAX
}

/// Eight parts, one after the other, and what follows them.
proof fn lemma_parts(
    l: Seq<u8>,
    p: Seq<u8>,
    mode: Seq<u8>,
    time: Seq<u8>,
    orig: Seq<u8>,
    stored: Seq<u8>,
    tags: Seq<u8>,
    crc: Seq<u8>,
    rest: Seq<u8>,
)
    requires
        l.len() == 2,
        mode.len() == 4,
        time.len() == 8,
        orig.len() == 8,
        stored.len() == 8,
        tags.len() == 2,
        crc.len() == 4,
    ensures
        ({
            let n = p.len() as int;
            let h = (l + p) + (mode + time + (orig + stored + tags + crc));
            let all = h + rest;
            &&& h.len() == 36 + n
            &&& all.subrange(0, 2) == l
            &&& all.subrange(2, 2 + n) == p
            &&& all.subrange(2 + n, 6 + n) == mode
            &&& all.subrange(6 + n, 14 + n) == time
            &&& all.subrange(14 + n, 22 + n) == orig
            &&& all.subrange(22 + n, 30 + n) == stored
            &&& all[30 + n] == tags[0]
            &&& all[31 + n] == tags[1]
            &&& all.subrange(32 + n, 36 + n) == crc
        }),
{
    let n = p.len() as int;
    let all = (l + p) + (mode + time + (orig + stored + tags + crc)) + rest;
    assert(all.subrange(0, 2) =~= l);
    assert(all.subrange(2, 2 + n) =~= p);
    assert(all.subrange(2 + n, 6 + n) =~= mode);
    assert(all.subrange(6 + n, 14 + n) =~= time);
    assert(all.subrange(14 + n, 22 + n) =~= orig);
    assert(all.subrange(22 + n, 30 + n) =~= stored);
    assert(all.subrange(32 + n, 36 + n) =~= crc);
}

spec fn tag_bytes(method: u8, raw: bool) -> Seq<u8> {
    seq![
        method,
        if raw {
            1u8
        } else {
            0u8
        },
    ]
}

proof fn lemma_header_parts(e: Entry, rest: Seq<u8>)
    ensures
        ({
            let p = encode_utf8(e.path);
            let n = p.len() as int;
            let all = header_bytes(e) + rest;
            &&& header_bytes(e).len() == 36 + n
            &&& all.subrange(0, 2) == bytes::le16(p.len())
            &&& all.subrange(2, 2 + n) == p
            &&& all.subrange(2 + n, 6 + n) == bytes::le32(e.mode as nat)
            &&& all.subrange(6 + n, 14 + n) == bytes::le64(i64_bits(e.mtime))
            &&& all.subrange(14 + n, 22 + n) == bytes::le64(e.orig_size as nat)
            &&& all.subrange(22 + n, 30 + n) == bytes::le64(e.stored_size as nat)
            &&& all[30 + n] == e.method
            &&& all[31 + n] == if e.stored_raw {
                1u8
            } else {
                0u8
            }
            &&& all.subrange(32 + n, 36 + n) == bytes::le32(e.crc as nat)
        }),
{
    reveal(header_bytes);
    reveal(size_bytes);
    lemma_parts(
        bytes::le16(encode_utf8(e.path).len()),
        encode_utf8(e.path),
        bytes::le32(e.mode as nat),
        bytes::le64(i64_bits(e.mtime)),
        bytes::le64(e.orig_size as nat),
        bytes::le64(e.stored_size as nat),
        tag_bytes(e.method, e.stored_raw),
        bytes::le32(e.crc as nat),
        rest,
    );
}

/// A header does not depend on where it stands.
pub proof fn lemma_header_place(e: Entry, offset: u64)
    ensures
        header_bytes((Entry { offset, ..e })) == header_bytes(e),
{
    reveal(header_bytes);
}

pub proof fn lemma_header_len(e: Entry)
    ensures
        header_bytes(e).len() == header_len(encode_utf8(e.path).len()),
{
    lemma_header_parts(e, Seq::empty());
}

/// A header is read back as it was written, whatever follows it.
#[verifier::rlimit(50)]
#[verifier::spinoff_prover]
pub proof fn lemma_entry_roundtrip(e: Entry, rest: Seq<u8>)
    requires
        short_path(e.path),
    ensures
        entry_at(header_bytes(e) + rest, e.offset) == Some(e),
        header_len_at(header_bytes(e) + rest) == header_bytes(e).len(),
{
    let n = encode_utf8(e.path).len() as int;
    let all = header_bytes(e) + rest;
    lemma_header_parts(e, rest);
    bytes::lemma_u16_at(all, 0, encode_utf8(e.path).len());
    lemma_path_text(e.path);
    bytes::lemma_u32_at(all, 2 + n, e.mode as nat);
    bytes::lemma_u64_at(all, 6 + n, i64_bits(e.mtime));
    bytes::lemma_u64_at(all, 14 + n, e.orig_size as nat);
    bytes::lemma_u64_at(all, 22 + n, e.stored_size as nat);
    bytes::lemma_u32_at(all, 32 + n, e.crc as nat);
}

/// Where everything stands in a header: the length of the path, the path, and from behind it the
/// mode, the time, the two sizes, the method, 1 for data that is stored as it is, and the checksum.
#[verifier::rlimit(50)]
#[verifier::spinoff_prover]
pub proof fn lemma_header_layout(e: Entry)
    requires
        encode_utf8(e.path).len() <= 65535,
    ensures
        ({
            let h = header_bytes(e);
            let p = encode_utf8(e.path);
            let n = p.len() as int;
            &&& h.len() == 36 + n
            &&& bytes::u16_at(h, 0) == n
            &&& h.subrange(2, 2 + n) == p
            &&& bytes::u32_at(h, 2 + n) == e.mode
            &&& bytes::u64_at(h, 6 + n) == if e.mtime >= 0 {
                e.mtime as int
            } else {
                e.mtime + 0x1_0000_0000_0000_0000
            }
            &&& bytes::u64_at(h, 14 + n) == e.orig_size
            &&& bytes::u64_at(h, 22 + n) == e.stored_size
            &&& h[30 + n] == e.method
            &&& h[31 + n] == if e.stored_raw {
                1u8
            } else {
                0u8
            }
            &&& bytes::u32_at(h, 32 + n) == e.crc
        }),
{
    let n = encode_utf8(e.path).len() as int;
    let h = header_bytes(e);
    lemma_header_parts(e, Seq::empty());
    assert(h + Seq::<u8>::empty() =~= h);
    bytes::lemma_u16_at(h, 0, encode_utf8(e.path).len());
    bytes::lemma_u32_at(h, 2 + n, e.mode as nat);
    bytes::lemma_u64_at(h, 6 + n, i64_bits(e.mtime));
    bytes::lemma_u64_at(h, 14 + n, e.orig_size as nat);
    bytes::lemma_u64_at(h, 22 + n, e.stored_size as nat);
    bytes::lemma_u32_at(h, 32 + n, e.crc as nat);
}

/// Reads the header at the start of `head`.
pub fn read_entry_header(head: &[u8], offset: u64) -> (r: Option<EntryMeta>)
    ensures
        match (r, entry_at(head@, offset)) {
            (Some(m), Some(e)) => m@ == e,
            (None, None) => true,
            _ => false,
        },
{
    let total: usize = head.len();
    if total < 2 {
        return None;
    }
    let n: usize = bytes::get_u16(head, 0) as usize;
    if total < 36 + n {
        return None;
    }
    let path = from_utf8_lossy(&head[2..2 + n]);
    Some(
        EntryMeta {
            path,
            mode: bytes::get_u32(head, 2 + n),
            mtime: from_bits(bytes::get_u64(head, 6 + n)),
            orig_size: bytes::get_u64(head, 14 + n),
            stored_size: bytes::get_u64(head, 22 + n),
            method: head[30 + n],
            stored_raw: head[31 + n] != 0,
            crc: bytes::get_u32(head, 32 + n),
            offset,
        },
    )
}

/// Appends a path behind its length.
pub fn push_path(out: &mut Vec<u8>, path: &str)
    ensures
        final(out)@ == old(out)@ + path_bytes(path@),
{
    let ghost before = out@;
    let p = path.as_bytes();
    bytes::push_u16(out, p.len() as u64);
    out.extend_from_slice(p);
    assert(out@ =~= before + path_bytes(path@));
}

/// Appends the fields that are known when the data has been seen.
pub fn push_sizes(out: &mut Vec<u8>, orig: u64, stored: u64, method: u8, raw: bool, crc: u32)
    ensures
        final(out)@ == old(out)@ + size_bytes(orig, stored, method, raw, crc),
{
    let ghost before = out@;
    bytes::push_u64(out, orig);
    bytes::push_u64(out, stored);
    out.push(method);
    out.push(
        if raw {
            1
        } else {
            0
        },
    );
    bytes::push_u32(out, crc as u64);
    reveal(size_bytes);
    assert(out@ =~= before + size_bytes(orig, stored, method, raw, crc));
}

/// Appends a header.
pub fn push_header(out: &mut Vec<u8>, m: &EntryMeta)
    ensures
        final(out)@ == old(out)@ + header_bytes(m@),
{
    let ghost before = out@;
    push_path(out, m.path.as_str());
    bytes::push_u32(out, m.mode as u64);
    bytes::push_u64(out, to_bits(m.mtime));
    push_sizes(out, m.orig_size, m.stored_size, m.method, m.stored_raw, m.crc);
    reveal(header_bytes);
    assert(out@ =~= before + header_bytes(m@));
}

} // verus!
