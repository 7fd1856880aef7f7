//! An archive held in memory: listing, testing and extracting.
//!
//! An archive starts with four bytes of magic, the version (1) and the number of
//! members (4). The members follow, each a header and its payload, and then the
//! index. Without a usable index the headers are read one after the other.

use crate::archive::directory;
use crate::archive::entry;
use crate::archive::entry::{Entry, EntryMeta};
use crate::archive::member;
use crate::archive::walk;
use crate::archive::walk::Walk;
use crate::bytes;
use crate::codec::stream;
use crate::crc;
use crate::paths;
use crate::text;
use vstd::prelude::*;
use vstd::string::*;

verus! {

/// The first bytes of an archive.
pub const MAGIC: [u8; 4] = [66, 78, 67, 49];

/// The bytes in front of the first member.
pub const FRONT: usize = 9;

// ---- the front ----

pub open spec fn magic() -> Seq<u8> {
    seq![66u8, 78u8, 67u8, 49u8]
}

pub open spec fn front_bytes(count: nat) -> Seq<u8> {
    magic() + seq![member::FORMAT_VERSION] + bytes::le32(count)
}

/// The number of members, if this is an archive.
pub open spec fn opened(data: Seq<u8>) -> Result<nat, Seq<char>> {
    if data.len() < 4 || data.take(4) != magic() {
        Err("not a bounce archive (bad magic)"@)
    } else if data.len() < 5 {
        Err(stream::cut_short())
    } else if data[4] != member::FORMAT_VERSION {
        Err("unsupported archive version "@ + text::dec(data[4] as nat))
    } else if data.len() < 9 {
        Err(stream::cut_short())
    } else {
        Ok(bytes::u32_at(data, 5))
    }
}

/// What comes in front of the members is read back.
pub proof fn lemma_front_roundtrip(count: nat, rest: Seq<u8>)
    requires
        count <= u32::MAX,
    ensures
        opened(front_bytes(count) + rest) == Ok::<nat, Seq<char>>(count),
{
    let data = front_bytes(count) + rest;
    assert(data.take(4) =~= magic());
    assert(data.subrange(5, 9) =~= bytes::le32(count));
    bytes::lemma_u32_at(data, 5, count);
}

/// The number of members and the version, by the first nine bytes.
pub fn open_archive(data: &[u8]) -> (r: Result<(u32, u8), String>)
    ensures
        match (r, opened(data@)) {
            (Ok((count, version)), Ok(want)) => count == want && version == member::FORMAT_VERSION,
            (Err(e), Err(m)) => e@ == m,
            _ => false,
        },
{
    let n: usize = data.len();
    proof {
        if n >= 4 {
            let t = data@.take(4);
            assert(t.len() == 4);
            if data@[0] == 66 && data@[1] == 78 && data@[2] == 67 && data@[3] == 49 {
                assert(t =~= magic());
            } else {
                assert(t[0] == data@[0] && t[1] == data@[1] && t[2] == data@[2] && t[3]
                    == data@[3]);
                assert(t != magic());
            }
        }
    }
    if n < 4 || data[0] != MAGIC[0] || data[1] != MAGIC[1] || data[2] != MAGIC[2] || data[3]
        != MAGIC[3] {
        return Err("not a bounce archive (bad magic)".to_string());
    }
    if n < 5 {
        return Err("failed to fill whole buffer".to_string());
    }
    let version: u8 = data[4];
    if version != member::FORMAT_VERSION {
        return Err(text::with_number("unsupported archive version ", version as u64));
    }
    if n < 9 {
        return Err("failed to fill whole buffer".to_string());
    }
    Ok((bytes::get_u32(data, 5), version))
}

/// What comes in front of `count` members.
pub fn write_front(count: u32) -> (out: Vec<u8>)
    ensures
        out@ == front_bytes(count as nat),
{
    let mut out: Vec<u8> = Vec::new();
    out.push(MAGIC[0]);
    out.push(MAGIC[1]);
    out.push(MAGIC[2]);
    out.push(MAGIC[3]);
    out.push(member::FORMAT_VERSION);
    bytes::push_u32(&mut out, count as u64);
    assert(out@ =~= front_bytes(count as nat));
    out
}

// ---- walking over the members ----

/// The data from `pos` on.
pub open spec fn from_pos(data: Seq<u8>, pos: int) -> Seq<u8> {
    if 0 <= pos <= data.len() {
        data.skip(pos)
    } else {
        Seq::empty()
    }
}

/// What is said where a size would lead back before the start.
pub open spec fn bad_seek() -> Seq<char> {
    "invalid seek to a negative or overflowing position"@
}

/// Where the payload of the member at `pos` starts.
pub open spec fn payload_start(data: Seq<u8>, pos: int) -> int {
    pos + entry::header_len_at(from_pos(data, pos))
}

/// Where a member ends that is passed over. Its size is taken as a signed number.
pub open spec fn passed(data: Seq<u8>, pos: int, e: Entry) -> int {
    payload_start(data, pos) + entry::i64_of(e.stored_size as nat)
}

/// The headers of `k` members from `pos` on.
pub open spec fn scanned(data: Seq<u8>, pos: int, k: nat) -> Result<Seq<Entry>, Seq<char>>
    decreases k,
{
    if k == 0 {
        Ok(Seq::empty())
    } else {
        match entry::entry_at(from_pos(data, pos), pos as u64) {
            None => Err(stream::cut_short()),
            Some(e) => if passed(data, pos, e) < 0 {
                Err(bad_seek())
            } else {
                match scanned(data, passed(data, pos, e), (k - 1) as nat) {
                    Err(m) => Err(m),
                    Ok(more) => Ok(seq![e] + more),
                }
            },
        }
    }
}

/// The members of an archive: those of the index, or those that the headers tell of.
pub open spec fn listed(data: Seq<u8>) -> Result<Seq<Entry>, Seq<char>> {
    match opened(data) {
        Err(m) => Err(m),
        Ok(count) => match directory::cd_index(data, count, member::FORMAT_VERSION) {
            Some(v) => Ok(v),
            None => scanned(data, 9, count),
        },
    }
}

/// Behind the end there is no header.
pub proof fn lemma_no_entry(data: Seq<u8>, pos: int, k: nat)
    requires
        pos >= data.len(),
    ensures
        scanned(data, pos, k) == scanned(data, data.len() as int, k),
{
    assert(from_pos(data, pos).len() == 0);
    assert(from_pos(data, data.len() as int).len() == 0);
}

/// Reads the header of the member at `pos`, and gives the place where its payload starts.
fn header_at(data: &[u8], pos: usize) -> (r: Option<(EntryMeta, usize)>)
    requires
        pos <= data@.len(),
    ensures
        match (r, entry::entry_at(from_pos(data@, pos as int), pos as u64)) {
            (Some((m, start)), Some(e)) => m@ == e && start == payload_start(data@, pos as int)
                && start <= data@.len(),
            (None, None) => true,
            _ => false,
        },
{
    let total: usize = data.len();
    let rest = &data[pos..total];
    assert(rest@ =~= from_pos(data@, pos as int));
    match entry::read_entry_header(rest, pos as u64) {
        None => None,
        Some(m) => {
            let n: usize = bytes::get_u16(rest, 0) as usize;
            Some((m, pos + 36 + n))
        },
    }
}

/// The place behind a payload that is passed over, or the end of the data where it lies behind
/// that.
fn pass(start: usize, stored: u64, total: usize) -> (r: Option<usize>)
    requires
        start <= total,
        total <= u64::MAX,
    ensures
        ({
            let next = start + entry::i64_of(stored as nat);
            match r {
                None => next < 0,
                Some(p) => next >= 0 && p == if next <= total {
                    next
                } else {
                    total as int
                },
            }
        }),
{
    let next: i128 = start as i128 + entry::from_bits(stored) as i128;
    if next < 0 {
        None
    } else if next <= total as i128 {
        Some(next as usize)
    } else {
        Some(total)
    }
}

/// Reads the headers one after the other.
fn scan(data: &[u8], count: u32) -> (r: Result<Vec<EntryMeta>, String>)
    requires
        data@.len() >= 9,
    ensures
        match (r, scanned(data@, 9, count as nat)) {
            (Ok(v), Ok(want)) => entry::entries_of(v@) == want,
            (Err(e), Err(m)) => e@ == m,
            _ => false,
        },
{
    let total: usize = data.len();
    let ghost want = scanned(data@, 9, count as nat);
    let mut out: Vec<EntryMeta> = Vec::new();
    let mut pos: usize = 9;
    let mut i: u32 = 0;
    proof {
        assert(entry::entries_of(out@) =~= Seq::empty());
        lemma_front_of(entry::entries_of(out@), want);
    }
    while i < count
        invariant
            i <= count,
            total == data@.len(),
            total <= u64::MAX,
            pos <= total,
            want == scanned(data@, 9, count as nat),
            want == ahead(
                entry::entries_of(out@),
                scanned(data@, pos as int, (count - i) as nat),
            ),
        decreases count - i,
    {
        let (m, start) = match header_at(data, pos) {
            None => {
                return Err("failed to fill whole buffer".to_string());
            },
            Some(x) => x,
        };
        let next = match pass(start, m.stored_size, total) {
            None => {
                return Err("invalid seek to a negative or overflowing position".to_string());
            },
            Some(p) => p,
        };
        let ghost e = m@;
        let ghost before = out@;
        out.push(m);
        proof {
            let k = (count - i - 1) as nat;
            if passed(data@, pos as int, e) > total {
                lemma_no_entry(data@, passed(data@, pos as int, e), k);
            }
            assert(entry::entries_of(out@) =~= entry::entries_of(before).push(e));
            lemma_ahead_push(entry::entries_of(before), e, scanned(data@, next as int, k));
        }
        pos = next;
        i += 1;
    }
    proof {
        assert(entry::entries_of(out@) + Seq::<Entry>::empty() =~= entry::entries_of(out@));
    }
    Ok(out)
}

/// `head` in front of what comes, if it comes.
pub open spec fn ahead<T>(head: Seq<T>, r: Result<Seq<T>, Seq<char>>) -> Result<Seq<T>, Seq<char>> {
    match r {
        Err(m) => Err(m),
        Ok(more) => Ok(head + more),
    }
}

proof fn lemma_front_of<T>(head: Seq<T>, r: Result<Seq<T>, Seq<char>>)
    requires
        head.len() == 0,
    ensures
        ahead(head, r) == r,
{
    if r is Ok {
        assert(head + r->Ok_0 =~= r->Ok_0);
    }
}

proof fn lemma_ahead_push<T>(head: Seq<T>, x: T, r: Result<Seq<T>, Seq<char>>)
    ensures
        ahead(head, ahead(seq![x], r)) == ahead(head.push(x), r),
{
    if r is Ok {
        assert(head + (seq![x] + r->Ok_0) =~= head.push(x) + r->Ok_0);
    }
}

/// Lists the members of an archive.
pub fn list_entries(data: &[u8]) -> (r: Result<Vec<EntryMeta>, String>)
    ensures
        match (r, listed(data@)) {
            (Ok(v), Ok(want)) => entry::entries_of(v@) == want,
            (Err(e), Err(m)) => e@ == m,
            _ => false,
        },
{
    let (count, version) = match open_archive(data) {
        Err(e) => {
            return Err(e);
        },
        Ok(x) => x,
    };
    match directory::read_cd_index(data, count, version) {
        Some(v) => Ok(v),
        None => scan(data, count),
    }
}

// ---- testing ----

/// The member at `pos` with its data, if the data is what the header says. `ending` is put behind
/// the message where the checksum is wrong.
pub open spec fn member_at(data: Seq<u8>, pos: int, ending: Seq<char>) -> Result<
    (Entry, Seq<u8>),
    Seq<char>,
> {
    match entry::entry_at(from_pos(data, pos), pos as u64) {
        None => Err(stream::cut_short()),
        Some(e) => match member::extracted(
            e,
            from_pos(data, payload_start(data, pos)),
            member::FORMAT_VERSION,
        ) {
            Err(m) => Err(m),
            Ok(v) => match member::mismatch(e, v.len(), crc::crc_of(v), ending) {
                Some(m) => Err(m),
                None => Ok((e, v)),
            },
        },
    }
}

/// Where the member at `pos` ends.
pub open spec fn behind_member(data: Seq<u8>, pos: int, e: Entry) -> int {
    payload_start(data, pos) + e.stored_size
}

/// The `k` members from `pos` on are what their headers say.
pub open spec fn sound_from(data: Seq<u8>, pos: int, k: nat) -> Result<(), Seq<char>>
    decreases k,
{
    if k == 0 {
        Ok(())
    } else {
        match member_at(data, pos, ""@) {
            Err(m) => Err(m),
            Ok((e, v)) => sound_from(data, behind_member(data, pos, e), (k - 1) as nat),
        }
    }
}

/// The number of members, if all of them are what their headers say.
pub open spec fn tested(data: Seq<u8>) -> Result<nat, Seq<char>> {
    match opened(data) {
        Err(m) => Err(m),
        Ok(count) => match sound_from(data, 9, count) {
            Err(m) => Err(m),
            Ok(_) => Ok(count),
        },
    }
}

/// Reads the data of a member whose payload starts at `start`.
fn payload_at(data: &[u8], m: &EntryMeta, start: usize, ending: &str) -> (r: Result<Vec<u8>, String>)
    requires
        start <= data@.len(),
    ensures
        match (
            r,
            member::extracted(m@, from_pos(data@, start as int), member::FORMAT_VERSION),
        ) {
            (Ok(v), Ok(want)) => v@ == want && member::mismatch(
                m@,
                v@.len(),
                crc::crc_of(v@),
                ending@,
            ) is None,
            (Err(e), Ok(want)) => member::mismatch(
                m@,
                want.len(),
                crc::crc_of(want),
                ending@,
            ) == Some(e@),
            (Err(e), Err(msg)) => e@ == msg,
            _ => false,
        },
{
    let total: usize = data.len();
    let rest = &data[start..total];
    assert(rest@ =~= from_pos(data@, start as int));
    let (v, crc) = match member::extract_entry_payload(rest, m, member::FORMAT_VERSION) {
        Err(e) => {
            return Err(e);
        },
        Ok(x) => x,
    };
    match member::check_member(m, v.len() as u64, crc, ending) {
        Err(e) => Err(e),
        Ok(_) => Ok(v),
    }
}

proof fn lemma_nothing_behind(data: Seq<u8>, pos: int, k: nat)
    requires
        pos >= data.len(),
    ensures
        sound_from(data, pos, k) == sound_from(data, data.len() as int, k),
{
    assert(from_pos(data, pos).len() == 0);
    assert(from_pos(data, data.len() as int).len() == 0);
}

/// The place behind a payload, or the end of the data where it lies behind that.
fn step_over(start: usize, stored: u64, total: usize) -> (r: usize)
    requires
        start <= total,
    ensures
        r == if start + stored <= total {
            start + stored
        } else {
            total as int
        },
{
    if stored <= (total - start) as u64 {
        start + stored as usize
    } else {
        total
    }
}

/// Reads every member and compares it with its header. Gives the number of members.
pub fn test(data: &[u8]) -> (r: Result<usize, String>)
    ensures
        match (r, tested(data@)) {
            (Ok(n), Ok(want)) => n == want,
            (Err(e), Err(m)) => e@ == m,
            _ => false,
        },
{
    let (count, _) = match open_archive(data) {
        Err(e) => {
            return Err(e);
        },
        Ok(x) => x,
    };
    let total: usize = data.len();
    let mut pos: usize = 9;
    let mut i: u32 = 0;
    while i < count
        invariant
            i <= count,
            total == data@.len(),
            pos <= total,
            opened(data@) == Ok::<nat, Seq<char>>(count as nat),
            sound_from(data@, 9, count as nat) == sound_from(
                data@,
                pos as int,
                (count - i) as nat,
            ),
        decreases count - i,
    {
        let (m, start) = match header_at(data, pos) {
            None => {
                return Err("failed to fill whole buffer".to_string());
            },
            Some(x) => x,
        };
        match payload_at(data, &m, start, "") {
            Err(e) => {
                return Err(e);
            },
            Ok(_) => {},
        }
        let next: usize = step_over(start, m.stored_size, total);
        proof {
            if start + m.stored_size > total {
                lemma_nothing_behind(data@, start + m.stored_size, (count - i - 1) as nat);
            }
        }
        pos = next;
        i += 1;
    }
    Ok(count as usize)
}

// ---- extracting ----

/// The member is asked for: by name, or because no name is given.
pub open spec fn is_wanted(filter: Seq<Seq<char>>, path: Seq<char>) -> bool {
    filter.len() == 0 || filter.contains(path)
}

/// A member with its data, and the place where it goes.
pub struct Got {
    pub entry: Entry,
    pub data: Seq<u8>,
    pub target: Seq<char>,
}

/// Where a member goes: under a directory if one is given, else nowhere but by its path.
pub open spec fn target_of(dest: Option<Seq<char>>, path: Seq<char>) -> Result<
    Seq<char>,
    Seq<char>,
> {
    match dest {
        None => Ok(path),
        Some(d) => paths::safe_target(d, path),
    }
}

/// The member at `pos` as it is extracted.
pub open spec fn got_at(data: Seq<u8>, pos: int, dest: Option<Seq<char>>) -> Result<
    Got,
    Seq<char>,
> {
    match entry::entry_at(from_pos(data, pos), pos as u64) {
        None => Err(stream::cut_short()),
        Some(e) => match target_of(dest, e.path) {
            Err(m) => Err(m),
            Ok(target) => match member_at(data, pos, ", aborting"@) {
                Err(m) => Err(m),
                Ok((_, v)) => Ok(Got { entry: e, data: v, target }),
            },
        },
    }
}

/// The members that are asked for among those of the index from the `k`-th on.
pub open spec fn got_by_index(
    data: Seq<u8>,
    index: Seq<Entry>,
    k: nat,
    filter: Seq<Seq<char>>,
    dest: Option<Seq<char>>,
) -> Result<Seq<Got>, Seq<char>>
    decreases index.len() - k,
{
    if k >= index.len() {
        Ok(Seq::empty())
    } else if !filter.contains(index[k as int].path) {
        got_by_index(data, index, k + 1, filter, dest)
    } else {
        match got_at(data, index[k as int].offset as int, dest) {
            Err(m) => Err(m),
            Ok(g) => ahead(seq![g], got_by_index(data, index, k + 1, filter, dest)),
        }
    }
}

/// The members that are asked for among the `k` from `pos` on.
pub open spec fn got_in_order(
    data: Seq<u8>,
    pos: int,
    k: nat,
    filter: Seq<Seq<char>>,
    dest: Option<Seq<char>>,
) -> Result<Seq<Got>, Seq<char>>
    decreases k,
{
    if k == 0 {
        Ok(Seq::empty())
    } else {
        match entry::entry_at(from_pos(data, pos), pos as u64) {
            None => Err(stream::cut_short()),
            Some(e) => if !is_wanted(filter, e.path) {
                if passed(data, pos, e) < 0 {
                    Err(bad_seek())
                } else {
                    got_in_order(data, passed(data, pos, e), (k - 1) as nat, filter, dest)
                }
            } else {
                match got_at(data, pos, dest) {
                    Err(m) => Err(m),
                    Ok(g) => ahead(
                        seq![g],
                        got_in_order(
                            data,
                            behind_member(data, pos, e),
                            (k - 1) as nat,
                            filter,
                            dest,
                        ),
                    ),
                }
            },
        }
    }
}

/// The members that are asked for. Names are looked up in the index if there is a usable one.
pub open spec fn gathered(data: Seq<u8>, filter: Seq<Seq<char>>, dest: Option<Seq<char>>) -> Result<
    Seq<Got>,
    Seq<char>,
> {
    match opened(data) {
        Err(m) => Err(m),
        Ok(count) => {
            let index = directory::cd_index(data, count, member::FORMAT_VERSION);
            if filter.len() > 0 && index is Some {
                got_by_index(data, index->0, 0, filter, dest)
            } else {
                got_in_order(data, 9, count, filter, dest)
            }
        },
    }
}

/// All data, one after the other.
pub open spec fn poured(v: Seq<Got>) -> Seq<u8>
    decreases v.len(),
{
    if v.len() == 0 {
        Seq::empty()
    } else {
        poured(v.drop_last()) + v.last().data
    }
}

/// A member with its data, and the place where it goes.
pub struct Extracted {
    pub target: String,
    pub meta: EntryMeta,
    pub data: Vec<u8>,
}

impl View for Extracted {
    type V = Got;

    open spec fn view(&self) -> Got {
        Got { entry: self.meta@, data: self.data@, target: self.target@ }
    }
}

pub open spec fn all_got(v: Seq<Extracted>) -> Seq<Got> {
    Seq::new(v.len(), |k: int| v[k]@)
}

pub open spec fn text_of(dest: Option<&str>) -> Option<Seq<char>> {
    match dest {
        None => None,
        Some(d) => Some(d@),
    }
}

/// The path is among the names.
pub fn names(filter: &[String], path: &str) -> (r: bool)
    ensures
        r == text::texts_of(filter@).contains(path@),
{
    let n: usize = filter.len();
    let name = path.to_string();
    let mut i: usize = 0;
    while i < n
        invariant
            n == filter@.len(),
            i <= n,
            name@ == path@,
            forall|k: int| 0 <= k < i ==> (#[trigger] text::texts_of(filter@)[k]) != path@,
        decreases n - i,
    {
        if filter[i] == name {
            assert(text::texts_of(filter@)[i as int] == path@);
            return true;
        }
        i += 1;
    }
    false
}

/// The member is asked for: by name, or because no name is given.
pub fn wanted(filter: &[String], path: &str) -> (r: bool)
    ensures
        r == is_wanted(text::texts_of(filter@), path@),
{
    filter.len() == 0 || names(filter, path)
}

/// Extracts a member whose header is read.
fn take_member(data: &[u8], m: EntryMeta, start: usize, pos: Ghost<int>, dest: Option<&str>) -> (r:
    Result<Extracted, String>)
    requires
        start <= data@.len(),
        entry::entry_at(from_pos(data@, pos@), pos@ as u64) == Some(m@),
        start == payload_start(data@, pos@),
    ensures
        match (r, got_at(data@, pos@, text_of(dest))) {
            (Ok(x), Ok(g)) => x@ == g,
            (Err(e), Err(msg)) => e@ == msg,
            _ => false,
        },
{
    let target = match dest {
        None => m.path.clone(),
        Some(d) => match paths::safe_join(d, m.path.as_str()) {
            Err(e) => {
                return Err(e);
            },
            Ok(t) => t,
        },
    };
    match payload_at(data, &m, start, ", aborting") {
        Err(e) => Err(e),
        Ok(v) => Ok(Extracted { target, meta: m, data: v }),
    }
}

/// Behind the end there is nothing to extract.
pub proof fn lemma_none_behind(
    data: Seq<u8>,
    pos: int,
    k: nat,
    filter: Seq<Seq<char>>,
    dest: Option<Seq<char>>,
)
    requires
        pos >= data.len(),
    ensures
        got_in_order(data, pos, k, filter, dest) == got_in_order(
            data,
            data.len() as int,
            k,
            filter,
            dest,
        ),
{
    assert(from_pos(data, pos).len() == 0);
    assert(from_pos(data, data.len() as int).len() == 0);
}

fn gather(data: &[u8], filter: &[String], dest: Option<&str>) -> (r: Result<
    Vec<Extracted>,
    String,
>)
    ensures
        match (r, gathered(data@, text::texts_of(filter@), text_of(dest))) {
            (Ok(v), Ok(want)) => all_got(v@) == want,
            (Err(e), Err(m)) => e@ == m,
            _ => false,
        },
{
    let (count, version) = match open_archive(data) {
        Err(e) => {
            return Err(e);
        },
        Ok(x) => x,
    };
    let index = if filter.len() > 0 {
        directory::read_cd_index(data, count, version)
    } else {
        None
    };
    let total: usize = data.len();
    let ghost f = text::texts_of(filter@);
    let ghost d = text_of(dest);
    let ghost want = gathered(data@, f, d);
    let ghost ix = walk::index_of(index);
    let mut way = Walk::new(filter, count, index);
    let mut out: Vec<Extracted> = Vec::new();
    proof {
        walk::lemma_start(data@, f, d, count as nat, ix);
        assert(all_got(out@) =~= Seq::empty());
        lemma_front_of(all_got(out@), want);
    }
    loop
        invariant
            total == data@.len(),
            total <= u64::MAX,
            d == text_of(dest),
            want == gathered(data@, text::texts_of(filter@), d),
            want == ahead(all_got(out@), way@.rest(data@, d)),
        decreases way@.steps(),
    {
        proof {
            way@.lemma_sought(data@, d);
        }
        let pos: u64 = match way.seek() {
            None => {
                assert(all_got(out@) + Seq::<Got>::empty() =~= all_got(out@));
                return Ok(out);
            },
            Some(p) => p,
        };
        if pos > total as u64 {
            assert(from_pos(data@, pos as int).len() == 0);
            return Err("failed to fill whole buffer".to_string());
        }
        let (m, start) = match header_at(data, pos as usize) {
            None => {
                return Err("failed to fill whole buffer".to_string());
            },
            Some(x) => x,
        };
        let ghost e = m@;
        let ghost before = way@;
        proof {
            before.lemma_step(data@, d, e);
        }
        let asked: bool = match way.visit(&m, start as u64) {
            Err(msg) => {
                return Err(msg);
            },
            Ok(b) => b,
        };
        if asked {
            let x = match take_member(data, m, start, Ghost(pos as int), dest) {
                Err(msg) => {
                    return Err(msg);
                },
                Ok(x) => x,
            };
            let ghost g = x@;
            let ghost had = out@;
            out.push(x);
            proof {
                assert(all_got(out@) =~= all_got(had).push(g));
                lemma_ahead_push(all_got(had), g, way@.rest(data@, d));
            }
        }
    }
}

/// Extracts the members that are asked for, with the places under `dest` where they go.
pub fn extract(data: &[u8], dest: &str, filter: &[String]) -> (r: Result<Vec<Extracted>, String>)
    ensures
        match (r, gathered(data@, text::texts_of(filter@), Some(dest@))) {
            (Ok(v), Ok(want)) => all_got(v@) == want,
            (Err(e), Err(m)) => e@ == m,
            _ => false,
        },
{
    gather(data, filter, Some(dest))
}

/// The data of the members that are asked for, one after the other, and their number.
pub fn extract_to_writer(data: &[u8], filter: &[String]) -> (r: Result<(Vec<u8>, usize), String>)
    ensures
        match (r, gathered(data@, text::texts_of(filter@), None)) {
            (Ok((out, n)), Ok(want)) => out@ == poured(want) && n == want.len(),
            (Err(e), Err(m)) => e@ == m,
            _ => false,
        },
{
    let all = match gather(data, filter, None) {
        Err(e) => {
            return Err(e);
        },
        Ok(v) => v,
    };
    let n: usize = all.len();
    let ghost want = all_got(all@);
    let mut out: Vec<u8> = Vec::new();
    let mut i: usize = 0;
    assert(want.take(0) =~= Seq::empty());
    while i < n
        invariant
            n == all@.len(),
            i <= n,
            want == all_got(all@),
            out@ == poured(want.take(i as int)),
        decreases n - i,
    {
        out.extend_from_slice(all[i].data.as_slice());
        proof {
            assert(want.take(i + 1).drop_last() =~= want.take(i as int));
            assert(out@ =~= poured(want.take(i + 1)));
        }
        i += 1;
    }
    assert(want.take(n as int) =~= want);
    Ok((out, n))
}

/// The size of the data of the members that are asked for.
pub open spec fn wanted_total(v: Seq<Entry>, filter: Seq<Seq<char>>) -> nat
    decreases v.len(),
{
    if v.len() == 0 {
        0
    } else {
        let before = wanted_total(v.drop_last(), filter);
        if is_wanted(filter, v.last().path) {
            before + v.last().orig_size as nat
        } else {
            before
        }
    }
}

/// The size of the data of the members that are asked for. There are no more members than an
/// archive can have.
pub fn wanted_size(entries: &[EntryMeta], filter: &[String]) -> (r: u128)
    requires
        entries@.len() <= u32::MAX,
    ensures
        r == wanted_total(entry::entries_of(entries@), text::texts_of(filter@)),
{
    let n: usize = entries.len();
    let ghost all = entry::entries_of(entries@);
    let ghost f = text::texts_of(filter@);
    let mut sum: u128 = 0;
    let mut i: usize = 0;
    assert(all.take(0) =~= Seq::empty());
    while i < n
        invariant
            n == entries@.len(),
            n <= u32::MAX,
            i <= n,
            all == entry::entries_of(entries@),
            f == text::texts_of(filter@),
            sum == wanted_total(all.take(i as int), f),
            sum <= i * u64::MAX,
        decreases n - i,
    {
        proof {
            assert(all.take(i + 1).drop_last() =~= all.take(i as int));
            assert(all.take(i + 1).last() == entries@[i as int]@);
            assert(i * u64::MAX <= u32::MAX * u64::MAX) by (nonlinear_arith)
                requires
                    i <= u32::MAX,
            ;
        }
        if wanted(filter, entries[i].path.as_str()) {
            sum = sum + entries[i].orig_size as u128;
        }
        i += 1;
    }
    assert(all.take(n as int) =~= all);
    sum
}

} // verus!
