//! Archives put together.

use crate::archive::container;
use crate::archive::directory;
use crate::archive::entry;
use crate::archive::entry::{Entry, EntryMeta};
use crate::archive::member;
use crate::archive::member::{Press, StoredData};
use crate::bytes;
use crate::crc;
use vstd::prelude::*;
use vstd::string::*;
use vstd::utf8::*;

verus! {

/// What came of putting an archive together.
#[derive(Clone, Copy)]
pub struct CreateStats {
    pub files: usize,
    pub orig_total: u64,
    pub stored_total: u64,
}

/// The room that an archive may need: the data as it is, one percent and 1 MiB.
pub fn required_space(total: u64) -> (r: u64)
    requires
        total + total / 100 + 1048576 <= u64::MAX,
    ensures
        r == total + total / 100 + 1048576,
{
    total + total / 100 + 1048576
}

// ---- the members one by one ----

/// Keeps the index while the members are written.
pub struct ArchiveBuilder {
    /// Where the next member starts.
    pub offset: u64,
    pub entries: Vec<EntryMeta>,
    pub stats: CreateStats,
}

/// What a header says of a member.
pub open spec fn entry_with(
    path: Seq<char>,
    mode: u32,
    mtime: i64,
    orig: u64,
    stored: u64,
    method: u8,
    raw: bool,
    crc: u32,
    offset: u64,
) -> Entry {
    Entry {
        path,
        mode,
        mtime,
        orig_size: orig,
        stored_size: stored,
        method,
        stored_raw: raw,
        crc,
        offset,
    }
}

impl ArchiveBuilder {
    /// Nothing is written but what comes in front of the members.
    pub fn new() -> (r: Self)
        ensures
            r.offset == 9,
            r.entries@.len() == 0,
            r.stats == (CreateStats { files: 0, orig_total: 0, stored_total: 0 }),
    {
        ArchiveBuilder {
            offset: 9,
            entries: Vec::new(),
            stats: CreateStats { files: 0, orig_total: 0, stored_total: 0 },
        }
    }

    /// There is room for one more member.
    pub open spec fn takes(&self, path: Seq<char>, orig: u64, stored: u64) -> bool {
        &&& self.offset + entry::header_len(encode_utf8(path).len()) + stored <= u64::MAX
        &&& self.stats.files < usize::MAX
        &&& self.stats.orig_total + orig <= u64::MAX
        &&& self.stats.stored_total + stored <= u64::MAX
    }

    /// With one more member.
    pub open spec fn added(&self, e: Entry, now: &ArchiveBuilder) -> bool {
        &&& entry::entries_of(now.entries@) == entry::entries_of(self.entries@).push(e)
        &&& now.offset == self.offset + entry::header_bytes(e).len() + e.stored_size
        &&& now.stats.files == self.stats.files + 1
        &&& now.stats.orig_total == self.stats.orig_total + e.orig_size
        &&& now.stats.stored_total == self.stats.stored_total + e.stored_size
    }

    fn enter(&mut self, m: EntryMeta, head: u64)
        requires
            m.offset == old(self).offset,
            head == entry::header_bytes(m@).len(),
            old(self).offset + head + m.stored_size <= u64::MAX,
            old(self).stats.files < usize::MAX,
            old(self).stats.orig_total + m.orig_size <= u64::MAX,
            old(self).stats.stored_total + m.stored_size <= u64::MAX,
        ensures
            old(self).added(m@, final(self)),
    {
        let ghost before = self.entries@;
        let ghost e = m@;
        self.offset = self.offset + head + m.stored_size;
        self.stats.files = self.stats.files + 1;
        self.stats.orig_total = self.stats.orig_total + m.orig_size;
        self.stats.stored_total = self.stats.stored_total + m.stored_size;
        self.entries.push(m);
        assert(entry::entries_of(self.entries@) =~= entry::entries_of(before).push(e));
    }

    /// Adds a member and gives its header. The payload comes behind it.
    pub fn add(
        &mut self,
        path: &str,
        mode: u32,
        mtime: i64,
        orig_size: u64,
        stored: &StoredData,
    ) -> (head: Vec<u8>)
        requires
            old(self).takes(path@, orig_size, stored.payload@.len() as u64),
        ensures
            ({
                let e = entry_with(
                    path@,
                    mode,
                    mtime,
                    orig_size,
                    stored.payload@.len() as u64,
                    stored.method,
                    stored.stored_raw,
                    stored.crc,
                    old(self).offset,
                );
                &&& head@ == entry::header_bytes(e)
                &&& old(self).added(e, final(self))
            }),
    {
        let m = EntryMeta {
            path: path.to_string(),
            mode,
            mtime,
            orig_size,
            stored_size: stored.payload.len() as u64,
            method: stored.method,
            stored_raw: stored.stored_raw,
            crc: stored.crc,
            offset: self.offset,
        };
        let mut head: Vec<u8> = Vec::new();
        entry::push_header(&mut head, &m);
        proof {
            entry::lemma_header_len(m@);
            assert(head@ =~= entry::header_bytes(m@));
        }
        self.enter(m, head.len() as u64);
        head
    }

    /// The header of a member that is streamed, while its sizes are not known.
    pub fn reserve(&self, path: &str, mode: u32, mtime: i64) -> (head: Vec<u8>)
        ensures
            head@ == entry::header_bytes(
                entry_with(path@, mode, mtime, 0, 0, 0, false, 0, self.offset),
            ),
    {
        let m = EntryMeta {
            path: path.to_string(),
            mode,
            mtime,
            orig_size: 0,
            stored_size: 0,
            method: 0,
            stored_raw: false,
            crc: 0,
            offset: self.offset,
        };
        let mut head: Vec<u8> = Vec::new();
        entry::push_header(&mut head, &m);
        assert(head@ =~= entry::header_bytes(m@));
        head
    }

    /// Adds a member that was streamed. Gives the place in the archive where its header is
    /// completed, and the bytes that go there.
    pub fn add_streamed(
        &mut self,
        path: &str,
        mode: u32,
        mtime: i64,
        orig_size: u64,
        stored_size: u64,
        method: u8,
        crc: u32,
    ) -> (r: (u64, Vec<u8>))
        requires
            old(self).takes(path@, orig_size, stored_size),
        ensures
            r.0 == old(self).offset + 14 + encode_utf8(path@).len(),
            r.1@ == entry::size_bytes(orig_size, stored_size, method, false, crc),
            old(self).added(
                entry_with(
                    path@,
                    mode,
                    mtime,
                    orig_size,
                    stored_size,
                    method,
                    false,
                    crc,
                    old(self).offset,
                ),
                final(self),
            ),
    {
        let m = EntryMeta {
            path: path.to_string(),
            mode,
            mtime,
            orig_size,
            stored_size,
            method,
            stored_raw: false,
            crc,
            offset: self.offset,
        };
        self.complete(m)
    }

    /// Adds a member that was streamed but is stored as it is, because nothing was gained. Gives
    /// the place in the archive where its reserved header is completed, and the bytes that go there.
    pub fn add_raw(&mut self, path: &str, mode: u32, mtime: i64, size: u64, crc: u32) -> (r: (
        u64,
        Vec<u8>,
    ))
        requires
            old(self).takes(path@, size, size),
        ensures
            r.0 == old(self).offset + 14 + encode_utf8(path@).len(),
            r.1@ == entry::size_bytes(size, size, 0, true, crc),
            old(self).added(
                entry_with(path@, mode, mtime, size, size, 0, true, crc, old(self).offset),
                final(self),
            ),
    {
        let m = EntryMeta {
            path: path.to_string(),
            mode,
            mtime,
            orig_size: size,
            stored_size: size,
            method: 0,
            stored_raw: true,
            crc,
            offset: self.offset,
        };
        self.complete(m)
    }

    /// Adds a member whose header is reserved.
    fn complete(&mut self, m: EntryMeta) -> (r: (u64, Vec<u8>))
        requires
            m.offset == old(self).offset,
            old(self).takes(m.path@, m.orig_size, m.stored_size),
        ensures
            r.0 == old(self).offset + 14 + encode_utf8(m.path@).len(),
            r.1@ == entry::size_bytes(m.orig_size, m.stored_size, m.method, m.stored_raw, m.crc),
            old(self).added(m@, final(self)),
    {
        let n: usize = m.path.as_str().as_bytes().len();
        let place: u64 = self.offset + 14 + n as u64;
        let mut patch: Vec<u8> = Vec::new();
        entry::push_sizes(
            &mut patch,
            m.orig_size,
            m.stored_size,
            m.method,
            m.stored_raw,
            m.crc,
        );
        proof {
            entry::lemma_header_len(m@);
            assert(patch@ =~= entry::size_bytes(
                m.orig_size,
                m.stored_size,
                m.method,
                m.stored_raw,
                m.crc,
            ));
        }
        self.enter(m, 36 + n as u64);
        (place, patch)
    }

    /// The index, which comes behind the last member.
    pub fn directory(&self) -> (out: Vec<u8>)
        ensures
            out@ == directory::directory_bytes(
                entry::entries_of(self.entries@),
                member::FORMAT_VERSION,
                self.offset as nat,
            ),
    {
        directory::write_directory(&self.entries, member::FORMAT_VERSION, self.offset)
    }
}

/// `part` written over `s` from `at` on.
pub open spec fn written_over(s: Seq<u8>, at: int, part: Seq<u8>) -> Seq<u8> {
    s.take(at) + part + s.skip(at + part.len())
}

/// A reserved header that is completed is the header of the member.
pub proof fn lemma_completed(e: Entry)
    ensures
        ({
            let reserved = entry_with(e.path, e.mode, e.mtime, 0, 0, 0, false, 0, e.offset);
            let patch = entry::size_bytes(
                e.orig_size,
                e.stored_size,
                e.method,
                e.stored_raw,
                e.crc,
            );
            written_over(
                entry::header_bytes(reserved),
                14 + encode_utf8(e.path).len() as int,
                patch,
            ) == entry::header_bytes(e)
        }),
{
    reveal(entry::header_bytes);
    reveal(entry::size_bytes);
    let old_sizes = entry::size_bytes(0, 0, 0, false, 0);
    let sizes = entry::size_bytes(e.orig_size, e.stored_size, e.method, e.stored_raw, e.crc);
    lemma_replace(
        bytes::le16(encode_utf8(e.path).len()),
        encode_utf8(e.path),
        bytes::le32(e.mode as nat),
        bytes::le64(entry::i64_bits(e.mtime)),
        old_sizes,
        sizes,
    );
}

proof fn lemma_replace(
    l: Seq<u8>,
    p: Seq<u8>,
    mode: Seq<u8>,
    time: Seq<u8>,
    a: Seq<u8>,
    b: Seq<u8>,
)
    requires
        l.len() == 2,
        mode.len() == 4,
        time.len() == 8,
        a.len() == b.len(),
    ensures
        written_over((l + p) + (mode + time + a), 14 + p.len() as int, b) == (l + p) + (mode + time
            + b),
{
    let s = (l + p) + (mode + time + a);
    assert(written_over(s, 14 + p.len() as int, b) =~= (l + p) + (mode + time + b));
}

// ---- a whole archive ----

/// A file that goes into an archive. `skip_shuffle` is what its entropy says.
pub struct InputMember {
    pub path: String,
    pub mode: u32,
    pub mtime: i64,
    pub data: Vec<u8>,
    pub skip_shuffle: bool,
}

pub struct Source {
    pub path: Seq<char>,
    pub mode: u32,
    pub mtime: i64,
    pub data: Seq<u8>,
    pub skip_shuffle: bool,
}

impl View for InputMember {
    type V = Source;

    open spec fn view(&self) -> Source {
        Source {
            path: self.path@,
            mode: self.mode,
            mtime: self.mtime,
            data: self.data@,
            skip_shuffle: self.skip_shuffle,
        }
    }
}

pub open spec fn sources_of(v: Seq<InputMember>) -> Seq<Source> {
    Seq::new(v.len(), |k: int| v[k]@)
}

impl Source {
    pub open spec fn coded(self, p: Press) -> member::Coded {
        member::coded(p, self.data, self.skip_shuffle)
    }

    /// What the header at `offset` says of the file.
    pub open spec fn entry(self, p: Press, offset: nat) -> Entry {
        let c = self.coded(p);
        entry_with(
            self.path,
            self.mode,
            self.mtime,
            self.data.len() as u64,
            c.payload.len() as u64,
            c.method,
            c.raw,
            crc::crc_of(self.data),
            offset as u64,
        )
    }

    /// The header and the payload.
    pub open spec fn bytes(self, p: Press) -> Seq<u8> {
        entry::header_bytes(self.entry(p, 0)) + self.coded(p).payload
    }
}

/// The first `k` members.
pub open spec fn members_bytes(p: Press, v: Seq<Source>, k: nat) -> Seq<u8>
    decreases k,
{
    if k == 0 {
        Seq::empty()
    } else {
        members_bytes(p, v, (k - 1) as nat) + v[k - 1].bytes(p)
    }
}

/// Where member `k` starts.
pub open spec fn offset_of(p: Press, v: Seq<Source>, k: nat) -> nat {
    9 + members_bytes(p, v, k).len()
}

pub open spec fn entries_for(p: Press, v: Seq<Source>) -> Seq<Entry> {
    Seq::new(v.len(), |k: int| v[k].entry(p, offset_of(p, v, k as nat)))
}

/// The archive but for the index.
pub open spec fn body_bytes(p: Press, v: Seq<Source>) -> Seq<u8> {
    container::front_bytes(v.len()) + members_bytes(p, v, v.len())
}

pub open spec fn archive_bytes(p: Press, v: Seq<Source>) -> Seq<u8> {
    body_bytes(p, v) + directory::directory_bytes(
        entries_for(p, v),
        member::FORMAT_VERSION,
        offset_of(p, v, v.len()),
    )
}

/// The size of the data of the first `k` files.
pub open spec fn orig_total(v: Seq<Source>, k: nat) -> nat
    decreases k,
{
    if k == 0 {
        0
    } else {
        orig_total(v, (k - 1) as nat) + v[k - 1].data.len()
    }
}

/// The size of what is stored of the first `k` files.
pub open spec fn stored_total(p: Press, v: Seq<Source>, k: nat) -> nat
    decreases k,
{
    if k == 0 {
        0
    } else {
        stored_total(p, v, (k - 1) as nat) + v[k - 1].coded(p).payload.len()
    }
}

proof fn lemma_totals(p: Press, v: Seq<Source>, k: nat)
    ensures
        stored_total(p, v, k) <= members_bytes(p, v, k).len(),
    decreases k,
{
    if k > 0 {
        lemma_totals(p, v, (k - 1) as nat);
    }
}

proof fn lemma_orig_total(v: Seq<Source>, j: nat, k: nat)
    requires
        j <= k,
    ensures
        orig_total(v, j) <= orig_total(v, k),
    decreases k,
{
    if j < k {
        lemma_orig_total(v, j, (k - 1) as nat);
    }
}

/// Puts an archive together.
pub fn create(members: &[InputMember], press: Press) -> (r: Result<(Vec<u8>, CreateStats), String>)
    requires
        members@.len() <= u32::MAX,
        orig_total(sources_of(members@), members@.len()) <= u64::MAX,
        forall|k: int|
            0 <= k < members@.len() ==> press.fits((#[trigger] members@[k]).data@.len())
                && member::countable(press, members@[k].data@),
    ensures
        ({
            let v = sources_of(members@);
            match r {
                Err(e) => v.len() == 0 && e@ == "no regular files to archive"@,
                Ok((out, stats)) => {
                    &&& v.len() > 0
                    &&& out@ == archive_bytes(press, v)
                    &&& stats.files == v.len()
                    &&& stats.orig_total == orig_total(v, v.len())
                    &&& stats.stored_total == stored_total(press, v, v.len())
                },
            }
        }),
{
    let n: usize = members.len();
    if n == 0 {
        return Err("no regular files to archive".to_string());
    }
    let ghost v = sources_of(members@);
    let mut out = container::write_front(n as u32);
    let mut builder = ArchiveBuilder::new();
    let mut i: usize = 0;
    proof {
        assert(out@ =~= container::front_bytes(v.len()) + members_bytes(press, v, 0));
        assert(entry::entries_of(builder.entries@) =~= entries_for(press, v).take(0));
        assert(out@.len() == 9);
    }
    while i < n
        invariant
            i <= n,
            n == members@.len(),
            n <= u32::MAX,
            v == sources_of(members@),
            orig_total(v, n as nat) <= u64::MAX,
            forall|k: int|
                0 <= k < members@.len() ==> press.fits((#[trigger] members@[k]).data@.len())
                    && member::countable(press, members@[k].data@),
            out@ == container::front_bytes(v.len()) + members_bytes(press, v, i as nat),
            out@.len() == offset_of(press, v, i as nat),
            builder.offset == out@.len(),
            entry::entries_of(builder.entries@) == entries_for(press, v).take(i as int),
            builder.stats.files == i,
            builder.stats.orig_total == orig_total(v, i as nat),
            builder.stats.stored_total == stored_total(press, v, i as nat),
        decreases n - i,
    {
        let m = &members[i];
        let ghost s = v[i as int];
        assert(member::countable(press, members@[i as int].data@));
        let size: usize = m.data.len();
        let stored = member::store(m.data.as_slice(), press, m.skip_shuffle);
        let ghost out0 = out@;
        let ghost e = s.entry(press, offset_of(press, v, i as nat));
        let before: usize = out.len();
        let meta = EntryMeta {
            path: m.path.clone(),
            mode: m.mode,
            mtime: m.mtime,
            orig_size: size as u64,
            stored_size: stored.payload.len() as u64,
            method: stored.method,
            stored_raw: stored.stored_raw,
            crc: stored.crc,
            offset: builder.offset,
        };
        entry::push_header(&mut out, &meta);
        let head: u64 = (out.len() - before) as u64;
        let mut payload = stored.payload;
        out.append(&mut payload);
        let end: usize = out.len();
        proof {
            assert(meta@ == e);
            entry::lemma_header_place(s.entry(press, 0), e.offset);
            lemma_totals(press, v, i as nat);
            lemma_orig_total(v, (i + 1) as nat, n as nat);
            assert(end == out0.len() + head + s.coded(press).payload.len());
        }
        builder.enter(meta, head);
        proof {
            assert(out@ =~= out0 + s.bytes(press));
            assert(out@ =~= container::front_bytes(v.len()) + members_bytes(
                press,
                v,
                (i + 1) as nat,
            ));
            assert(entries_for(press, v).take(i + 1) =~= entries_for(press, v).take(i as int).push(
                e,
            ));
        }
        i += 1;
    }
    proof {
        assert(entries_for(press, v).take(n as int) =~= entries_for(press, v));
    }
    let mut tail = builder.directory();
    out.append(&mut tail);
    Ok((out, builder.stats))
}

} // verus!
