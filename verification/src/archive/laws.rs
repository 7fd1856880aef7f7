//! What an archive gives back of what went into it.

use crate::archive::container;
use crate::archive::container::Got;
use crate::archive::create;
use crate::archive::create::Source;
use crate::archive::directory;
use crate::archive::entry;
use crate::archive::entry::Entry;
use crate::archive::member;
use crate::archive::member::Press;
use crate::bytes;
use crate::crc;
use crate::paths;
use vstd::prelude::*;
use vstd::string::*;
use vstd::utf8::*;

verus! {

/// The headers of an archive of the files can be read again: there are not too many files, and
/// their paths and sizes fit.
pub open spec fn listable(p: Press, v: Seq<Source>) -> bool {
    &&& v.len() <= u32::MAX
    &&& create::body_bytes(p, v).len() <= i64::MAX
    &&& forall|k: int|
        0 <= k < v.len() ==> entry::short_path((#[trigger] v[k]).path) && v[k].data.len()
            <= u64::MAX
}

/// The files can go into an archive.
pub open spec fn archivable(p: Press, v: Seq<Source>) -> bool {
    &&& listable(p, v)
    &&& forall|k: int| 0 <= k < v.len() ==> fine(p, #[trigger] v[k])
}

/// The sizes of the level suit the file, and its blocks can be counted.
pub open spec fn fine(p: Press, s: Source) -> bool {
    &&& p.fits(s.data.len())
    &&& s.data.len() <= usize::MAX
    &&& member::countable(p, s.data)
}

/// The members behind member `k` up to `n`.
spec fn later(p: Press, v: Seq<Source>, k: nat, n: nat) -> Seq<u8>
    decreases n,
{
    if n <= k + 1 {
        Seq::empty()
    } else {
        later(p, v, k, (n - 1) as nat) + v[n - 1].bytes(p)
    }
}

proof fn lemma_split(p: Press, v: Seq<Source>, k: nat, n: nat)
    requires
        k < n,
    ensures
        create::members_bytes(p, v, n) == create::members_bytes(p, v, k) + v[k as int].bytes(p)
            + later(p, v, k, n),
    decreases n,
{
    let a = create::members_bytes(p, v, k);
    let b = v[k as int].bytes(p);
    if n == k + 1 {
        assert(a + b + later(p, v, k, n) =~= a + b);
    } else {
        lemma_split(p, v, k, (n - 1) as nat);
        let l = later(p, v, k, (n - 1) as nat);
        let c = v[n - 1].bytes(p);
        assert(a + b + l + c =~= a + b + (l + c));
    }
}

/// The bytes at the place of member `k`.
proof fn lemma_from_member(p: Press, v: Seq<Source>, k: nat, tail: Seq<u8>)
    requires
        k < v.len(),
    ensures
        ({
            let data = create::body_bytes(p, v) + tail;
            let pos = create::offset_of(p, v, k) as int;
            let rest = later(p, v, k, v.len()) + tail;
            &&& pos <= data.len()
            &&& container::from_pos(data, pos) == v[k as int].bytes(p) + rest
            &&& create::offset_of(p, v, k + 1) == pos + v[k as int].bytes(p).len()
            &&& create::offset_of(p, v, k + 1) <= create::body_bytes(p, v).len()
        }),
{
    lemma_split(p, v, k, v.len());
    let front = container::front_bytes(v.len());
    let a = create::members_bytes(p, v, k);
    let b = v[k as int].bytes(p);
    let l = later(p, v, k, v.len());
    let data = create::body_bytes(p, v) + tail;
    let pos = create::offset_of(p, v, k) as int;
    assert(front.len() == 9);
    assert(data =~= front + a + (b + (l + tail)));
    assert(data.skip(pos) =~= b + (l + tail));
}

/// The header of member `k` is found where it was put, and its payload behind it.
#[verifier::rlimit(50)]
#[verifier::spinoff_prover]
proof fn lemma_header(p: Press, v: Seq<Source>, k: nat, tail: Seq<u8>)
    requires
        listable(p, v),
        k < v.len(),
    ensures
        ({
            let data = create::body_bytes(p, v) + tail;
            let pos = create::offset_of(p, v, k) as int;
            let e = create::entries_for(p, v)[k as int];
            let c = v[k as int].coded(p);
            &&& entry::entry_at(container::from_pos(data, pos), pos as u64) == Some(e)
            &&& container::passed(data, pos, e) == create::offset_of(p, v, k + 1)
            &&& container::behind_member(data, pos, e) == create::offset_of(p, v, k + 1)
            &&& container::from_pos(data, container::payload_start(data, pos)) == c.payload + (
            later(p, v, k, v.len()) + tail)
            &&& member::describes(e, c, v[k as int].data)
        }),
{
    let s = v[k as int];
    let data = create::body_bytes(p, v) + tail;
    let pos = create::offset_of(p, v, k) as int;
    let e = create::entries_for(p, v)[k as int];
    let c = s.coded(p);
    let after = later(p, v, k, v.len()) + tail;
    let head = entry::header_bytes(e);
    assert(entry::short_path(s.path) && s.data.len() <= u64::MAX);
    lemma_from_member(p, v, k, tail);
    entry::lemma_header_place(s.entry(p, 0), e.offset);
    let there = container::from_pos(data, pos);
    assert(there =~= head + (c.payload + after));
    assert(pos <= u64::MAX);
    assert(e.offset == pos);
    entry::lemma_entry_roundtrip(e, c.payload + after);
    let start = container::payload_start(data, pos);
    assert(start == pos + head.len());
    assert(container::from_pos(data, start) =~= c.payload + after) by {
        assert(data.skip(start) =~= data.skip(pos).skip(head.len() as int));
        assert((head + (c.payload + after)).skip(head.len() as int) =~= c.payload + after);
    }
    assert(c.payload.len() <= i64::MAX);
}

/// Member `k` is found where it was put, and its data is what went in.
proof fn lemma_member(p: Press, v: Seq<Source>, k: nat, tail: Seq<u8>)
    requires
        archivable(p, v),
        k < v.len(),
    ensures
        ({
            let data = create::body_bytes(p, v) + tail;
            let pos = create::offset_of(p, v, k) as int;
            let e = create::entries_for(p, v)[k as int];
            forall|ending: Seq<char>|
                #[trigger] container::member_at(data, pos, ending) == Ok::<
                    (Entry, Seq<u8>),
                    Seq<char>,
                >((e, v[k as int].data))
        }),
{
    let s = v[k as int];
    let data = create::body_bytes(p, v) + tail;
    let pos = create::offset_of(p, v, k) as int;
    let e = create::entries_for(p, v)[k as int];
    let after = later(p, v, k, v.len()) + tail;
    assert(fine(p, s));
    lemma_header(p, v, k, tail);
    member::lemma_member_roundtrip(p, s.data, s.skip_shuffle, e, after);
    assert forall|ending: Seq<char>| #[trigger] container::member_at(data, pos, ending) == Ok::<
        (Entry, Seq<u8>),
        Seq<char>,
    >((e, s.data)) by {
        assert(member::mismatch(e, s.data.len(), crc::crc_of(s.data), ending) is None);
    }
}

proof fn lemma_scan_from(p: Press, v: Seq<Source>, k: nat, tail: Seq<u8>)
    requires
        listable(p, v),
        k <= v.len(),
    ensures
        container::scanned(
            create::body_bytes(p, v) + tail,
            create::offset_of(p, v, k) as int,
            (v.len() - k) as nat,
        ) == Ok::<Seq<Entry>, Seq<char>>(create::entries_for(p, v).skip(k as int)),
    decreases v.len() - k,
{
    let all = create::entries_for(p, v);
    if k < v.len() {
        lemma_header(p, v, k, tail);
        lemma_scan_from(p, v, k + 1, tail);
        assert(all.skip(k as int) =~= seq![all[k as int]] + all.skip(k as int + 1));
    } else {
        assert(all.skip(k as int) =~= Seq::empty());
    }
}

/// The headers tell of the files that went in, with or without an index behind them.
pub proof fn lemma_archive_scan(p: Press, v: Seq<Source>, tail: Seq<u8>)
    requires
        listable(p, v),
    ensures
        container::scanned(create::body_bytes(p, v) + tail, 9, v.len()) == Ok::<
            Seq<Entry>,
            Seq<char>,
        >(create::entries_for(p, v)),
{
    lemma_scan_from(p, v, 0, tail);
    let all = create::entries_for(p, v);
    assert(all.skip(0) =~= all);
}

proof fn lemma_front(p: Press, v: Seq<Source>, tail: Seq<u8>)
    requires
        v.len() <= u32::MAX,
    ensures
        container::opened(create::body_bytes(p, v) + tail) == Ok::<nat, Seq<char>>(v.len()),
{
    let front = container::front_bytes(v.len());
    let rest = create::members_bytes(p, v, v.len()) + tail;
    container::lemma_front_roundtrip(v.len(), rest);
    assert(create::body_bytes(p, v) + tail =~= front + rest);
}

#[verifier::rlimit(50)]
#[verifier::spinoff_prover]
proof fn lemma_index(p: Press, v: Seq<Source>)
    requires
        listable(p, v),
    ensures
        directory::cd_index(
            create::archive_bytes(p, v),
            v.len(),
            member::FORMAT_VERSION,
        ) == Some(directory::all_indexed(create::entries_for(p, v), member::FORMAT_VERSION)),
{
    let all = create::entries_for(p, v);
    let body = create::body_bytes(p, v);
    assert(container::front_bytes(v.len()).len() == 9);
    assert(body.len() == create::offset_of(p, v, v.len()));
    assert forall|k: int| 0 <= k < all.len() implies entry::short_path((#[trigger] all[k]).path)
        && all[k].offset < body.len() by {
        assert(entry::short_path(v[k].path));
        lemma_from_member(p, v, k as nat, Seq::empty());
        entry::lemma_header_len(v[k].entry(p, 0));
    }
    directory::lemma_index_roundtrip(body, all, member::FORMAT_VERSION);
}

/// An archive lists the files that went in, as the index keeps them: the time of the last change
/// and the high bits of the mode are not kept there.
pub proof fn lemma_archive_list(p: Press, v: Seq<Source>)
    requires
        listable(p, v),
    ensures
        container::listed(create::archive_bytes(p, v)) == Ok::<Seq<Entry>, Seq<char>>(
            directory::all_indexed(create::entries_for(p, v), member::FORMAT_VERSION),
        ),
{
    lemma_front(
        p,
        v,
        directory::directory_bytes(
            create::entries_for(p, v),
            member::FORMAT_VERSION,
            create::offset_of(p, v, v.len()),
        ),
    );
    lemma_index(p, v);
}

proof fn lemma_last_word(a: Seq<u8>, b: Seq<u8>, w: Seq<u8>)
    requires
        w.len() == 8,
    ensures
        ({
            let all = a + (b + w);
            &&& all.subrange(all.len() - 8, all.len() as int) == w
            &&& all.take(a.len() as int) == a
        }),
{
    let all = a + (b + w);
    assert(all.subrange(all.len() - 8, all.len() as int) =~= w);
    assert(all.take(a.len() as int) =~= a);
}

/// The last eight bytes of an archive say where the index starts, which is where the members end.
pub proof fn lemma_archive_cut(p: Press, v: Seq<Source>)
    requires
        create::body_bytes(p, v).len() <= u64::MAX,
    ensures
        ({
            let archive = create::archive_bytes(p, v);
            let cut = bytes::u64_at(archive, archive.len() - 8) as int;
            archive.take(cut) == create::body_bytes(p, v)
        }),
{
    let body = create::body_bytes(p, v);
    let archive = create::archive_bytes(p, v);
    assert(container::front_bytes(v.len()).len() == 9);
    assert(body.len() == create::offset_of(p, v, v.len()));
    lemma_last_word(
        body,
        directory::index_bytes(create::entries_for(p, v), member::FORMAT_VERSION),
        bytes::le64(body.len()),
    );
    bytes::lemma_u64_at(archive, archive.len() - 8, body.len());
}

/// The listings agree but for the time of the last change and the high bits of the mode.
pub open spec fn same_listing(indexed: Seq<Entry>, full: Seq<Entry>) -> bool {
    &&& indexed.len() == full.len()
    &&& forall|k: int|
        0 <= k < full.len() ==> {
            let a = #[trigger] indexed[k];
            let b = full[k];
            &&& a.path == b.path
            &&& a.orig_size == b.orig_size
            &&& a.stored_size == b.stored_size
            &&& a.method == b.method
            &&& a.stored_raw == b.stored_raw
            &&& a.crc == b.crc
            &&& a.offset == b.offset
            &&& a.mode == b.mode % 65536
        }
}

/// Without its index an archive lists the same files, unless what is left happens to end with an
/// index.
pub proof fn lemma_list_without_index(p: Press, v: Seq<Source>)
    requires
        listable(p, v),
        directory::cd_index(
            create::body_bytes(p, v),
            v.len(),
            member::FORMAT_VERSION,
        ) is None,
    ensures
        ({
            let with = container::listed(create::archive_bytes(p, v));
            let without = container::listed(create::body_bytes(p, v));
            &&& with is Ok && without is Ok
            &&& with->Ok_0.len() == v.len()
            &&& same_listing(with->Ok_0, without->Ok_0)
        }),
{
    let body = create::body_bytes(p, v);
    lemma_archive_list(p, v);
    lemma_archive_scan(p, v, Seq::empty());
    lemma_front(p, v, Seq::empty());
    assert(body + Seq::<u8>::empty() =~= body);
}

/// No file is stored longer than it is, and one that does not shrink is stored as it is.
pub proof fn lemma_entry_sizes(p: Press, v: Seq<Source>, k: int)
    requires
        0 <= k < v.len(),
        v[k].data.len() <= u64::MAX,
    ensures
        ({
            let e = create::entries_for(p, v)[k];
            &&& e.orig_size == v[k].data.len()
            &&& e.stored_size <= e.orig_size
            &&& e.stored_raw <==> e.stored_size == e.orig_size
            &&& e.stored_raw ==> v[k].coded(p).payload == v[k].data
        }),
{
    member::lemma_stored_len(p, v[k].data, v[k].skip_shuffle);
}

proof fn lemma_sound_from(p: Press, v: Seq<Source>, k: nat, tail: Seq<u8>)
    requires
        archivable(p, v),
        k <= v.len(),
    ensures
        container::sound_from(
            create::body_bytes(p, v) + tail,
            create::offset_of(p, v, k) as int,
            (v.len() - k) as nat,
        ) == Ok::<(), Seq<char>>(()),
    decreases v.len() - k,
{
    if k < v.len() {
        lemma_header(p, v, k, tail);
        lemma_member(p, v, k, tail);
        lemma_sound_from(p, v, k + 1, tail);
    }
}

/// An archive passes the test, with or without its index.
pub proof fn lemma_archive_test(p: Press, v: Seq<Source>, tail: Seq<u8>)
    requires
        archivable(p, v),
    ensures
        container::tested(create::body_bytes(p, v) + tail) == Ok::<nat, Seq<char>>(v.len()),
{
    lemma_front(p, v, tail);
    lemma_sound_from(p, v, 0, tail);
}

/// The files that are asked for, from the `k`-th on, as they are extracted.
pub open spec fn given_back(
    p: Press,
    v: Seq<Source>,
    k: nat,
    filter: Seq<Seq<char>>,
    dest: Option<Seq<char>>,
) -> Seq<Got>
    decreases v.len() - k,
{
    if k >= v.len() {
        Seq::empty()
    } else {
        let s = v[k as int];
        let more = given_back(p, v, k + 1, filter, dest);
        if container::is_wanted(filter, s.path) {
            seq![
                Got {
                    entry: create::entries_for(p, v)[k as int],
                    data: s.data,
                    target: container::target_of(dest, s.path)->Ok_0,
                },
            ] + more
        } else {
            more
        }
    }
}

/// No path that is asked for is refused.
pub open spec fn all_safe(
    v: Seq<Source>,
    filter: Seq<Seq<char>>,
    dest: Option<Seq<char>>,
) -> bool {
    forall|k: int|
        0 <= k < v.len() && container::is_wanted(filter, (#[trigger] v[k]).path)
            ==> container::target_of(dest, v[k].path) is Ok
}

proof fn lemma_in_order_from(
    p: Press,
    v: Seq<Source>,
    k: nat,
    tail: Seq<u8>,
    filter: Seq<Seq<char>>,
    dest: Option<Seq<char>>,
)
    requires
        archivable(p, v),
        all_safe(v, filter, dest),
        k <= v.len(),
    ensures
        container::got_in_order(
            create::body_bytes(p, v) + tail,
            create::offset_of(p, v, k) as int,
            (v.len() - k) as nat,
            filter,
            dest,
        ) == Ok::<Seq<Got>, Seq<char>>(given_back(p, v, k, filter, dest)),
    decreases v.len() - k,
{
    if k < v.len() {
        lemma_header(p, v, k, tail);
        lemma_member(p, v, k, tail);
        lemma_in_order_from(p, v, k + 1, tail, filter, dest);
        let e = create::entries_for(p, v)[k as int];
        assert(e.path == v[k as int].path);
        if container::is_wanted(filter, e.path) {
            lemma_got(p, v, k, tail, filter, dest);
        }
    }
}

proof fn lemma_got(
    p: Press,
    v: Seq<Source>,
    k: nat,
    tail: Seq<u8>,
    filter: Seq<Seq<char>>,
    dest: Option<Seq<char>>,
)
    requires
        archivable(p, v),
        all_safe(v, filter, dest),
        k < v.len(),
        container::is_wanted(filter, v[k as int].path),
    ensures
        container::got_at(
            create::body_bytes(p, v) + tail,
            create::offset_of(p, v, k) as int,
            dest,
        ) == Ok::<Got, Seq<char>>(
            (Got {
                entry: create::entries_for(p, v)[k as int],
                data: v[k as int].data,
                target: container::target_of(dest, v[k as int].path)->Ok_0,
            }),
        ),
{
    lemma_header(p, v, k, tail);
    lemma_member(p, v, k, tail);
    let data = create::body_bytes(p, v) + tail;
    let pos = create::offset_of(p, v, k) as int;
    assert(container::member_at(data, pos, ", aborting"@) is Ok);
    assert(container::target_of(dest, v[k as int].path) is Ok);
}

proof fn lemma_by_index_from(
    p: Press,
    v: Seq<Source>,
    k: nat,
    tail: Seq<u8>,
    filter: Seq<Seq<char>>,
    dest: Option<Seq<char>>,
)
    requires
        archivable(p, v),
        all_safe(v, filter, dest),
        filter.len() > 0,
        k <= v.len(),
    ensures
        container::got_by_index(
            create::body_bytes(p, v) + tail,
            directory::all_indexed(create::entries_for(p, v), member::FORMAT_VERSION),
            k,
            filter,
            dest,
        ) == Ok::<Seq<Got>, Seq<char>>(given_back(p, v, k, filter, dest)),
    decreases v.len() - k,
{
    if k < v.len() {
        let index = directory::all_indexed(create::entries_for(p, v), member::FORMAT_VERSION);
        assert(index[k as int].path == v[k as int].path);
        lemma_from_member(p, v, k, tail);
        assert(index[k as int].offset == create::offset_of(p, v, k));
        lemma_by_index_from(p, v, k + 1, tail, filter, dest);
        if container::is_wanted(filter, v[k as int].path) {
            lemma_got(p, v, k, tail, filter, dest);
        }
    }
}

/// What is extracted from an archive is what went in: the files that are asked for, in their order
/// and with their data.
pub proof fn lemma_archive_extract(
    p: Press,
    v: Seq<Source>,
    filter: Seq<Seq<char>>,
    dest: Option<Seq<char>>,
)
    requires
        archivable(p, v),
        all_safe(v, filter, dest),
    ensures
        container::gathered(create::archive_bytes(p, v), filter, dest) == Ok::<
            Seq<Got>,
            Seq<char>,
        >(given_back(p, v, 0, filter, dest)),
{
    let tail = directory::directory_bytes(
        create::entries_for(p, v),
        member::FORMAT_VERSION,
        create::offset_of(p, v, v.len()),
    );
    lemma_front(p, v, tail);
    lemma_index(p, v);
    if filter.len() > 0 {
        lemma_by_index_from(p, v, 0, tail, filter, dest);
    } else {
        lemma_in_order_from(p, v, 0, tail, filter, dest);
    }
}

/// The files come back from the members alone, where the headers are read one after the other.
pub proof fn lemma_archive_extract_in_order(
    p: Press,
    v: Seq<Source>,
    tail: Seq<u8>,
    filter: Seq<Seq<char>>,
    dest: Option<Seq<char>>,
)
    requires
        archivable(p, v),
        all_safe(v, filter, dest),
    ensures
        container::got_in_order(create::body_bytes(p, v) + tail, 9, v.len(), filter, dest) == Ok::<
            Seq<Got>,
            Seq<char>,
        >(given_back(p, v, 0, filter, dest)),
{
    lemma_in_order_from(p, v, 0, tail, filter, dest);
}

// ---- members that are refused ----

proof fn lemma_refused_in_order(
    p: Press,
    v: Seq<Source>,
    k: nat,
    j: nat,
    tail: Seq<u8>,
    filter: Seq<Seq<char>>,
    dest: Seq<char>,
)
    requires
        listable(p, v),
        k <= j < v.len(),
        container::is_wanted(filter, v[j as int].path),
        container::target_of(Some(dest), v[j as int].path) is Err,
    ensures
        container::got_in_order(
            create::body_bytes(p, v) + tail,
            create::offset_of(p, v, k) as int,
            (v.len() - k) as nat,
            filter,
            Some(dest),
        ) is Err,
    decreases j - k,
{
    lemma_header(p, v, k, tail);
    assert(create::entries_for(p, v)[k as int].path == v[k as int].path);
    if k < j {
        lemma_refused_in_order(p, v, k + 1, j, tail, filter, dest);
    }
}

proof fn lemma_refused_by_index(
    p: Press,
    v: Seq<Source>,
    k: nat,
    j: nat,
    tail: Seq<u8>,
    filter: Seq<Seq<char>>,
    dest: Seq<char>,
)
    requires
        listable(p, v),
        filter.len() > 0,
        k <= j < v.len(),
        container::is_wanted(filter, v[j as int].path),
        container::target_of(Some(dest), v[j as int].path) is Err,
    ensures
        container::got_by_index(
            create::body_bytes(p, v) + tail,
            directory::all_indexed(create::entries_for(p, v), member::FORMAT_VERSION),
            k,
            filter,
            Some(dest),
        ) is Err,
    decreases j - k,
{
    let index = directory::all_indexed(create::entries_for(p, v), member::FORMAT_VERSION);
    assert(index[k as int].path == v[k as int].path);
    lemma_header(p, v, k, tail);
    lemma_from_member(p, v, k, tail);
    assert(index[k as int].offset == create::offset_of(p, v, k));
    if k < j {
        lemma_refused_by_index(p, v, k + 1, j, tail, filter, dest);
    }
}

/// A request for a member that must not be written is refused.
#[verifier::rlimit(60)]
#[verifier::spinoff_prover]
pub proof fn lemma_unsafe_refused(
    p: Press,
    v: Seq<Source>,
    filter: Seq<Seq<char>>,
    dest: Seq<char>,
    k: nat,
)
    requires
        listable(p, v),
        k < v.len(),
        container::is_wanted(filter, v[k as int].path),
        container::target_of(Some(dest), v[k as int].path) is Err,
    ensures
        container::gathered(create::archive_bytes(p, v), filter, Some(dest)) is Err,
{
    let tail = directory::directory_bytes(
        create::entries_for(p, v),
        member::FORMAT_VERSION,
        create::offset_of(p, v, v.len()),
    );
    lemma_front(p, v, tail);
    lemma_index(p, v);
    if filter.len() > 0 {
        lemma_refused_by_index(p, v, 0, k, tail, filter, dest);
    } else {
        lemma_refused_in_order(p, v, 0, k, tail, filter, dest);
    }
}

/// The first member stands behind the first nine bytes, and each of the others behind the payload
/// of the one before it.
pub proof fn lemma_offsets(p: Press, v: Seq<Source>, k: int)
    requires
        listable(p, v),
        0 <= k < v.len(),
    ensures
        ({
            let all = create::entries_for(p, v);
            &&& k == 0 ==> all[k].offset == 9
            &&& k > 0 ==> all[k].offset > all[k - 1].offset + all[k - 1].stored_size
        }),
{
    lemma_from_member(p, v, k as nat, Seq::empty());
    if k > 0 {
        lemma_from_member(p, v, (k - 1) as nat, Seq::empty());
        entry::lemma_header_len(v[k - 1].entry(p, 0));
    }
}

/// Where member `k` stands: behind nine bytes, and for each member before it 36 bytes, its path and
/// what is stored of it.
pub open spec fn place_of(p: Press, v: Seq<Source>, k: nat) -> nat
    decreases k,
{
    if k == 0 {
        9
    } else {
        place_of(p, v, (k - 1) as nat) + 36 + encode_utf8(v[k - 1].path).len() + v[k - 1].coded(
            p,
        ).payload.len()
    }
}

proof fn lemma_place_of(p: Press, v: Seq<Source>, k: nat)
    ensures
        place_of(p, v, k) == create::offset_of(p, v, k),
    decreases k,
{
    if k > 0 {
        lemma_place_of(p, v, (k - 1) as nat);
        entry::lemma_header_len(v[k - 1].entry(p, 0));
    }
}

/// Where everything stands in an archive: `BNC1`, the version 1 and the number of members; each
/// member's header, which tells of its file, and right behind it what is stored of it; the index,
/// which starts with the number of members; and in the last eight bytes the place of the index.
#[verifier::rlimit(50)]
#[verifier::spinoff_prover]
pub proof fn lemma_layout(p: Press, v: Seq<Source>, k: int)
    requires
        listable(p, v),
        0 <= k < v.len(),
    ensures
        ({
            let archive = create::archive_bytes(p, v);
            let s = v[k];
            let c = s.coded(p);
            let at = place_of(p, v, k as nat) as int;
            let n = encode_utf8(s.path).len() as int;
            let index = place_of(p, v, v.len()) as int;
            &&& archive.take(5) == seq![66u8, 78u8, 67u8, 49u8, 1u8]
            &&& bytes::u32_at(archive, 5) == v.len()
            &&& archive.subrange(at, at + 36 + n) == entry::header_bytes(
                (Entry {
                    path: s.path,
                    mode: s.mode,
                    mtime: s.mtime,
                    orig_size: s.data.len() as u64,
                    stored_size: c.payload.len() as u64,
                    method: c.method,
                    stored_raw: c.raw,
                    crc: crc::crc_of(s.data),
                    offset: at as u64,
                }),
            )
            &&& archive.subrange(at + 36 + n, at + 36 + n + c.payload.len()) == c.payload
            &&& bytes::u64_at(archive, archive.len() - 8) == index
            &&& bytes::u32_at(archive, index) == v.len()
        }),
{
    let archive = create::archive_bytes(p, v);
    let body = create::body_bytes(p, v);
    let all = create::entries_for(p, v);
    let index = directory::index_bytes(all, member::FORMAT_VERSION);
    let tail = index + bytes::le64(body.len());
    let s = v[k];
    let c = s.coded(p);
    let at = place_of(p, v, k as nat) as int;
    let n = encode_utf8(s.path).len() as int;
    lemma_place_of(p, v, k as nat);
    lemma_place_of(p, v, v.len());
    assert(container::front_bytes(v.len()).len() == 9);
    assert(body.len() == create::offset_of(p, v, v.len()));
    assert(archive == body + tail);
    assert(archive.take(5) =~= seq![66u8, 78u8, 67u8, 49u8, 1u8]);
    assert(archive.subrange(5, 9) =~= bytes::le32(v.len()));
    bytes::lemma_u32_at(archive, 5, v.len());
    lemma_from_member(p, v, k as nat, tail);
    let e0 = s.entry(p, 0);
    let head = entry::header_bytes(e0);
    entry::lemma_header_len(e0);
    entry::lemma_header_place(e0, at as u64);
    let there = archive.skip(at);
    assert(there.take(36 + n) =~= head);
    assert(archive.subrange(at, at + 36 + n) =~= there.take(36 + n));
    let m = c.payload.len() as int;
    assert(there.subrange(36 + n, 36 + n + m) =~= c.payload);
    assert(archive.subrange(at + 36 + n, at + 36 + n + m) =~= there.subrange(
        36 + n,
        36 + n + m,
    ));
    lemma_archive_cut_at(body, index);
    bytes::lemma_u64_at(archive, archive.len() - 8, body.len());
    let o = body.len() as int;
    assert(archive.subrange(o, o + 4) =~= bytes::le32(v.len()));
    bytes::lemma_u32_at(archive, o, v.len());
}

proof fn lemma_archive_cut_at(body: Seq<u8>, index: Seq<u8>)
    ensures
        ({
            let all = body + (index + bytes::le64(body.len()));
            all.subrange(all.len() - 8, all.len() as int) == bytes::le64(body.len())
        }),
{
    lemma_last_word(body, index, bytes::le64(body.len()));
}

// ---- archives of any origin ----

/// An archive is opened if and only if it starts with `BNC1`, the version 1 and a number of four
/// bytes, which is the number of its members.
#[verifier::rlimit(50)]
#[verifier::spinoff_prover]
pub proof fn lemma_opened(data: Seq<u8>)
    ensures
        ({
            let good = data.len() >= 9 && data.take(5) == seq![66u8, 78u8, 67u8, 49u8, 1u8];
            match container::opened(data) {
                Ok(n) => good && n == data[5] + 256 * data[6] + 65536 * data[7] + 16777216
                    * data[8],
                Err(_) => !good,
            }
        }),
{
    let want = seq![66u8, 78u8, 67u8, 49u8, 1u8];
    if data.len() >= 5 {
        assert(want.take(4) =~= container::magic());
        if data.take(5) == want {
            assert(data.take(4) =~= data.take(5).take(4));
            assert(data[4] == data.take(5)[4]);
        } else if data.take(4) == container::magic() && data[4] == 1 {
            assert(data.take(5) =~= data.take(4).push(data[4]));
            assert(data.take(5) =~= want);
        }
    }
}

proof fn lemma_scanned_count(data: Seq<u8>, pos: int, k: nat)
    requires
        container::scanned(data, pos, k) is Ok,
    ensures
        container::scanned(data, pos, k)->Ok_0.len() == k,
    decreases k,
{
    if k > 0 {
        let e = entry::entry_at(container::from_pos(data, pos), pos as u64)->0;
        lemma_scanned_count(data, container::passed(data, pos, e), (k - 1) as nat);
    }
}

/// An archive that is listed has as many members as it says in front.
pub proof fn lemma_listed_count(data: Seq<u8>)
    requires
        container::listed(data) is Ok,
    ensures
        container::listed(data)->Ok_0.len() == data[5] + 256 * data[6] + 65536 * data[7] + 16777216
            * data[8],
{
    lemma_opened(data);
    let count = container::opened(data)->Ok_0;
    directory::lemma_index_sound(data, count, member::FORMAT_VERSION);
    if directory::cd_index(data, count, member::FORMAT_VERSION) is None {
        lemma_scanned_count(data, 9, count);
    }
}

/// What is extracted is what its header says: the size and the checksum fit.
pub open spec fn checked(g: Got) -> bool {
    g.data.len() == g.entry.orig_size && crc::crc_of(g.data) == g.entry.crc
}

/// What is extracted under a directory stays there.
pub open spec fn contained(g: Got, dest: Seq<char>) -> bool {
    &&& g.target == paths::under(dest, g.entry.path)
    &&& !paths::is_absolute(g.entry.path)
    &&& !paths::leads_up(g.entry.path)
}

spec fn good(g: Got, dest: Option<Seq<char>>) -> bool {
    checked(g) && (dest is Some ==> contained(g, dest->0))
}

spec fn all_good(r: Result<Seq<Got>, Seq<char>>, dest: Option<Seq<char>>) -> bool {
    r is Ok ==> forall|k: int| 0 <= k < r->Ok_0.len() ==> good(#[trigger] r->Ok_0[k], dest)
}

proof fn lemma_got_good(data: Seq<u8>, pos: int, dest: Option<Seq<char>>)
    requires
        container::got_at(data, pos, dest) is Ok,
    ensures
        good(container::got_at(data, pos, dest)->Ok_0, dest),
{
}

proof fn lemma_ahead_good(g: Got, r: Result<Seq<Got>, Seq<char>>, dest: Option<Seq<char>>)
    requires
        good(g, dest),
        all_good(r, dest),
    ensures
        all_good(container::ahead(seq![g], r), dest),
{
    if r is Ok {
        let v = container::ahead(seq![g], r)->Ok_0;
        assert forall|k: int| 0 <= k < v.len() implies good(#[trigger] v[k], dest) by {
            if k > 0 {
                assert(v[k] == r->Ok_0[k - 1]);
            }
        }
    }
}

proof fn lemma_by_index_good(
    data: Seq<u8>,
    index: Seq<Entry>,
    k: nat,
    filter: Seq<Seq<char>>,
    dest: Option<Seq<char>>,
)
    ensures
        all_good(container::got_by_index(data, index, k, filter, dest), dest),
    decreases index.len() - k,
{
    if k < index.len() {
        lemma_by_index_good(data, index, k + 1, filter, dest);
        let pos = index[k as int].offset as int;
        if container::got_at(data, pos, dest) is Ok {
            lemma_got_good(data, pos, dest);
            lemma_ahead_good(
                container::got_at(data, pos, dest)->Ok_0,
                container::got_by_index(data, index, k + 1, filter, dest),
                dest,
            );
        }
    }
}

proof fn lemma_in_order_good(
    data: Seq<u8>,
    pos: int,
    k: nat,
    filter: Seq<Seq<char>>,
    dest: Option<Seq<char>>,
)
    ensures
        all_good(container::got_in_order(data, pos, k, filter, dest), dest),
    decreases k,
{
    if k > 0 {
        let found = entry::entry_at(container::from_pos(data, pos), pos as u64);
        if found is Some {
            let e = found->0;
            let n = (k - 1) as nat;
            if !container::is_wanted(filter, e.path) {
                lemma_in_order_good(data, container::passed(data, pos, e), n, filter, dest);
            } else if container::got_at(data, pos, dest) is Ok {
                let next = container::behind_member(data, pos, e);
                lemma_in_order_good(data, next, n, filter, dest);
                lemma_got_good(data, pos, dest);
                lemma_ahead_good(
                    container::got_at(data, pos, dest)->Ok_0,
                    container::got_in_order(data, next, n, filter, dest),
                    dest,
                );
            }
        }
    }
}

/// Whatever the bytes are that an archive is read from: what is extracted has the size and the
/// checksum that its header says, and what is extracted under a directory stays under it.
pub proof fn lemma_extract_checked(
    data: Seq<u8>,
    filter: Seq<Seq<char>>,
    dest: Option<Seq<char>>,
    k: int,
)
    requires
        container::gathered(data, filter, dest) is Ok,
        0 <= k < container::gathered(data, filter, dest)->Ok_0.len(),
    ensures
        ({
            let g = container::gathered(data, filter, dest)->Ok_0[k];
            checked(g) && (dest is Some ==> contained(g, dest->0))
        }),
{
    let count = container::opened(data)->Ok_0;
    let index = directory::cd_index(data, count, member::FORMAT_VERSION);
    if filter.len() > 0 && index is Some {
        lemma_by_index_good(data, index->0, 0, filter, dest);
    } else {
        lemma_in_order_good(data, 9, count, filter, dest);
    }
    assert(good(container::gathered(data, filter, dest)->Ok_0[k], dest));
}

proof fn lemma_sound_gives(data: Seq<u8>, pos: int, k: nat)
    ensures
        ({
            let r = container::got_in_order(data, pos, k, Seq::empty(), None);
            &&& r is Ok <==> container::sound_from(data, pos, k) is Ok
            &&& r is Ok ==> r->Ok_0.len() == k
        }),
    decreases k,
{
    if k > 0 {
        match entry::entry_at(container::from_pos(data, pos), pos as u64) {
            None => {},
            Some(e) => {
                lemma_sound_gives(
                    data,
                    container::behind_member(data, pos, e),
                    (k - 1) as nat,
                );
            },
        }
    }
}

/// An archive passes the test if and only if all of its members can be extracted to a writer.
pub proof fn lemma_test_or_extract(data: Seq<u8>)
    ensures
        ({
            let r = container::gathered(data, Seq::empty(), None);
            &&& r is Ok <==> container::tested(data) is Ok
            &&& r is Ok ==> r->Ok_0.len() == container::tested(data)->Ok_0
        }),
{
    match container::opened(data) {
        Err(_) => {},
        Ok(count) => {
            lemma_sound_gives(data, 9, count);
        },
    }
}

} // verus!
