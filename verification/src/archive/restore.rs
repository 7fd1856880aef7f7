//! What comes back of the files that went into an archive, in terms of the files alone.

use crate::archive::container;
use crate::archive::container::Got;
use crate::archive::create;
use crate::archive::create::Source;
use crate::archive::directory;
use crate::archive::entry;
use crate::archive::entry::Entry;
use crate::archive::laws;
use crate::archive::member;
use crate::archive::member::Press;
use crate::codec::blocked::Settings;
use crate::crc;
use crate::paths;
use vstd::prelude::*;
use vstd::utf8::*;

verus! {

/// The files whose paths are among the names, or all of them where no name is given.
pub open spec fn asked(v: Seq<Source>, names: Seq<Seq<char>>) -> Seq<Source> {
    if names.len() == 0 {
        v
    } else {
        v.filter(|s: Source| names.contains(s.path))
    }
}

/// The path neither starts with a slash nor has `..` between slashes.
pub open spec fn tame(path: Seq<char>) -> bool {
    !(path.len() > 0 && path[0] == '/') && !paths::climbs(path)
}

/// Where a file with this path goes.
pub open spec fn place(dest: Option<Seq<char>>, path: Seq<char>) -> Seq<char> {
    match dest {
        None => path,
        Some(d) => if d.len() == 0 || d[d.len() - 1] == '/' {
            d + path
        } else {
            d + seq!['/'] + path
        },
    }
}

/// What is extracted is the file: its path, its bytes, its mode and time, and where it goes.
pub open spec fn restores(g: Got, s: Source, dest: Option<Seq<char>>) -> bool {
    &&& g.data == s.data
    &&& g.entry.path == s.path
    &&& g.entry.mode == s.mode
    &&& g.entry.mtime == s.mtime
    &&& g.entry.orig_size == s.data.len()
    &&& g.entry.crc == crc::crc_of(s.data)
    &&& g.target == place(dest, s.path)
}

pub open spec fn all_restored(v: Seq<Got>, files: Seq<Source>, dest: Option<Seq<char>>) -> bool {
    &&& v.len() == files.len()
    &&& forall|k: int| 0 <= k < v.len() ==> restores(#[trigger] v[k], files[k], dest)
}

proof fn lemma_asked_front(v: Seq<Source>, k: int, names: Seq<Seq<char>>)
    requires
        0 <= k < v.len(),
    ensures
        asked(v.skip(k), names) == if names.len() == 0 || names.contains(v[k].path) {
            seq![v[k]] + asked(v.skip(k + 1), names)
        } else {
            asked(v.skip(k + 1), names)
        },
{
    let rest = v.skip(k + 1);
    assert(v.skip(k) =~= seq![v[k]] + rest);
    if names.len() > 0 {
        rest.lemma_filter_prepend(v[k], |s: Source| names.contains(s.path));
        assert(Seq::<Source>::empty() + asked(rest, names) =~= asked(rest, names));
    }
}

#[verifier::rlimit(50)]
#[verifier::spinoff_prover]
proof fn lemma_given_back(
    p: Press,
    v: Seq<Source>,
    k: nat,
    names: Seq<Seq<char>>,
    dest: Option<Seq<char>>,
)
    requires
        laws::archivable(p, v),
        dest is Some ==> forall|x: int|
            0 <= x < v.len() && (names.len() == 0 || names.contains((#[trigger] v[x]).path))
                ==> tame(v[x].path),
        k <= v.len(),
    ensures
        all_restored(
            laws::given_back(p, v, k, names, dest),
            asked(v.skip(k as int), names),
            dest,
        ),
    decreases v.len() - k,
{
    let got = laws::given_back(p, v, k, names, dest);
    let files = asked(v.skip(k as int), names);
    if k < v.len() {
        lemma_given_back(p, v, k + 1, names, dest);
        lemma_asked_front(v, k as int, names);
        let s = v[k as int];
        assert(laws::fine(p, s));
        if names.len() == 0 || names.contains(s.path) {
            if dest is Some {
                assert(tame(v[k as int].path));
                paths::lemma_safe_target(dest->0, s.path);
            }
            let more = laws::given_back(p, v, k + 1, names, dest);
            let left = asked(v.skip(k as int + 1), names);
            assert(got.len() == more.len() + 1);
            assert forall|x: int| 0 <= x < got.len() implies restores(
                #[trigger] got[x],
                files[x],
                dest,
            ) by {
                if x > 0 {
                    assert(got[x] == more[x - 1]);
                    assert(files[x] == left[x - 1]);
                }
            }
        }
    } else {
        assert(v.skip(k as int) =~= Seq::empty());
        reveal(Seq::filter);
    }
}

proof fn lemma_all_safe(
    v: Seq<Source>,
    names: Seq<Seq<char>>,
    dest: Option<Seq<char>>,
)
    requires
        dest is Some ==> forall|x: int|
            0 <= x < v.len() && (names.len() == 0 || names.contains((#[trigger] v[x]).path))
                ==> tame(v[x].path),
    ensures
        laws::all_safe(v, names, dest),
{
    assert forall|k: int|
        0 <= k < v.len() && container::is_wanted(
            names,
            (#[trigger] v[k]).path,
        ) implies container::target_of(dest, v[k].path) is Ok by {
        if dest is Some {
            assert(tame(v[k].path));
            paths::lemma_safe_target(dest->0, v[k].path);
        }
    }
}

/// Extracting from an archive of files gives back the files that are asked for by their full paths,
/// in order, and no others, each with its bytes, mode and time, and at its place.
pub proof fn lemma_extract_restores(
    p: Press,
    v: Seq<Source>,
    names: Seq<Seq<char>>,
    dest: Option<Seq<char>>,
)
    requires
        laws::archivable(p, v),
        dest is Some ==> forall|x: int|
            0 <= x < v.len() && (names.len() == 0 || names.contains((#[trigger] v[x]).path))
                ==> tame(v[x].path),
    ensures
        ({
            let r = container::gathered(create::archive_bytes(p, v), names, dest);
            r is Ok && all_restored(r->Ok_0, asked(v, names), dest)
        }),
{
    lemma_all_safe(v, names, dest);
    laws::lemma_archive_extract(p, v, names, dest);
    lemma_given_back(p, v, 0, names, dest);
    assert(v.skip(0) =~= v);
}

/// The same holds where the headers are read one after the other, whatever follows the members.
pub proof fn lemma_headers_restore(
    p: Press,
    v: Seq<Source>,
    tail: Seq<u8>,
    names: Seq<Seq<char>>,
    dest: Option<Seq<char>>,
)
    requires
        laws::archivable(p, v),
        dest is Some ==> forall|x: int|
            0 <= x < v.len() && (names.len() == 0 || names.contains((#[trigger] v[x]).path))
                ==> tame(v[x].path),
    ensures
        ({
            let r = container::got_in_order(
                create::body_bytes(p, v) + tail,
                9,
                v.len(),
                names,
                dest,
            );
            r is Ok && all_restored(r->Ok_0, asked(v, names), dest)
        }),
{
    lemma_all_safe(v, names, dest);
    laws::lemma_archive_extract_in_order(p, v, tail, names, dest);
    lemma_given_back(p, v, 0, names, dest);
    assert(v.skip(0) =~= v);
}

/// A file is asked for if and only if its path equals a name; so a name that is the start of a
/// longer path asks for that path no more than any other name does.
pub proof fn lemma_asked(v: Seq<Source>, names: Seq<Seq<char>>, k: int)
    requires
        names.len() > 0,
        0 <= k < v.len(),
    ensures
        asked(v, names).contains(v[k]) <==> exists|j: int|
            0 <= j < names.len() && #[trigger] names[j] == v[k].path,
        asked(v, names).len() <= v.len(),
        forall|x: int|
            0 <= x < asked(v, names).len() ==> names.contains(
                (#[trigger] asked(v, names)[x]).path,
            ),
{
    broadcast use vstd::seq_lib::group_filter_ensures;

    let a = asked(v, names);
    if a.contains(v[k]) {
        let x = choose|x: int| 0 <= x < a.len() && a[x] == v[k];
        assert(names.contains(a[x].path));
    }
    if exists|j: int| 0 <= j < names.len() && #[trigger] names[j] == v[k].path {
        assert(names.contains(v[k].path));
    }
}

/// Where a file that is asked for starts with a slash or has `..` between slashes in its path, the
/// request is refused.
pub proof fn lemma_extract_refuses(
    p: Press,
    v: Seq<Source>,
    names: Seq<Seq<char>>,
    dest: Seq<char>,
    k: int,
)
    requires
        laws::listable(p, v),
        0 <= k < v.len(),
        names.len() == 0 || names.contains(v[k].path),
        !tame(v[k].path),
    ensures
        container::gathered(create::archive_bytes(p, v), names, Some(dest)) is Err,
{
    paths::lemma_safe_target(dest, v[k].path);
    laws::lemma_unsafe_refused(p, v, names, dest, k as nat);
}

// ---- to a writer ----

/// All bytes of the files, one file after the other.
pub open spec fn bytes_in_a_row(files: Seq<Source>) -> Seq<u8>
    decreases files.len(),
{
    if files.len() == 0 {
        Seq::empty()
    } else {
        files[0].data + bytes_in_a_row(files.skip(1))
    }
}

proof fn lemma_row_push(files: Seq<Source>, s: Source)
    ensures
        bytes_in_a_row(files.push(s)) == bytes_in_a_row(files) + s.data,
    decreases files.len(),
{
    let all = files.push(s);
    if files.len() == 0 {
        assert(all.skip(1) =~= Seq::empty());
        assert(bytes_in_a_row(all.skip(1)) =~= Seq::empty());
        assert(s.data + Seq::<u8>::empty() =~= Seq::<u8>::empty() + s.data);
    } else {
        assert(all.skip(1) =~= files.skip(1).push(s));
        lemma_row_push(files.skip(1), s);
        assert(files[0].data + (bytes_in_a_row(files.skip(1)) + s.data) =~= files[0].data
            + bytes_in_a_row(files.skip(1)) + s.data);
    }
}

proof fn lemma_poured(v: Seq<Got>, files: Seq<Source>, dest: Option<Seq<char>>)
    requires
        all_restored(v, files, dest),
    ensures
        container::poured(v) == bytes_in_a_row(files),
    decreases v.len(),
{
    if v.len() > 0 {
        let n = v.len() - 1;
        let a = v.drop_last();
        let b = files.drop_last();
        assert forall|k: int| 0 <= k < a.len() implies restores(#[trigger] a[k], b[k], dest) by {
            assert(restores(v[k], files[k], dest));
        }
        lemma_poured(a, b, dest);
        assert(restores(v[n], files[n], dest));
        lemma_row_push(b, files[n]);
        assert(b.push(files[n]) =~= files);
    }
}

/// What is extracted to a writer is the bytes of the files that are asked for, one file after the
/// other.
pub proof fn lemma_writer_restores(p: Press, v: Seq<Source>, names: Seq<Seq<char>>)
    requires
        laws::archivable(p, v),
    ensures
        ({
            let r = container::gathered(create::archive_bytes(p, v), names, None);
            &&& r is Ok
            &&& r->Ok_0.len() == asked(v, names).len()
            &&& container::poured(r->Ok_0) == bytes_in_a_row(asked(v, names))
        }),
{
    lemma_extract_restores(p, v, names, None);
    let r = container::gathered(create::archive_bytes(p, v), names, None);
    lemma_poured(r->Ok_0, asked(v, names), None);
}

// ---- listing ----

/// A listing tells of every file its path, its size and the checksum of its bytes, and where the
/// next file begins; and no more is stored of it than it has.
pub proof fn lemma_list_tells(p: Press, v: Seq<Source>, k: int)
    requires
        laws::listable(p, v),
        0 <= k < v.len(),
    ensures
        ({
            let r = container::listed(create::archive_bytes(p, v));
            let e = r->Ok_0[k];
            &&& r is Ok && r->Ok_0.len() == v.len()
            &&& e.path == v[k].path
            &&& e.orig_size == v[k].data.len()
            &&& e.crc == crc::crc_of(v[k].data)
            &&& e.mode == v[k].mode % 65536
            &&& e.stored_size <= e.orig_size
            &&& e.stored_raw <==> e.stored_size == e.orig_size
            &&& k == 0 ==> e.offset == 9
            &&& k > 0 ==> e.offset > r->Ok_0[k - 1].offset + r->Ok_0[k - 1].stored_size
        }),
{
    laws::lemma_archive_list(p, v);
    laws::lemma_entry_sizes(p, v, k);
    laws::lemma_offsets(p, v, k);
}

/// Read from the headers, the listing keeps the whole mode and the time as well.
pub proof fn lemma_headers_tell(p: Press, v: Seq<Source>, tail: Seq<u8>, k: int)
    requires
        laws::listable(p, v),
        0 <= k < v.len(),
    ensures
        ({
            let r = container::scanned(create::body_bytes(p, v) + tail, 9, v.len());
            let e = r->Ok_0[k];
            &&& r is Ok && r->Ok_0.len() == v.len()
            &&& e.path == v[k].path
            &&& e.orig_size == v[k].data.len()
            &&& e.crc == crc::crc_of(v[k].data)
            &&& e.mode == v[k].mode
            &&& e.mtime == v[k].mtime
        }),
{
    laws::lemma_archive_scan(p, v, tail);
}

// ---- archives of any origin ----

/// The members of an index whose paths are among the names.
pub open spec fn named(index: Seq<Entry>, names: Seq<Seq<char>>) -> Seq<Entry> {
    index.filter(|e: Entry| names.contains(e.path))
}

proof fn lemma_by_index_named(
    data: Seq<u8>,
    index: Seq<Entry>,
    k: nat,
    names: Seq<Seq<char>>,
    dest: Option<Seq<char>>,
)
    requires
        k <= index.len(),
        container::got_by_index(data, index, k, names, dest) is Ok,
    ensures
        ({
            let got = container::got_by_index(data, index, k, names, dest)->Ok_0;
            let want = named(index.skip(k as int), names);
            &&& got.len() == want.len()
            &&& forall|x: int|
                0 <= x < got.len() ==> (#[trigger] got[x]).entry.offset == want[x].offset
        }),
    decreases index.len() - k,
{
    if k < index.len() {
        let e = index[k as int];
        let rest = index.skip(k as int + 1);
        assert(index.skip(k as int) =~= seq![e] + rest);
        rest.lemma_filter_prepend(e, |e: Entry| names.contains(e.path));
        lemma_by_index_named(data, index, k + 1, names, dest);
        assert(Seq::<Entry>::empty() + named(rest, names) =~= named(rest, names));
        if names.contains(e.path) {
            entry::lemma_entry_offset(
                container::from_pos(data, e.offset as int),
                e.offset,
            );
        }
    } else {
        assert(index.skip(k as int) =~= Seq::empty());
        reveal(Seq::filter);
    }
}

proof fn lemma_in_order_named(
    data: Seq<u8>,
    pos: int,
    k: nat,
    names: Seq<Seq<char>>,
    dest: Option<Seq<char>>,
)
    requires
        names.len() > 0,
        container::got_in_order(data, pos, k, names, dest) is Ok,
    ensures
        ({
            let got = container::got_in_order(data, pos, k, names, dest)->Ok_0;
            forall|x: int| 0 <= x < got.len() ==> names.contains((#[trigger] got[x]).entry.path)
        }),
    decreases k,
{
    if k > 0 {
        match entry::entry_at(container::from_pos(data, pos), pos as u64) {
            None => {},
            Some(e) => {
                if names.contains(e.path) {
                    lemma_in_order_named(
                        data,
                        container::behind_member(data, pos, e),
                        (k - 1) as nat,
                        names,
                        dest,
                    );
                } else {
                    lemma_in_order_named(
                        data,
                        container::passed(data, pos, e),
                        (k - 1) as nat,
                        names,
                        dest,
                    );
                }
            },
        }
    }
}

/// Of any archive, what is extracted by name is exactly the members that the index has under these
/// names, in the order of the index; without an index, only members whose headers have these names.
pub proof fn lemma_extract_named(
    data: Seq<u8>,
    names: Seq<Seq<char>>,
    dest: Option<Seq<char>>,
)
    requires
        names.len() > 0,
        container::gathered(data, names, dest) is Ok,
    ensures
        ({
            let got = container::gathered(data, names, dest)->Ok_0;
            let count = container::opened(data)->Ok_0;
            match directory::cd_index(data, count, member::FORMAT_VERSION) {
                Some(index) => {
                    let want = named(index, names);
                    &&& got.len() == want.len()
                    &&& forall|x: int|
                        0 <= x < got.len() ==> (#[trigger] got[x]).entry.offset == want[x].offset
                },
                None => forall|x: int|
                    0 <= x < got.len() ==> names.contains((#[trigger] got[x]).entry.path),
            }
        }),
{
    let count = container::opened(data)->Ok_0;
    match directory::cd_index(data, count, member::FORMAT_VERSION) {
        Some(index) => {
            lemma_by_index_named(data, index, 0, names, dest);
            assert(index.skip(0) =~= index);
        },
        None => {
            lemma_in_order_named(data, 9, count, names, dest);
        },
    }
}

// ---- the room that is needed ----

/// The sizes of some members together.
pub open spec fn sizes_of(v: Seq<Entry>) -> nat
    decreases v.len(),
{
    if v.len() == 0 {
        0
    } else {
        sizes_of(v.drop_last()) + v.last().orig_size as nat
    }
}

/// The size of what is asked for is that of the members whose paths are among the names, or of all
/// of them where no name is given.
pub proof fn lemma_wanted_total(v: Seq<Entry>, names: Seq<Seq<char>>)
    ensures
        container::wanted_total(v, names) == if names.len() == 0 {
            sizes_of(v)
        } else {
            sizes_of(v.filter(|e: Entry| names.contains(e.path)))
        },
    decreases v.len(),
{
    reveal(Seq::filter);
    if v.len() > 0 {
        let q = v.drop_last();
        lemma_wanted_total(q, names);
        let kept = q.filter(|e: Entry| names.contains(e.path));
        if names.contains(v.last().path) {
            assert(kept.push(v.last()).drop_last() =~= kept);
        }
    }
}

// ---- ordinary files ----

/// The size of an archive in which nothing becomes shorter, but for its index.
pub open spec fn most_bytes(v: Seq<Source>, k: nat) -> nat
    decreases k,
{
    if k == 0 {
        9
    } else {
        most_bytes(v, (k - 1) as nat) + 36 + encode_utf8(v[k - 1].path).len() + v[k - 1].data.len()
    }
}

proof fn lemma_most_bytes(p: Press, v: Seq<Source>, k: nat)
    ensures
        9 + create::members_bytes(p, v, k).len() <= most_bytes(v, k),
    decreases k,
{
    if k > 0 {
        let s = v[k - 1];
        lemma_most_bytes(p, v, (k - 1) as nat);
        entry::lemma_header_len(s.entry(p, 0));
        member::lemma_stored_len(p, s.data, s.skip_shuffle);
    }
}

/// How files are coded at a level.
pub open spec fn press_for(level: u8, settings: Settings, batch: usize) -> Press {
    Press { window: member::window_of(level), block: member::block_of(level), settings, batch }
}

proof fn lemma_body_most(p: Press, v: Seq<Source>)
    ensures
        create::body_bytes(p, v).len() <= most_bytes(v, v.len()),
{
    lemma_most_bytes(p, v, v.len());
    assert(container::front_bytes(v.len()).len() == 9);
}

/// Files below 128 MiB can go into an archive at every level from 1 to 15, if the paths are no
/// longer than 65535 bytes and there are not too many files.
#[verifier::rlimit(40)]
#[verifier::spinoff_prover]
pub proof fn lemma_ordinary_files(level: u8, settings: Settings, batch: usize, v: Seq<Source>)
    requires
        1 <= level <= 15,
        batch >= 1,
        4194304 * batch <= usize::MAX,
        v.len() <= u32::MAX,
        most_bytes(v, v.len()) <= i64::MAX,
        forall|k: int|
            0 <= k < v.len() ==> encode_utf8((#[trigger] v[k]).path).len() <= 65535
                && v[k].data.len() < 134217728,
    ensures
        laws::archivable(press_for(level, settings, batch), v),
{
    let p = press_for(level, settings, batch);
    lemma_body_most(p, v);
    assert forall|k: int| 0 <= k < v.len() implies laws::fine(p, #[trigger] v[k]) by {
        assert(v[k].data.len() < 134217728);
        member::lemma_levels_fit(level, settings, batch, v[k].data.len());
    }
    assert forall|k: int| 0 <= k < v.len() implies entry::short_path((#[trigger] v[k]).path)
        && v[k].data.len() <= u64::MAX by {
        assert(encode_utf8(v[k].path).len() <= 65535);
    }
}

/// So what is extracted from an archive of ordinary files is the files that are asked for.
#[verifier::rlimit(40)]
#[verifier::spinoff_prover]
pub proof fn lemma_ordinary_restored(
    level: u8,
    settings: Settings,
    batch: usize,
    v: Seq<Source>,
    names: Seq<Seq<char>>,
)
    requires
        1 <= level <= 15,
        batch >= 1,
        4194304 * batch <= usize::MAX,
        v.len() <= u32::MAX,
        most_bytes(v, v.len()) <= i64::MAX,
        forall|k: int|
            0 <= k < v.len() ==> encode_utf8((#[trigger] v[k]).path).len() <= 65535
                && v[k].data.len() < 134217728,
    ensures
        ({
            let archive = create::archive_bytes(press_for(level, settings, batch), v);
            let r = container::gathered(archive, names, None);
            r is Ok && all_restored(r->Ok_0, asked(v, names), None)
        }),
{
    lemma_ordinary_files(level, settings, batch, v);
    lemma_extract_restores(press_for(level, settings, batch), v, names, None);
}

// ---- the sizes that are told ----

/// The size that is told of the files is that of all their bytes, and the size that is told of what
/// is stored is that of the archive without its index, less nine bytes and for each file 36 and its
/// path.
pub proof fn lemma_told_sizes(p: Press, v: Seq<Source>)
    ensures
        create::orig_total(v, v.len()) == bytes_in_a_row(v).len(),
        create::stored_total(p, v, v.len()) + 9 + 36 * v.len() + bytes_in_a_row(
            Seq::new(v.len(), |k: int| (Source { data: encode_utf8(v[k].path), ..v[k] })),
        ).len() == create::body_bytes(p, v).len(),
{
    lemma_told_from(p, v, v.len());
    let paths = Seq::new(v.len(), |k: int| (Source { data: encode_utf8(v[k].path), ..v[k] }));
    assert(v.take(v.len() as int) =~= v);
    assert(paths.take(v.len() as int) =~= paths);
    assert(container::front_bytes(v.len()).len() == 9);
}

#[verifier::rlimit(50)]
#[verifier::spinoff_prover]
proof fn lemma_told_from(p: Press, v: Seq<Source>, k: nat)
    requires
        k <= v.len(),
    ensures
        create::orig_total(v, k) == bytes_in_a_row(v.take(k as int)).len(),
        ({
            let paths = Seq::new(
                v.len(),
                |k: int| (Source { data: encode_utf8(v[k].path), ..v[k] }),
            );
            create::stored_total(p, v, k) + 36 * k + bytes_in_a_row(paths.take(k as int)).len()
                == create::members_bytes(p, v, k).len()
        }),
    decreases k,
{
    let paths = Seq::new(v.len(), |k: int| (Source { data: encode_utf8(v[k].path), ..v[k] }));
    if k > 0 {
        let s = v[k - 1];
        lemma_told_from(p, v, (k - 1) as nat);
        entry::lemma_header_len(s.entry(p, 0));
        lemma_row_push(v.take(k - 1), s);
        lemma_row_push(paths.take(k - 1), paths[k - 1]);
        assert(v.take(k as int) =~= v.take(k - 1).push(s));
        assert(paths.take(k as int) =~= paths.take(k - 1).push(paths[k - 1]));
    }
}

} // verus!
