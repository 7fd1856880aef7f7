//! Data in content-defined chunks that are coded independently.
//!
//! The container is `BNCD`, the version (one byte), the number of chunks (four
//! bytes), for each chunk ten bytes (the size of the data, the size of what is
//! stored, the method, 1 if it is stored as it is), and then what is stored.
//! An edit changes the chunks that it lands in; the others stay as they were.

use crate::bytes;
use crate::codec::blocked;
use crate::codec::blocked::Settings;
use crate::codec::cdc;
use crate::codec::smart;
use crate::codec::smart::{CompressMethod, Job};
use vstd::prelude::*;

verus! {

/// A chunk in the container.
pub struct Part {
    pub orig: nat,
    pub stored: Seq<u8>,
    pub method: u8,
    pub raw: u8,
}

pub open spec fn magic() -> Seq<u8> {
    seq![66u8, 78u8, 67u8, 68u8]
}

/// A chunk, coded if that makes it shorter.
pub open spec fn part_of(j: Job, piece: Seq<u8>, skip_shuffle: bool) -> Part {
    match smart::chosen(j, piece, skip_shuffle) {
        Some((c, m)) => if c.len() < piece.len() {
            Part { orig: piece.len(), stored: c, method: smart::method_id(m), raw: 0 }
        } else {
            Part { orig: piece.len(), stored: piece, method: 0, raw: 1 }
        },
        None => Part { orig: piece.len(), stored: piece, method: 0, raw: 1 },
    }
}

/// The verdict on chunk `k`; chunks without one are not screened out.
pub open spec fn verdict(screens: Seq<bool>, k: int) -> bool {
    0 <= k < screens.len() && screens[k]
}

pub open spec fn parts_of(
    j: Job,
    data: Seq<u8>,
    bounds: Seq<(int, int)>,
    screens: Seq<bool>,
) -> Seq<Part> {
    Seq::new(
        bounds.len(),
        |k: int| part_of(j, data.subrange(bounds[k].0, bounds[k].1), verdict(screens, k)),
    )
}

pub open spec fn entry(p: Part) -> Seq<u8> {
    bytes::le32(p.orig) + bytes::le32(p.stored.len()) + seq![p.method, p.raw]
}

/// The index entries of the first `k` parts.
pub open spec fn index_bytes(parts: Seq<Part>, k: nat) -> Seq<u8>
    decreases k,
{
    if k == 0 {
        Seq::empty()
    } else {
        index_bytes(parts, (k - 1) as nat) + entry(parts[k - 1])
    }
}

/// What is stored of the first `k` parts.
pub open spec fn payload_bytes(parts: Seq<Part>, k: nat) -> Seq<u8>
    decreases k,
{
    if k == 0 {
        Seq::empty()
    } else {
        payload_bytes(parts, (k - 1) as nat) + parts[k - 1].stored
    }
}

pub open spec fn contained(parts: Seq<Part>, version: u8) -> Seq<u8> {
    magic() + seq![version] + bytes::le32(parts.len()) + index_bytes(parts, parts.len())
        + payload_bytes(parts, parts.len())
}

/// The container of `data`.
pub open spec fn cdc_coded(
    j: Job,
    data: Seq<u8>,
    avg_kb: Option<usize>,
    screens: Seq<bool>,
) -> Seq<u8> {
    contained(
        parts_of(j, data, cdc::chunk_cut(avg_kb).bounds_from(data, 0), screens),
        j.version,
    )
}

// ---- decoding ----

/// What a stored chunk stands for.
pub open spec fn part_opened(p: Part, version: u8) -> Result<Seq<u8>, Seq<char>> {
    if p.raw == 1 {
        Ok(p.stored)
    } else if p.method > 5 {
        Err("invalid method in BNCD stream"@)
    } else {
        let m = choose|m: CompressMethod| smart::method_id(m) == p.method;
        smart::undone(p.stored, m, p.orig, version)
    }
}

/// What the chunks from the `k`-th on stand for, behind `acc`; what is stored of
/// them starts at `pos`.
pub open spec fn uncontained(
    blob: Seq<u8>,
    k: nat,
    count: nat,
    pos: nat,
    version: u8,
    acc: Seq<u8>,
) -> Result<Seq<u8>, Seq<char>>
    decreases count - k,
{
    if k >= count {
        Ok(acc)
    } else {
        let o = 9 + 10 * k as int;
        let size = bytes::u32_at(blob, o + 4);
        if pos + size > blob.len() {
            Err("truncated BNCD payload"@)
        } else {
            let p = Part {
                orig: bytes::u32_at(blob, o),
                stored: blob.subrange(pos as int, pos + size as int),
                method: blob[o + 8],
                raw: blob[o + 9],
            };
            match part_opened(p, version) {
                Err(e) => Err(e),
                Ok(v) => uncontained(blob, k + 1, count, pos + size, version, acc + v),
            }
        }
    }
}

/// What a container stands for.
pub open spec fn cdc_decoded(blob: Seq<u8>) -> Result<Seq<u8>, Seq<char>> {
    if blob.len() < 9 || blob.take(4) != magic() {
        Err("not a BNCD (dedup-friendly) stream"@)
    } else {
        let count = bytes::u32_at(blob, 5);
        if 9 + 10 * count > blob.len() {
            Err("truncated BNCD index"@)
        } else {
            uncontained(blob, 0, count, 9 + 10 * count, blob[4], Seq::empty())
        }
    }
}

// ---- reading back what was written ----

proof fn lemma_index_len(parts: Seq<Part>, k: nat)
    ensures
        index_bytes(parts, k).len() == 10 * k,
    decreases k,
{
    if k > 0 {
        lemma_index_len(parts, (k - 1) as nat);
    }
}

proof fn lemma_index_at(parts: Seq<Part>, n: nat, k: nat)
    requires
        k < n,
    ensures
        index_bytes(parts, n).len() == 10 * n,
        index_bytes(parts, n).subrange(10 * k as int, 10 * k as int + 10) == entry(parts[k as int]),
    decreases n,
{
    lemma_index_len(parts, n);
    lemma_index_len(parts, (n - 1) as nat);
    if k < n - 1 {
        lemma_index_at(parts, (n - 1) as nat, k);
        assert(index_bytes(parts, n).subrange(10 * k as int, 10 * k as int + 10) =~= index_bytes(
            parts,
            (n - 1) as nat,
        ).subrange(10 * k as int, 10 * k as int + 10));
    } else {
        assert(index_bytes(parts, n).subrange(10 * k as int, 10 * k as int + 10) =~= entry(
            parts[k as int],
        ));
    }
}

proof fn lemma_payload_at(parts: Seq<Part>, n: nat, k: nat)
    requires
        k < n,
    ensures
        payload_bytes(parts, k).len() + parts[k as int].stored.len() == payload_bytes(
            parts,
            k + 1,
        ).len(),
        payload_bytes(parts, k + 1).len() <= payload_bytes(parts, n).len(),
        payload_bytes(parts, n).subrange(
            payload_bytes(parts, k).len() as int,
            payload_bytes(parts, k + 1).len() as int,
        ) == parts[k as int].stored,
    decreases n,
{
    let o = payload_bytes(parts, k).len() as int;
    let e = payload_bytes(parts, k + 1).len() as int;
    if k < n - 1 {
        lemma_payload_at(parts, (n - 1) as nat, k);
        assert(payload_bytes(parts, n).subrange(o, e) =~= payload_bytes(
            parts,
            (n - 1) as nat,
        ).subrange(o, e));
    } else {
        assert(payload_bytes(parts, n).subrange(o, e) =~= parts[k as int].stored);
    }
}

#[verifier::rlimit(50)]
#[verifier::spinoff_prover]
proof fn lemma_contained_at(parts: Seq<Part>, version: u8, k: nat)
    requires
        k < parts.len(),
        parts[k as int].orig <= u32::MAX,
        parts[k as int].stored.len() <= u32::MAX,
    ensures
        ({
            let blob = contained(parts, version);
            let o = 9 + 10 * k as int;
            let p = parts[k as int];
            let pos = 9 + 10 * parts.len() + payload_bytes(parts, k).len();
            &&& bytes::u32_at(blob, o) == p.orig
            &&& bytes::u32_at(blob, o + 4) == p.stored.len()
            &&& blob[o + 8] == p.method
            &&& blob[o + 9] == p.raw
            &&& pos + p.stored.len() <= blob.len()
            &&& blob.subrange(pos as int, pos + p.stored.len() as int) == p.stored
        }),
{
    let blob = contained(parts, version);
    let n = parts.len();
    let o = 9 + 10 * k as int;
    let p = parts[k as int];
    let pos = 9 + 10 * n + payload_bytes(parts, k).len();
    let index = index_bytes(parts, n);
    let payload = payload_bytes(parts, n);
    lemma_index_at(parts, n, k);
    lemma_payload_at(parts, n, k);
    assert(blob.subrange(o, o + 10) =~= index.subrange(10 * k as int, 10 * k as int + 10));
    let e = entry(p);
    assert(blob.subrange(o, o + 4) =~= e.subrange(0, 4));
    assert(e.subrange(0, 4) =~= bytes::le32(p.orig));
    bytes::lemma_u32_at(blob, o, p.orig);
    assert(blob.subrange(o + 4, o + 8) =~= e.subrange(4, 8));
    assert(e.subrange(4, 8) =~= bytes::le32(p.stored.len()));
    bytes::lemma_u32_at(blob, o + 4, p.stored.len());
    assert(blob.subrange(o, o + 10)[8] == e[8] && blob.subrange(o, o + 10)[9] == e[9]);
    assert(blob.subrange(pos as int, pos + p.stored.len() as int) =~= payload.subrange(
        payload_bytes(parts, k).len() as int,
        payload_bytes(parts, k + 1).len() as int,
    ));
}

/// A chunk stands for what it was made of.
proof fn lemma_part(j: Job, piece: Seq<u8>, skip_shuffle: bool)
    requires
        j.allowed(piece.len()),
        piece.len() <= u32::MAX,
    ensures
        part_opened(part_of(j, piece, skip_shuffle), j.version) == Ok::<Seq<u8>, Seq<char>>(
            piece,
        ),
        part_of(j, piece, skip_shuffle).orig == piece.len(),
        part_of(j, piece, skip_shuffle).stored.len() <= piece.len(),
{
    let r = smart::chosen(j, piece, skip_shuffle);
    if r is Some {
        let (c, m) = r->0;
        smart::lemma_chosen(j, piece, skip_shuffle);
        smart::lemma_counts(j, piece, m);
        smart::lemma_smart_roundtrip(j, piece, skip_shuffle);
        let id = smart::method_id(m);
        let found = choose|x: CompressMethod| smart::method_id(x) == id;
        assert(smart::method_id(found) == id);
        smart::lemma_method_ids(found, m);
        smart::lemma_method_ids(m, m);
    }
}

#[verifier::rlimit(40)]
#[verifier::spinoff_prover]
proof fn lemma_uncontained(
    j: Job,
    data: Seq<u8>,
    bounds: Seq<(int, int)>,
    screens: Seq<bool>,
    k: nat,
    i: int,
    acc: Seq<u8>,
)
    requires
        blocked::countable(bounds),
        k <= bounds.len(),
        0 <= i <= data.len(),
        cdc::tiles(bounds.skip(k as int), i, data.len() as int),
        forall|x: int|
            0 <= x < bounds.len() ==> j.allowed(
                (#[trigger] bounds[x].1 - bounds[x].0) as nat,
            ),
    ensures
        ({
            let parts = parts_of(j, data, bounds, screens);
            uncontained(
                contained(parts, j.version),
                k,
                parts.len(),
                9 + 10 * parts.len() + payload_bytes(parts, k).len(),
                j.version,
                acc,
            ) == Ok::<Seq<u8>, Seq<char>>(acc + blocked::joined(data, bounds, k))
        }),
    decreases bounds.len() - k,
{
    let parts = parts_of(j, data, bounds, screens);
    if k < bounds.len() {
        let tail = bounds.skip(k as int);
        assert(tail[0] == bounds[k as int]);
        assert(tail.drop_first() =~= bounds.skip(k as int + 1));
        let e = bounds[k as int].1;
        let piece = data.subrange(i, e);
        assert(j.allowed((bounds[k as int].1 - bounds[k as int].0) as nat));
        lemma_part(j, piece, verdict(screens, k as int));
        lemma_contained_at(parts, j.version, k);
        lemma_payload_at(parts, parts.len(), k);
        lemma_uncontained(j, data, bounds, screens, k + 1, e, acc + piece);
        assert((acc + piece) + blocked::joined(data, bounds, k + 1) =~= acc + (piece
            + blocked::joined(data, bounds, k + 1)));
    } else {
        assert(acc + blocked::joined(data, bounds, k) =~= acc);
    }
}

#[verifier::rlimit(50)]
#[verifier::spinoff_prover]
proof fn lemma_container(parts: Seq<Part>, version: u8)
    requires
        parts.len() <= u32::MAX,
    ensures
        cdc_decoded(contained(parts, version)) == uncontained(
            contained(parts, version),
            0,
            parts.len(),
            9 + 10 * parts.len() + payload_bytes(parts, 0).len(),
            version,
            Seq::empty(),
        ),
{
    let blob = contained(parts, version);
    lemma_index_len(parts, parts.len());
    assert(blob.take(4) =~= magic());
    assert(blob.subrange(5, 9) =~= bytes::le32(parts.len()));
    bytes::lemma_u32_at(blob, 5, parts.len());
    assert(payload_bytes(parts, 0).len() == 0);
}

/// Data comes back from its container. It is enough that the number of chunks and the size of each
/// fit in 32 bits.
pub proof fn lemma_cdc_roundtrip(
    j: Job,
    data: Seq<u8>,
    avg_kb: Option<usize>,
    screens: Seq<bool>,
)
    requires
        cdc::cdc_allowed(avg_kb),
        blocked::countable(cdc::chunk_cut(avg_kb).bounds_from(data, 0)),
        forall|n: nat| n <= data.len() && n <= 4 * cdc::cdc_avg(avg_kb) ==> #[trigger] j.allowed(n),
    ensures
        cdc_decoded(cdc_coded(j, data, avg_kb, screens)) == Ok::<Seq<u8>, Seq<char>>(data),
{
    let cut = cdc::chunk_cut(avg_kb);
    let bounds = cut.bounds_from(data, 0);
    let parts = parts_of(j, data, bounds, screens);
    cdc::lemma_cdc_avg(avg_kb);
    cdc::lemma_tiles(cut, data, 0);
    blocked::lemma_tiles_count(bounds, 0, data.len() as int);
    assert(bounds.skip(0) =~= bounds);
    assert forall|x: int| 0 <= x < bounds.len() implies j.allowed(
        (#[trigger] bounds[x].1 - bounds[x].0) as nat,
    ) by {
        cdc::lemma_tile_at(bounds, 0, data.len() as int, x);
        cdc::lemma_bounds_len(cut, data, 0, x);
    }
    lemma_uncontained(j, data, bounds, screens, 0, 0, Seq::empty());
    lemma_container(parts, j.version);
    blocked::lemma_joined(data, bounds, 0, 0);
    assert(data.skip(0) =~= data);
    assert(Seq::<u8>::empty() + data =~= data);
}

proof fn lemma_cut_from(parts: Seq<Part>, version: u8, l: int, k: nat, acc: Seq<u8>)
    requires
        k <= parts.len() <= u32::MAX,
        forall|x: int|
            0 <= x < parts.len() ==> (#[trigger] parts[x]).orig <= u32::MAX
                && parts[x].stored.len() <= u32::MAX,
        9 + 10 * parts.len() + payload_bytes(parts, k).len() <= l,
        l < contained(parts, version).len(),
    ensures
        uncontained(
            contained(parts, version).take(l),
            k,
            parts.len(),
            9 + 10 * parts.len() + payload_bytes(parts, k).len(),
            version,
            acc,
        ) is Err,
    decreases parts.len() - k,
{
    let blob = contained(parts, version);
    let cut = blob.take(l);
    let n = parts.len();
    let pos = 9 + 10 * n + payload_bytes(parts, k).len();
    lemma_index_len(parts, n);
    if k < n {
        let o = 9 + 10 * k as int;
        assert(parts[k as int].orig <= u32::MAX);
        lemma_contained_at(parts, version, k);
        lemma_payload_at(parts, n, k);
        assert(bytes::u32_at(cut, o + 4) == bytes::u32_at(blob, o + 4));
        let size = parts[k as int].stored.len();
        if pos + size <= l {
            let p = Part {
                orig: bytes::u32_at(cut, o),
                stored: cut.subrange(pos as int, pos + size as int),
                method: cut[o + 8],
                raw: cut[o + 9],
            };
            match part_opened(p, version) {
                Err(_) => {},
                Ok(v) => {
                    lemma_cut_from(parts, version, l, k + 1, acc + v);
                },
            }
        }
    }
}

/// A container that is cut short is refused.
pub proof fn lemma_cdc_cut_short(
    j: Job,
    data: Seq<u8>,
    avg_kb: Option<usize>,
    screens: Seq<bool>,
    l: int,
)
    requires
        blocked::countable(cdc::chunk_cut(avg_kb).bounds_from(data, 0)),
        cdc::cdc_allowed(avg_kb),
        0 <= l < cdc_coded(j, data, avg_kb, screens).len(),
    ensures
        cdc_decoded(cdc_coded(j, data, avg_kb, screens).take(l)) is Err,
{
    let bounds = cdc::chunk_cut(avg_kb).bounds_from(data, 0);
    let parts = parts_of(j, data, bounds, screens);
    let blob = contained(parts, j.version);
    let cut = blob.take(l);
    cdc::lemma_chunks(data, avg_kb);
    assert forall|x: int| 0 <= x < parts.len() implies (#[trigger] parts[x]).orig <= u32::MAX
        && parts[x].stored.len() <= u32::MAX by {
        cdc::lemma_tile_at(bounds, 0, data.len() as int, x);
        assert(bounds[x].1 - bounds[x].0 <= u32::MAX);
    }
    lemma_index_len(parts, parts.len());
    if l >= 9 {
        assert(cut.take(4) =~= magic());
        assert(blob.subrange(5, 9) =~= bytes::le32(parts.len()));
        bytes::lemma_u32_at(blob, 5, parts.len());
        assert(bytes::u32_at(cut, 5) == bytes::u32_at(blob, 5));
        assert(cut[4] == j.version);
        if 9 + 10 * parts.len() <= l {
            assert(payload_bytes(parts, 0).len() == 0);
            lemma_cut_from(parts, j.version, l, 0, Seq::empty());
        }
    }
}

/// Where the average is no more than 512 MiB, it is the number of chunks alone that must fit.
pub proof fn lemma_chunks_countable(data: Seq<u8>, avg_kb: Option<usize>)
    requires
        cdc::cdc_allowed(avg_kb),
        cdc::cdc_avg(avg_kb) <= 0x2000_0000,
        cdc::chunk_cut(avg_kb).bounds_from(data, 0).len() <= u32::MAX,
    ensures
        blocked::countable(cdc::chunk_cut(avg_kb).bounds_from(data, 0)),
{
    cdc::lemma_chunks(data, avg_kb);
}

/// Where two files are alike from cuts on, the chunks from there on are stored
/// alike, as far as their verdicts are the same.
pub proof fn lemma_cdc_dedup(
    job: Job,
    avg_kb: Option<usize>,
    a: Seq<u8>,
    i: int,
    b: Seq<u8>,
    j: int,
    skip_shuffle: bool,
)
    requires
        cdc::cdc_allowed(avg_kb),
        0 <= i <= a.len(),
        0 <= j <= b.len(),
        a.skip(i) == b.skip(j),
    ensures
        ({
            let x = cdc::chunk_cut(avg_kb).bounds_from(a, i);
            let y = cdc::chunk_cut(avg_kb).bounds_from(b, j);
            &&& x.len() == y.len()
            &&& forall|k: int|
                0 <= k < x.len() ==> part_of(
                    job,
                    a.subrange((#[trigger] x[k]).0, x[k].1),
                    skip_shuffle,
                ) == part_of(job, b.subrange(y[k].0, y[k].1), skip_shuffle)
        }),
{
    let cut = cdc::chunk_cut(avg_kb);
    let x = cut.bounds_from(a, i);
    let y = cut.bounds_from(b, j);
    cdc::lemma_cdc_avg(avg_kb);
    cdc::lemma_resync(cut, a, i, b, j);
    cdc::lemma_tiles(cut, a, i);
    assert forall|k: int| 0 <= k < x.len() implies part_of(
        job,
        a.subrange((#[trigger] x[k]).0, x[k].1),
        skip_shuffle,
    ) == part_of(job, b.subrange(y[k].0, y[k].1), skip_shuffle) by {
        cdc::lemma_tile_at(x, i, a.len() as int, k);
        assert(x[k].0 - i == y[k].0 - j && x[k].1 - i == y[k].1 - j);
        assert(a.subrange(x[k].0, x[k].1) =~= a.skip(i).subrange(x[k].0 - i, x[k].1 - i));
        assert(b.subrange(y[k].0, y[k].1) =~= b.skip(j).subrange(y[k].0 - j, y[k].1 - j));
    }
}

// ---- the computation ----

/// What is stored of a chunk, its method, and 1 if it is stored as it is.
fn encode_part(
    raw: &[u8],
    window_size: usize,
    block_size: usize,
    version: u8,
    skip_shuffle: bool,
    settings: Settings,
) -> (r: (Vec<u8>, u8, u8))
    requires
        (Job {
            window: window_size as nat,
            block: block_size as nat,
            version,
            settings,
        }).allowed(raw@.len()),
    ensures
        ({
            let j = Job {
                window: window_size as nat,
                block: block_size as nat,
                version,
                settings,
            };
            let p = part_of(j, raw@, skip_shuffle);
            r.0@ == p.stored && r.1 == p.method && r.2 == p.raw && p.orig == raw@.len()
        }),
{
    let packed = smart::smart_compress_with_settings(
        raw,
        window_size,
        block_size,
        version,
        skip_shuffle,
        settings,
    );
    match packed {
        Some((c, m)) => {
            if c.len() < raw.len() {
                return (c, m.to_u8(), 0);
            }
        },
        None => {},
    }
    let mut stored: Vec<u8> = Vec::new();
    stored.extend_from_slice(raw);
    assert(stored@ =~= raw@);
    (stored, 0, 1)
}

/// Packs `data` in content-defined chunks. `avg_kb` is the average length of
/// chunks in KiB, if it is not the default; `screens` says of each chunk whether
/// the shuffled methods are left out.
pub fn cdc_compress_with_settings(
    data: &[u8],
    window_size: usize,
    block_size: usize,
    version: u8,
    avg_kb: Option<usize>,
    screens: &[bool],
    settings: Settings,
) -> (blob: Vec<u8>)
    requires
        cdc::cdc_allowed(avg_kb),
        forall|n: nat|
            n <= data@.len() && n <= 4 * cdc::cdc_avg(avg_kb) ==> #[trigger] (Job {
                window: window_size as nat,
                block: block_size as nat,
                version,
                settings,
            }).allowed(n),
    ensures
        blob@ == cdc_coded(
            (Job {
                window: window_size as nat,
                block: block_size as nat,
                version,
                settings,
            }),
            data@,
            avg_kb,
            screens@,
        ),
{
    let ghost j = Job { window: window_size as nat, block: block_size as nat, version, settings };
    let chunks = cdc::cdc_chunks(data, avg_kb);
    let ghost cut = cdc::chunk_cut(avg_kb);
    let ghost bounds = cut.bounds_from(data@, 0);
    let ghost parts = parts_of(j, data@, bounds, screens@);
    proof {
        cdc::lemma_cdc_avg(avg_kb);
        cdc::lemma_tiles(cut, data@, 0);
    }
    let n: usize = data.len();
    let count: usize = chunks.len();
    let mut index: Vec<u8> = Vec::new();
    let mut payload: Vec<u8> = Vec::new();
    let mut k: usize = 0;
    while k < count
        invariant
            k <= count == chunks@.len(),
            count == bounds.len(),
            n == data@.len(),
            cut == cdc::chunk_cut(avg_kb),
            cut.wf(),
            cut.max == 4 * cdc::cdc_avg(avg_kb),
            bounds == cut.bounds_from(data@, 0),
            cdc::tiles(bounds, 0, data@.len() as int),
            j == (Job {
                window: window_size as nat,
                block: block_size as nat,
                version,
                settings,
            }),
            parts == parts_of(j, data@, bounds, screens@),
            forall|n: nat|
                n <= data@.len() && n <= 4 * cdc::cdc_avg(avg_kb) ==> #[trigger] j.allowed(n),
            forall|x: int|
                0 <= x < bounds.len() ==> {
                    &&& (#[trigger] chunks@[x]).0 == bounds[x].0
                    &&& chunks@[x].1 == bounds[x].1 - bounds[x].0
                },
            index@ == index_bytes(parts, k as nat),
            payload@ == payload_bytes(parts, k as nat),
        decreases count - k,
    {
        let (off, len) = chunks[k];
        proof {
            cdc::lemma_tile_at(bounds, 0, data@.len() as int, k as int);
            cdc::lemma_bounds_len(cut, data@, 0, k as int);
            assert(chunks@[k as int].0 == bounds[k as int].0);
        }
        let raw = &data[off..off + len];
        assert(raw@ =~= data@.subrange(bounds[k as int].0, bounds[k as int].1));
        let skip: bool = k < screens.len() && screens[k];
        let ghost p = part_of(j, raw@, skip);
        assert(parts[k as int] == p);
        assert(j.allowed(raw@.len()));
        let (stored, method, is_raw) = encode_part(
            raw,
            window_size,
            block_size,
            version,
            skip,
            settings,
        );
        let ghost index0 = index@;
        bytes::push_u32(&mut index, len as u64);
        bytes::push_u32(&mut index, stored.len() as u64);
        index.push(method);
        index.push(is_raw);
        let ghost payload0 = payload@;
        payload.extend_from_slice(stored.as_slice());
        proof {
            assert(index@ =~= index0 + entry(p));
            assert(payload@ =~= payload0 + p.stored);
        }
        k = k + 1;
    }
    let mut out: Vec<u8> = Vec::new();
    out.push(66);
    out.push(78);
    out.push(67);
    out.push(68);
    out.push(version);
    bytes::push_u32(&mut out, count as u64);
    out.extend_from_slice(index.as_slice());
    out.extend_from_slice(payload.as_slice());
    assert(out@ =~= contained(parts, version));
    out
}

/// Packs `data` in content-defined chunks of the default length.
pub fn cdc_compress(
    data: &[u8],
    window_size: usize,
    block_size: usize,
    version: u8,
    screens: &[bool],
) -> (blob: Vec<u8>)
    requires
        data@.len() >= 128 ==> window_size >= 1,
    ensures
        blob@ == cdc_coded(
            smart::standard_job(window_size as nat, block_size as nat, version),
            data@,
            None,
            screens@,
        ),
{
    cdc_compress_with_settings(
        data,
        window_size,
        block_size,
        version,
        None,
        screens,
        Settings::standard(),
    )
}

/// Unpacks a container.
pub fn cdc_decompress(blob: &[u8]) -> (r: Result<Vec<u8>, String>)
    ensures
        match (r, cdc_decoded(blob@)) {
            (Ok(v), Ok(want)) => v@ == want,
            (Err(e), Err(m)) => e@ == m,
            _ => false,
        },
{
    let n: usize = blob.len();
    if n < 9 || blob[0] != 66 || blob[1] != 78 || blob[2] != 67 || blob[3] != 68 {
        proof {
            if n >= 9 && blob@.take(4) == magic() {
                assert(blob@.take(4)[0] == 66 && blob@.take(4)[1] == 78 && blob@.take(4)[2] == 67
                    && blob@.take(4)[3] == 68);
            }
        }
        return Err("not a BNCD (dedup-friendly) stream".to_string());
    }
    assert(blob@.take(4) =~= magic());
    let version: u8 = blob[4];
    let count: usize = bytes::get_u32(blob, 5) as usize;
    if count > (n - 9) / 10 {
        return Err("truncated BNCD index".to_string());
    }
    let mut pos: usize = 9 + 10 * count;
    let mut out: Vec<u8> = Vec::new();
    let mut k: usize = 0;
    let ghost want = cdc_decoded(blob@);
    while k < count
        invariant
            k <= count,
            n == blob@.len(),
            9 + 10 * count <= n,
            pos <= n,
            want == cdc_decoded(blob@),
            want == uncontained(blob@, k as nat, count as nat, pos as nat, version, out@),
        decreases count - k,
    {
        let o: usize = 9 + 10 * k;
        let orig: usize = bytes::get_u32(blob, o) as usize;
        let size: usize = bytes::get_u32(blob, o + 4) as usize;
        let method: u8 = blob[o + 8];
        let is_raw: u8 = blob[o + 9];
        if size > n - pos {
            return Err("truncated BNCD payload".to_string());
        }
        let chunk = &blob[pos..pos + size];
        pos = pos + size;
        let ghost before = out@;
        if is_raw == 1 {
            out.extend_from_slice(chunk);
            assert(out@ =~= before + chunk@);
        } else {
            match CompressMethod::from_u8(method) {
                None => {
                    return Err("invalid method in BNCD stream".to_string());
                },
                Some(m) => {
                    proof {
                        let found = choose|x: CompressMethod| smart::method_id(x) == method;
                        assert(smart::method_id(m) == method);
                        smart::lemma_method_ids(found, m);
                    }
                    match smart::smart_decompress_with_version(chunk, m, orig, version) {
                        Err(e) => {
                            return Err(e);
                        },
                        Ok(v) => {
                            out.extend_from_slice(v.as_slice());
                            assert(out@ =~= before + v@);
                        },
                    }
                },
            }
        }
        k = k + 1;
    }
    Ok(out)
}

// ---- what the container holds ----

/// What is stored of a chunk, the number of its method, and 1 if it is stored as it is: what the
/// choice between the methods gives, wherever that is shorter.
pub open spec fn chunk_stored(j: Job, piece: Seq<u8>, skip_shuffle: bool) -> (Seq<u8>, u8, u8) {
    match smart::chosen(j, piece, skip_shuffle) {
        Some((c, m)) if c.len() < piece.len() => (
            c,
            match m {
                CompressMethod::Plain => 0,
                CompressMethod::Blocked => 1,
                CompressMethod::Shuffle => 2,
                CompressMethod::ShuffleBlk => 3,
                CompressMethod::Shuffle2 => 4,
                CompressMethod::Shuffle2Blk => 5,
            },
            0,
        ),
        _ => (piece, 0, 1),
    }
}

/// What is stored of the first `k` chunks.
pub open spec fn chunks_stored(
    j: Job,
    data: Seq<u8>,
    bounds: Seq<(int, int)>,
    screens: Seq<bool>,
    k: nat,
) -> Seq<u8>
    decreases k,
{
    if k == 0 {
        Seq::empty()
    } else {
        let b = bounds[k - 1];
        chunks_stored(j, data, bounds, screens, (k - 1) as nat) + chunk_stored(
            j,
            data.subrange(b.0, b.1),
            k - 1 < screens.len() && screens[k - 1],
        ).0
    }
}

proof fn lemma_chunks_stored(
    j: Job,
    data: Seq<u8>,
    bounds: Seq<(int, int)>,
    screens: Seq<bool>,
    k: nat,
)
    requires
        k <= bounds.len(),
    ensures
        payload_bytes(parts_of(j, data, bounds, screens), k) == chunks_stored(
            j,
            data,
            bounds,
            screens,
            k,
        ),
    decreases k,
{
    if k > 0 {
        lemma_chunks_stored(j, data, bounds, screens, (k - 1) as nat);
    }
}

/// Where everything stands in a container: `BNCD` and the version, the number of chunks at byte 5,
/// ten bytes for chunk `k` at `9 + 10 k`, and behind those what is stored of the chunks.
#[verifier::rlimit(50)]
#[verifier::spinoff_prover]
pub proof fn lemma_cdc_layout(
    j: Job,
    data: Seq<u8>,
    avg_kb: Option<usize>,
    screens: Seq<bool>,
    k: int,
)
    requires
        cdc::cdc_allowed(avg_kb),
        data.len() <= u32::MAX,
        0 <= k < cdc::chunk_cut(avg_kb).bounds_from(data, 0).len(),
    ensures
        ({
            let blob = cdc_coded(j, data, avg_kb, screens);
            let bounds = cdc::chunk_cut(avg_kb).bounds_from(data, 0);
            let n = bounds.len();
            let piece = data.subrange(bounds[k].0, bounds[k].1);
            let (stored, method, raw) = chunk_stored(
                j,
                piece,
                k < screens.len() && screens[k],
            );
            &&& blob.take(5) == seq![66u8, 78u8, 67u8, 68u8, j.version]
            &&& bytes::u32_at(blob, 5) == n
            &&& bytes::u32_at(blob, 9 + 10 * k) == piece.len()
            &&& bytes::u32_at(blob, 13 + 10 * k) == stored.len()
            &&& blob[17 + 10 * k] == method
            &&& blob[18 + 10 * k] == raw
            &&& blob.skip((9 + 10 * n) as int) == chunks_stored(j, data, bounds, screens, n)
        }),
{
    let bounds = cdc::chunk_cut(avg_kb).bounds_from(data, 0);
    let n = bounds.len();
    let parts = parts_of(j, data, bounds, screens);
    let blob = cdc_coded(j, data, avg_kb, screens);
    cdc::lemma_cdc_avg(avg_kb);
    cdc::lemma_tiles(cdc::chunk_cut(avg_kb), data, 0);
    cdc::lemma_tile_at(bounds, 0, data.len() as int, k);
    blocked::lemma_tiles_count(bounds, 0, data.len() as int);
    lemma_contained_at(parts, j.version, k as nat);
    lemma_index_len(parts, n);
    lemma_chunks_stored(j, data, bounds, screens, n);
    assert(blob.take(5) =~= seq![66u8, 78u8, 67u8, 68u8, j.version]);
    assert(blob.subrange(5, 9) =~= bytes::le32(n));
    bytes::lemma_u32_at(blob, 5, n);
    assert(blob.skip((9 + 10 * n) as int) =~= payload_bytes(parts, n));
}

// ---- containers of any origin ----

/// A chunk stands for a piece: it is the piece where it is marked with 1, and else what its method,
/// one of 0 to 5, makes of it is.
pub open spec fn part_stands(p: Part, piece: Seq<u8>, version: u8) -> bool {
    &&& p.orig <= u32::MAX
    &&& p.stored.len() <= u32::MAX
    &&& if p.raw == 1 {
        p.stored == piece
    } else {
        exists|m: CompressMethod|
            #[trigger] smart::method_id(m) == p.method && smart::undone(
                p.stored,
                m,
                p.orig,
                version,
            ) == Ok::<Seq<u8>, Seq<char>>(piece)
    }
}

/// Some pieces, one after the other.
pub open spec fn pieces_joined(v: Seq<Seq<u8>>) -> Seq<u8>
    decreases v.len(),
{
    if v.len() == 0 {
        Seq::empty()
    } else {
        pieces_joined(v.drop_last()) + v.last()
    }
}

proof fn lemma_any_part(p: Part, piece: Seq<u8>, version: u8)
    requires
        part_stands(p, piece, version),
    ensures
        part_opened(p, version) == Ok::<Seq<u8>, Seq<char>>(piece),
{
    if p.raw != 1 {
        let m = choose|m: CompressMethod|
            #[trigger] smart::method_id(m) == p.method && smart::undone(
                p.stored,
                m,
                p.orig,
                version,
            ) == Ok::<Seq<u8>, Seq<char>>(piece);
        let found = choose|x: CompressMethod| smart::method_id(x) == p.method;
        assert(smart::method_id(found) == p.method);
        smart::lemma_method_ids(found, m);
    }
}

#[verifier::rlimit(50)]
#[verifier::spinoff_prover]
proof fn lemma_any_from(parts: Seq<Part>, v: Seq<Seq<u8>>, version: u8, k: nat)
    requires
        k <= parts.len() <= u32::MAX,
        v.len() == parts.len(),
        forall|x: int| 0 <= x < v.len() ==> part_stands(#[trigger] parts[x], v[x], version),
    ensures
        uncontained(
            contained(parts, version),
            k,
            parts.len(),
            9 + 10 * parts.len() + payload_bytes(parts, k).len(),
            version,
            pieces_joined(v.take(k as int)),
        ) == Ok::<Seq<u8>, Seq<char>>(pieces_joined(v)),
    decreases parts.len() - k,
{
    if k < parts.len() {
        let p = parts[k as int];
        assert(part_stands(parts[k as int], v[k as int], version));
        lemma_any_part(p, v[k as int], version);
        lemma_contained_at(parts, version, k);
        lemma_payload_at(parts, parts.len(), k);
        lemma_any_from(parts, v, version, k + 1);
        assert(v.take(k as int + 1).drop_last() =~= v.take(k as int));
    } else {
        assert(v.take(k as int) =~= v);
    }
}

/// A container of any origin stands for what its chunks stand for, one after the other.
pub proof fn lemma_any_container(parts: Seq<Part>, v: Seq<Seq<u8>>, version: u8)
    requires
        parts.len() <= u32::MAX,
        v.len() == parts.len(),
        forall|x: int| 0 <= x < v.len() ==> part_stands(#[trigger] parts[x], v[x], version),
    ensures
        cdc_decoded(contained(parts, version)) == Ok::<Seq<u8>, Seq<char>>(pieces_joined(v)),
{
    lemma_any_from(parts, v, version, 0);
    lemma_container(parts, version);
    assert(v.take(0) =~= Seq::empty());
}

} // verus!
