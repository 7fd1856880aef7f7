//! The way through an archive to the members that are asked for.
//!
//! A walk does no input of its own. It says where the next header is, is told what stands there,
//! and goes on behind the member, or over it.

use crate::archive::container;
use crate::archive::container::Got;
use crate::archive::directory;
use crate::archive::entry;
use crate::archive::entry::{Entry, EntryMeta};
use crate::archive::member;
use crate::codec::stream;
use crate::text;
use vstd::prelude::*;
use vstd::string::*;

verus! {

/// Where a walk stands.
pub struct Way {
    pub filter: Seq<Seq<char>>,
    /// The members of the index, if the walk goes by it.
    pub index: Option<Seq<Entry>>,
    /// The next of them.
    pub next: nat,
    /// Where the next header is, if the walk does not go by the index.
    pub pos: nat,
    /// The members that are left.
    pub left: nat,
}

/// The start of a walk. Names are looked up in the index if there is one.
pub open spec fn way_of(filter: Seq<Seq<char>>, count: nat, index: Option<Seq<Entry>>) -> Way {
    Way {
        filter,
        index: if filter.len() > 0 {
            index
        } else {
            None
        },
        next: 0,
        pos: 9,
        left: count,
    }
}

/// A place in a file, none behind the greatest.
pub open spec fn clamped(n: int) -> nat {
    if n <= u64::MAX {
        n as nat
    } else {
        u64::MAX as nat
    }
}

impl Way {
    /// On to the next member that is asked for, as far as the index tells.
    pub open spec fn sought(self) -> Way
        decreases
                if self.index is Some && self.next < self.index->0.len() {
                    self.index->0.len() - self.next
                } else {
                    0
                },
    {
        if self.index is Some && self.next < self.index->0.len() && !self.filter.contains(
            self.index->0[self.next as int].path,
        ) {
            (Way { next: self.next + 1, ..self }).sought()
        } else {
            self
        }
    }

    /// Where the next header is.
    pub open spec fn here(self) -> Option<nat> {
        match self.index {
            Some(ix) => if self.next < ix.len() {
                Some(ix[self.next as int].offset as nat)
            } else {
                None
            },
            None => if self.left > 0 {
                Some(self.pos)
            } else {
                None
            },
        }
    }

    /// What is still to be extracted.
    pub open spec fn rest(self, data: Seq<u8>, dest: Option<Seq<char>>) -> Result<
        Seq<Got>,
        Seq<char>,
    > {
        match self.index {
            Some(ix) => container::got_by_index(data, ix, self.next, self.filter, dest),
            None => container::got_in_order(
                data,
                self.pos as int,
                self.left,
                self.filter,
                dest,
            ),
        }
    }

    /// What is still to be listed.
    pub open spec fn listing(self, data: Seq<u8>) -> Result<Seq<Entry>, Seq<char>> {
        container::scanned(data, self.pos as int, self.left)
    }

    /// The member here is asked for.
    pub open spec fn wants(self, e: Entry) -> bool {
        self.index is Some || container::is_wanted(self.filter, e.path)
    }

    /// Behind the member whose header is here, which is extracted. Its payload starts at `start`.
    pub open spec fn behind(self, e: Entry, start: nat) -> Way {
        if self.index is Some {
            Way { next: self.next + 1, ..self }
        } else {
            Way {
                pos: clamped(start + e.stored_size),
                left: (self.left - 1) as nat,
                ..self
            }
        }
    }

    /// Over the member whose header is here. Its size is taken as a signed number.
    pub open spec fn over(self, e: Entry, start: nat) -> Result<Way, Seq<char>> {
        let to = start + entry::i64_of(e.stored_size as nat);
        if to < 0 {
            Err(container::bad_seek())
        } else {
            Ok(Way { pos: clamped(to), left: (self.left - 1) as nat, ..self })
        }
    }

    /// How many headers there are at most.
    pub open spec fn steps(self) -> nat {
        match self.index {
            Some(ix) => if self.next < ix.len() {
                (ix.len() - self.next) as nat
            } else {
                0
            },
            None => self.left,
        }
    }
}

/// A walk finds what is to be extracted.
pub proof fn lemma_start(
    data: Seq<u8>,
    filter: Seq<Seq<char>>,
    dest: Option<Seq<char>>,
    count: nat,
    index: Option<Seq<Entry>>,
)
    requires
        container::opened(data) == Ok::<nat, Seq<char>>(count),
        filter.len() > 0 ==> index == directory::cd_index(data, count, member::FORMAT_VERSION),
    ensures
        way_of(filter, count, index).rest(data, dest) == container::gathered(data, filter, dest),
{
}

/// Where nothing is looked up, a walk finds what is to be listed.
pub proof fn lemma_start_listing(data: Seq<u8>, count: nat)
    ensures
        way_of(Seq::empty(), count, None).listing(data) == container::scanned(data, 9, count),
{
}

impl Way {
    /// Nothing that is asked for is passed on the way to the next header. Where there is none, all
    /// is done; where no header can be read, the archive is cut short.
    pub proof fn lemma_sought(self, data: Seq<u8>, dest: Option<Seq<char>>)
        ensures
            ({
                let w = self.sought();
                &&& w.rest(data, dest) == self.rest(data, dest)
                &&& w.sought() == w
                &&& w.steps() <= self.steps()
                &&& w.next >= self.next
                &&& w.filter == self.filter
                &&& w.index is Some == self.index is Some
                &&& match w.here() {
                    None => w.rest(data, dest) == Ok::<Seq<Got>, Seq<char>>(Seq::empty()),
                    Some(p) => entry::entry_at(
                        container::from_pos(data, p as int),
                        p as u64,
                    ) is None ==> w.rest(data, dest) == Err::<Seq<Got>, Seq<char>>(
                        stream::cut_short(),
                    ),
                }
            }),
        decreases self.steps(),
    {
        if self.index is Some && self.next < self.index->0.len() && !self.filter.contains(
            self.index->0[self.next as int].path,
        ) {
            (Way { next: self.next + 1, ..self }).lemma_sought(data, dest);
        }
    }

    /// A step of the walk does what is to be done with the member whose header is here.
    pub proof fn lemma_step(self, data: Seq<u8>, dest: Option<Seq<char>>, e: Entry)
        requires
            data.len() <= u64::MAX,
            self.sought() == self,
            self.here() is Some,
            entry::entry_at(
                container::from_pos(data, self.here()->0 as int),
                self.here()->0 as u64,
            ) == Some(e),
        ensures
            ({
                let at = self.here()->0 as int;
                let start = container::payload_start(data, at) as nat;
                if self.wants(e) {
                    self.rest(data, dest) == match container::got_at(data, at, dest) {
                        Err(m) => Err(m),
                        Ok(g) => container::ahead(
                            seq![g],
                            self.behind(e, start).rest(data, dest),
                        ),
                    }
                } else {
                    match self.over(e, start) {
                        Err(m) => self.rest(data, dest) == Err::<Seq<Got>, Seq<char>>(m),
                        Ok(w) => self.rest(data, dest) == w.rest(data, dest),
                    }
                }
            }),
            self.behind(e, 0).steps() < self.steps(),
            self.index is None ==> match self.over(
                e,
                container::payload_start(data, self.here()->0 as int) as nat,
            ) {
                Err(m) => self.listing(data) == Err::<Seq<Entry>, Seq<char>>(m),
                Ok(w) => self.listing(data) == container::ahead(seq![e], w.listing(data)),
            },
    {
        if self.index is Some {
            if !self.filter.contains(self.index->0[self.next as int].path) {
                (Way { next: self.next + 1, ..self }).lemma_sought(data, dest);
                assert(false);
            }
        } else {
            let at = self.pos as int;
            let k = (self.left - 1) as nat;
            let start = container::payload_start(data, at);
            let next = start + e.stored_size;
            let to = container::passed(data, at, e);
            if next > u64::MAX {
                container::lemma_none_behind(data, next, k, self.filter, dest);
                container::lemma_none_behind(data, u64::MAX as int, k, self.filter, dest);
            }
            if to > u64::MAX {
                container::lemma_none_behind(data, to, k, self.filter, dest);
                container::lemma_none_behind(data, u64::MAX as int, k, self.filter, dest);
                container::lemma_no_entry(data, to, k);
                container::lemma_no_entry(data, u64::MAX as int, k);
            }
        }
    }
}

// ---- the computation ----

/// A walk through an archive.
pub struct Walk<'a> {
    filter: &'a [String],
    index: Option<Vec<EntryMeta>>,
    next: usize,
    pos: u64,
    left: u32,
}

pub open spec fn index_of(index: Option<Vec<EntryMeta>>) -> Option<Seq<Entry>> {
    match index {
        None => None,
        Some(v) => Some(entry::entries_of(v@)),
    }
}

impl<'a> View for Walk<'a> {
    type V = Way;

    closed spec fn view(&self) -> Way {
        Way {
            filter: text::texts_of(self.filter@),
            index: index_of(self.index),
            next: self.next as nat,
            pos: self.pos as nat,
            left: self.left as nat,
        }
    }
}

/// The place behind `start` by `size`, none behind the greatest.
fn place_behind(start: u64, size: u64) -> (r: u64)
    ensures
        r == clamped(start + size),
{
    if size <= u64::MAX - start {
        start + size
    } else {
        u64::MAX
    }
}

impl<'a> Walk<'a> {
    /// Starts a walk through an archive of `count` members.
    pub fn new(filter: &'a [String], count: u32, index: Option<Vec<EntryMeta>>) -> (r: Walk<'a>)
        ensures
            r@ == way_of(text::texts_of(filter@), count as nat, index_of(index)),
    {
        let kept: Option<Vec<EntryMeta>> = if filter.len() > 0 {
            index
        } else {
            None
        };
        Walk { filter, index: kept, next: 0, pos: 9, left: count }
    }

    /// Goes on to the next header, and gives its place.
    pub fn seek(&mut self) -> (r: Option<u64>)
        ensures
            final(self)@ == old(self)@.sought(),
            match (r, final(self)@.here()) {
                (Some(a), Some(b)) => a == b,
                (None, None) => true,
                _ => false,
            },
    {
        let ghost want = self@.sought();
        let n: usize = match &self.index {
            None => {
                return if self.left > 0 {
                    Some(self.pos)
                } else {
                    None
                };
            },
            Some(ix) => ix.len(),
        };
        let mut k: usize = self.next;
        while k < n
            invariant
                want == (Way { next: k as nat, ..self@ }).sought(),
                self.index is Some,
                n == self.index->0@.len(),
            ensures
                want == (Way { next: k as nat, ..self@ }),
            decreases n - k,
        {
            let here: &EntryMeta = match &self.index {
                None => {
                    break;
                },
                Some(ix) => &ix[k],
            };
            assert(self@.index->0[k as int] == self.index->0@[k as int]@);
            if container::names(self.filter, here.path.as_str()) {
                break;
            }
            k = k + 1;
        }
        self.next = k;
        match &self.index {
            None => None,
            Some(ix) => if k < ix.len() {
                assert(self@.index->0[k as int] == ix@[k as int]@);
                Some(ix[k].offset)
            } else {
                None
            },
        }
    }

    /// Goes on from the header that is here. Its payload starts at `start`. Says whether the
    /// member is asked for.
    pub fn visit(&mut self, meta: &EntryMeta, start: u64) -> (r: Result<bool, String>)
        requires
            old(self)@.here() is Some,
        ensures
            ({
                let w = old(self)@;
                match r {
                    Ok(true) => w.wants(meta@) && final(self)@ == w.behind(meta@, start as nat),
                    Ok(false) => !w.wants(meta@) && w.over(meta@, start as nat) == Ok::<
                        Way,
                        Seq<char>,
                    >(final(self)@),
                    Err(e) => !w.wants(meta@) && w.over(meta@, start as nat) == Err::<
                        Way,
                        Seq<char>,
                    >(e@) && final(self)@ == w,
                }
            }),
    {
        match &self.index {
            Some(ix) => {
                let n: usize = ix.len();
                assert(self@.index->0.len() == n);
                self.next = self.next + 1;
                return Ok(true);
            },
            None => {},
        }
        if container::wanted(self.filter, meta.path.as_str()) {
            self.pos = place_behind(start, meta.stored_size);
            self.left = self.left - 1;
            return Ok(true);
        }
        match self.pass(meta, start) {
            Err(e) => Err(e),
            Ok(_) => Ok(false),
        }
    }

    /// Goes over the member whose header is here, where the walk does not go by an index. Its
    /// payload starts at `start`.
    pub fn pass(&mut self, meta: &EntryMeta, start: u64) -> (r: Result<(), String>)
        requires
            old(self)@.here() is Some,
            old(self)@.index is None,
        ensures
            match (r, old(self)@.over(meta@, start as nat)) {
                (Ok(_), Ok(w)) => final(self)@ == w,
                (Err(e), Err(m)) => e@ == m && final(self)@ == old(self)@,
                _ => false,
            },
    {
        let to: i128 = start as i128 + entry::from_bits(meta.stored_size) as i128;
        if to < 0 {
            return Err("invalid seek to a negative or overflowing position".to_string());
        }
        self.pos = if to <= u64::MAX as i128 {
            to as u64
        } else {
            u64::MAX
        };
        self.left = self.left - 1;
        Ok(())
    }
}

} // verus!
