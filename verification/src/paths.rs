//! Paths with `/` between their parts.

use crate::text;
use vstd::prelude::*;
use vstd::string::*;

verus! {

/// The parts of `s` where the first starts at `start` and goes on to `i` at least.
pub open spec fn parts_from(s: Seq<char>, start: int, i: int) -> Seq<Seq<char>>
    decreases s.len() - i,
{
    if i >= s.len() {
        seq![s.subrange(start, s.len() as int)]
    } else if s[i] == '/' {
        seq![s.subrange(start, i)] + parts_from(s, i + 1, i + 1)
    } else {
        parts_from(s, start, i + 1)
    }
}

/// What stands between the slashes.
pub open spec fn parts(s: Seq<char>) -> Seq<Seq<char>> {
    parts_from(s, 0, 0)
}

pub open spec fn is_parent(part: Seq<char>) -> bool {
    part == seq!['.', '.']
}

/// A part that names something: not empty, not `.` and not `..`.
pub open spec fn is_name(part: Seq<char>) -> bool {
    part.len() > 0 && part != seq!['.'] && !is_parent(part)
}

pub open spec fn is_absolute(s: Seq<char>) -> bool {
    s.len() > 0 && s[0] == '/'
}

/// Some part leads up.
pub open spec fn leads_up(s: Seq<char>) -> bool {
    exists|k: int| 0 <= k < parts(s).len() && is_parent(#[trigger] parts(s)[k])
}

/// `rel` under `dest`.
pub open spec fn under(dest: Seq<char>, rel: Seq<char>) -> Seq<char> {
    if dest.len() > 0 && dest.last() != '/' {
        dest.push('/') + rel
    } else {
        dest + rel
    }
}

/// Where a member goes, unless its path is absolute or leads up.
pub open spec fn safe_target(dest: Seq<char>, rel: Seq<char>) -> Result<Seq<char>, Seq<char>> {
    if is_absolute(rel) {
        Err("refusing absolute path in archive: "@ + rel)
    } else if leads_up(rel) {
        Err("refusing unsafe path in archive: "@ + rel)
    } else {
        Ok(under(dest, rel))
    }
}

/// The names among `v`, with slashes between them.
pub open spec fn names_joined(v: Seq<Seq<char>>) -> Seq<char>
    decreases v.len(),
{
    if v.len() == 0 {
        Seq::empty()
    } else {
        let before = names_joined(v.drop_last());
        if !is_name(v.last()) {
            before
        } else if before.len() == 0 {
            v.last()
        } else {
            before.push('/') + v.last()
        }
    }
}

/// The names in a path, with slashes between them.
pub open spec fn normalized(rel: Seq<char>) -> Seq<char> {
    names_joined(parts(rel))
}

// ---- normalized paths are safe ----

spec fn plain(s: Seq<char>) -> bool {
    forall|k: int| 0 <= k < s.len() ==> (#[trigger] s[k]) != '/'
}

proof fn lemma_parts_plain(s: Seq<char>, start: int, i: int)
    requires
        0 <= start <= i <= s.len(),
        plain(s.subrange(start, i)),
    ensures
        forall|k: int|
            0 <= k < parts_from(s, start, i).len() ==> plain(#[trigger] parts_from(s, start, i)[k]),
    decreases s.len() - i,
{
    let all = parts_from(s, start, i);
    if i < s.len() {
        if s[i] == '/' {
            assert(s.subrange(i + 1, i + 1) =~= Seq::empty());
            lemma_parts_plain(s, i + 1, i + 1);
            assert forall|k: int| 0 <= k < all.len() implies plain(#[trigger] all[k]) by {
                if k > 0 {
                    assert(all[k] == parts_from(s, i + 1, i + 1)[k - 1]);
                }
            }
        } else {
            let grown = s.subrange(start, i + 1);
            assert forall|k: int| 0 <= k < grown.len() implies (#[trigger] grown[k]) != '/' by {
                if k < i - start {
                    assert(grown[k] == s.subrange(start, i)[k]);
                }
            }
            lemma_parts_plain(s, start, i + 1);
            assert(all == parts_from(s, start, i + 1));
        }
    } else {
        let one = s.subrange(start, i);
        assert(all == seq![one]);
        assert forall|k: int| 0 <= k < all.len() implies plain(#[trigger] all[k]) by {
            assert(all[k] == one);
        }
    }
}

/// A text without slashes is one part.
proof fn lemma_one_part(s: Seq<char>, start: int, i: int)
    requires
        0 <= start <= i <= s.len(),
        plain(s.skip(start)),
    ensures
        parts_from(s, start, i) == seq![s.skip(start)],
    decreases s.len() - i,
{
    if i < s.len() {
        assert(s[i] == s.skip(start)[i - start]);
        lemma_one_part(s, start, i + 1);
    } else {
        assert(s.subrange(start, s.len() as int) =~= s.skip(start));
    }
}

/// One part more.
proof fn lemma_part_added(a: Seq<char>, b: Seq<char>, start: int, i: int)
    requires
        0 <= start <= i <= a.len(),
        plain(b),
    ensures
        parts_from(a.push('/') + b, start, i) == parts_from(a, start, i).push(b),
    decreases a.len() - i,
{
    let s = a.push('/') + b;
    if i < a.len() {
        assert(s[i] == a[i]);
        if a[i] == '/' {
            lemma_part_added(a, b, i + 1, i + 1);
            assert(s.subrange(start, i) =~= a.subrange(start, i));
            assert(parts_from(s, start, i) =~= parts_from(a, start, i).push(b));
        } else {
            lemma_part_added(a, b, start, i + 1);
        }
    } else {
        assert(s[i] == '/');
        assert(s.skip(i + 1) =~= b);
        lemma_one_part(s, i + 1, i + 1);
        assert(s.subrange(start, i) =~= a.subrange(start, a.len() as int));
        assert(parts_from(s, start, i) =~= parts_from(a, start, i).push(b));
    }
}

proof fn lemma_names_joined(v: Seq<Seq<char>>)
    requires
        forall|k: int| 0 <= k < v.len() ==> plain(#[trigger] v[k]),
    ensures
        names_joined(v).len() > 0 ==> forall|k: int|
            0 <= k < parts(names_joined(v)).len() ==> is_name(#[trigger] parts(names_joined(v))[k]),
    decreases v.len(),
{
    if v.len() > 0 {
        let w = v.drop_last();
        assert forall|k: int| 0 <= k < w.len() implies plain(#[trigger] w[k]) by {
            assert(w[k] == v[k]);
        }
        lemma_names_joined(w);
        let before = names_joined(w);
        let last = v.last();
        assert(plain(v[v.len() - 1]));
        if is_name(last) {
            let all = parts(names_joined(v));
            if before.len() == 0 {
                assert(last.skip(0) =~= last);
                lemma_one_part(last, 0, 0);
                assert(all == seq![last]);
            } else {
                lemma_part_added(before, last, 0, 0);
                assert(all == parts(before).push(last));
            }
            assert forall|k: int| 0 <= k < all.len() implies is_name(#[trigger] all[k]) by {
                if k < all.len() - 1 {
                    assert(all[k] == parts(before)[k]);
                }
            }
        }
    }
}

/// A normalized path is neither absolute nor does it lead up, so it is never refused.
pub proof fn lemma_normalized_safe(dest: Seq<char>, rel: Seq<char>)
    ensures
        !is_absolute(normalized(rel)),
        !leads_up(normalized(rel)),
        safe_target(dest, normalized(rel)) == Ok::<Seq<char>, Seq<char>>(
            under(dest, normalized(rel)),
        ),
{
    let n = normalized(rel);
    assert(rel.subrange(0, 0) =~= Seq::empty());
    lemma_parts_plain(rel, 0, 0);
    lemma_names_joined(parts(rel));
    if n.len() > 0 {
        if n[0] == '/' {
            assert(n.subrange(0, 0) =~= Seq::empty());
            assert(parts(n)[0].len() == 0);
            assert(is_name(parts(n)[0]));
        }
    } else {
        assert(parts(n) =~= seq![n.subrange(0, 0)]);
        assert(seq!['.', '.'].len() == 2);
    }
    assert forall|k: int| 0 <= k < parts(n).len() implies !is_parent(#[trigger] parts(n)[k]) by {
        if n.len() > 0 {
            assert(is_name(parts(n)[k]));
        } else {
            assert(parts(n)[k].len() == 0);
        }
    }
}

// ---- what paths are made of ----

/// Texts with slashes between them.
pub open spec fn slashed(v: Seq<Seq<char>>) -> Seq<char>
    decreases v.len(),
{
    if v.len() == 0 {
        Seq::empty()
    } else if v.len() == 1 {
        v[0]
    } else {
        slashed(v.drop_last()).push('/') + v.last()
    }
}

/// Texts without slashes, one at least.
pub open spec fn pieces(v: Seq<Seq<char>>) -> bool {
    &&& v.len() > 0
    &&& forall|k: int, x: int|
        0 <= k < v.len() && 0 <= x < v[k].len() ==> (#[trigger] v[k][x]) != '/'
}

/// Two dots in a row with a slash or nothing on either side.
pub open spec fn climbs(s: Seq<char>) -> bool {
    exists|a: int|
        0 <= a < s.len() - 1 && #[trigger] s[a] == '.' && s[a + 1] == '.' && (a == 0 || s[a - 1]
            == '/') && (a + 2 == s.len() || s[a + 2] == '/')
}

proof fn lemma_pieces_less(v: Seq<Seq<char>>)
    requires
        pieces(v),
        v.len() > 1,
    ensures
        pieces(v.drop_last()),
        plain(v.last()),
{
    let w = v.drop_last();
    assert forall|k: int, x: int| 0 <= k < w.len() && 0 <= x < w[k].len() implies (#[trigger] w[k][x])
        != '/' by {
        assert(w[k][x] == v[k][x]);
    }
    assert forall|x: int| 0 <= x < v.last().len() implies (#[trigger] v.last()[x]) != '/' by {
        assert(v.last()[x] == v[v.len() - 1][x]);
    }
}

/// A path falls apart where the slashes are, and nowhere else.
pub proof fn lemma_parts_of_slashed(v: Seq<Seq<char>>)
    requires
        pieces(v),
    ensures
        parts(slashed(v)) == v,
    decreases v.len(),
{
    if v.len() == 1 {
        let s = v[0];
        assert forall|x: int| 0 <= x < s.skip(0).len() implies (#[trigger] s.skip(0)[x]) != '/' by {
            assert(s.skip(0)[x] == v[0][x]);
        }
        assert(s.skip(0) =~= s);
        lemma_one_part(s, 0, 0);
        assert(seq![s] =~= v);
    } else {
        lemma_pieces_less(v);
        lemma_parts_of_slashed(v.drop_last());
        lemma_part_added(slashed(v.drop_last()), v.last(), 0, 0);
        assert(v.drop_last().push(v.last()) =~= v);
    }
}

proof fn lemma_slashed_front(a: Seq<char>, w: Seq<Seq<char>>)
    requires
        w.len() > 0,
    ensures
        slashed(seq![a] + w) == a.push('/') + slashed(w),
    decreases w.len(),
{
    let v = seq![a] + w;
    if w.len() == 1 {
        assert(v.drop_last() =~= seq![a]);
        assert(slashed(seq![a]) == a);
        assert(v.last() == w[0]);
    } else {
        assert(v.drop_last() =~= seq![a] + w.drop_last());
        lemma_slashed_front(a, w.drop_last());
        assert(v.last() == w.last());
        assert((a.push('/') + slashed(w.drop_last())).push('/') + w.last() =~= a.push('/') + (
        slashed(w.drop_last()).push('/') + w.last()));
    }
}

proof fn lemma_slashed_parts_from(s: Seq<char>, start: int, i: int)
    requires
        0 <= start <= i <= s.len(),
    ensures
        parts_from(s, start, i).len() > 0,
        slashed(parts_from(s, start, i)) == s.skip(start),
    decreases s.len() - i,
{
    if i >= s.len() {
        assert(s.subrange(start, s.len() as int) =~= s.skip(start));
    } else if s[i] == '/' {
        lemma_slashed_parts_from(s, i + 1, i + 1);
        lemma_slashed_front(s.subrange(start, i), parts_from(s, i + 1, i + 1));
        assert(s.subrange(start, i).push('/') + s.skip(i + 1) =~= s.skip(start));
    } else {
        lemma_slashed_parts_from(s, start, i + 1);
    }
}

/// Every text is made of texts without slashes, with slashes between them.
pub proof fn lemma_slashed_parts(s: Seq<char>)
    ensures
        pieces(parts(s)),
        slashed(parts(s)) == s,
{
    lemma_slashed_parts_from(s, 0, 0);
    assert(s.skip(0) =~= s);
    assert(s.subrange(0, 0) =~= Seq::empty());
    lemma_parts_plain(s, 0, 0);
    let v = parts(s);
    assert forall|k: int, x: int| 0 <= k < v.len() && 0 <= x < v[k].len() implies (#[trigger] v[k][x])
        != '/' by {
        assert(plain(v[k]));
    }
}

/// What is left of some texts without the empty ones, single dots and double dots.
pub open spec fn undotted(v: Seq<Seq<char>>) -> Seq<Seq<char>> {
    v.filter(|p: Seq<char>| p.len() > 0 && p != seq!['.'] && p != seq!['.', '.'])
}

proof fn lemma_names_undotted(v: Seq<Seq<char>>)
    ensures
        names_joined(v) == slashed(undotted(v)),
        names_joined(v).len() == 0 <==> undotted(v).len() == 0,
    decreases v.len(),
{
    reveal(Seq::filter);
    if v.len() > 0 {
        lemma_names_undotted(v.drop_last());
        let before = undotted(v.drop_last());
        let now = undotted(v);
        let last = v.last();
        if is_name(last) {
            assert(now == before.push(last));
            assert(now.drop_last() =~= before);
            assert(now.last() == last);
        } else {
            assert(now == before);
        }
    }
}

/// Normalizing keeps every part but empty ones, `.` and `..`, in order, and changes none: not those
/// that begin with a dot, nor those with dots or other marks in them.
pub proof fn lemma_normalized_keeps(v: Seq<Seq<char>>)
    requires
        pieces(v),
    ensures
        normalized(slashed(v)) == slashed(undotted(v)),
        undotted(v) == v ==> normalized(slashed(v)) == slashed(v),
{
    lemma_parts_of_slashed(v);
    lemma_names_undotted(v);
}

/// Normalizing twice is normalizing once, and slashes in front, behind or in a row change nothing.
pub proof fn lemma_normalized_slashes(a: Seq<Seq<char>>, b: Seq<Seq<char>>)
    requires
        pieces(a),
        pieces(b),
        undotted(a) == undotted(b),
    ensures
        normalized(slashed(a)) == normalized(slashed(b)),
        normalized(normalized(slashed(a))) == normalized(slashed(a)),
{
    lemma_normalized_keeps(a);
    lemma_normalized_keeps(b);
    let u = undotted(a);
    if u.len() > 0 {
        lemma_undotted_pieces(a);
        lemma_normalized_keeps(u);
    } else {
        assert(slashed(u) =~= Seq::empty());
        let e = seq![Seq::<char>::empty()];
        assert(slashed(e) =~= Seq::<char>::empty());
        lemma_normalized_keeps(e);
        lemma_undotted_empty();
    }
}

proof fn lemma_undotted_empty()
    ensures
        undotted(seq![Seq::<char>::empty()]) == Seq::<Seq<char>>::empty(),
{
    reveal(Seq::filter);
    let e = seq![Seq::<char>::empty()];
    assert(e.drop_last() =~= Seq::empty());
    assert(undotted(e.drop_last()) =~= Seq::empty());
}

proof fn lemma_undotted_pieces(v: Seq<Seq<char>>)
    requires
        forall|k: int, x: int|
            0 <= k < v.len() && 0 <= x < v[k].len() ==> (#[trigger] v[k][x]) != '/',
    ensures
        undotted(v).len() > 0 ==> pieces(undotted(v)),
        undotted(undotted(v)) == undotted(v),
    decreases v.len(),
{
    reveal(Seq::filter);
    if v.len() > 0 {
        let w = v.drop_last();
        assert forall|k: int, x: int| 0 <= k < w.len() && 0 <= x < w[k].len() implies (
        #[trigger] w[k][x]) != '/' by {
            assert(w[k][x] == v[k][x]);
        }
        lemma_undotted_pieces(w);
        let before = undotted(w);
        let now = undotted(v);
        let last = v.last();
        if is_name(last) {
            assert(now == before.push(last));
            assert(now.drop_last() =~= before);
            assert(now.last() == last);
            assert forall|k: int, x: int| 0 <= k < now.len() && 0 <= x < now[k].len() implies (
            #[trigger] now[k][x]) != '/' by {
                if k < before.len() {
                    assert(now[k][x] == before[k][x]);
                } else {
                    assert(now[k][x] == v[v.len() - 1][x]);
                }
            }
        } else {
            assert(now == before);
        }
    }
}

proof fn lemma_climbs_from(s: Seq<char>, start: int, i: int)
    requires
        0 <= start <= i <= s.len(),
        start == 0 || s[start - 1] == '/',
        plain(s.subrange(start, i)),
    ensures
        (exists|k: int|
            0 <= k < parts_from(s, start, i).len() && is_parent(
                #[trigger] parts_from(s, start, i)[k],
            )) <==> (exists|a: int|
            start <= a < s.len() - 1 && #[trigger] s[a] == '.' && s[a + 1] == '.' && (a == 0
                || s[a - 1] == '/') && (a + 2 == s.len() || s[a + 2] == '/')),
    decreases s.len() - i,
{
    let all = parts_from(s, start, i);
    if i < s.len() && s[i] != '/' {
        let grown = s.subrange(start, i + 1);
        assert forall|k: int| 0 <= k < grown.len() implies (#[trigger] grown[k]) != '/' by {
            if k < i - start {
                assert(grown[k] == s.subrange(start, i)[k]);
            }
        }
        lemma_climbs_from(s, start, i + 1);
    } else {
        let first = s.subrange(start, i);
        let more = if i < s.len() {
            parts_from(s, i + 1, i + 1)
        } else {
            Seq::empty()
        };
        if i < s.len() {
            assert(s.subrange(i + 1, i + 1) =~= Seq::empty());
            lemma_climbs_from(s, i + 1, i + 1);
        }
        assert(all =~= seq![first] + more);
        if is_parent(first) {
            assert(first.len() == 2);
            assert(first[0] == '.' && first[1] == '.');
            assert(first[0] == s[start] && first[1] == s[start + 1]);
            assert(s[start] == '.' && s[start + 1] == '.');
            assert(all[0] == first);
        }
        assert forall|k: int| 0 <= k < all.len() && is_parent(#[trigger] all[k]) implies exists|a: int|
            start <= a < s.len() - 1 && #[trigger] s[a] == '.' && s[a + 1] == '.' && (a == 0
                || s[a - 1] == '/') && (a + 2 == s.len() || s[a + 2] == '/') by {
            if k > 0 {
                assert(all[k] == more[k - 1]);
                assert(is_parent(more[k - 1]));
            } else {
                assert(all[0] == first);
                assert(s[start] == '.');
            }
        }
        assert forall|a: int|
            start <= a < s.len() - 1 && #[trigger] s[a] == '.' && s[a + 1] == '.' && (a == 0
                || s[a - 1] == '/') && (a + 2 == s.len() || s[a + 2] == '/') implies exists|k: int|
            0 <= k < all.len() && is_parent(#[trigger] all[k]) by {
            if a < i {
                if a > start {
                    assert(first[a - 1 - start] == s[a - 1]);
                }
                assert(a == start);
                assert(a + 1 < i) by {
                    if a + 1 >= i {
                        assert(s[i] == '.');
                    }
                }
                if a + 2 < i {
                    assert(first[2] == s[a + 2]);
                }
                assert(first =~= seq!['.', '.']);
                assert(is_parent(all[0]));
            } else {
                assert(a > i);
                let k = choose|k: int| 0 <= k < more.len() && is_parent(#[trigger] more[k]);
                assert(all[k + 1] == more[k]);
            }
        }
    }
}

/// A member is refused if and only if its path starts with a slash or has `..` between slashes;
/// else it goes to its path under the directory, with one slash between them.
pub proof fn lemma_safe_target(dest: Seq<char>, rel: Seq<char>)
    ensures
        safe_target(dest, rel) is Err <==> (rel.len() > 0 && rel[0] == '/') || climbs(rel),
        safe_target(dest, rel) is Ok ==> safe_target(dest, rel)->Ok_0 == if dest.len() == 0
            || dest[dest.len() - 1] == '/' {
            dest + rel
        } else {
            dest + seq!['/'] + rel
        },
{
    assert(rel.subrange(0, 0) =~= Seq::empty());
    lemma_climbs_from(rel, 0, 0);
    assert(dest.push('/') =~= dest + seq!['/']);
}

// ---- the computation ----

/// Where the parts of a text stand.
fn split(cs: &Vec<char>) -> (v: Vec<(usize, usize)>)
    ensures
        v@.len() == parts(cs@).len(),
        forall|k: int|
            0 <= k < v@.len() ==> (#[trigger] v@[k]).0 <= v@[k].1 <= cs@.len() && cs@.subrange(
                v@[k].0 as int,
                v@[k].1 as int,
            ) == parts(cs@)[k],
{
    let n: usize = cs.len();
    let ghost s = cs@;
    let mut v: Vec<(usize, usize)> = Vec::new();
    let mut start: usize = 0;
    let mut i: usize = 0;
    let ghost mut done: Seq<Seq<char>> = Seq::empty();
    assert(done + parts(s) =~= parts(s));
    while i < n
        invariant
            start <= i <= n,
            n == s.len(),
            s == cs@,
            parts(s) == done + parts_from(s, start as int, i as int),
            v@.len() == done.len(),
            forall|k: int|
                0 <= k < v@.len() ==> (#[trigger] v@[k]).0 <= v@[k].1 <= n && s.subrange(
                    v@[k].0 as int,
                    v@[k].1 as int,
                ) == done[k],
        decreases n - i,
    {
        if cs[i] == '/' {
            v.push((start, i));
            proof {
                let one = s.subrange(start as int, i as int);
                let more = parts_from(s, i + 1, i + 1);
                assert(done + (seq![one] + more) =~= done.push(one) + more);
                done = done.push(one);
            }
            start = i + 1;
        }
        i += 1;
    }
    v.push((start, n));
    assert(parts(s) =~= done.push(s.subrange(start as int, n as int)));
    v
}

fn is_parent_at(cs: &Vec<char>, a: usize, b: usize) -> (r: bool)
    requires
        a <= b <= cs@.len(),
    ensures
        r == is_parent(cs@.subrange(a as int, b as int)),
{
    let ghost part = cs@.subrange(a as int, b as int);
    proof {
        if part.len() == 2 && part[0] == '.' && part[1] == '.' {
            assert(part =~= seq!['.', '.']);
        }
    }
    b - a == 2 && cs[a] == '.' && cs[a + 1] == '.'
}

/// Where a member with the path `rel` goes under `dest`. Absolute paths and paths that lead up are
/// refused.
pub fn safe_join(dest: &str, rel: &str) -> (r: Result<String, String>)
    ensures
        match (r, safe_target(dest@, rel@)) {
            (Ok(s), Ok(want)) => s@ == want,
            (Err(e), Err(m)) => e@ == m,
            _ => false,
        },
{
    let cs = text::chars_of(rel);
    if cs.len() > 0 && cs[0] == '/' {
        let mut s = "refusing absolute path in archive: ".to_string();
        s.append(rel);
        return Err(s);
    }
    let places = split(&cs);
    let n: usize = places.len();
    let mut k: usize = 0;
    while k < n
        invariant
            n == places@.len(),
            k <= n,
            cs@ == rel@,
            !is_absolute(rel@),
            places@.len() == parts(cs@).len(),
            forall|i: int|
                0 <= i < places@.len() ==> (#[trigger] places@[i]).0 <= places@[i].1 <= cs@.len()
                    && cs@.subrange(places@[i].0 as int, places@[i].1 as int) == parts(cs@)[i],
            forall|i: int| 0 <= i < k ==> !is_parent(#[trigger] parts(cs@)[i]),
        decreases n - k,
    {
        let (a, b) = places[k];
        assert(places@[k as int] == (a, b));
        if is_parent_at(&cs, a, b) {
            assert(is_parent(parts(rel@)[k as int]));
            let mut s = "refusing unsafe path in archive: ".to_string();
            s.append(rel);
            return Err(s);
        }
        k += 1;
    }
    let ds = text::chars_of(dest);
    let mut s = dest.to_string();
    let m: usize = ds.len();
    if m > 0 && ds[m - 1] != '/' {
        s.append("/");
        proof {
            reveal_strlit("/");
            assert(s@ =~= dest@.push('/'));
        }
    }
    s.append(rel);
    Ok(s)
}

/// The names in a path, with slashes between them: `.`, `..` and what is empty is left out.
pub fn normalize_rel(rel: &str) -> (r: String)
    ensures
        r@ == normalized(rel@),
{
    let cs = text::chars_of(rel);
    let places = split(&cs);
    let n: usize = places.len();
    let mut out = String::new();
    let mut empty: bool = true;
    let mut k: usize = 0;
    assert(parts(cs@).take(0) =~= Seq::empty());
    assert(out@ =~= names_joined(parts(cs@).take(0)));
    while k < n
        invariant
            n == places@.len(),
            k <= n,
            cs@ == rel@,
            places@.len() == parts(cs@).len(),
            forall|i: int|
                0 <= i < places@.len() ==> (#[trigger] places@[i]).0 <= places@[i].1 <= cs@.len()
                    && cs@.subrange(places@[i].0 as int, places@[i].1 as int) == parts(cs@)[i],
            out@ == names_joined(parts(cs@).take(k as int)),
            empty == (out@.len() == 0),
        decreases n - k,
    {
        let (a, b) = places[k];
        assert(places@[k as int] == (a, b));
        let ghost part = cs@.subrange(a as int, b as int);
        let ghost all = parts(cs@);
        proof {
            assert(all.take(k + 1).drop_last() =~= all.take(k as int));
            assert(all.take(k + 1).last() == part);
            if part.len() == 1 && part[0] == '.' {
                assert(part =~= seq!['.']);
            }
        }
        let dot: bool = b - a == 1 && cs[a] == '.';
        if b > a && !dot && !is_parent_at(&cs, a, b) {
            assert(is_name(part));
            if !empty {
                let ghost before = out@;
                out.append("/");
                proof {
                    reveal_strlit("/");
                    assert(out@ =~= before.push('/'));
                }
            }
            let ghost before = out@;
            out.append(rel.substring_char(a, b));
            proof {
                assert(out@ == before + part);
                if empty {
                    assert(before + part =~= part);
                }
            }
            empty = false;
        } else {
            assert(!is_name(part));
        }
        k += 1;
    }
    assert(parts(cs@).take(n as int) =~= parts(cs@));
    out
}

// ---- files that are there already ----

/// What is said of a file that is there already, unless it may be overwritten.
pub open spec fn overwrite_fault(target: Seq<char>, exists: bool, force: bool) -> Option<
    Seq<char>,
> {
    if exists && !force {
        Some(target + " exists (use -f to overwrite)"@)
    } else {
        None
    }
}

/// Checks that a file may be written.
pub fn check_target(target: &str, exists: bool, force: bool) -> (r: Result<(), String>)
    ensures
        match (r, overwrite_fault(target@, exists, force)) {
            (Ok(_), None) => true,
            (Err(e), Some(m)) => e@ == m,
            _ => false,
        },
{
    if exists && !force {
        let mut s = target.to_string();
        s.append(" exists (use -f to overwrite)");
        Err(s)
    } else {
        Ok(())
    }
}

} // verus!
