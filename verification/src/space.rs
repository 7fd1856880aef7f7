//! Room on the disk.

use crate::text;
use crate::text::Digits;
use vstd::prelude::*;
use vstd::string::*;

verus! {

/// A character that separates words.
pub open spec fn is_blank(c: char) -> bool {
    let n = c as u32;
    ||| 9 <= n <= 13
    ||| n == 0x20
    ||| n == 0x85
    ||| n == 0xA0
    ||| n == 0x1680
    ||| 0x2000 <= n <= 0x200A
    ||| n == 0x2028
    ||| n == 0x2029
    ||| n == 0x202F
    ||| n == 0x205F
    ||| n == 0x3000
}

/// The first place from `i` to `end` where the characters are blank or not, as asked.
pub open spec fn next_blank(s: Seq<char>, i: int, end: int, blank: bool) -> int
    decreases end - i,
{
    if i >= end || is_blank(s[i]) == blank {
        i
    } else {
        next_blank(s, i + 1, end, blank)
    }
}

/// The place of word `k` between `i` and `end`.
pub open spec fn word_at(s: Seq<char>, i: int, end: int, k: nat) -> Option<(int, int)>
    decreases k,
{
    let a = next_blank(s, i, end, false);
    let b = next_blank(s, a, end, true);
    if a >= end {
        None
    } else if k == 0 {
        Some((a, b))
    } else {
        word_at(s, b, end, (k - 1) as nat)
    }
}

/// The first line break from `i` on, or the end.
pub open spec fn line_end(s: Seq<char>, i: int) -> int
    decreases s.len() - i,
{
    if i >= s.len() || s[i] == '\n' {
        i
    } else {
        line_end(s, i + 1)
    }
}

/// The number that a word stands for. A plus sign may stand in front.
pub open spec fn number_of(w: Seq<char>) -> Option<nat> {
    let digits = if w.len() > 0 && w[0] == '+' {
        w.skip(1)
    } else {
        w
    };
    if digits.len() == 0 || !text::all_digits(digits) || text::value_of(digits) > u64::MAX {
        None
    } else {
        Some(text::value_of(digits))
    }
}

/// The free bytes that a table of file systems tells of: the fourth word of its second line, in
/// units of 1024 bytes.
pub open spec fn free_in(s: Seq<char>) -> Option<nat> {
    let start = line_end(s, 0) + 1;
    if start > s.len() {
        None
    } else {
        match word_at(s, start, line_end(s, start), 3) {
            None => None,
            Some((a, b)) => match number_of(s.subrange(a, b)) {
                None => None,
                Some(n) => if n * 1024 > u64::MAX {
                    None
                } else {
                    Some(n * 1024)
                },
            },
        }
    }
}

fn blank(c: char) -> (r: bool)
    ensures
        r == is_blank(c),
{
    let n: u32 = c as u32;
    (9 <= n && n <= 13) || n == 0x20 || n == 0x85 || n == 0xA0 || n == 0x1680 || (0x2000 <= n && n
        <= 0x200A) || n == 0x2028 || n == 0x2029 || n == 0x202F || n == 0x205F || n == 0x3000
}

fn find_blank(cs: &Vec<char>, i: usize, end: usize, want: bool) -> (r: usize)
    requires
        i <= end <= cs@.len(),
    ensures
        r == next_blank(cs@, i as int, end as int, want),
        i <= r <= end,
        r < end ==> is_blank(cs@[r as int]) == want,
{
    let mut k: usize = i;
    while k < end && blank(cs[k]) != want
        invariant
            i <= k <= end <= cs@.len(),
            next_blank(cs@, i as int, end as int, want) == next_blank(
                cs@,
                k as int,
                end as int,
                want,
            ),
        decreases end - k,
    {
        k += 1;
    }
    k
}

fn find_line_end(cs: &Vec<char>, i: usize) -> (r: usize)
    requires
        i <= cs@.len(),
    ensures
        r == line_end(cs@, i as int),
        i <= r <= cs@.len(),
{
    let n: usize = cs.len();
    let mut k: usize = i;
    while k < n && cs[k] != '\n'
        invariant
            n == cs@.len(),
            i <= k <= n,
            line_end(cs@, i as int) == line_end(cs@, k as int),
        decreases n - k,
    {
        k += 1;
    }
    k
}

/// Reads the free bytes from a table of file systems.
pub fn parse_free_space(table: &str) -> (r: Option<u64>)
    ensures
        match (r, free_in(table@)) {
            (Some(a), Some(b)) => a == b,
            (None, None) => true,
            _ => false,
        },
{
    let cs = text::chars_of(table);
    let n: usize = cs.len();
    let first: usize = find_line_end(&cs, 0);
    if first >= n {
        return None;
    }
    let end: usize = find_line_end(&cs, first + 1);
    let mut pos: usize = first + 1;
    let mut k: usize = 3;
    let ghost want = word_at(cs@, first + 1, end as int, 3);
    loop
        invariant
            first + 1 <= pos <= end <= n,
            n == cs@.len(),
            cs@ == table@,
            k <= 3,
            first == line_end(cs@, 0),
            end == line_end(cs@, first + 1),
            want == word_at(cs@, first + 1, end as int, 3),
            want == word_at(cs@, pos as int, end as int, k as nat),
        decreases k,
    {
        let a: usize = find_blank(&cs, pos, end, false);
        let b: usize = find_blank(&cs, a, end, true);
        if a >= end {
            return None;
        }
        if k == 0 {
            let ghost w = cs@.subrange(a as int, b as int);
            let from: usize = if cs[a] == '+' {
                a + 1
            } else {
                a
            };
            assert(b > a);
            assert(w[0] == cs@[a as int]);
            assert(cs@.subrange(from as int, b as int) =~= w.skip(from - a));
            assert(w.skip(0) =~= w);
            if from == b {
                return None;
            }
            return match text::parse_digits(&cs, from, b) {
                Digits::Number(v) => if v > u64::MAX / 1024 {
                    None
                } else {
                    Some(v * 1024)
                },
                _ => None,
            };
        }
        pos = b;
        k = k - 1;
    }
}

/// Whether there is room for so many bytes. Where nothing is known of the room, there is.
pub fn has_room(free: Option<u64>, needed: u128) -> (r: bool)
    ensures
        r == match free {
            None => true,
            Some(n) => n >= needed,
        },
{
    match free {
        None => true,
        Some(n) => n as u128 >= needed,
    }
}

// ---- what a table says ----

/// None of the characters is a line break.
pub open spec fn one_line(s: Seq<char>) -> bool {
    forall|k: int| 0 <= k < s.len() ==> #[trigger] s[k] != '\n'
}

/// Characters without blanks, at least one.
pub open spec fn is_word(s: Seq<char>) -> bool {
    &&& s.len() > 0
    &&& forall|k: int| 0 <= k < s.len() ==> !is_blank(#[trigger] s[k])
}

/// Blanks, at least one, and no line break.
pub open spec fn is_gap(s: Seq<char>) -> bool {
    &&& s.len() > 0
    &&& one_line(s)
    &&& forall|k: int| 0 <= k < s.len() ==> is_blank(#[trigger] s[k])
}

proof fn lemma_line_end(s: Seq<char>, i: int, e: int)
    requires
        0 <= i <= e <= s.len(),
        forall|k: int| i <= k < e ==> #[trigger] s[k] != '\n',
        e < s.len() ==> s[e] == '\n',
    ensures
        line_end(s, i) == e,
    decreases e - i,
{
    if i < e {
        lemma_line_end(s, i + 1, e);
    }
}

proof fn lemma_next_blank(s: Seq<char>, i: int, e: int, end: int, blank: bool)
    requires
        0 <= i <= e <= end <= s.len(),
        forall|k: int| i <= k < e ==> is_blank(#[trigger] s[k]) != blank,
        e < end ==> is_blank(s[e]) == blank,
    ensures
        next_blank(s, i, end, blank) == e,
    decreases e - i,
{
    if i < e {
        lemma_next_blank(s, i + 1, e, end, blank);
    }
}

/// A word at `a`, behind nothing but blanks from `i` on, is the next one.
proof fn lemma_word(s: Seq<char>, i: int, a: int, b: int, end: int, k: nat)
    requires
        0 <= i <= a < b <= end <= s.len(),
        forall|x: int| i <= x < a ==> is_blank(#[trigger] s[x]),
        forall|x: int| a <= x < b ==> !is_blank(#[trigger] s[x]),
        b < end ==> is_blank(s[b]),
    ensures
        word_at(s, i, end, 0) == Some((a, b)),
        word_at(s, i, end, k + 1) == word_at(s, b, end, k),
{
    lemma_next_blank(s, i, a, end, false);
    lemma_next_blank(s, a, b, end, true);
}

/// A table of two lines or more, whose second line has three words before the number and whatever
/// behind it, tells of that number of units of 1024 bytes, if it fits.
#[verifier::rlimit(50)]
#[verifier::spinoff_prover]
pub proof fn lemma_free_in(
    title: Seq<char>,
    w: Seq<Seq<char>>,
    g: Seq<Seq<char>>,
    n: nat,
    more: Seq<char>,
)
    requires
        one_line(title),
        w.len() == 3,
        g.len() == 3,
        is_word(w[0]) && is_word(w[1]) && is_word(w[2]),
        is_gap(g[0]) && is_gap(g[1]) && is_gap(g[2]),
        more.len() > 0 ==> is_blank(more[0]),
    ensures
        free_in(
            title + seq!['\n'] + w[0] + g[0] + w[1] + g[1] + w[2] + g[2] + text::dec(n) + more,
        ) == if n * 1024 <= u64::MAX {
            Some(n * 1024)
        } else {
            None
        },
{
    let d = text::dec(n);
    text::lemma_dec(n);
    let s = title + seq!['\n'] + w[0] + g[0] + w[1] + g[1] + w[2] + g[2] + d + more;
    let a0 = title.len() as int + 1;
    let b0 = a0 + w[0].len();
    let a1 = b0 + g[0].len();
    let b1 = a1 + w[1].len();
    let a2 = b1 + g[1].len();
    let b2 = a2 + w[2].len();
    let a3 = b2 + g[2].len();
    let b3 = a3 + d.len();
    assert forall|k: int| 0 <= k < title.len() implies #[trigger] s[k] != '\n' by {
        assert(s[k] == title[k]);
    }
    assert(s[title.len() as int] == '\n');
    lemma_line_end(s, 0, title.len() as int);
    let end = line_end(s, a0);
    assert forall|x: int| a0 <= x < b0 implies !is_blank(#[trigger] s[x]) by {
        assert(s[x] == w[0][x - a0]);
    }
    assert forall|x: int| b0 <= x < a1 implies is_blank(#[trigger] s[x]) && s[x] != '\n' by {
        assert(s[x] == g[0][x - b0]);
    }
    assert forall|x: int| a1 <= x < b1 implies !is_blank(#[trigger] s[x]) by {
        assert(s[x] == w[1][x - a1]);
    }
    assert forall|x: int| b1 <= x < a2 implies is_blank(#[trigger] s[x]) && s[x] != '\n' by {
        assert(s[x] == g[1][x - b1]);
    }
    assert forall|x: int| a2 <= x < b2 implies !is_blank(#[trigger] s[x]) by {
        assert(s[x] == w[2][x - a2]);
    }
    assert forall|x: int| b2 <= x < a3 implies is_blank(#[trigger] s[x]) && s[x] != '\n' by {
        assert(s[x] == g[2][x - b2]);
    }
    assert forall|x: int| a3 <= x < b3 implies text::is_digit(#[trigger] s[x]) by {
        assert(s[x] == d[x - a3]);
    }
    assert(b3 < s.len() ==> s[b3] == more[0]);
    lemma_line_past(s, a0, b3);
    lemma_word(s, a0, a0, b0, end, 2);
    lemma_word(s, b0, a1, b1, end, 1);
    lemma_word(s, b1, a2, b2, end, 0);
    lemma_word(s, b2, a3, b3, end, 0);
    assert(s.subrange(a3, b3) =~= d);
    assert(text::is_digit(d[0]));
    assert(d[0] != '+');
}

/// A line does not end before its first break.
proof fn lemma_line_past(s: Seq<char>, i: int, e: int)
    requires
        0 <= i <= e <= s.len(),
        forall|k: int| i <= k < e ==> #[trigger] s[k] != '\n',
    ensures
        e <= line_end(s, i) <= s.len(),
    decreases s.len() - i,
{
    if i < e {
        lemma_line_past(s, i + 1, e);
    } else if i < s.len() && s[i] != '\n' {
        lemma_line_past(s, i + 1, i + 1);
    }
}

/// The characters that separate words, by their numbers.
pub open spec fn blank_numbers() -> Seq<u32> {
    seq![
        0x9, 0xA, 0xB, 0xC, 0xD, 0x20, 0x85, 0xA0, 0x1680, 0x2000, 0x2001, 0x2002, 0x2003, 0x2004,
        0x2005, 0x2006, 0x2007, 0x2008, 0x2009, 0x200A, 0x2028, 0x2029, 0x202F, 0x205F, 0x3000,
    ]
}

/// These characters separate words, and no others do.
pub proof fn lemma_blanks(c: char)
    ensures
        is_blank(c) <==> blank_numbers().contains(c as u32),
{
    let b = blank_numbers();
    let n = c as u32;
    assert(b[0] == 0x9 && b[1] == 0xA && b[2] == 0xB && b[3] == 0xC && b[4] == 0xD && b[5] == 0x20);
    assert(b[6] == 0x85 && b[7] == 0xA0 && b[8] == 0x1680 && b[9] == 0x2000 && b[10] == 0x2001);
    assert(b[11] == 0x2002 && b[12] == 0x2003 && b[13] == 0x2004 && b[14] == 0x2005);
    assert(b[15] == 0x2006 && b[16] == 0x2007 && b[17] == 0x2008 && b[18] == 0x2009);
    assert(b[19] == 0x200A && b[20] == 0x2028 && b[21] == 0x2029 && b[22] == 0x202F);
    assert(b[23] == 0x205F && b[24] == 0x3000);
}

/// A number may have a plus sign in front. What has no digits, or anything but digits, is none.
pub proof fn lemma_number(n: nat, w: Seq<char>)
    ensures
        n <= u64::MAX ==> number_of(text::dec(n)) == Some(n) && number_of(
            seq!['+'] + text::dec(n),
        ) == Some(n),
        n > u64::MAX ==> number_of(text::dec(n)) is None,
        number_of(w) is Some ==> w.len() > 0 && forall|k: int|
            1 <= k < w.len() ==> text::is_digit(#[trigger] w[k]),
        number_of(w) is Some && !text::is_digit(w[0]) ==> w[0] == '+' && w.len() > 1,
{
    let d = text::dec(n);
    text::lemma_dec(n);
    assert(text::is_digit(d[0]));
    assert(d[0] != '+');
    assert((seq!['+'] + d).skip(1) =~= d);
    if number_of(w) is Some {
        if w[0] == '+' {
            let s = w.skip(1);
            assert forall|k: int| 1 <= k < w.len() implies text::is_digit(#[trigger] w[k]) by {
                assert(text::is_digit(s[k - 1]));
            }
        } else {
            assert(text::is_digit(w[0]));
        }
    }
}

} // verus!
