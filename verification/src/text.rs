//! Text, and numbers in it.

use vstd::prelude::*;
use vstd::string::*;

verus! {

pub open spec fn digit(d: nat) -> char {
    (48 + d) as char
}

/// `n` in decimal, without leading zeros.
pub open spec fn dec(n: nat) -> Seq<char>
    decreases n,
{
    if n < 10 {
        seq![digit(n)]
    } else {
        dec(n / 10).push(digit(n % 10))
    }
}

fn digit_str(d: u64) -> (s: &'static str)
    requires
        d < 10,
    ensures
        s@ == seq![digit(d as nat)],
{
    proof {
        reveal_strlit("0");
        reveal_strlit("1");
        reveal_strlit("2");
        reveal_strlit("3");
        reveal_strlit("4");
        reveal_strlit("5");
        reveal_strlit("6");
        reveal_strlit("7");
        reveal_strlit("8");
        reveal_strlit("9");
    }
    if d == 0 {
        "0"
    } else if d == 1 {
        "1"
    } else if d == 2 {
        "2"
    } else if d == 3 {
        "3"
    } else if d == 4 {
        "4"
    } else if d == 5 {
        "5"
    } else if d == 6 {
        "6"
    } else if d == 7 {
        "7"
    } else if d == 8 {
        "8"
    } else {
        "9"
    }
}

/// Writes `n` in decimal.
pub fn decimal(n: u64) -> (s: String)
    ensures
        s@ == dec(n as nat),
    decreases n,
{
    if n < 10 {
        digit_str(n).to_string()
    } else {
        let mut s = decimal(n / 10);
        s.append(digit_str(n % 10));
        assert(s@ =~= dec(n as nat));
        s
    }
}

/// `head` with the decimal `n` behind it.
pub fn with_number(head: &str, n: u64) -> (s: String)
    ensures
        s@ == head@ + dec(n as nat),
{
    let mut s = head.to_string();
    let d = decimal(n);
    s.append(d.as_str());
    s
}

/// The characters of a text.
pub fn chars_of(s: &str) -> (v: Vec<char>)
    ensures
        v@ == s@,
{
    let mut v: Vec<char> = Vec::new();
    for c in it: s.chars()
        invariant
            v@ == it.seq().take(it.index()),
            it.seq() == s@,
    {
        v.push(c);
        assert(v@ =~= it.seq().take(it.index() + 1));
    }
    assert(s@.take(s@.len() as int) =~= s@);
    v
}

/// The texts of some strings.
pub open spec fn texts_of(v: Seq<String>) -> Seq<Seq<char>> {
    Seq::new(v.len(), |k: int| v[k]@)
}

// ---- digits ----

pub open spec fn is_digit(c: char) -> bool {
    '0' <= c <= '9'
}

pub open spec fn all_digits(s: Seq<char>) -> bool {
    forall|k: int| 0 <= k < s.len() ==> is_digit(#[trigger] s[k])
}

/// The number that digits stand for.
pub open spec fn value_of(s: Seq<char>) -> nat
    decreases s.len(),
{
    if s.len() == 0 {
        0
    } else {
        (10 * value_of(s.drop_last()) + (s.last() as int - '0' as int)) as nat
    }
}

/// What digits are read as.
pub enum Digits {
    /// Not only digits.
    Other,
    /// More than fits in 64 bits.
    TooLarge,
    Number(u64),
}

/// Reads the characters from `a` to `b` as a number.
pub fn parse_digits(cs: &Vec<char>, a: usize, b: usize) -> (r: Digits)
    requires
        a <= b <= cs@.len(),
    ensures
        ({
            let s = cs@.subrange(a as int, b as int);
            match r {
                Digits::Other => !all_digits(s),
                Digits::TooLarge => all_digits(s) && value_of(s) > u64::MAX,
                Digits::Number(n) => all_digits(s) && value_of(s) == n,
            }
        }),
{
    let ghost s = cs@.subrange(a as int, b as int);
    let mut n: u64 = 0;
    let mut large: bool = false;
    let mut i: usize = a;
    assert(s.take(0) =~= Seq::empty());
    while i < b
        invariant
            a <= i <= b <= cs@.len(),
            s == cs@.subrange(a as int, b as int),
            all_digits(s.take(i - a)),
            large == (value_of(s.take(i - a)) > u64::MAX),
            !large ==> n == value_of(s.take(i - a)),
        decreases b - i,
    {
        let c: char = cs[i];
        proof {
            assert(s[i - a] == c);
            assert(s.take(i - a + 1).drop_last() =~= s.take(i - a));
            assert(s.take(i - a + 1).last() == c);
        }
        if !('0' <= c && c <= '9') {
            assert(!is_digit(s[i - a]));
            return Digits::Other;
        }
        proof {
            assert forall|k: int| 0 <= k < i - a + 1 implies is_digit(
                #[trigger] s.take(i - a + 1)[k],
            ) by {
                if k < i - a {
                    assert(s.take(i - a + 1)[k] == s.take(i - a)[k]);
                }
            }
        }
        let d: u64 = c as u64 - '0' as u64;
        if !large {
            if n > (u64::MAX - d) / 10 {
                large = true;
            } else {
                n = 10 * n + d;
            }
        }
        i += 1;
    }
    assert(s.take(s.len() as int) =~= s);
    if large {
        Digits::TooLarge
    } else {
        Digits::Number(n)
    }
}

// ---- lengths of time ----

/// `n` in at least two digits.
pub open spec fn two_digits(n: nat) -> Seq<char> {
    if n < 10 {
        "0"@ + dec(n)
    } else {
        dec(n)
    }
}

/// Minutes and seconds with a colon between them, or seconds alone.
pub open spec fn duration(secs: nat) -> Seq<char> {
    if secs >= 60 {
        two_digits(secs / 60) + ":"@ + two_digits(secs % 60)
    } else {
        dec(secs) + "s"@
    }
}

fn padded(n: u64) -> (s: String)
    ensures
        s@ == two_digits(n as nat),
{
    if n < 10 {
        with_number("0", n)
    } else {
        decimal(n)
    }
}

/// Writes a number of seconds as a length of time.
pub fn format_duration(secs: u64) -> (s: String)
    ensures
        s@ == duration(secs as nat),
{
    let minutes: u64 = secs / 60;
    let seconds: u64 = secs % 60;
    if minutes > 0 {
        let mut s = padded(minutes);
        s.append(":");
        let t = padded(seconds);
        s.append(t.as_str());
        s
    } else {
        let mut s = decimal(seconds);
        s.append("s");
        s
    }
}

// ---- numbers that are written and read ----

/// What a number is written as is digits that stand for it, and does not start with a zero unless
/// it is one.
pub proof fn lemma_dec(n: nat)
    ensures
        all_digits(dec(n)),
        value_of(dec(n)) == n,
        dec(n).len() >= 1,
        dec(n).len() > 1 ==> dec(n)[0] != '0',
        dec(n).len() == 1 <==> n < 10,
    decreases n,
{
    let s = dec(n);
    if n < 10 {
        assert(s.drop_last() =~= Seq::empty());
        assert(value_of(s.drop_last()) == 0);
        assert(s.last() == digit(n));
    } else {
        let d = dec(n / 10);
        lemma_dec(n / 10);
        assert(s.drop_last() =~= d);
        assert(s.last() == digit(n % 10));
        assert forall|k: int| 0 <= k < s.len() implies is_digit(#[trigger] s[k]) by {
            if k < d.len() {
                assert(is_digit(d[k]));
            }
        }
        if d.len() == 1 {
            assert(value_of(d) == n / 10);
            assert(d.drop_last() =~= Seq::empty());
            assert(d[0] == d.last());
            assert(value_of(d.drop_last()) == 0);
            assert(d[0] != '0');
        }
    }
}

/// Different numbers are written differently.
pub proof fn lemma_dec_injective(a: nat, b: nat)
    requires
        dec(a) == dec(b),
    ensures
        a == b,
{
    lemma_dec(a);
    lemma_dec(b);
}

/// Digits are the characters from `0` to `9`. Where they do not start with a zero, they are what
/// their number is written as.
pub proof fn lemma_digits(s: Seq<char>)
    requires
        s.len() > 0,
    ensures
        all_digits(s) <==> forall|k: int|
            0 <= k < s.len() ==> 48 <= (#[trigger] s[k]) as int <= 57,
        all_digits(s) && s[0] != '0' ==> dec(value_of(s)) == s,
        all_digits(s) && s[0] != '0' ==> value_of(s) > 0,
    decreases s.len(),
{
    assert forall|k: int| 0 <= k < s.len() implies is_digit(#[trigger] s[k]) == (48 <= s[k] as int
        <= 57) by {}
    if all_digits(s) {
        assert(forall|k: int| 0 <= k < s.len() ==> is_digit(#[trigger] s[k]));
    }
    if all_digits(s) && s[0] != '0' {
        let q = s.drop_last();
        let d = (s.last() as int - '0' as int) as nat;
        assert(is_digit(s[s.len() - 1]));
        assert(s.last() == digit(d));
        if q.len() == 0 {
            assert(s =~= seq![s.last()]);
            assert(value_of(q) == 0);
            assert(is_digit(s[0]));
            assert(dec(value_of(s)) =~= s);
        } else {
            assert forall|k: int| 0 <= k < q.len() implies is_digit(#[trigger] q[k]) by {
                assert(is_digit(s[k]));
            }
            assert(q[0] == s[0]);
            lemma_digits(q);
            let n = value_of(s);
            assert(n == 10 * value_of(q) + d);
            assert(n / 10 == value_of(q) && n % 10 == d);
            assert(dec(n) =~= q.push(digit(d)));
            assert(s =~= q.push(s.last()));
        }
    }
}

/// A length of time from a minute on is minutes, a colon and seconds, of which there are less than
/// sixty, each in two digits or more; below that it is the seconds and an `s`.
pub proof fn lemma_duration(secs: nat)
    ensures
        secs < 60 ==> duration(secs) == dec(secs) + seq!['s'],
        secs >= 60 ==> exists|m: Seq<char>, s: Seq<char>|
            {
                &&& duration(secs) == #[trigger] (m + seq![':'] + s)
                &&& all_digits(m) && all_digits(s)
                &&& 60 * value_of(m) + value_of(s) == secs
                &&& value_of(s) < 60
                &&& s.len() == 2
                &&& m.len() >= 2
                &&& m.len() > 2 ==> m[0] != '0'
            },
{
    reveal_strlit("s");
    reveal_strlit(":");
    assert("s"@ =~= seq!['s']);
    assert(":"@ =~= seq![':']);
    if secs >= 60 {
        let m = two_digits(secs / 60);
        let s = two_digits(secs % 60);
        lemma_two_digits(secs / 60);
        lemma_two_digits(secs % 60);
        assert(duration(secs) == m + seq![':'] + s);
    }
}

proof fn lemma_two_digits(n: nat)
    ensures
        all_digits(two_digits(n)),
        value_of(two_digits(n)) == n,
        two_digits(n).len() >= 2,
        n < 100 ==> two_digits(n).len() == 2,
        two_digits(n).len() > 2 ==> two_digits(n)[0] != '0',
{
    reveal_strlit("0");
    lemma_dec(n);
    let s = two_digits(n);
    if n < 10 {
        assert(s =~= seq!['0', digit(n)]);
        assert(s.drop_last() =~= seq!['0']);
        assert(s.drop_last().drop_last() =~= Seq::empty());
        reveal_with_fuel(value_of, 3);
    } else if n < 100 {
        lemma_dec(n / 10);
    }
}

} // verus!
