//! Sizes with a unit.
use crate::mz::text;
use crate::mz::text::{parse_number, same, strip_suffix};
use vstd::prelude::*;
use vstd::string::*;

verus! {

/// White space, as Unicode has it.
pub open spec fn is_space(c: char) -> bool {
    ||| '\u{9}' <= c <= '\u{d}'
    ||| c == ' '
    ||| c == '\u{85}'
    ||| c == '\u{a0}'
    ||| c == '\u{1680}'
    ||| '\u{2000}' <= c <= '\u{200a}'
    ||| c == '\u{2028}'
    ||| c == '\u{2029}'
    ||| c == '\u{202f}'
    ||| c == '\u{205f}'
    ||| c == '\u{3000}'
}

fn is_white_space(c: char) -> (r: bool)
    ensures
        r == is_space(c),
{
    ('\u{9}' <= c && c <= '\u{d}') || c == ' ' || c == '\u{85}' || c == '\u{a0}' || c == '\u{1680}'
        || ('\u{2000}' <= c && c <= '\u{200a}') || c == '\u{2028}' || c == '\u{2029}' || c
        == '\u{202f}' || c == '\u{205f}' || c == '\u{3000}'
}

/// Text without white space in front.
pub open spec fn trimmed_start(s: Seq<char>) -> Seq<char>
    decreases s.len(),
{
    if s.len() > 0 && is_space(s[0]) {
        trimmed_start(s.skip(1))
    } else {
        s
    }
}

/// Text without white space at its end.
pub open spec fn trimmed_end(s: Seq<char>) -> Seq<char>
    decreases s.len(),
{
    if s.len() > 0 && is_space(s.last()) {
        trimmed_end(s.drop_last())
    } else {
        s
    }
}

/// Text without white space in front and at its end.
pub fn trim<'a>(s: &'a str) -> (r: &'a str)
    ensures
        r@ == trimmed_end(trimmed_start(s@)),
{
    let n: usize = s.unicode_len();
    let mut a: usize = 0;
    assert(s@.skip(0) =~= s@);
    while a < n && is_white_space(s.get_char(a))
        invariant
            n == s@.len(),
            a <= n,
            trimmed_start(s@.skip(a as int)) == trimmed_start(s@),
        decreases n - a,
    {
        assert(s@.skip(a as int).skip(1) =~= s@.skip(a + 1));
        a = a + 1;
    }
    let ghost t = s@.skip(a as int);
    assert(t == trimmed_start(s@));
    let mut b: usize = n;
    assert(s@.subrange(a as int, n as int) =~= t);
    while b > a && is_white_space(s.get_char(b - 1))
        invariant
            n == s@.len(),
            a <= b <= n,
            trimmed_end(s@.subrange(a as int, b as int)) == trimmed_end(t),
        decreases b,
    {
        let ghost u = s@.subrange(a as int, b as int);
        assert(u.last() == s@[b - 1]);
        assert(u.drop_last() =~= s@.subrange(a as int, b - 1));
        b = b - 1;
    }
    proof {
        let u = s@.subrange(a as int, b as int);
        if u.len() > 0 {
            assert(u.last() == s@[b - 1]);
        }
        assert(trimmed_end(u) == u);
    }
    s.substring_char(a, b)
}

/// Text in upper case, as `str::to_uppercase` makes it.
pub uninterp spec fn upper(s: Seq<char>) -> Seq<char>;

/// A letter, as `char::is_alphabetic` has it.
pub uninterp spec fn alphabetic(c: char) -> bool;

/// An ASCII letter in upper case; another character as it is.
pub open spec fn ascii_upper(c: char) -> char {
    if 'a' <= c <= 'z' {
        (c as u8 - 32) as u8 as char
    } else {
        c
    }
}

/// All characters are ASCII.
pub open spec fn all_ascii(s: Seq<char>) -> bool {
    forall|i: int| 0 <= i < s.len() ==> (#[trigger] s[i]) <= '\u{7f}'
}

/// Calls `str::to_uppercase`: the upper case of the text by Unicode, which for ASCII text
/// changes the letters `a` to `z` only.
#[verifier::external_body]
fn to_uppercase(s: &str) -> (r: String)
    ensures
        r@ == upper(s@),
        all_ascii(s@) ==> r@ == s@.map_values(|c: char| ascii_upper(c)),
{
    s.to_uppercase()
}

/// Calls `char::is_alphabetic`: whether the character is a letter by Unicode. Of the ASCII
/// characters `A` to `Z` and `a` to `z` are.
#[verifier::external_body]
fn is_alphabetic(c: char) -> (r: bool)
    ensures
        r == alphabetic(c),
        c <= '\u{7f}' ==> r == is_ascii_letter(c),
{
    c.is_alphabetic()
}

/// The letters `A` to `Z` and `a` to `z`.
pub open spec fn is_ascii_letter(c: char) -> bool {
    'A' <= c <= 'Z' || 'a' <= c <= 'z'
}

/// What stands before the first letter, and the rest.
pub open spec fn split_unit(s: Seq<char>, letter: spec_fn(char) -> bool) -> (Seq<char>, Seq<char>)
    decreases s.len(),
{
    if s.len() == 0 || letter(s[0]) {
        (Seq::empty(), s)
    } else {
        let t = split_unit(s.skip(1), letter);
        (seq![s[0]] + t.0, t.1)
    }
}

/// How many bytes a unit has.
pub open spec fn unit(suffix: Seq<char>) -> Option<u64> {
    if suffix == ""@ || suffix == "B"@ {
        Some(1)
    } else if suffix == "K"@ || suffix == "KB"@ || suffix == "KIB"@ {
        Some(0x400)
    } else if suffix == "M"@ || suffix == "MB"@ || suffix == "MIB"@ {
        Some(0x10_0000)
    } else if suffix == "G"@ || suffix == "GB"@ || suffix == "GIB"@ {
        Some(0x4000_0000)
    } else if suffix == "T"@ || suffix == "TB"@ || suffix == "TIB"@ {
        Some(0x100_0000_0000)
    } else {
        None
    }
}

/// A number of units.
pub open spec fn sized(num: Seq<char>, suffix: Seq<char>) -> Result<u64, &'static str> {
    match text::number(num, u64::MAX as int) {
        None => Err("not a number"),
        Some(n) => match unit(suffix) {
            None => Err("unknown size suffix"),
            Some(m) => if n * m <= u64::MAX {
                Ok((n * m) as u64)
            } else {
                Err("size overflow")
            },
        },
    }
}

/// The size that text stands for.
pub open spec fn size(s: Seq<char>) -> Result<u64, &'static str> {
    if s.len() == 0 {
        Ok(0)
    } else {
        let t = split_unit(upper(trimmed_end(trimmed_start(s))), |c: char| alphabetic(c));
        sized(t.0, t.1)
    }
}

/// The size that ASCII text stands for.
pub open spec fn ascii_size(s: Seq<char>) -> Result<u64, &'static str> {
    if s.len() == 0 {
        Ok(0)
    } else {
        let u = trimmed_end(trimmed_start(s)).map_values(|c: char| ascii_upper(c));
        let t = split_unit(u, |c: char| is_ascii_letter(c));
        sized(t.0, t.1)
    }
}

/// The size that text stands for, and whether it ends in `+nl`.
pub open spec fn size_with_nl(s: Seq<char>) -> Result<(u64, bool), &'static str> {
    let (t, nl) = match text::before(s, "+nl"@) {
        Some(t) => (t, true),
        None => (s, false),
    };
    match size(t) {
        Ok(n) => Ok((n, nl)),
        Err(e) => Err(e),
    }
}

/// Returns how many bytes a unit has.
fn parse_unit(suffix: &str) -> (r: Option<u64>)
    ensures
        r == unit(suffix@),
{
    if same(suffix, "") || same(suffix, "B") {
        Some(1)
    } else if same(suffix, "K") || same(suffix, "KB") || same(suffix, "KIB") {
        Some(0x400)
    } else if same(suffix, "M") || same(suffix, "MB") || same(suffix, "MIB") {
        Some(0x10_0000)
    } else if same(suffix, "G") || same(suffix, "GB") || same(suffix, "GIB") {
        Some(0x4000_0000)
    } else if same(suffix, "T") || same(suffix, "TB") || same(suffix, "TIB") {
        Some(0x100_0000_0000)
    } else {
        None
    }
}

/// Reads a number and its unit.
pub fn parse_units(num: &str, suffix: &str) -> (r: Result<u64, &'static str>)
    ensures
        r == sized(num@, suffix@),
{
    match parse_number(num, u64::MAX) {
        None => Err("not a number"),
        Some(n) => match parse_unit(suffix) {
            None => Err("unknown size suffix"),
            Some(m) => match n.checked_mul(m) {
                Some(p) => Ok(p),
                None => Err("size overflow"),
            },
        },
    }
}

/// The first letter is at `i`, or there is none.
pub proof fn lemma_split_unit(s: Seq<char>, letter: spec_fn(char) -> bool, i: int)
    requires
        0 <= i <= s.len(),
        forall|j: int| 0 <= j < i ==> !letter(#[trigger] s[j]),
        i < s.len() ==> letter(s[i]),
    ensures
        split_unit(s, letter) == (s.take(i), s.skip(i)),
    decreases s.len(),
{
    if i == 0 {
        assert(s.take(0) =~= Seq::<char>::empty());
        assert(s.skip(0) =~= s);
    } else {
        let t = s.skip(1);
        assert forall|j: int| 0 <= j < i - 1 implies !letter(#[trigger] t[j]) by {
            assert(t[j] == s[j + 1]);
        }
        lemma_split_unit(t, letter, i - 1);
        assert(seq![s[0]] + t.take(i - 1) =~= s.take(i));
        assert(t.skip(i - 1) =~= s.skip(i));
    }
}

proof fn lemma_trim_ascii(s: Seq<char>)
    requires
        all_ascii(s),
    ensures
        all_ascii(trimmed_start(s)),
        all_ascii(trimmed_end(s)),
    decreases s.len(),
{
    if s.len() > 0 {
        if is_space(s[0]) {
            let t = s.skip(1);
            assert forall|i: int| 0 <= i < t.len() implies (#[trigger] t[i]) <= '\u{7f}' by {
                assert(t[i] == s[i + 1]);
            }
            lemma_trim_ascii(t);
        }
        if is_space(s.last()) {
            let t = s.drop_last();
            assert forall|i: int| 0 <= i < t.len() implies (#[trigger] t[i]) <= '\u{7f}' by {
                assert(t[i] == s[i]);
            }
            lemma_trim_ascii(t);
        }
    }
}

/// Reads a size: a number, with or without a unit behind it. Units are `B`, and `K`, `M`,
/// `G` and `T` alone or with `B` or `iB` behind them, in any case. Nothing stands for 0.
pub fn parse_size(s: &str) -> (r: Result<u64, &'static str>)
    ensures
        r == size(s@),
        all_ascii(s@) ==> r == ascii_size(s@),
{
    if s.is_empty() {
        return Ok(0);
    }
    let part: &str = trim(s);
    let t: String = to_uppercase(part);
    let u: &str = t.as_str();
    proof {
        if all_ascii(s@) {
            lemma_trim_ascii(s@);
            lemma_trim_ascii(trimmed_start(s@));
            assert forall|i: int| 0 <= i < u@.len() implies (#[trigger] u@[i]) <= '\u{7f}' by {
                assert(part@[i] <= '\u{7f}');
            }
        }
    }
    let n: usize = u.unicode_len();
    let mut i: usize = 0;
    while i < n && !is_alphabetic(u.get_char(i))
        invariant
            n == u@.len(),
            i <= n,
            forall|j: int| 0 <= j < i ==> !alphabetic(#[trigger] u@[j]),
            all_ascii(u@) ==> forall|j: int| 0 <= j < i ==> !is_ascii_letter(#[trigger] u@[j]),
        decreases n - i,
    {
        i = i + 1;
    }
    proof {
        lemma_split_unit(u@, |c: char| alphabetic(c), i as int);
        if all_ascii(s@) {
            lemma_split_unit(u@, |c: char| is_ascii_letter(c), i as int);
        }
        assert(u@.subrange(0, i as int) =~= u@.take(i as int));
        assert(u@.subrange(i as int, n as int) =~= u@.skip(i as int));
    }
    parse_units(u.substring_char(0, i), u.substring_char(i, n))
}

/// Reads a size that may have `+nl` behind it; returns the size and whether it has.
pub fn parse_size_with_nl(s: &str) -> (r: Result<(u64, bool), &'static str>)
    ensures
        r == size_with_nl(s@),
{
    let (t, nl) = match strip_suffix(s, "+nl") {
        Some(t) => (t, true),
        None => (s, false),
    };
    match parse_size(t) {
        Ok(n) => Ok((n, nl)),
        Err(e) => Err(e),
    }
}

} // verus!
