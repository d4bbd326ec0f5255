//! Extraction of an employment statement from free text: "<subject> works at
//! <employer>", with the phrase matched without regard to ASCII case.

use vstd::prelude::*;
use vstd::string::*;

verus! {

/// A Unicode white-space character.
pub open spec fn is_space(c: char) -> bool {
    ('\u{9}' <= c && c <= '\u{d}') || c == ' ' || c == '\u{85}' || c == '\u{a0}' || c
        == '\u{1680}' || ('\u{2000}' <= c && c <= '\u{200a}') || c == '\u{2028}' || c
        == '\u{2029}' || c == '\u{202f}' || c == '\u{205f}' || c == '\u{3000}'
}

/// The phrase in lower case.
pub open spec fn phrase_lower() -> Seq<char> {
    seq![' ', 'w', 'o', 'r', 'k', 's', ' ', 'a', 't', ' ']
}

/// The phrase in upper case.
pub open spec fn phrase_upper() -> Seq<char> {
    seq![' ', 'W', 'O', 'R', 'K', 'S', ' ', 'A', 'T', ' ']
}

/// The phrase stands in `text` at position `at`, in any mix of cases.
pub open spec fn phrase_at(text: Seq<char>, at: int) -> bool {
    0 <= at && at + 10 <= text.len() && forall|j: int|
        0 <= j < 10 ==> text[at + j] == #[trigger] phrase_lower()[j] || text[at + j]
            == phrase_upper()[j]
}

/// The first position at or after `from` where the phrase stands, or the
/// length of the text where it stands nowhere.
pub open spec fn phrase_position(text: Seq<char>, from: int) -> int
    decreases text.len() - from,
{
    if from < 0 || from + 10 > text.len() {
        text.len() as int
    } else if phrase_at(text, from) {
        from
    } else {
        phrase_position(text, from + 1)
    }
}

/// The first position in `lo..hi` that holds no white space, or `hi`.
pub open spec fn skip_spaces(text: Seq<char>, lo: int, hi: int) -> int
    decreases hi - lo,
{
    if lo >= hi || lo < 0 || lo >= text.len() || !is_space(text[lo]) {
        lo
    } else {
        skip_spaces(text, lo + 1, hi)
    }
}

/// The end of the part of `lo..hi` that remains when trailing white space is
/// dropped.
pub open spec fn drop_spaces(text: Seq<char>, lo: int, hi: int) -> int
    decreases hi - lo,
{
    if hi <= lo || hi > text.len() || hi < 1 || !is_space(text[hi - 1]) {
        hi
    } else {
        drop_spaces(text, lo, hi - 1)
    }
}

/// The part of `text` between `lo` and `hi` without the white space at its
/// ends.
pub open spec fn trimmed(text: Seq<char>, lo: int, hi: int) -> Seq<char> {
    let a = skip_spaces(text, lo, hi);
    let b = drop_spaces(text, a, hi);
    text.subrange(a, b)
}

/// What `parse_works_at` gives for a text: the trimmed parts before and after
/// the first occurrence of the phrase, where the phrase occurs and neither
/// part is empty.
pub open spec fn works_at_parts(text: Seq<char>) -> Option<(Seq<char>, Seq<char>)> {
    let at = phrase_position(text, 0);
    if at >= text.len() {
        None
    } else {
        let subject = trimmed(text, 0, at);
        let employer = trimmed(text, at + 10, text.len() as int);
        if subject.len() == 0 || employer.len() == 0 {
            None
        } else {
            Some((subject, employer))
        }
    }
}

/// Whether a character is Unicode white space.
pub fn is_whitespace(c: char) -> (r: bool)
    ensures
        r == is_space(c),
{
    ('\u{9}' <= c && c <= '\u{d}') || c == ' ' || c == '\u{85}' || c == '\u{a0}' || c
        == '\u{1680}' || ('\u{2000}' <= c && c <= '\u{200a}') || c == '\u{2028}' || c
        == '\u{2029}' || c == '\u{202f}' || c == '\u{205f}' || c == '\u{3000}'
}

proof fn lemma_bounds(text: Seq<char>, lo: int, hi: int)
    requires
        0 <= lo <= hi <= text.len(),
    ensures
        lo <= skip_spaces(text, lo, hi) <= hi,
        lo <= drop_spaces(text, lo, hi) <= hi,
    decreases hi - lo,
{
    if lo < hi {
        lemma_bounds(text, lo + 1, hi);
        lemma_bounds(text, lo, hi - 1);
    }
}

fn trim_range<'a>(text: &'a str, lo: usize, hi: usize) -> (r: &'a str)
    requires
        lo <= hi <= text@.len(),
    ensures
        r@ == trimmed(text@, lo as int, hi as int),
{
    let mut a = lo;
    while a < hi && is_whitespace(text.get_char(a))
        invariant
            lo <= a <= hi <= text@.len(),
            skip_spaces(text@, lo as int, hi as int) == skip_spaces(text@, a as int, hi as int),
        decreases hi - a,
    {
        a += 1;
    }
    let mut b = hi;
    while b > a && is_whitespace(text.get_char(b - 1))
        invariant
            a <= b <= hi <= text@.len(),
            drop_spaces(text@, a as int, hi as int) == drop_spaces(text@, a as int, b as int),
        decreases b - a,
    {
        b -= 1;
    }
    text.substring_char(a, b)
}

fn phrase_here(text: &str, at: usize, len: usize) -> (r: bool)
    requires
        len == text@.len(),
        at + 10 <= len,
    ensures
        r == phrase_at(text@, at as int),
{
    let lower = " works at ";
    let upper = " WORKS AT ";
    proof {
        reveal_strlit(" works at ");
        reveal_strlit(" WORKS AT ");
        assert(lower@ =~= phrase_lower());
        assert(upper@ =~= phrase_upper());
    }
    let mut j: usize = 0;
    while j < 10
        invariant
            j <= 10,
            at + 10 <= len,
            len == text@.len(),
            lower@ == phrase_lower(),
            upper@ == phrase_upper(),
            forall|m: int|
                0 <= m < j ==> text@[at + m] == #[trigger] phrase_lower()[m] || text@[at + m]
                    == phrase_upper()[m],
        decreases 10 - j,
    {
        let c = text.get_char(at + j);
        if c != lower.get_char(j) && c != upper.get_char(j) {
            assert(!(text@[at + j] == phrase_lower()[j as int] || text@[at + j]
                == phrase_upper()[j as int]));
            return false;
        }
        j += 1;
    }
    true
}

/// Splits "<subject> works at <employer>" into its two trimmed parts.
///
/// The phrase is found at its first occurrence, whatever the case of its
/// letters. Gives nothing where the phrase is missing or a part is empty.
pub fn parse_works_at<'a>(text: &'a str) -> (r: Option<(&'a str, &'a str)>)
    ensures
        r is Some <==> works_at_parts(text@) is Some,
        r is Some ==> ({
            let got = r->Some_0;
            let want = works_at_parts(text@)->Some_0;
            got.0@ == want.0 && got.1@ == want.1
        }),
{
    let len = text.unicode_len();
    if len < 10 {
        return None;
    }
    let last = len - 10;
    let mut i: usize = 0;
    while i <= last
        invariant
            len == text@.len(),
            len >= 10,
            last == len - 10,
            i <= last + 1,
            phrase_position(text@, 0) == phrase_position(text@, i as int),
        decreases last + 1 - i,
    {
        if phrase_here(text, i, len) {
            let subject = trim_range(text, 0, i);
            let employer = trim_range(text, i + 10, len);
            if subject.unicode_len() == 0 || employer.unicode_len() == 0 {
                return None;
            }
            return Some((subject, employer));
        }
        i += 1;
    }
    None
}

} // verus!
