//! Display titles derived from audio file names: the file stem, with a
//! Beat-A-Day prefix ("1.14 North Country") or a leading track number
//! ("01 - Chelsea Piers", "01. Cold toes") stripped.

use vstd::prelude::*;
use crate::text::{
    chars_of, file_stem, file_stem_spec, is_ascii_digit, is_ascii_ws, trim, trim_spec,
};

verus! {

/// The character classes that the title rules scan for.
#[derive(Clone, Copy, PartialEq, Eq, Structural)]
pub enum CharClass {
    /// `0`-`9`.
    Digit,
    /// ASCII whitespace (space, tab, line feed, form feed, carriage return).
    AsciiSpace,
    /// ASCII whitespace or one of `.`, `-`, `_`.
    TrackSeparator,
}

pub open spec fn in_class(c: char, class: CharClass) -> bool {
    match class {
        CharClass::Digit => is_ascii_digit(c),
        CharClass::AsciiSpace => is_ascii_ws(c),
        CharClass::TrackSeparator => is_ascii_ws(c) || c == '.' || c == '-' || c == '_',
    }
}

pub fn char_in_class(c: char, class: CharClass) -> (r: bool)
    ensures
        r == in_class(c, class),
{
    match class {
        CharClass::Digit => '0' <= c && c <= '9',
        CharClass::AsciiSpace => c == ' ' || c == '\t' || c == '\n' || c == '\x0C' || c == '\r',
        CharClass::TrackSeparator => c == ' ' || c == '\t' || c == '\n' || c == '\x0C' || c == '\r'
            || c == '.' || c == '-' || c == '_',
    }
}

/// How many characters of `s`, from `start` on and at most `max` of them,
/// belong to `class` before the first one that does not.
pub open spec fn count_while_spec(s: Seq<char>, start: int, max: int, class: CharClass) -> int
    decreases s.len() - start,
{
    if max <= 0 || start < 0 || start >= s.len() || !in_class(s[start], class) {
        0
    } else {
        1 + count_while_spec(s, start + 1, max - 1, class)
    }
}

proof fn lemma_count_while_bounds(s: Seq<char>, start: int, max: int, class: CharClass)
    ensures
        0 <= count_while_spec(s, start, max, class),
        max >= 0 ==> count_while_spec(s, start, max, class) <= max,
        start >= 0 ==> start + count_while_spec(s, start, max, class) <= s.len() || start > s.len(),
        forall|j: int|
            start <= j < start + count_while_spec(s, start, max, class) ==> in_class(
                #[trigger] s[j],
                class,
            ),
    decreases s.len() - start,
{
    if !(max <= 0 || start < 0 || start >= s.len() || !in_class(s[start], class)) {
        lemma_count_while_bounds(s, start + 1, max - 1, class);
    }
}

/// A count of `n` characters from `start` on, at most `max`, all in `class`,
/// and stopped by the limit, the end of `s` or a character outside `class`,
/// is the count `count_while_spec` gives.
pub proof fn lemma_count_while_char(s: Seq<char>, start: int, max: int, class: CharClass, n: int)
    requires
        0 <= start,
        0 <= n <= max,
        n == 0 || start + n <= s.len(),
        forall|k: int| 0 <= k < n ==> in_class(#[trigger] s[start + k], class),
        n == max || start + n >= s.len() || !in_class(s[start + n], class),
    ensures
        n == count_while_spec(s, start, max, class),
    decreases n,
{
    if n > 0 {
        assert(in_class(s[start + 0], class));
        assert forall|k: int| 0 <= k < n - 1 implies in_class(#[trigger] s[(start + 1) + k], class) by {
            assert(in_class(s[start + (k + 1)], class));
        }
        lemma_count_while_char(s, start + 1, max - 1, class, n - 1);
    }
}

/// The number of characters of `b`, from `start` on and at most `max` of
/// them, for which `pred` holds before the first one for which it does not
/// (0 when `start` is at or past the end). `pred` is asked about `b[start]`,
/// `b[start + 1]`, ... in order, and about nothing else.
pub fn count_while<F: Fn(char) -> bool>(b: &Vec<char>, start: usize, max: usize, pred: F) -> (n: usize)
    requires
        forall|c: char| #[trigger] pred.requires((c,)),
    ensures
        n <= max,
        n == 0 || start + n <= b@.len(),
        forall|k: int| 0 <= k < n ==> pred.ensures((#[trigger] b@[start + k],), true),
        n == max || start + n >= b@.len() || pred.ensures((b@[start + n as int],), false),
{
    if start >= b.len() {
        return 0;
    }
    let mut n: usize = 0;
    while n < max && n < b.len() - start
        invariant
            forall|c: char| #[trigger] pred.requires((c,)),
            start < b@.len(),
            n <= max,
            start + n <= b@.len(),
            forall|k: int| 0 <= k < n ==> pred.ensures((#[trigger] b@[start + k],), true),
        decreases b@.len() - start - n,
    {
        let ok = pred(b[start + n]);
        if !ok {
            return n;
        }
        n = n + 1;
    }
    n
}

/// `count_while` with the test for a character class.
fn count_class(b: &Vec<char>, start: usize, max: usize, class: CharClass) -> (n: usize)
    ensures
        n == count_while_spec(b@, start as int, max as int, class),
        n == 0 || start + n <= b@.len(),
{
    let test = |c: char| -> (r: bool)
        ensures
            r == in_class(c, class),
    {
        let r = char_in_class(c, class);
        r
    };
    let n = count_while(b, start, max, test);
    proof {
        lemma_count_while_char(b@, start as int, max as int, class, n as int);
    }
    n
}

/// `^\d{1,2}\.\d{1,2}\s+`: the rest of `s` after that prefix, or `None` when
/// `s` does not start with it.
pub open spec fn strip_beat_a_day_spec(s: Seq<char>) -> Option<Seq<char>> {
    let d1 = count_while_spec(s, 0, 2, CharClass::Digit);
    let d2 = count_while_spec(s, d1 + 1, 2, CharClass::Digit);
    let ws = count_while_spec(s, d1 + 1 + d2, usize::MAX as int, CharClass::AsciiSpace);
    if d1 == 0 || !(d1 < s.len() && s[d1] == '.') || d2 == 0 || ws == 0 {
        None
    } else {
        Some(s.skip(d1 + 1 + d2 + ws))
    }
}

/// `^\d+[\s.\-_]+`: the rest of `s` after that prefix, or `s` itself when it
/// does not start with it.
pub open spec fn strip_leading_tracknum_spec(s: Seq<char>) -> Seq<char> {
    let digits = count_while_spec(s, 0, usize::MAX as int, CharClass::Digit);
    let seps = count_while_spec(s, digits, usize::MAX as int, CharClass::TrackSeparator);
    if digits == 0 || seps == 0 {
        s
    } else {
        s.skip(digits + seps)
    }
}

/// The display title of an audio file name.
pub open spec fn title_spec(filename: Seq<char>) -> Seq<char> {
    let base = match file_stem_spec(filename) {
        Some(b) => b,
        None => filename,
    };
    let rest = match strip_beat_a_day_spec(base) {
        Some(r) => r,
        None => strip_leading_tracknum_spec(base),
    };
    let t = trim_spec(rest);
    if t.len() == 0 {
        base
    } else {
        t
    }
}

/// The rest of `s` after a Beat-A-Day prefix `^\d{1,2}\.\d{1,2}\s+`, or
/// `None` when there is none.
pub fn strip_beat_a_day(s: &str) -> (r: Option<&str>)
    ensures
        match r {
            Some(rest) => strip_beat_a_day_spec(s@) == Some(rest@),
            None => strip_beat_a_day_spec(s@) is None,
        },
{
    let b = chars_of(s);
    let d1 = count_class(&b, 0, 2, CharClass::Digit);
    if d1 == 0 {
        return None;
    }
    if !(d1 < b.len() && b[d1] == '.') {
        return None;
    }
    let i = d1 + 1;
    let d2 = count_class(&b, i, 2, CharClass::Digit);
    if d2 == 0 {
        return None;
    }
    let j = i + d2;
    let ws = count_class(&b, j, usize::MAX, CharClass::AsciiSpace);
    if ws == 0 {
        return None;
    }
    Some(s.substring_char(j + ws, b.len()))
}

/// The rest of `s` after a leading track number `^\d+[\s.\-_]+`, or `s`
/// unchanged when it has none.
pub fn strip_leading_tracknum(s: &str) -> (r: &str)
    ensures
        r@ == strip_leading_tracknum_spec(s@),
{
    let b = chars_of(s);
    let n = b.len();
    let digits = count_class(&b, 0, usize::MAX, CharClass::Digit);
    let seps = count_class(&b, digits, usize::MAX, CharClass::TrackSeparator);
    if digits == 0 || seps == 0 {
        s
    } else {
        s.substring_char(digits + seps, n)
    }
}

/// The display title of an audio file: its stem without a Beat-A-Day prefix
/// or leading track number, trimmed; the bare stem when nothing would be left.
pub fn title_from_filename(filename: &str) -> (t: String)
    ensures
        t@ == title_spec(filename@),
{
    let base = match file_stem(filename) {
        Some(b) => b,
        None => String::from_str(filename),
    };
    let rest = match strip_beat_a_day(base.as_str()) {
        Some(r) => r,
        None => strip_leading_tracknum(base.as_str()),
    };
    let t = trim(rest);
    if t.as_str().is_empty() {
        base
    } else {
        t
    }
}

} // verus!
