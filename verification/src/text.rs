//! Character-level helpers shared by the rest of the library: Unicode
//! whitespace and trimming, ASCII character classes, and the file-name parts of
//! a path (`file_name`, `file_stem`, `extension`) as `std::path::Path` defines
//! them for `/`-separated paths.

use vstd::prelude::*;

verus! {

/// The characters of `s`, in order.
pub fn chars_of(s: &str) -> (v: Vec<char>)
    ensures
        v@ == s@,
{
    let mut v: Vec<char> = Vec::new();
    for c in it: s.chars()
        invariant
            v@ == it.seq().take(it.index() as int),
            it.seq() == s@,
    {
        v.push(c);
    }
    v
}

/// The string made of the characters `s[from..to]`.
pub fn string_of(s: &str, from: usize, to: usize) -> (r: String)
    requires
        from <= to <= s@.len(),
    ensures
        r@ == s@.subrange(from as int, to as int),
{
    String::from_str(s.substring_char(from, to))
}

/// Equality of two character sequences.
pub fn chars_eq(a: &Vec<char>, b: &Vec<char>) -> (r: bool)
    ensures
        r == (a@ == b@),
{
    if a.len() != b.len() {
        return false;
    }
    let mut i: usize = 0;
    while i < a.len()
        invariant
            a@.len() == b@.len(),
            i <= a@.len(),
            forall|j: int| 0 <= j < i ==> a@[j] == b@[j],
        decreases a@.len() - i,
    {
        if a[i] != b[i] {
            return false;
        }
        i = i + 1;
    }
    assert(a@ =~= b@);
    true
}

/// Whether `s` equals the characters of `lit`.
pub fn str_is(s: &str, lit: &str) -> (r: bool)
    ensures
        r == (s@ == lit@),
{
    let a = chars_of(s);
    let b = chars_of(lit);
    chars_eq(&a, &b)
}

/// `char::is_whitespace`: the Unicode `White_Space` property.
pub open spec fn is_ws(c: char) -> bool {
    let u = c as u32;
    ||| 0x9 <= u <= 0xD
    ||| u == 0x20
    ||| u == 0x85
    ||| u == 0xA0
    ||| u == 0x1680
    ||| 0x2000 <= u <= 0x200A
    ||| u == 0x2028
    ||| u == 0x2029
    ||| u == 0x202F
    ||| u == 0x205F
    ||| u == 0x3000
}

pub fn is_whitespace(c: char) -> (r: bool)
    ensures
        r == is_ws(c),
{
    let u = c as u32;
    (0x9 <= u && u <= 0xD) || u == 0x20 || u == 0x85 || u == 0xA0 || u == 0x1680 || (0x2000 <= u
        && u <= 0x200A) || u == 0x2028 || u == 0x2029 || u == 0x202F || u == 0x205F || u == 0x3000
}

/// `u8::is_ascii_whitespace` (space, tab, line feed, form feed, carriage
/// return) on the character's code point.
pub open spec fn is_ascii_ws(c: char) -> bool {
    c == ' ' || c == '\t' || c == '\n' || c == '\x0C' || c == '\r'
}

pub open spec fn is_ascii_digit(c: char) -> bool {
    '0' <= c <= '9'
}

/// Number of leading whitespace characters.
pub open spec fn leading_ws(s: Seq<char>) -> nat
    decreases s.len(),
{
    if s.len() == 0 || !is_ws(s[0]) {
        0
    } else {
        1 + leading_ws(s.drop_first())
    }
}

/// Number of trailing whitespace characters.
pub open spec fn trailing_ws(s: Seq<char>) -> nat
    decreases s.len(),
{
    if s.len() == 0 || !is_ws(s.last()) {
        0
    } else {
        1 + trailing_ws(s.drop_last())
    }
}

/// `str::trim`: the string without its leading and trailing whitespace.
pub open spec fn trim_spec(s: Seq<char>) -> Seq<char> {
    let r = s.skip(leading_ws(s) as int);
    r.take(r.len() - trailing_ws(r))
}

proof fn lemma_leading_ws(s: Seq<char>, i: int)
    requires
        0 <= i <= s.len(),
        forall|j: int| 0 <= j < i ==> is_ws(#[trigger] s[j]),
        i == s.len() || !is_ws(s[i]),
    ensures
        leading_ws(s) == i,
    decreases i,
{
    if i > 0 {
        assert(is_ws(s[0]));
        let t = s.drop_first();
        assert forall|j: int| 0 <= j < i - 1 implies is_ws(#[trigger] t[j]) by {
            assert(t[j] == s[j + 1]);
        }
        if i - 1 < t.len() {
            assert(t[i - 1] == s[i]);
        }
        lemma_leading_ws(t, i - 1);
    }
}

proof fn lemma_trailing_ws(s: Seq<char>, k: int)
    requires
        0 <= k <= s.len(),
        forall|j: int| s.len() - k <= j < s.len() ==> is_ws(#[trigger] s[j]),
        k == s.len() || !is_ws(s[s.len() - k - 1]),
    ensures
        trailing_ws(s) == k,
    decreases k,
{
    if k > 0 {
        assert(is_ws(s[s.len() - 1]));
        let t = s.drop_last();
        assert forall|j: int| t.len() - (k - 1) <= j < t.len() implies is_ws(#[trigger] t[j]) by {
            assert(t[j] == s[j]);
        }
        if k - 1 < t.len() {
            assert(t[t.len() - (k - 1) - 1] == s[s.len() - k - 1]);
        }
        lemma_trailing_ws(t, k - 1);
    }
}

/// `str::trim`, on an owned copy.
pub fn trim(s: &str) -> (r: String)
    ensures
        r@ == trim_spec(s@),
{
    let v = chars_of(s);
    let n = v.len();
    let mut a: usize = 0;
    while a < n && is_whitespace(v[a])
        invariant
            n == v@.len(),
            a <= n,
            forall|j: int| 0 <= j < a ==> is_ws(#[trigger] v@[j]),
        decreases n - a,
    {
        a = a + 1;
    }
    proof {
        lemma_leading_ws(v@, a as int);
    }
    let mut b: usize = n;
    while b > a && is_whitespace(v[b - 1])
        invariant
            n == v@.len(),
            a <= b <= n,
            forall|j: int| b <= j < n ==> is_ws(#[trigger] v@[j]),
        decreases b,
    {
        b = b - 1;
    }
    proof {
        let r = v@.skip(a as int);
        assert forall|j: int| r.len() - (n - b) <= j < r.len() implies is_ws(#[trigger] r[j]) by {
            assert(r[j] == v@[j + a]);
        }
        if n - b < r.len() {
            assert(r[r.len() - (n - b) - 1] == v@[b - 1]);
        }
        lemma_trailing_ws(r, (n - b) as int);
        assert(r.take(r.len() - (n - b)) =~= v@.subrange(a as int, b as int));
    }
    string_of(s, a, b)
}

// ── file-name parts of a path ───────────────────────────────────────────────

/// Index of the last occurrence of `c` in `s`, or -1.
pub open spec fn last_index_of(s: Seq<char>, c: char) -> int
    decreases s.len(),
{
    if s.len() == 0 {
        -1
    } else if s.last() == c {
        s.len() - 1
    } else {
        last_index_of(s.drop_last(), c)
    }
}

proof fn lemma_last_index_of_bounds(s: Seq<char>, c: char)
    ensures
        -1 <= last_index_of(s, c) < s.len(),
        last_index_of(s, c) >= 0 ==> s[last_index_of(s, c)] == c,
        forall|j: int| last_index_of(s, c) < j < s.len() ==> s[j] != c,
    decreases s.len(),
{
    if s.len() > 0 && s.last() != c {
        let t = s.drop_last();
        lemma_last_index_of_bounds(t, c);
        assert forall|j: int| last_index_of(s, c) < j < s.len() implies s[j] != c by {
            if j < s.len() - 1 {
                assert(s[j] == t[j]);
            }
        }
    }
}

proof fn lemma_last_index_of_char(s: Seq<char>, c: char, k: int)
    requires
        -1 <= k < s.len(),
        k >= 0 ==> s[k] == c,
        forall|j: int| k < j < s.len() ==> s[j] != c,
    ensures
        last_index_of(s, c) == k,
    decreases s.len(),
{
    if s.len() > 0 && k < s.len() - 1 {
        let t = s.drop_last();
        assert forall|j: int| k < j < t.len() implies t[j] != c by {
            assert(t[j] == s[j]);
        }
        lemma_last_index_of_char(t, c, k);
    }
}

/// Index of the last occurrence of `c` among the first `end` characters of
/// `v`, if there is one.
pub fn last_index_in(v: &Vec<char>, end: usize, c: char) -> (r: Option<usize>)
    requires
        end <= v@.len(),
    ensures
        match r {
            Some(i) => i < end && last_index_of(v@.take(end as int), c) == i as int,
            None => last_index_of(v@.take(end as int), c) == -1,
        },
{
    let mut i: usize = end;
    while i > 0 && v[i - 1] != c
        invariant
            i <= end <= v@.len(),
            forall|j: int| i <= j < end ==> v@[j] != c,
        decreases i,
    {
        i = i - 1;
    }
    let ghost k: int = i - 1;
    proof {
        let t = v@.take(end as int);
        assert forall|j: int| k < j < t.len() implies t[j] != c by {
            assert(t[j] == v@[j]);
        }
        lemma_last_index_of_char(t, c, k);
    }
    if i == 0 {
        None
    } else {
        Some(i - 1)
    }
}

/// `Path::file_name` for a `/`-separated path: the last normal component,
/// ignoring trailing `/` and `.` components; `None` for an empty path, the
/// root, `.`, or a path that ends in `..`.
pub open spec fn file_name_spec(p: Seq<char>) -> Option<Seq<char>>
    decreases p.len(),
{
    if p.len() == 0 {
        None
    } else if p.last() == '/' {
        file_name_spec(p.drop_last())
    } else if p.len() == 1 && p[0] == '.' {
        None
    } else if p.len() >= 2 && p.last() == '.' && p[p.len() - 2] == '/' {
        file_name_spec(p.drop_last())
    } else {
        let seg = p.skip(last_index_of(p, '/') + 1);
        if seg == seq!['.', '.'] {
            None
        } else {
            Some(seg)
        }
    }
}

/// The stem of a file name: everything before the last `.`, unless the name
/// has no `.` past its first character.
pub open spec fn stem_of(name: Seq<char>) -> Seq<char> {
    let d = last_index_of(name, '.');
    if name == seq!['.', '.'] || d <= 0 {
        name
    } else {
        name.take(d)
    }
}

/// The extension of a file name: everything after the last `.`, when that
/// `.` is not the name's first character.
pub open spec fn extension_of(name: Seq<char>) -> Option<Seq<char>> {
    let d = last_index_of(name, '.');
    if name == seq!['.', '.'] || d <= 0 {
        None
    } else {
        Some(name.skip(d + 1))
    }
}

/// `Path::file_stem`.
pub open spec fn file_stem_spec(p: Seq<char>) -> Option<Seq<char>> {
    match file_name_spec(p) {
        Some(n) => Some(stem_of(n)),
        None => None,
    }
}

/// `Path::extension`.
pub open spec fn extension_spec(p: Seq<char>) -> Option<Seq<char>> {
    match file_name_spec(p) {
        Some(n) => extension_of(n),
        None => None,
    }
}

/// Start and end (in characters) of the file name of `p`, if it has one.
fn file_name_range(v: &Vec<char>) -> (r: Option<(usize, usize)>)
    ensures
        match r {
            Some((a, b)) => a <= b <= v@.len() && file_name_spec(v@) == Some(
                v@.subrange(a as int, b as int),
            ),
            None => file_name_spec(v@) is None,
        },
{
    let mut end: usize = v.len();
    assert(v@.take(end as int) =~= v@);
    loop
        invariant
            end <= v@.len(),
            file_name_spec(v@) == file_name_spec(v@.take(end as int)),
        ensures
            0 < end <= v@.len(),
            file_name_spec(v@) == file_name_spec(v@.take(end as int)),
            v@[end - 1] != '/',
            !(end == 1 && v@[0] == '.'),
            !(end >= 2 && v@[end - 1] == '.' && v@[end - 2] == '/'),
        decreases end,
    {
        let ghost p = v@.take(end as int);
        if end == 0 {
            return None;
        }
        assert(p.last() == v@[end - 1]);
        if v[end - 1] == '/' {
            assert(p.drop_last() =~= v@.take(end - 1));
            end = end - 1;
        } else if end == 1 && v[0] == '.' {
            return None;
        } else if end >= 2 && v[end - 1] == '.' && v[end - 2] == '/' {
            assert(p[p.len() - 2] == v@[end - 2]);
            assert(p.drop_last() =~= v@.take(end - 1));
            end = end - 1;
        } else {
            if end >= 2 {
                assert(p[p.len() - 2] == v@[end - 2]);
            }
            if end == 1 {
                assert(p[0] == v@[0]);
            }
            break;
        }
    }
    let start: usize = match last_index_in(v, end, '/') {
        Some(i) => i + 1,
        None => 0,
    };
    let is_dotdot = end - start == 2 && v[start] == '.' && v[start + 1] == '.';
    proof {
        let p = v@.take(end as int);
        assert(p.last() == v@[end - 1]);
        if end >= 2 {
            assert(p[p.len() - 2] == v@[end - 2]);
        }
        if end == 1 {
            assert(p[0] == v@[0]);
        }
        let seg = p.skip(start as int);
        assert(seg =~= v@.subrange(start as int, end as int));
        if seg.len() == 2 {
            assert(seg[0] == v@[start as int] && seg[1] == v@[start + 1]);
            assert(is_dotdot == (seg =~= seq!['.', '.']));
        } else {
            assert(seg != seq!['.', '.']);
        }
    }
    if is_dotdot {
        None
    } else {
        Some((start, end))
    }
}

/// `Path::file_name`, as an owned string.
pub fn file_name(path: &str) -> (r: Option<String>)
    ensures
        match r {
            Some(n) => file_name_spec(path@) == Some(n@),
            None => file_name_spec(path@) is None,
        },
{
    let v = chars_of(path);
    match file_name_range(&v) {
        Some((a, b)) => Some(string_of(path, a, b)),
        None => None,
    }
}

/// Where the stem of the file name `v[a..b]` ends.
fn stem_end(v: &Vec<char>, a: usize, b: usize) -> (e: usize)
    requires
        a <= b <= v@.len(),
    ensures
        a <= e <= b,
        stem_of(v@.subrange(a as int, b as int)) == v@.subrange(a as int, e as int),
{
    let ghost name = v@.subrange(a as int, b as int);
    let mut i: usize = b;
    while i > a && v[i - 1] != '.'
        invariant
            a <= i <= b <= v@.len(),
            forall|j: int| i <= j < b ==> v@[j] != '.',
        decreases i,
    {
        i = i - 1;
    }
    let ghost d: int = if i == a {
        -1
    } else {
        i - 1 - a
    };
    proof {
        assert forall|j: int| d < j < name.len() implies name[j] != '.' by {
            assert(name[j] == v@[j + a]);
        }
        if d >= 0 {
            assert(name[d] == v@[i - 1]);
        }
        lemma_last_index_of_char(name, '.', d);
    }
    let is_dotdot = b - a == 2 && v[a] == '.' && v[a + 1] == '.';
    proof {
        if name.len() == 2 {
            assert(name[0] == v@[a as int] && name[1] == v@[a + 1]);
            assert(is_dotdot == (name =~= seq!['.', '.']));
        } else {
            assert(name != seq!['.', '.']);
        }
    }
    if is_dotdot || i - a <= 1 {
        assert(name =~= v@.subrange(a as int, b as int));
        b
    } else {
        assert(name.take(d) =~= v@.subrange(a as int, i - 1));
        i - 1
    }
}

/// `Path::file_stem`, as an owned string.
pub fn file_stem(path: &str) -> (r: Option<String>)
    ensures
        match r {
            Some(n) => file_stem_spec(path@) == Some(n@),
            None => file_stem_spec(path@) is None,
        },
{
    let v = chars_of(path);
    match file_name_range(&v) {
        Some((a, b)) => {
            let e = stem_end(&v, a, b);
            Some(string_of(path, a, e))
        },
        None => None,
    }
}

/// The number that a string of decimal digits spells.
pub open spec fn digits_value(d: Seq<char>) -> int
    decreases d.len(),
{
    if d.len() == 0 {
        0
    } else {
        digits_value(d.drop_last()) * 10 + (d.last() as int - '0' as int)
    }
}

pub open spec fn all_digits(d: Seq<char>) -> bool {
    forall|k: int| 0 <= k < d.len() ==> is_ascii_digit(#[trigger] d[k])
}

/// `str::parse::<i64>`: an optional `+` or `-`, then one or more ASCII
/// digits, and a value in the range of `i64`.
pub open spec fn parse_i64_spec(s: Seq<char>) -> Option<i64> {
    if s.len() == 0 {
        None
    } else {
        let signed = s[0] == '+' || s[0] == '-';
        let digits = if signed { s.drop_first() } else { s };
        let v = if s[0] == '-' { -digits_value(digits) } else { digits_value(digits) };
        if digits.len() == 0 || !all_digits(digits) || v < i64::MIN || v > i64::MAX {
            None
        } else {
            Some(v as i64)
        }
    }
}

proof fn lemma_digits_value_nonneg(d: Seq<char>)
    requires
        all_digits(d),
    ensures
        digits_value(d) >= 0,
    decreases d.len(),
{
    if d.len() > 0 {
        assert(is_ascii_digit(d[d.len() - 1]));
        assert(all_digits(d.drop_last())) by {
            assert forall|k: int| 0 <= k < d.drop_last().len() implies is_ascii_digit(#[trigger] d.drop_last()[k]) by {
                assert(d.drop_last()[k] == d[k]);
            }
        }
        lemma_digits_value_nonneg(d.drop_last());
    }
}

/// Parse a decimal `i64` as `str::parse` does.
pub fn parse_i64(s: &str) -> (r: Option<i64>)
    ensures
        r == parse_i64_spec(s@),
{
    let v = chars_of(s);
    let n = v.len();
    if n == 0 {
        return None;
    }
    let neg = v[0] == '-';
    let start: usize = if v[0] == '+' || v[0] == '-' { 1 } else { 0 };
    let ghost digits = if v@[0] == '+' || v@[0] == '-' { s@.drop_first() } else { s@ };
    assert(digits =~= s@.skip(start as int));
    if start == n {
        return None;
    }
    // `acc` is the value of the digits read so far; past 2^63 no i64 can result.
    let mut acc: i128 = 0;
    let mut k: usize = start;
    while k < n
        invariant
            start <= k <= n,
            n == s@.len(),
            v@ == s@,
            digits =~= s@.skip(start as int),
            n > 0,
            digits == (if s@[0] == '+' || s@[0] == '-' { s@.drop_first() } else { s@ }),
            all_digits(s@.subrange(start as int, k as int)),
            acc == digits_value(s@.subrange(start as int, k as int)),
            0 <= acc <= 0x8000_0000_0000_0000,
        decreases n - k,
    {
        let c = v[k];
        if !('0' <= c && c <= '9') {
            assert(digits[k - start] == c);
            assert(!is_ascii_digit(digits[k - start]));
            assert(!all_digits(digits));
            return None;
        }
        let d = (c as u32 - '0' as u32) as i128;
        let ghost pre = s@.subrange(start as int, k as int);
        let ghost next = s@.subrange(start as int, k + 1);
        assert(next.drop_last() =~= pre);
        assert(next.last() == c);
        assert(all_digits(next)) by {
            assert forall|j: int| 0 <= j < next.len() implies is_ascii_digit(#[trigger] next[j]) by {
                if j < pre.len() {
                    assert(next[j] == pre[j]);
                }
            }
        }
        assert(acc * 10 + d <= 0x8000_0000_0000_0000 * 10 + 9) by (nonlinear_arith)
            requires
                0 <= acc <= 0x8000_0000_0000_0000,
                0 <= d <= 9,
        ;
        acc = acc * 10 + d;
        if acc > 0x8000_0000_0000_0000 {
            // Every further digit only makes the value larger.
            proof {
                assert(s@.skip(start as int).take((k + 1 - start) as int) =~= next);
                lemma_digits_prefix_bound(s@.skip(start as int), (k + 1 - start) as int);
            }
            return None;
        }
        k = k + 1;
    }
    assert(s@.subrange(start as int, n as int) =~= digits);
    if neg {
        Some((0 - acc) as i64)
    } else if acc > 0x7fff_ffff_ffff_ffff {
        None
    } else {
        Some(acc as i64)
    }
}

/// The value of a digit string is at least the value of any prefix, so a
/// prefix past 2^63 leaves the whole string out of range.
proof fn lemma_digits_prefix_bound(d: Seq<char>, m: int)
    requires
        0 <= m <= d.len(),
        all_digits(d.take(m)),
        digits_value(d.take(m)) > 0x8000_0000_0000_0000,
    ensures
        !all_digits(d) || digits_value(d) > 0x8000_0000_0000_0000,
    decreases d.len() - m,
{
    if m < d.len() && all_digits(d) {
        let t = d.take(m + 1);
        assert(t.drop_last() =~= d.take(m));
        assert(is_ascii_digit(d[m]));
        assert(t.last() == d[m]);
        assert(all_digits(t)) by {
            assert forall|j: int| 0 <= j < t.len() implies is_ascii_digit(#[trigger] t[j]) by {
                assert(t[j] == d[j]);
            }
        }
        lemma_digits_prefix_bound(d, m + 1);
    } else if m == d.len() {
        assert(d.take(m) =~= d);
    }
}

/// `Path::extension`, as an owned string.
pub fn extension(path: &str) -> (r: Option<String>)
    ensures
        match r {
            Some(e) => extension_spec(path@) == Some(e@),
            None => extension_spec(path@) is None,
        },
{
    let name = match file_name(path) {
        Some(n) => n,
        None => return None,
    };
    let v = chars_of(name.as_str());
    let n = v.len();
    assert(v@.take(n as int) =~= v@);
    if n == 2 && v[0] == '.' && v[1] == '.' {
        assert(name@ =~= seq!['.', '.']);
        return None;
    }
    match last_index_in(&v, n, '.') {
        Some(d) => if d == 0 {
            None
        } else {
            Some(string_of(name.as_str(), d + 1, n))
        },
        None => None,
    }
}

/// The code point of the ASCII lowercase of one character; other
/// characters are unchanged.
pub open spec fn ascii_lower(c: char) -> u32 {
    if 'A' <= c <= 'Z' {
        ((c as u32) + 32) as u32
    } else {
        c as u32
    }
}

/// `str::eq_ignore_ascii_case`.
pub open spec fn eq_ignore_ascii_case_spec(a: Seq<char>, b: Seq<char>) -> bool {
    a.len() == b.len() && forall|k: int| 0 <= k < a.len() ==> ascii_lower(#[trigger] a[k]) == ascii_lower(b[k])
}

fn to_ascii_lower(c: char) -> (r: u32)
    ensures
        r == ascii_lower(c),
{
    if 'A' <= c && c <= 'Z' {
        (c as u32) + 32
    } else {
        c as u32
    }
}

/// Whether two strings are equal when ASCII letters are compared without case.
pub fn eq_ignore_ascii_case(a: &str, b: &str) -> (r: bool)
    ensures
        r == eq_ignore_ascii_case_spec(a@, b@),
{
    let x = chars_of(a);
    let y = chars_of(b);
    if x.len() != y.len() {
        return false;
    }
    let mut k: usize = 0;
    while k < x.len()
        invariant
            k <= x@.len(),
            x@ == a@,
            y@ == b@,
            x@.len() == y@.len(),
            forall|j: int| 0 <= j < k ==> ascii_lower(#[trigger] x@[j]) == ascii_lower(y@[j]),
        decreases x@.len() - k,
    {
        if to_ascii_lower(x[k]) != to_ascii_lower(y[k]) {
            return false;
        }
        k = k + 1;
    }
    true
}

} // verus!
