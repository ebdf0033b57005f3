//! The rules of the app's command surface: which config values are accepted,
//! how user text is cleaned and validated, where a new note or todo goes in
//! its list, how search matches are collected, and how related rows are
//! attached to the tracks they belong to.

use vstd::prelude::*;
use crate::text::{str_is, trim, trim_spec};

verus! {

/// `e.to_string()`: the error's `Display` text.
pub fn err<E: std::fmt::Display>(e: E) -> (r: String)
    ensures
        vstd::string::to_string_from_display_ensures::<E>(&e, r),
{
    e.to_string()
}

// ── config ──────────────────────────────────────────────────────────────────

/// The config keys the app accepts, each with the values it may take.
pub open spec fn config_value_valid_spec(key: Seq<char>, value: Seq<char>) -> bool {
    if key == "normalization_enabled"@ || key == "todo_collapsed"@ || key == "scratchpad_collapsed"@
        || key == "timeline_collapsed"@ {
        value == "0"@ || value == "1"@
    } else if key == "crates_view_mode"@ {
        value == "all"@ || value == "released"@ || value == "unreleased"@ || value == "shelved"@
    } else if key == "library_mode"@ {
        value == "crates"@ || value == "songs"@
    } else {
        false
    }
}

/// Whether `key` may be set to `value`.
pub fn config_value_valid(key: &str, value: &str) -> (r: bool)
    ensures
        r == config_value_valid_spec(key@, value@),
{
    if str_is(key, "normalization_enabled") || str_is(key, "todo_collapsed") || str_is(
        key,
        "scratchpad_collapsed",
    ) || str_is(key, "timeline_collapsed") {
        str_is(value, "0") || str_is(value, "1")
    } else if str_is(key, "crates_view_mode") {
        str_is(value, "all") || str_is(value, "released") || str_is(value, "unreleased") || str_is(
            value,
            "shelved",
        )
    } else if str_is(key, "library_mode") {
        str_is(value, "crates") || str_is(value, "songs")
    } else {
        false
    }
}

/// Accept a config key/value, or say which pair was refused.
pub fn check_config_value(key: &str, value: &str) -> (r: Result<(), String>)
    ensures
        r is Ok <==> config_value_valid_spec(key@, value@),
        r matches Err(m) ==> m@ == "invalid config key/value: "@ + key@ + "="@ + value@,
{
    if config_value_valid(key, value) {
        Ok(())
    } else {
        let mut m = String::from_str("invalid config key/value: ");
        m.append(key);
        m.append("=");
        m.append(value);
        Err(m)
    }
}

/// A folder path setting must not be empty.
pub fn require_path(path: &str) -> (r: Result<(), String>)
    ensures
        r is Ok <==> path@.len() > 0,
        r matches Err(m) ==> m@ == "path is required"@,
{
    if path.is_empty() {
        Err(String::from_str("path is required"))
    } else {
        Ok(())
    }
}

// ── crates ──────────────────────────────────────────────────────────────────

/// The release statuses a crate can have.
pub open spec fn valid_status(s: Seq<char>) -> bool {
    s == "unreleased"@ || s == "released"@ || s == "shelved"@
}

pub fn check_crate_status(status: &str) -> (r: Result<(), String>)
    ensures
        r is Ok <==> valid_status(status@),
        r matches Err(m) ==> m@ == "status must be unreleased, released, or shelved"@,
{
    if str_is(status, "unreleased") || str_is(status, "released") || str_is(status, "shelved") {
        Ok(())
    } else {
        Err(String::from_str("status must be unreleased, released, or shelved"))
    }
}

/// The stored producer: an empty name clears it.
pub fn producer_value(producer: Option<String>) -> (r: Option<String>)
    ensures
        match producer {
            Some(p) => if p@.len() > 0 {
                r matches Some(q) && q@ == p@
            } else {
                r is None
            },
            None => r is None,
        },
{
    match producer {
        Some(p) => if p.as_str().is_empty() {
            None
        } else {
            Some(p)
        },
        None => None,
    }
}

/// The new sort order of one row (a note, a todo, a track) of a reordered
/// list.
pub struct NoteOrder {
    pub id: i64,
    pub sort_order: i64,
}

/// Sort orders `base, base + 1, ...` for the ids in order.
pub open spec fn orders_from(ids: Seq<i64>, base: int, r: Seq<NoteOrder>) -> bool {
    &&& r.len() == ids.len()
    &&& forall|i: int| 0 <= i < ids.len() ==> (#[trigger] r[i]).id == ids[i] && r[i].sort_order == base + i
}

/// The sort orders of a reordered list: the id at position `i` gets `i`.
pub fn sequential_orders(ids: &Vec<i64>) -> (r: Vec<NoteOrder>)
    requires
        ids@.len() <= i64::MAX,
    ensures
        orders_from(ids@, 0, r@),
{
    appended_orders(-1, ids)
}

/// Sort orders that continue a list past its largest one: the id at position
/// `i` gets `max + 1 + i`.
pub fn appended_orders(max: i64, ids: &Vec<i64>) -> (r: Vec<NoteOrder>)
    requires
        max + 1 + ids@.len() <= i64::MAX + 1,
    ensures
        orders_from(ids@, max + 1, r@),
{
    let mut out: Vec<NoteOrder> = Vec::new();
    let mut i: usize = 0;
    while i < ids.len()
        invariant
            i <= ids@.len(),
            max + 1 + ids@.len() <= i64::MAX + 1,
            out@.len() == i,
            forall|j: int| 0 <= j < i ==> (#[trigger] out@[j]).id == ids@[j] && out@[j].sort_order == max + 1 + j,
        decreases ids@.len() - i,
    {
        let order = (max as i128 + 1 + i as i128) as i64;
        out.push(NoteOrder { id: ids[i], sort_order: order });
        i = i + 1;
    }
    out
}

// ── notes, tags, todos ──────────────────────────────────────────────────────

/// The user texts that must not be blank.
pub enum TextField {
    Tag,
    Note,
    Todo,
}

/// What the app answers when such a text is blank.
pub open spec fn missing_message(f: TextField) -> Seq<char> {
    match f {
        TextField::Tag => "tag is required"@,
        TextField::Note => "note is required"@,
        TextField::Todo => "text required"@,
    }
}

fn missing_text(f: TextField) -> (r: String)
    ensures
        r@ == missing_message(f),
{
    match f {
        TextField::Tag => String::from_str("tag is required"),
        TextField::Note => String::from_str("note is required"),
        TextField::Todo => String::from_str("text required"),
    }
}

/// A tag, note or todo text as stored: trimmed, and refused when nothing is
/// left.
pub fn required_text(text: &str, field: TextField) -> (r: Result<String, String>)
    ensures
        match r {
            Ok(t) => t@ == trim_spec(text@) && t@.len() > 0,
            Err(m) => trim_spec(text@).len() == 0 && m@ == missing_message(field),
        },
{
    let t = trim(text);
    if t.as_str().is_empty() {
        Err(missing_text(field))
    } else {
        Ok(t)
    }
}

/// The sort order of an item appended to a list whose largest sort order is
/// `max` (none for an empty list).
pub fn next_sort_order(max: Option<i64>) -> (r: i64)
    requires
        max != Some(i64::MAX),
    ensures
        r == match max {
            Some(m) => m + 1,
            None => 0,
        },
{
    match max {
        Some(m) => m + 1,
        None => 0,
    }
}

/// What a note edit does: set its completed flag, or replace its text.
pub enum NoteUpdate {
    Completed(bool),
    Text(String),
}

/// A note edit: a completed flag wins; otherwise the trimmed text, which must
/// not be blank.
pub fn note_update(note: Option<String>, completed: Option<bool>) -> (r: Result<NoteUpdate, String>)
    ensures
        match completed {
            Some(done) => r matches Ok(NoteUpdate::Completed(d)) && d == done,
            None => {
                let t = trim_spec(
                    match note {
                        Some(n) => n@,
                        None => Seq::<char>::empty(),
                    },
                );
                if t.len() > 0 {
                    r matches Ok(NoteUpdate::Text(s)) && s@ == t
                } else {
                    r matches Err(m) && m@ == "note is required"@
                }
            },
        },
{
    if let Some(done) = completed {
        return Ok(NoteUpdate::Completed(done));
    }
    let text = match note {
        Some(n) => n,
        None => String::new(),
    };
    match required_text(text.as_str(), TextField::Note) {
        Ok(t) => Ok(NoteUpdate::Text(t)),
        Err(m) => Err(m),
    }
}

/// How many recent favorites to list: 3 by default, and between 1 and 20.
pub fn recent_limit(limit: Option<i64>) -> (r: i64)
    ensures
        r == match limit {
            Some(l) => if l < 1 {
                1
            } else if l > 20 {
                20
            } else {
                l
            },
            None => 3,
        },
{
    match limit {
        Some(l) => if l < 1 {
            1
        } else if l > 20 {
            20
        } else {
            l
        },
        None => 3,
    }
}

// ── search ──────────────────────────────────────────────────────────────────

/// The `LIKE` pattern a search query matches with: the trimmed query between
/// `%` signs, or nothing to search for when the query is blank.
pub fn search_pattern(q: &str) -> (r: Option<String>)
    ensures
        match r {
            Some(p) => trim_spec(q@).len() > 0 && p@ == "%"@ + trim_spec(q@) + "%"@,
            None => trim_spec(q@).len() == 0,
        },
{
    let t = trim(q);
    if t.as_str().is_empty() {
        return None;
    }
    let mut p = String::from_str("%");
    p.append(t.as_str());
    p.append("%");
    Some(p)
}

/// Note matches are listed once per (track, text): a row is kept unless an
/// earlier row has the same track and text.
pub open spec fn first_of_kind(keys: Seq<(i64, Seq<char>)>, i: int) -> bool {
    forall|j: int| 0 <= j < i ==> #[trigger] keys[j] != keys[i]
}

pub open spec fn keys_view(v: Seq<(i64, String)>) -> Seq<(i64, Seq<char>)> {
    v.map_values(|k: (i64, String)| (k.0, k.1@))
}

/// Which note matches to list: the first of each (track id, note text).
pub fn keep_first_notes(keys: &Vec<(i64, String)>) -> (r: Vec<bool>)
    ensures
        r@.len() == keys@.len(),
        forall|i: int| 0 <= i < keys@.len() ==> #[trigger] r@[i] == first_of_kind(keys_view(keys@), i),
{
    let ghost kv = keys_view(keys@);
    let mut out: Vec<bool> = Vec::new();
    let mut i: usize = 0;
    while i < keys.len()
        invariant
            i <= keys@.len(),
            kv == keys_view(keys@),
            out@.len() == i,
            forall|a: int| 0 <= a < i ==> #[trigger] out@[a] == first_of_kind(kv, a),
        decreases keys@.len() - i,
    {
        let mut j: usize = 0;
        let mut fresh = true;
        while j < i
            invariant
                j <= i < keys@.len(),
                kv == keys_view(keys@),
                fresh == forall|b: int| 0 <= b < j ==> #[trigger] kv[b] != kv[i as int],
            decreases i - j,
        {
            assert(kv[j as int] == (keys@[j as int].0, keys@[j as int].1@));
            assert(kv[i as int] == (keys@[i as int].0, keys@[i as int].1@));
            if keys[j].0 == keys[i].0 && keys[j].1 == keys[i].1 {
                fresh = false;
            }
            j = j + 1;
        }
        out.push(fresh);
        i = i + 1;
    }
    out
}

/// Rows attached to the track at position `i`: the positions of the rows
/// whose track id is its id, in order; none when an earlier track has the
/// same id (its rows went to that one).
pub open spec fn rows_of(track_ids: Seq<i64>, row_tracks: Seq<i64>, i: int, g: Seq<usize>) -> bool {
    if exists|j: int| 0 <= j < i && track_ids[j] == track_ids[i] {
        g.len() == 0
    } else {
        &&& forall|a: int, b: int| 0 <= a < b < g.len() ==> #[trigger] g[a] < #[trigger] g[b]
        &&& forall|a: int| 0 <= a < g.len() ==> #[trigger] g[a] < row_tracks.len() && row_tracks[g[a] as int] == track_ids[i]
        &&& forall|k: int|
            0 <= k < row_tracks.len() && row_tracks[k] == track_ids[i] ==> #[trigger] g.contains(k as usize)
    }
}

/// Group rows (tags, notes) by the track they belong to, keeping their
/// order: for each track, the positions of its rows.
pub fn group_by_track(track_ids: &Vec<i64>, row_tracks: &Vec<i64>) -> (r: Vec<Vec<usize>>)
    ensures
        r@.len() == track_ids@.len(),
        forall|i: int| 0 <= i < track_ids@.len() ==> rows_of(track_ids@, row_tracks@, i, #[trigger] r@[i]@),
{
    let mut out: Vec<Vec<usize>> = Vec::new();
    let mut i: usize = 0;
    while i < track_ids.len()
        invariant
            i <= track_ids@.len(),
            out@.len() == i,
            forall|a: int| 0 <= a < i ==> rows_of(track_ids@, row_tracks@, a, #[trigger] out@[a]@),
        decreases track_ids@.len() - i,
    {
        let id = track_ids[i];
        let mut seen = false;
        let mut j: usize = 0;
        while j < i
            invariant
                j <= i < track_ids@.len(),
                id == track_ids@[i as int],
                seen == exists|b: int| 0 <= b < j && track_ids@[b] == id,
            decreases i - j,
        {
            if track_ids[j] == id {
                seen = true;
            }
            j = j + 1;
        }
        let mut g: Vec<usize> = Vec::new();
        if !seen {
            let mut k: usize = 0;
            while k < row_tracks.len()
                invariant
                    k <= row_tracks@.len(),
                    id == track_ids@[i as int],
                    forall|a: int, b: int| 0 <= a < b < g@.len() ==> #[trigger] g@[a] < #[trigger] g@[b],
                    forall|a: int| 0 <= a < g@.len() ==> #[trigger] g@[a] < k && row_tracks@[g@[a] as int] == id,
                    forall|m: int| 0 <= m < k && row_tracks@[m] == id ==> #[trigger] g@.contains(m as usize),
                decreases row_tracks@.len() - k,
            {
                if row_tracks[k] == id {
                    let ghost before = g@;
                    g.push(k);
                    assert forall|m: int| 0 <= m < k + 1 && row_tracks@[m] == id implies #[trigger] g@.contains(
                        m as usize,
                    ) by {
                        if m < k {
                            assert(before.contains(m as usize));
                            let w = choose|w: int| 0 <= w < before.len() && before[w] == m as usize;
                            assert(g@[w] == m as usize);
                        } else {
                            assert(g@[g@.len() - 1] == k);
                        }
                    }
                }
                k = k + 1;
            }
        }
        let ghost gv = g@;
        out.push(g);
        assert(out@[i as int]@ == gv);
        i = i + 1;
    }
    out
}

/// The `?,?,…` placeholder list of a SQL `IN (…)` clause with `n` entries.
pub open spec fn placeholders_spec(n: nat) -> Seq<char>
    decreases n,
{
    if n == 0 {
        Seq::empty()
    } else if n == 1 {
        "?"@
    } else {
        placeholders_spec((n - 1) as nat) + ",?"@
    }
}

pub fn sql_placeholders(n: usize) -> (r: String)
    ensures
        r@ == placeholders_spec(n as nat),
{
    let mut out = String::new();
    if n == 0 {
        return out;
    }
    out.append("?");
    let mut i: usize = 1;
    while i < n
        invariant
            1 <= i <= n,
            out@ == placeholders_spec(i as nat),
        decreases n - i,
    {
        out.append(",?");
        i = i + 1;
    }
    out
}

// ── stats ───────────────────────────────────────────────────────────────────

/// The decimal digits of a natural number.
pub open spec fn decimal_spec(n: nat) -> Seq<char>
    decreases n,
{
    if n < 10 {
        seq![digit_char(n)]
    } else {
        decimal_spec(n / 10).push(digit_char(n % 10))
    }
}

pub open spec fn digit_char(d: nat) -> char {
    if d == 0 {
        '0'
    } else if d == 1 {
        '1'
    } else if d == 2 {
        '2'
    } else if d == 3 {
        '3'
    } else if d == 4 {
        '4'
    } else if d == 5 {
        '5'
    } else if d == 6 {
        '6'
    } else if d == 7 {
        '7'
    } else if d == 8 {
        '8'
    } else {
        '9'
    }
}

/// `Display` of an integer: a `-` before the digits of a negative number.
pub open spec fn int_text(n: int) -> Seq<char> {
    if n < 0 {
        seq!['-'] + decimal_spec((-n) as nat)
    } else {
        decimal_spec(n as nat)
    }
}

fn push_digit(out: &mut String, d: u64)
    requires
        d < 10,
    ensures
        final(out)@ == old(out)@.push(digit_char(d as nat)),
{
    let t = if d == 0 {
        "0"
    } else if d == 1 {
        "1"
    } else if d == 2 {
        "2"
    } else if d == 3 {
        "3"
    } else if d == 4 {
        "4"
    } else if d == 5 {
        "5"
    } else if d == 6 {
        "6"
    } else if d == 7 {
        "7"
    } else if d == 8 {
        "8"
    } else {
        "9"
    };
    proof {
        reveal_strlit("0");
        reveal_strlit("1");
        reveal_strlit("2");
        reveal_strlit("3");
        reveal_strlit("4");
        reveal_strlit("5");
        reveal_strlit("6");
        reveal_strlit("7");
        reveal_strlit("8");
        reveal_strlit("9");
    }
    out.append(t);
    assert(final(out)@ =~= old(out)@.push(digit_char(d as nat)));
}

/// Append the decimal digits of `n`.
fn append_decimal(out: &mut String, n: u64)
    ensures
        final(out)@ == old(out)@ + decimal_spec(n as nat),
    decreases n,
{
    if n >= 10 {
        append_decimal(out, n / 10);
    }
    push_digit(out, n % 10);
    assert(final(out)@ =~= old(out)@ + decimal_spec(n as nat));
}

/// Append an integer as `Display` writes it.
pub fn append_int(out: &mut String, n: i64)
    ensures
        final(out)@ == old(out)@ + int_text(n as int),
{
    if n < 0 {
        out.append("-");
        proof {
            reveal_strlit("-");
        }
        let m = (0i128 - n as i128) as u64;
        append_decimal(out, m);
        assert(final(out)@ =~= old(out)@ + int_text(n as int));
    } else {
        append_decimal(out, n as u64);
    }
}

/// The three-letter English month names.
pub open spec fn month_abbrev(m: nat) -> Seq<char> {
    seq![
        "Jan"@,
        "Feb"@,
        "Mar"@,
        "Apr"@,
        "May"@,
        "Jun"@,
        "Jul"@,
        "Aug"@,
        "Sep"@,
        "Oct"@,
        "Nov"@,
        "Dec"@,
    ][m as int]
}

/// The first-play date as shown: `Mon D, YYYY`, from a zero-based month, a
/// day of the month and a year.
pub fn format_play_date(month0: u32, day: u32, year: i32) -> (r: String)
    requires
        month0 < 12,
    ensures
        r@ == month_abbrev(month0 as nat) + " "@ + int_text(day as int) + ", "@ + int_text(year as int),
{
    let names = vec!["Jan", "Feb", "Mar", "Apr", "May", "Jun", "Jul", "Aug", "Sep", "Oct", "Nov", "Dec"];
    assert(names@.len() == 12);
    let mut out = String::from_str(names[month0 as usize]);
    assert(out@ == month_abbrev(month0 as nat));
    out.append(" ");
    append_int(&mut out, day as i64);
    out.append(", ");
    append_int(&mut out, year as i64);
    out
}

/// Days from today back to this week's Monday, given the weekday counted
/// from Sunday (0 = Sunday).
pub open spec fn days_since_monday_spec(from_sunday: u32) -> int {
    (from_sunday + 6) % 7
}

/// The current and the previous week, Monday to Sunday, as day offsets from
/// today: (this Monday, this Sunday, last Monday, last Sunday).
pub fn week_day_offsets(from_sunday: u32) -> (r: (i64, i64, i64, i64))
    ensures
        r.0 == -days_since_monday_spec(from_sunday),
        r.1 == r.0 + 6,
        r.3 == r.0 - 1,
        r.2 == r.3 - 6,
{
    let d = ((from_sunday as u64 + 6) % 7) as i64;
    let monday = 0 - d;
    (monday, monday + 6, monday - 7, monday - 1)
}

/// What the local time zone makes of a wall-clock time: one instant, two
/// (a clock set back; earliest first), or none (a clock set forward).
pub enum LocalInstant {
    Single(i64),
    Ambiguous(i64, i64),
    Missing,
}

/// The timestamp of a local wall-clock time, without failing on daylight
/// saving changes: an ambiguous time takes its earliest instant, and a time
/// that does not exist locally is read as UTC (`utc`).
pub fn local_timestamp(local: LocalInstant, utc: i64) -> (r: i64)
    ensures
        r == match local {
            LocalInstant::Single(t) => t,
            LocalInstant::Ambiguous(earliest, _) => earliest,
            LocalInstant::Missing => utc,
        },
{
    match local {
        LocalInstant::Single(t) => t,
        LocalInstant::Ambiguous(earliest, _) => earliest,
        LocalInstant::Missing => utc,
    }
}

} // verus!
