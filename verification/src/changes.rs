//! What an ingest changed in the stored library, row by row: which crate and
//! track rows are gone, which are new, and which were changed in place, so
//! that exactly those rows are written back.

use vstd::prelude::*;
use crate::library::{CrateRow, CrateView, Library, LibraryView, TrackRow, TrackView, crates_view, opt_view, tracks_view};

verus! {

/// Position of the first crate row with id `id`, or -1.
pub open spec fn crate_id_pos(cs: Seq<CrateView>, id: i64) -> int
    decreases cs.len(),
{
    if cs.len() == 0 {
        -1
    } else {
        let r = crate_id_pos(cs.drop_last(), id);
        if r >= 0 {
            r
        } else if cs.last().id == id {
            cs.len() - 1
        } else {
            -1
        }
    }
}

/// Position of the first track row with id `id`, or -1.
pub open spec fn track_id_pos(ts: Seq<TrackView>, id: i64) -> int
    decreases ts.len(),
{
    if ts.len() == 0 {
        -1
    } else {
        let r = track_id_pos(ts.drop_last(), id);
        if r >= 0 {
            r
        } else if ts.last().id == id {
            ts.len() - 1
        } else {
            -1
        }
    }
}

/// The ids, among the first `n` crate rows of `before`, that `after` no
/// longer has, in order.
pub open spec fn gone_crates(before: Seq<CrateView>, after: Seq<CrateView>, n: int) -> Seq<i64>
    decreases n,
{
    if n <= 0 {
        Seq::empty()
    } else {
        let prev = gone_crates(before, after, n - 1);
        if crate_id_pos(after, before[n - 1].id) < 0 {
            prev.push(before[n - 1].id)
        } else {
            prev
        }
    }
}

/// The positions, among the first `n` crate rows of `after`, of rows whose id
/// `before` does not have (`fresh`), or whose row there differs (`!fresh`).
pub open spec fn touched_crates(before: Seq<CrateView>, after: Seq<CrateView>, n: int, fresh: bool) -> Seq<usize>
    decreases n,
{
    if n <= 0 {
        Seq::empty()
    } else {
        let prev = touched_crates(before, after, n - 1, fresh);
        let p = crate_id_pos(before, after[n - 1].id);
        if (fresh && p < 0) || (!fresh && p >= 0 && before[p] != after[n - 1]) {
            prev.push((n - 1) as usize)
        } else {
            prev
        }
    }
}

pub open spec fn gone_tracks(before: Seq<TrackView>, after: Seq<TrackView>, n: int) -> Seq<i64>
    decreases n,
{
    if n <= 0 {
        Seq::empty()
    } else {
        let prev = gone_tracks(before, after, n - 1);
        if track_id_pos(after, before[n - 1].id) < 0 {
            prev.push(before[n - 1].id)
        } else {
            prev
        }
    }
}

pub open spec fn touched_tracks(before: Seq<TrackView>, after: Seq<TrackView>, n: int, fresh: bool) -> Seq<usize>
    decreases n,
{
    if n <= 0 {
        Seq::empty()
    } else {
        let prev = touched_tracks(before, after, n - 1, fresh);
        let p = track_id_pos(before, after[n - 1].id);
        if (fresh && p < 0) || (!fresh && p >= 0 && before[p] != after[n - 1]) {
            prev.push((n - 1) as usize)
        } else {
            prev
        }
    }
}

/// The rows to write back after an ingest: ids of deleted rows, and
/// positions (in the new library) of inserted and of updated rows.
pub struct LibraryChanges {
    pub deleted_crates: Vec<i64>,
    pub inserted_crates: Vec<usize>,
    pub updated_crates: Vec<usize>,
    pub deleted_tracks: Vec<i64>,
    pub inserted_tracks: Vec<usize>,
    pub updated_tracks: Vec<usize>,
}

/// The changes from `before` to `after`.
pub open spec fn changes_match(before: LibraryView, after: LibraryView, c: LibraryChanges) -> bool {
    let bc = before.crates;
    let ac = after.crates;
    let bt = before.tracks;
    let at = after.tracks;
    &&& c.deleted_crates@ == gone_crates(bc, ac, bc.len() as int)
    &&& c.inserted_crates@ == touched_crates(bc, ac, ac.len() as int, true)
    &&& c.updated_crates@ == touched_crates(bc, ac, ac.len() as int, false)
    &&& c.deleted_tracks@ == gone_tracks(bt, at, bt.len() as int)
    &&& c.inserted_tracks@ == touched_tracks(bt, at, at.len() as int, true)
    &&& c.updated_tracks@ == touched_tracks(bt, at, at.len() as int, false)
}

fn find_crate_id(cs: &Vec<CrateRow>, id: i64) -> (r: Option<usize>)
    ensures
        match r {
            Some(p) => p < cs@.len() && crate_id_pos(crates_view(cs@), id) == p,
            None => crate_id_pos(crates_view(cs@), id) == -1,
        },
{
    let ghost cv = crates_view(cs@);
    let mut k: usize = 0;
    while k < cs.len()
        invariant
            k <= cs@.len(),
            cv == crates_view(cs@),
            forall|j: int| 0 <= j < k ==> #[trigger] cv[j].id != id,
        decreases cs@.len() - k,
    {
        if cs[k].id == id {
            proof {
                lemma_crate_id_pos_is(cv, id, k as int);
            }
            return Some(k);
        }
        k = k + 1;
    }
    proof {
        lemma_crate_id_pos_is(cv, id, -1);
    }
    None
}

proof fn lemma_crate_id_pos_is(cs: Seq<CrateView>, id: i64, p: int)
    requires
        -1 <= p < cs.len(),
        p >= 0 ==> cs[p].id == id,
        forall|j: int| 0 <= j < cs.len() && (p < 0 || j < p) ==> #[trigger] cs[j].id != id,
    ensures
        crate_id_pos(cs, id) == p,
    decreases cs.len(),
{
    if cs.len() > 0 {
        let t = cs.drop_last();
        if p < 0 || p < cs.len() - 1 {
            assert forall|j: int| 0 <= j < t.len() && (p < 0 || j < p) implies #[trigger] t[j].id != id by {
                assert(t[j] == cs[j]);
            }
            lemma_crate_id_pos_is(t, id, p);
        } else {
            assert forall|j: int| 0 <= j < t.len() implies #[trigger] t[j].id != id by {
                assert(t[j] == cs[j]);
            }
            lemma_crate_id_pos_is(t, id, -1);
        }
    }
}

fn find_track_id(ts: &Vec<TrackRow>, id: i64) -> (r: Option<usize>)
    ensures
        match r {
            Some(p) => p < ts@.len() && track_id_pos(tracks_view(ts@), id) == p,
            None => track_id_pos(tracks_view(ts@), id) == -1,
        },
{
    let ghost tv = tracks_view(ts@);
    let mut k: usize = 0;
    while k < ts.len()
        invariant
            k <= ts@.len(),
            tv == tracks_view(ts@),
            forall|j: int| 0 <= j < k ==> #[trigger] tv[j].id != id,
        decreases ts@.len() - k,
    {
        if ts[k].id == id {
            proof {
                lemma_track_id_pos_is(tv, id, k as int);
            }
            return Some(k);
        }
        k = k + 1;
    }
    proof {
        lemma_track_id_pos_is(tv, id, -1);
    }
    None
}

proof fn lemma_track_id_pos_is(ts: Seq<TrackView>, id: i64, p: int)
    requires
        -1 <= p < ts.len(),
        p >= 0 ==> ts[p].id == id,
        forall|j: int| 0 <= j < ts.len() && (p < 0 || j < p) ==> #[trigger] ts[j].id != id,
    ensures
        track_id_pos(ts, id) == p,
    decreases ts.len(),
{
    if ts.len() > 0 {
        let t = ts.drop_last();
        if p < 0 || p < ts.len() - 1 {
            assert forall|j: int| 0 <= j < t.len() && (p < 0 || j < p) implies #[trigger] t[j].id != id by {
                assert(t[j] == ts[j]);
            }
            lemma_track_id_pos_is(t, id, p);
        } else {
            assert forall|j: int| 0 <= j < t.len() implies #[trigger] t[j].id != id by {
                assert(t[j] == ts[j]);
            }
            lemma_track_id_pos_is(t, id, -1);
        }
    }
}

fn same_opt_string(a: &Option<String>, b: &Option<String>) -> (r: bool)
    ensures
        r == (opt_view(*a) == opt_view(*b)),
{
    match (a, b) {
        (Some(x), Some(y)) => *x == *y,
        (None, None) => true,
        _ => false,
    }
}

fn same_crate_row(a: &CrateRow, b: &CrateRow) -> (r: bool)
    ensures
        r == (a@ == b@),
{
    a.id == b.id && a.name == b.name && a.folder == b.folder && same_opt_string(&a.cover_path, &b.cover_path)
        && a.emptied_since == b.emptied_since
}

fn same_track_row(a: &TrackRow, b: &TrackRow) -> (r: bool)
    ensures
        r == (a@ == b@),
{
    a.id == b.id && a.crate_id == b.crate_id && a.filename == b.filename && a.title == b.title && a.track_num
        == b.track_num && a.sort_order == b.sort_order && a.has_duration == b.has_duration && a.file_mtime
        == b.file_mtime && a.file_size == b.file_size && a.missing_since == b.missing_since
}

/// The rows to write back to turn the stored `before` into `after`.
pub fn library_changes(before: &Library, after: &Library) -> (r: LibraryChanges)
    ensures
        changes_match(before@, after@, r),
{
    let ghost bc = crates_view(before.crates@);
    let ghost ac = crates_view(after.crates@);
    let ghost bt = tracks_view(before.tracks@);
    let ghost at = tracks_view(after.tracks@);

    let mut deleted_crates: Vec<i64> = Vec::new();
    let mut i: usize = 0;
    while i < before.crates.len()
        invariant
            i <= before.crates@.len(),
            bc == crates_view(before.crates@),
            ac == crates_view(after.crates@),
            deleted_crates@ == gone_crates(bc, ac, i as int),
        decreases before.crates@.len() - i,
    {
        assert(bc[i as int] == before.crates@[i as int]@);
        if find_crate_id(&after.crates, before.crates[i].id).is_none() {
            deleted_crates.push(before.crates[i].id);
        }
        i = i + 1;
    }

    let mut inserted_crates: Vec<usize> = Vec::new();
    let mut updated_crates: Vec<usize> = Vec::new();
    let mut i: usize = 0;
    while i < after.crates.len()
        invariant
            i <= after.crates@.len(),
            bc == crates_view(before.crates@),
            ac == crates_view(after.crates@),
            inserted_crates@ == touched_crates(bc, ac, i as int, true),
            updated_crates@ == touched_crates(bc, ac, i as int, false),
        decreases after.crates@.len() - i,
    {
        assert(ac[i as int] == after.crates@[i as int]@);
        match find_crate_id(&before.crates, after.crates[i].id) {
            None => inserted_crates.push(i),
            Some(p) => {
                assert(bc[p as int] == before.crates@[p as int]@);
                if !same_crate_row(&before.crates[p], &after.crates[i]) {
                    updated_crates.push(i);
                }
            },
        }
        i = i + 1;
    }

    let mut deleted_tracks: Vec<i64> = Vec::new();
    let mut j: usize = 0;
    while j < before.tracks.len()
        invariant
            j <= before.tracks@.len(),
            bt == tracks_view(before.tracks@),
            at == tracks_view(after.tracks@),
            deleted_tracks@ == gone_tracks(bt, at, j as int),
        decreases before.tracks@.len() - j,
    {
        assert(bt[j as int] == before.tracks@[j as int]@);
        if find_track_id(&after.tracks, before.tracks[j].id).is_none() {
            deleted_tracks.push(before.tracks[j].id);
        }
        j = j + 1;
    }

    let mut inserted_tracks: Vec<usize> = Vec::new();
    let mut updated_tracks: Vec<usize> = Vec::new();
    let mut j: usize = 0;
    while j < after.tracks.len()
        invariant
            j <= after.tracks@.len(),
            bt == tracks_view(before.tracks@),
            at == tracks_view(after.tracks@),
            inserted_tracks@ == touched_tracks(bt, at, j as int, true),
            updated_tracks@ == touched_tracks(bt, at, j as int, false),
        decreases after.tracks@.len() - j,
    {
        assert(at[j as int] == after.tracks@[j as int]@);
        match find_track_id(&before.tracks, after.tracks[j].id) {
            None => inserted_tracks.push(j),
            Some(p) => {
                assert(bt[p as int] == before.tracks@[p as int]@);
                if !same_track_row(&before.tracks[p], &after.tracks[j]) {
                    updated_tracks.push(j);
                }
            },
        }
        j = j + 1;
    }

    LibraryChanges { deleted_crates, inserted_crates, updated_crates, deleted_tracks, inserted_tracks, updated_tracks }
}

} // verus!
