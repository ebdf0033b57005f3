//! What the library promises across its operations, stated over the models
//! the operations' contracts use and proved from them.

use vstd::prelude::*;
use crate::als::{active_track_count_spec, als_meta_spec, dedup, missing_paths, orphans_spec};
use crate::commands::{days_since_monday_spec, decimal_spec, digit_char, first_of_kind, int_text};
use crate::profile::{avatar_check_spec, bytes_match_format_spec, MAX_AVATAR_BYTES};
use crate::scan::{empty_folders, nonempty_scans};
use crate::title::{CharClass, count_while_spec, in_class, lemma_count_while_char};
use crate::text::{all_digits, digits_value, is_ascii_digit, parse_i64_spec};
use crate::xml::{XmlNodeView, chain_spec, elem_named, value_of};
use crate::library::{
    LibraryView, ScanView, TrackView, apply_rename, created_by_move, created_earlier, fp_lt, moved_into_earlier,
    moves_into_with, crate_has_tracks, crate_pos, fresh_file, is_new_scan,
    is_orphan, meta_fp, missing_track, move_of, move_target_id, moved_to, moves_spec, rename_match,
    rename_target, renamed_to, renames_spec, same_crate_files, same_files, track_fp, track_fp_known,
    CrateView, PRUNE_GRACE_SECS, crate_after_prune, crate_ids_unique, crate_pruned, kept_crates, prune_spec,
    track_cascaded, tracks_surviving, content_changed, file_pos, ingest_crate_spec, inserted_tracks,
    invalidated_ids, kept_tracks, lemma_file_pos, lemma_new_before_bounds, lemma_track_pos, new_track_for,
    refresh_track, scan_files_distinct, scan_wf, track_after, track_pos, upsert_id,
    duration_read_needed, lemma_crate_pos, lemma_crate_pos_char, lemma_file_pos_char, meta_known,
    new_before, created_crates, created_before, crate_has_file, folder_known, lemma_track_pos_char,
    new_crate_for, first_move_fp, lemma_first_moves_order, new_crate_id,
};

verus! {

// ── folder renames ──────────────────────────────────────────────────────────

/// A crate whose folder disappeared, when exactly one new folder holds the
/// same files (and no other vanished crate holds them too), is renamed in
/// place: same id and every track row unchanged, so all that hangs off them
/// (producer, status, notes, tags, favorites, plays) survives; only the
/// folder, name and cover change.
pub proof fn law_rename_preserves_identity(lib: LibraryView, scans: Seq<ScanView>, i: int, k: int)
    requires
        rename_match(lib, scans, i, k),
        forall|k2: int| 0 <= k2 < scans.len() && #[trigger] rename_match(lib, scans, i, k2) ==> k2 == k,
        forall|i2: int|
            0 <= i2 < lib.crates.len() && i2 != i && #[trigger] is_orphan(lib, scans, i2) && crate_has_tracks(
                lib.tracks,
                lib.crates[i2].id,
            ) ==> !same_crate_files(lib.tracks, lib.crates[i2].id, lib.crates[i].id),
    ensures
        renames_spec(lib, scans).crates.len() == lib.crates.len(),
        renames_spec(lib, scans).crates[i] == apply_rename(lib.crates[i], scans[k]),
        renames_spec(lib, scans).crates[i].id == lib.crates[i].id,
        renames_spec(lib, scans).crates[i].folder == scans[k].folder,
        renames_spec(lib, scans).tracks == lib.tracks,
{
    assert(renamed_to(lib, scans, i, k));
    let k2 = choose|k2: int| renamed_to(lib, scans, i, k2);
    assert(rename_match(lib, scans, i, k2));
}

/// A crate that no new folder matches by content is left exactly as it is:
/// a folder with different files is never taken for a rename.
pub proof fn law_distinct_content_is_not_a_rename(lib: LibraryView, scans: Seq<ScanView>, i: int)
    requires
        0 <= i < lib.crates.len(),
        forall|k: int| 0 <= k < scans.len() ==> !#[trigger] rename_match(lib, scans, i, k),
    ensures
        renames_spec(lib, scans).crates[i] == lib.crates[i],
{
    assert(!exists|k: int| renamed_to(lib, scans, i, k));
}

/// Two vanished crates holding the same files are an ambiguous rename: neither
/// takes a new folder, whatever folders are on disk (the new folder then gets
/// a fresh crate).
pub proof fn law_ambiguous_orphans_are_not_renamed(lib: LibraryView, scans: Seq<ScanView>, i: int, i2: int)
    requires
        0 <= i < lib.crates.len(),
        0 <= i2 < lib.crates.len(),
        i != i2,
        is_orphan(lib, scans, i),
        is_orphan(lib, scans, i2),
        crate_has_tracks(lib.tracks, lib.crates[i].id),
        crate_has_tracks(lib.tracks, lib.crates[i2].id),
        same_crate_files(lib.tracks, lib.crates[i2].id, lib.crates[i].id),
    ensures
        renames_spec(lib, scans).crates[i] == lib.crates[i],
        renames_spec(lib, scans).crates[i2] == lib.crates[i2],
{
    assert(same_crate_files(lib.tracks, lib.crates[i].id, lib.crates[i2].id));
    assert(!exists|k: int| renamed_to(lib, scans, i, k));
    assert(!exists|k: int| renamed_to(lib, scans, i2, k));
}

/// Renames never touch track rows nor any crate's id, and every crate is
/// either unchanged or has taken a new folder holding exactly its files.
pub proof fn law_renames_keep_ids_and_tracks(lib: LibraryView, scans: Seq<ScanView>, i: int)
    requires
        0 <= i < lib.crates.len(),
    ensures
        renames_spec(lib, scans).tracks == lib.tracks,
        renames_spec(lib, scans).crates.len() == lib.crates.len(),
        renames_spec(lib, scans).crates[i].id == lib.crates[i].id,
        renames_spec(lib, scans).crates[i] == lib.crates[i] || exists|k: int|
            0 <= k < scans.len() && is_new_scan(lib, scans, k) && same_files(lib.tracks, lib.crates[i].id, scans[k].files)
                && #[trigger] renames_spec(lib, scans).crates[i] == apply_rename(lib.crates[i], scans[k]),
{
    match rename_target(lib, scans, i) {
        Some(k) => {
            assert(renamed_to(lib, scans, i, k));
        },
        None => {},
    }
}

/// No folder is scanned twice (a directory listing).
pub open spec fn scan_folders_distinct(scans: Seq<ScanView>) -> bool {
    forall|a: int, b: int|
        0 <= a < scans.len() && 0 <= b < scans.len() && a != b ==> #[trigger] scans[a].folder != #[trigger] scans[b].folder
}

/// After a folder rename, the ingest of the new folder lands in the renamed
/// crate: it is the crate found by the new folder, under its old id, so its
/// tracks are refreshed rather than stamped missing and re-created.
pub proof fn law_renamed_folder_is_ingested_into_its_crate(lib: LibraryView, scans: Seq<ScanView>, i: int, k: int)
    requires
        scan_folders_distinct(scans),
        rename_match(lib, scans, i, k),
        forall|k2: int| 0 <= k2 < scans.len() && #[trigger] rename_match(lib, scans, i, k2) ==> k2 == k,
        forall|i2: int|
            0 <= i2 < lib.crates.len() && i2 != i && #[trigger] is_orphan(lib, scans, i2) && crate_has_tracks(
                lib.tracks,
                lib.crates[i2].id,
            ) ==> !same_crate_files(lib.tracks, lib.crates[i2].id, lib.crates[i].id),
    ensures
        upsert_id(renames_spec(lib, scans), scans[k]) == lib.crates[i].id,
{
    let r = renames_spec(lib, scans);
    let f = scans[k].folder;
    law_rename_preserves_identity(lib, scans, i, k);
    assert forall|j: int| 0 <= j < r.crates.len() && (i < 0 || j < i) implies #[trigger] r.crates[j].folder != f by {
        match rename_target(lib, scans, j) {
            Some(k2) => {
                assert(renamed_to(lib, scans, j, k2));
                if r.crates[j].folder == f {
                    assert(scans[k2].folder == f);
                    assert(k2 == k);
                    assert forall|x: Seq<char>| #[trigger] crate_has_file(lib.tracks, lib.crates[j].id, x)
                        <==> crate_has_file(lib.tracks, lib.crates[i].id, x) by {
                        assert(same_files(lib.tracks, lib.crates[j].id, scans[k].files));
                        assert(same_files(lib.tracks, lib.crates[i].id, scans[k].files));
                    }
                    assert(same_crate_files(lib.tracks, lib.crates[j].id, lib.crates[i].id));
                }
            },
            None => {
                assert(r.crates[j] == lib.crates[j]);
                if lib.crates[j].folder == f {
                    assert(folder_known(lib.crates, f));
                }
            },
        }
    }
    lemma_crate_pos_char(r.crates, f, i);
}

// ── file renames and moves ──────────────────────────────────────────────────

/// A track row without a recorded fingerprint is never re-attached to another
/// file (nothing identifies its content).
pub proof fn law_null_fingerprint_never_pairs(
    lib: LibraryView,
    scans: Seq<ScanView>,
    empties: Seq<Seq<char>>,
    now: i64,
    j: int,
)
    requires
        0 <= j < lib.tracks.len(),
        !track_fp_known(lib.tracks[j]),
    ensures
        moves_spec(lib, scans, empties, now).tracks[j] == lib.tracks[j],
{
    assert(!exists|kf: (int, int)| moved_to(lib, scans, empties, now, j, kf.0, kf.1));
}

/// When two missing rows share a fingerprint, neither is re-attached: the
/// ambiguity is left alone.
pub proof fn law_ambiguous_missing_rows_do_not_pair(
    lib: LibraryView,
    scans: Seq<ScanView>,
    empties: Seq<Seq<char>>,
    now: i64,
    j: int,
    j2: int,
)
    requires
        0 <= j < lib.tracks.len(),
        j2 != j,
        missing_track(lib, scans, empties, now, j2),
        track_fp(lib.tracks[j2]) == track_fp(lib.tracks[j]),
    ensures
        moves_spec(lib, scans, empties, now).tracks[j] == lib.tracks[j],
{
    assert forall|kf: (int, int)| !moved_to(lib, scans, empties, now, j, kf.0, kf.1) by {
        if moved_to(lib, scans, empties, now, j, kf.0, kf.1) {
            assert(missing_track(lib, scans, empties, now, j2));
        }
    }
}

/// When two new files share a missing row's fingerprint, the row is not
/// re-attached to either.
pub proof fn law_ambiguous_new_files_do_not_pair(
    lib: LibraryView,
    scans: Seq<ScanView>,
    empties: Seq<Seq<char>>,
    now: i64,
    j: int,
    k1: int,
    f1: int,
    k2: int,
    f2: int,
)
    requires
        0 <= j < lib.tracks.len(),
        (k1, f1) != (k2, f2),
        fresh_file(lib, scans, k1, f1),
        fresh_file(lib, scans, k2, f2),
        meta_fp(scans[k1].meta[f1]) == track_fp(lib.tracks[j]),
        meta_fp(scans[k2].meta[f2]) == track_fp(lib.tracks[j]),
    ensures
        moves_spec(lib, scans, empties, now).tracks[j] == lib.tracks[j],
{
    assert forall|kf: (int, int)| !moved_to(lib, scans, empties, now, j, kf.0, kf.1) by {
        if moved_to(lib, scans, empties, now, j, kf.0, kf.1) {
            assert(fresh_file(lib, scans, k1, f1));
            assert(fresh_file(lib, scans, k2, f2));
        }
    }
}

/// A missing row re-attached to a file renamed within its own folder keeps
/// its id, crate, position and everything else; only the file name and title
/// follow the new name, and it is no longer missing.
pub proof fn law_file_rename_keeps_row(
    lib: LibraryView,
    scans: Seq<ScanView>,
    empties: Seq<Seq<char>>,
    now: i64,
    j: int,
    k: int,
    fi: int,
)
    requires
        moved_to(lib, scans, empties, now, j, k, fi),
        crate_pos(lib.crates, scans[k].folder) >= 0,
        lib.crates[crate_pos(lib.crates, scans[k].folder)].id == lib.tracks[j].crate_id,
    ensures
        moves_spec(lib, scans, empties, now).tracks[j] == (TrackView {
            filename: scans[k].files[fi],
            title: crate::title::title_spec(scans[k].files[fi]),
            missing_since: None,
            ..lib.tracks[j]
        }),
{
    lemma_move_of_is(lib, scans, empties, now, j, k, fi);
}

/// A missing row re-attached to a file in another crate's folder keeps its
/// id (and so its notes, tags and plays), is re-parented to that crate, and
/// lands at the bottom of it like a new file (no sort order).
pub proof fn law_cross_crate_move_keeps_row(
    lib: LibraryView,
    scans: Seq<ScanView>,
    empties: Seq<Seq<char>>,
    now: i64,
    j: int,
    k: int,
    fi: int,
)
    requires
        moved_to(lib, scans, empties, now, j, k, fi),
        move_target_id(lib, scans, empties, now, k) != lib.tracks[j].crate_id,
    ensures
        moves_spec(lib, scans, empties, now).tracks[j].id == lib.tracks[j].id,
        moves_spec(lib, scans, empties, now).tracks[j].crate_id == move_target_id(lib, scans, empties, now, k),
        moves_spec(lib, scans, empties, now).tracks[j].filename == scans[k].files[fi],
        moves_spec(lib, scans, empties, now).tracks[j].sort_order is None,
        moves_spec(lib, scans, empties, now).tracks[j].missing_since is None,
        moves_spec(lib, scans, empties, now).tracks[j].has_duration == lib.tracks[j].has_duration,
{
    lemma_move_of_is(lib, scans, empties, now, j, k, fi);
}

/// Re-attaching renamed and moved files never inserts or deletes a track row
/// and never touches a row's id, duration or fingerprint: a row either stays
/// exactly as it was or only follows its file (name and title, the missing
/// stamp cleared, and on a move to another crate that crate, a track number
/// and no sort order). Crates are only ever added, never changed or removed.
pub proof fn law_moves_only_repoint_rows(
    lib: LibraryView,
    scans: Seq<ScanView>,
    empties: Seq<Seq<char>>,
    now: i64,
    j: int,
)
    requires
        0 <= j < lib.tracks.len(),
    ensures
        ({
            let r = moves_spec(lib, scans, empties, now);
            let t = lib.tracks[j];
            let u = r.tracks[j];
            &&& r.tracks.len() == lib.tracks.len()
            &&& r.crates.len() >= lib.crates.len()
            &&& r.crates.subrange(0, lib.crates.len() as int) == lib.crates
            &&& r.next_track_id == lib.next_track_id
            &&& u.id == t.id
            &&& u.has_duration == t.has_duration
            &&& u.file_mtime == t.file_mtime
            &&& u.file_size == t.file_size
            &&& (u == t || (u.missing_since is None && (u.crate_id == t.crate_id ==> u.track_num == t.track_num
                && u.sort_order == t.sort_order)))
        }),
{
    let r = moves_spec(lib, scans, empties, now);
    assert(r.crates.subrange(0, lib.crates.len() as int) =~= lib.crates);
}

proof fn lemma_created_earlier_ordered(
    lib: LibraryView,
    scans: Seq<ScanView>,
    empties: Seq<Seq<char>>,
    now: i64,
    k1: int,
    k2: int,
    m: int,
)
    requires
        0 <= m,
        created_by_move(lib, scans, empties, now, k1),
        moved_into_earlier(lib, scans, empties, now, k1, k2),
    ensures
        created_earlier(lib, scans, empties, now, k1, m) + (if k1 < m { 1int } else { 0int })
            <= created_earlier(lib, scans, empties, now, k2, m),
    decreases m,
{
    if m > 0 {
        lemma_created_earlier_ordered(lib, scans, empties, now, k1, k2, m - 1);
        let e = m - 1;
        if moved_into_earlier(lib, scans, empties, now, e, k1) {
            let fe = choose|fp: (i64, i64)|
                #[trigger] moves_into_with(lib, scans, empties, now, e, fp) && forall|fp2: (i64, i64)|
                    #[trigger] moves_into_with(lib, scans, empties, now, k1, fp2) ==> fp_lt(fp, fp2);
            let f1 = choose|fp: (i64, i64)|
                #[trigger] moves_into_with(lib, scans, empties, now, k1, fp) && forall|fp2: (i64, i64)|
                    #[trigger] moves_into_with(lib, scans, empties, now, k2, fp2) ==> fp_lt(fp, fp2);
            assert(fp_lt(fe, f1));
            assert forall|fp2: (i64, i64)| #[trigger] moves_into_with(lib, scans, empties, now, k2, fp2) implies fp_lt(fe, fp2) by {
                assert(fp_lt(f1, fp2));
            }
            assert(moved_into_earlier(lib, scans, empties, now, e, k2));
            if e == k1 {
                assert(fp_lt(fe, fe));
            }
        }
    }
}

/// A move into a folder that has no crate yet creates its crate when it is
/// applied, and moves are applied in fingerprint order: when a move into
/// folder `k1` comes before every move into folder `k2`, `k1`'s new crate gets
/// the smaller id, whatever the order of the folders on disk.
pub proof fn law_moves_create_crates_in_fingerprint_order(
    lib: LibraryView,
    scans: Seq<ScanView>,
    empties: Seq<Seq<char>>,
    now: i64,
    j1: int,
    k1: int,
    fi1: int,
    k2: int,
)
    requires
        lib.next_crate_id + scans.len() <= i64::MAX,
        0 <= k2 < scans.len(),
        moved_to(lib, scans, empties, now, j1, k1, fi1),
        crate_pos(lib.crates, scans[k1].folder) < 0,
        crate_pos(lib.crates, scans[k2].folder) < 0,
        forall|j: int, fi: int|
            #[trigger] moved_to(lib, scans, empties, now, j, k2, fi) ==> fp_lt(
                track_fp(lib.tracks[j1]),
                track_fp(lib.tracks[j]),
            ),
    ensures
        move_target_id(lib, scans, empties, now, k1) < move_target_id(lib, scans, empties, now, k2),
{
    let n = scans.len() as int;
    assert(created_by_move(lib, scans, empties, now, k1));
    let f1 = track_fp(lib.tracks[j1]);
    assert(moves_into_with(lib, scans, empties, now, k1, f1));
    assert forall|fp2: (i64, i64)| #[trigger] moves_into_with(lib, scans, empties, now, k2, fp2) implies fp_lt(f1, fp2) by {
        let (j, fi) = choose|j: int, fi: int| #[trigger] moved_to(lib, scans, empties, now, j, k2, fi) && track_fp(lib.tracks[j]) == fp2;
    }
    assert(moved_into_earlier(lib, scans, empties, now, k1, k2));
    assert(fresh_file(lib, scans, k1, fi1));
    lemma_created_earlier_ordered(lib, scans, empties, now, k1, k2, n);
    lemma_created_earlier_le(lib, scans, empties, now, k1, n);
    lemma_created_earlier_le(lib, scans, empties, now, k2, n);
}

proof fn lemma_created_earlier_le(
    lib: LibraryView,
    scans: Seq<ScanView>,
    empties: Seq<Seq<char>>,
    now: i64,
    k: int,
    m: int,
)
    requires
        0 <= m,
    ensures
        0 <= created_earlier(lib, scans, empties, now, k, m) <= m,
    decreases m,
{
    if m > 0 {
        lemma_created_earlier_le(lib, scans, empties, now, k, m - 1);
    }
}

proof fn lemma_move_of_is(
    lib: LibraryView,
    scans: Seq<ScanView>,
    empties: Seq<Seq<char>>,
    now: i64,
    j: int,
    k: int,
    fi: int,
)
    requires
        moved_to(lib, scans, empties, now, j, k, fi),
    ensures
        move_of(lib, scans, empties, now, j) == Some((k, fi)),
{
    assert(moved_to(lib, scans, empties, now, j, (k, fi).0, (k, fi).1));
    let kf = choose|kf: (int, int)| moved_to(lib, scans, empties, now, j, kf.0, kf.1);
    assert(moved_to(lib, scans, empties, now, j, kf.0, kf.1));
    assert(fresh_file(lib, scans, kf.0, kf.1));
}

// ── emptied crate folders ───────────────────────────────────────────────────

proof fn lemma_kept_crates_unchanged(cs: Seq<CrateView>, empties: Seq<Seq<char>>, now: i64, n: int)
    requires
        0 <= n <= cs.len(),
        forall|i: int| 0 <= i < n ==> !empties.contains(#[trigger] cs[i].folder),
    ensures
        kept_crates(cs, empties, now, n) == cs.take(n),
    decreases n,
{
    if n > 0 {
        lemma_kept_crates_unchanged(cs, empties, now, n - 1);
        assert(cs.take(n) =~= cs.take(n - 1).push(cs[n - 1]));
    }
}

proof fn lemma_tracks_surviving_all(lib: LibraryView, empties: Seq<Seq<char>>, now: i64, n: int)
    requires
        0 <= n <= lib.tracks.len(),
        forall|c: int| 0 <= c < lib.crates.len() ==> !empties.contains(#[trigger] lib.crates[c].folder),
    ensures
        tracks_surviving(lib, empties, now, n) == lib.tracks.take(n),
    decreases n,
{
    if n > 0 {
        lemma_tracks_surviving_all(lib, empties, now, n - 1);
        assert(!track_cascaded(lib, lib.tracks[n - 1], empties, now)) by {
            if track_cascaded(lib, lib.tracks[n - 1], empties, now) {
                let c = choose|c: int|
                    0 <= c < lib.crates.len() && #[trigger] crate_pruned(lib.crates[c], empties, now)
                        && lib.crates[c].id == lib.tracks[n - 1].crate_id;
                assert(!empties.contains(lib.crates[c].folder));
            }
        }
        assert(lib.tracks.take(n) =~= lib.tracks.take(n - 1).push(lib.tracks[n - 1]));
    }
}

/// Folders on disk without audio that no crate has (such as a brand-new empty
/// folder) change nothing: an empty folder never becomes a crate.
pub proof fn law_empty_folder_creates_no_crate(lib: LibraryView, empties: Seq<Seq<char>>, now: i64)
    requires
        forall|c: int| 0 <= c < lib.crates.len() ==> !empties.contains(#[trigger] lib.crates[c].folder),
    ensures
        prune_spec(lib, empties, now) == lib,
{
    lemma_kept_crates_unchanged(lib.crates, empties, now, lib.crates.len() as int);
    lemma_tracks_surviving_all(lib, empties, now, lib.tracks.len() as int);
    assert(lib.crates.take(lib.crates.len() as int) =~= lib.crates);
    assert(lib.tracks.take(lib.tracks.len() as int) =~= lib.tracks);
}

proof fn lemma_kept_crates_has(cs: Seq<CrateView>, empties: Seq<Seq<char>>, now: i64, n: int, i: int)
    requires
        0 <= i < n <= cs.len(),
        crate_after_prune(cs[i], empties, now) is Some,
    ensures
        kept_crates(cs, empties, now, n).contains(crate_after_prune(cs[i], empties, now)->0),
    decreases n,
{
    let prev = kept_crates(cs, empties, now, n - 1);
    if i < n - 1 {
        lemma_kept_crates_has(cs, empties, now, n - 1, i);
        match crate_after_prune(cs[n - 1], empties, now) {
            Some(c) => {
                let w = choose|w: int| 0 <= w < prev.len() && prev[w] == crate_after_prune(cs[i], empties, now)->0;
                assert(prev.push(c)[w] == prev[w]);
            },
            None => {},
        }
    } else {
        assert(prev.push(crate_after_prune(cs[i], empties, now)->0).last() == crate_after_prune(cs[i], empties, now)->0);
    }
}

proof fn lemma_kept_crates_from(cs: Seq<CrateView>, empties: Seq<Seq<char>>, now: i64, n: int, w: int)
    requires
        0 <= n <= cs.len(),
        0 <= w < kept_crates(cs, empties, now, n).len(),
    ensures
        exists|i: int|
            0 <= i < n && #[trigger] crate_after_prune(cs[i], empties, now) == Some(
                kept_crates(cs, empties, now, n)[w],
            ),
    decreases n,
{
    let prev = kept_crates(cs, empties, now, n - 1);
    match crate_after_prune(cs[n - 1], empties, now) {
        Some(c) => {
            if w < prev.len() {
                lemma_kept_crates_from(cs, empties, now, n - 1, w);
                let i = choose|i: int| 0 <= i < n - 1 && #[trigger] crate_after_prune(cs[i], empties, now) == Some(prev[w]);
                assert(kept_crates(cs, empties, now, n)[w] == prev[w]);
                assert(crate_after_prune(cs[i], empties, now) == Some(kept_crates(cs, empties, now, n)[w]));
            } else {
                assert(crate_after_prune(cs[n - 1], empties, now) == Some(kept_crates(cs, empties, now, n)[w]));
            }
        },
        None => {
            lemma_kept_crates_from(cs, empties, now, n - 1, w);
        },
    }
}

proof fn lemma_tracks_surviving_from(lib: LibraryView, empties: Seq<Seq<char>>, now: i64, n: int, w: int)
    requires
        0 <= n <= lib.tracks.len(),
        0 <= w < tracks_surviving(lib, empties, now, n).len(),
    ensures
        !track_cascaded(lib, tracks_surviving(lib, empties, now, n)[w], empties, now),
    decreases n,
{
    let prev = tracks_surviving(lib, empties, now, n - 1);
    if !track_cascaded(lib, lib.tracks[n - 1], empties, now) && w == prev.len() {
    } else if !track_cascaded(lib, lib.tracks[n - 1], empties, now) {
        lemma_tracks_surviving_from(lib, empties, now, n - 1, w);
        assert(tracks_surviving(lib, empties, now, n)[w] == prev[w]);
    } else {
        lemma_tracks_surviving_from(lib, empties, now, n - 1, w);
    }
}

proof fn lemma_tracks_surviving_has(lib: LibraryView, empties: Seq<Seq<char>>, now: i64, n: int, j: int)
    requires
        0 <= j < n <= lib.tracks.len(),
        !track_cascaded(lib, lib.tracks[j], empties, now),
    ensures
        tracks_surviving(lib, empties, now, n).contains(lib.tracks[j]),
    decreases n,
{
    let prev = tracks_surviving(lib, empties, now, n - 1);
    if j < n - 1 {
        lemma_tracks_surviving_has(lib, empties, now, n - 1, j);
        if !track_cascaded(lib, lib.tracks[n - 1], empties, now) {
            let w = choose|w: int| 0 <= w < prev.len() && prev[w] == lib.tracks[j];
            assert(prev.push(lib.tracks[n - 1])[w] == prev[w]);
        }
    } else {
        assert(prev.push(lib.tracks[j]).last() == lib.tracks[j]);
    }
}

/// A crate whose folder has just been emptied is not deleted on the first
/// pass: it is stamped now and kept, with all its tracks.
pub proof fn law_emptied_crate_is_stamped_first(lib: LibraryView, empties: Seq<Seq<char>>, now: i64, i: int)
    requires
        0 <= i < lib.crates.len(),
        empties.contains(lib.crates[i].folder),
        lib.crates[i].emptied_since is None,
        crate_ids_unique(lib.crates),
    ensures
        prune_spec(lib, empties, now).crates.contains(CrateView { emptied_since: Some(now), ..lib.crates[i] }),
        forall|j: int|
            0 <= j < lib.tracks.len() && #[trigger] lib.tracks[j].crate_id == lib.crates[i].id
                ==> prune_spec(lib, empties, now).tracks.contains(lib.tracks[j]),
{
    lemma_kept_crates_has(lib.crates, empties, now, lib.crates.len() as int, i);
    assert forall|j: int|
        0 <= j < lib.tracks.len() && #[trigger] lib.tracks[j].crate_id == lib.crates[i].id implies prune_spec(
        lib,
        empties,
        now,
    ).tracks.contains(lib.tracks[j]) by {
        assert(!track_cascaded(lib, lib.tracks[j], empties, now)) by {
            if track_cascaded(lib, lib.tracks[j], empties, now) {
                let c = choose|c: int|
                    0 <= c < lib.crates.len() && #[trigger] crate_pruned(lib.crates[c], empties, now)
                        && lib.crates[c].id == lib.tracks[j].crate_id;
                assert(c == i);
            }
        }
        lemma_tracks_surviving_has(lib, empties, now, lib.tracks.len() as int, j);
    }
}

/// A crate still stamped emptied within the grace window is kept as it is;
/// one stamped at least the grace window ago is deleted, and all its tracks
/// go with it.
pub proof fn law_emptied_crate_is_deleted_after_grace(
    lib: LibraryView,
    empties: Seq<Seq<char>>,
    now: i64,
    i: int,
)
    requires
        0 <= i < lib.crates.len(),
        empties.contains(lib.crates[i].folder),
        lib.crates[i].emptied_since is Some,
        crate_ids_unique(lib.crates),
    ensures
        lib.crates[i].emptied_since->0 > now - PRUNE_GRACE_SECS ==> prune_spec(lib, empties, now).crates.contains(
            lib.crates[i],
        ),
        lib.crates[i].emptied_since->0 <= now - PRUNE_GRACE_SECS ==> {
            &&& forall|w: int|
                0 <= w < prune_spec(lib, empties, now).crates.len() ==> (#[trigger] prune_spec(
                    lib,
                    empties,
                    now,
                ).crates[w]).id != lib.crates[i].id
            &&& forall|w: int|
                0 <= w < prune_spec(lib, empties, now).tracks.len() ==> (#[trigger] prune_spec(
                    lib,
                    empties,
                    now,
                ).tracks[w]).crate_id != lib.crates[i].id
        },
{
    let ps = prune_spec(lib, empties, now);
    if lib.crates[i].emptied_since->0 > now - PRUNE_GRACE_SECS {
        lemma_kept_crates_has(lib.crates, empties, now, lib.crates.len() as int, i);
    } else {
        assert forall|w: int| 0 <= w < ps.crates.len() implies (#[trigger] ps.crates[w]).id != lib.crates[i].id by {
            lemma_kept_crates_from(lib.crates, empties, now, lib.crates.len() as int, w);
            let i2 = choose|i2: int|
                0 <= i2 < lib.crates.len() && #[trigger] crate_after_prune(lib.crates[i2], empties, now) == Some(
                    ps.crates[w],
                );
            if i2 != i {
                assert(lib.crates[i2].id != lib.crates[i].id);
            }
        }
        assert forall|w: int| 0 <= w < ps.tracks.len() implies (#[trigger] ps.tracks[w]).crate_id != lib.crates[i].id by {
            lemma_tracks_surviving_from(lib, empties, now, lib.tracks.len() as int, w);
            if ps.tracks[w].crate_id == lib.crates[i].id {
                assert(crate_pruned(lib.crates[i], empties, now));
            }
        }
    }
}

// ── ingest of one folder ────────────────────────────────────────────────────

/// No two track rows share an id.
pub open spec fn track_ids_unique(ts: Seq<TrackView>) -> bool {
    forall|a: int, b: int| 0 <= a < ts.len() && 0 <= b < ts.len() && a != b ==> #[trigger] ts[a].id != #[trigger] ts[b].id
}

/// No two track rows of one crate have the same file name (the `tracks`
/// table's `UNIQUE(crate_id, filename)`).
pub open spec fn track_files_unique(ts: Seq<TrackView>) -> bool {
    forall|a: int, b: int|
        0 <= a < ts.len() && 0 <= b < ts.len() && a != b && #[trigger] ts[a].crate_id == #[trigger] ts[b].crate_id
            ==> ts[a].filename != ts[b].filename
}

/// The ids the database has handed out lie below the next one.
pub open spec fn track_ids_below_next(lib: LibraryView) -> bool {
    forall|j: int| 0 <= j < lib.tracks.len() ==> (#[trigger] lib.tracks[j]).id < lib.next_track_id
}

proof fn lemma_track_after_keeps_id(lib: LibraryView, s: ScanView, read_ok: Seq<bool>, now: i64, j: int)
    requires
        track_after(lib, s, read_ok, now, j) is Some,
    ensures
        (track_after(lib, s, read_ok, now, j)->0).id == lib.tracks[j].id,
{
}

proof fn lemma_kept_tracks_has(lib: LibraryView, s: ScanView, read_ok: Seq<bool>, now: i64, n: int, j: int)
    requires
        0 <= j < n <= lib.tracks.len(),
        track_after(lib, s, read_ok, now, j) is Some,
    ensures
        kept_tracks(lib, s, read_ok, now, n).contains(track_after(lib, s, read_ok, now, j)->0),
    decreases n,
{
    let prev = kept_tracks(lib, s, read_ok, now, n - 1);
    let x = track_after(lib, s, read_ok, now, j)->0;
    if j < n - 1 {
        lemma_kept_tracks_has(lib, s, read_ok, now, n - 1, j);
        match track_after(lib, s, read_ok, now, n - 1) {
            Some(t) => {
                let w = choose|w: int| 0 <= w < prev.len() && prev[w] == x;
                assert(prev.push(t)[w] == prev[w]);
            },
            None => {},
        }
    } else {
        assert(prev.push(x).last() == x);
    }
}

proof fn lemma_kept_tracks_from(lib: LibraryView, s: ScanView, read_ok: Seq<bool>, now: i64, n: int, w: int)
    requires
        0 <= n <= lib.tracks.len(),
        0 <= w < kept_tracks(lib, s, read_ok, now, n).len(),
    ensures
        exists|j: int|
            0 <= j < n && #[trigger] track_after(lib, s, read_ok, now, j) == Some(
                kept_tracks(lib, s, read_ok, now, n)[w],
            ),
    decreases n,
{
    let prev = kept_tracks(lib, s, read_ok, now, n - 1);
    match track_after(lib, s, read_ok, now, n - 1) {
        Some(t) => {
            if w < prev.len() {
                lemma_kept_tracks_from(lib, s, read_ok, now, n - 1, w);
                let j = choose|j: int| 0 <= j < n - 1 && #[trigger] track_after(lib, s, read_ok, now, j) == Some(prev[w]);
                assert(kept_tracks(lib, s, read_ok, now, n)[w] == prev[w]);
                assert(track_after(lib, s, read_ok, now, j) == Some(kept_tracks(lib, s, read_ok, now, n)[w]));
            } else {
                assert(track_after(lib, s, read_ok, now, n - 1) == Some(kept_tracks(lib, s, read_ok, now, n)[w]));
            }
        },
        None => {
            lemma_kept_tracks_from(lib, s, read_ok, now, n - 1, w);
        },
    }
}

proof fn lemma_inserted_ids_fresh(lib: LibraryView, s: ScanView, read_ok: Seq<bool>, fi: int, w: int)
    requires
        0 <= fi,
        lib.next_track_id + fi <= i64::MAX,
        0 <= w < inserted_tracks(lib, s, read_ok, fi).len(),
    ensures
        inserted_tracks(lib, s, read_ok, fi)[w].id >= lib.next_track_id,
    decreases fi,
{
    let prev = inserted_tracks(lib, s, read_ok, fi - 1);
    if track_pos(lib.tracks, upsert_id(lib, s), s.files[fi - 1]) < 0 && w == prev.len() {
        lemma_new_before_bounds(lib, s, fi - 1);
        assert(inserted_tracks(lib, s, read_ok, fi)[w] == new_track_for(lib, s, read_ok, fi - 1));
    } else if track_pos(lib.tracks, upsert_id(lib, s), s.files[fi - 1]) < 0 {
        lemma_inserted_ids_fresh(lib, s, read_ok, fi - 1, w);
        assert(inserted_tracks(lib, s, read_ok, fi)[w] == prev[w]);
    } else {
        lemma_inserted_ids_fresh(lib, s, read_ok, fi - 1, w);
    }
}

proof fn lemma_invalidated_has(lib: LibraryView, s: ScanView, n: int, fi: int)
    requires
        0 <= fi < n,
        track_pos(lib.tracks, upsert_id(lib, s), s.files[fi]) >= 0,
        content_changed(lib.tracks[track_pos(lib.tracks, upsert_id(lib, s), s.files[fi])], s.meta[fi]),
    ensures
        invalidated_ids(lib, s, n).contains(lib.tracks[track_pos(lib.tracks, upsert_id(lib, s), s.files[fi])].id),
    decreases n,
{
    let prev = invalidated_ids(lib, s, n - 1);
    let id = lib.tracks[track_pos(lib.tracks, upsert_id(lib, s), s.files[fi])].id;
    if fi < n - 1 {
        lemma_invalidated_has(lib, s, n - 1, fi);
        let w = choose|w: int| 0 <= w < prev.len() && prev[w] == id;
        let j = track_pos(lib.tracks, upsert_id(lib, s), s.files[n - 1]);
        if j >= 0 && content_changed(lib.tracks[j], s.meta[n - 1]) {
            assert(prev.push(lib.tracks[j].id)[w] == prev[w]);
        }
    } else {
        assert(prev.push(id).last() == id);
    }
}

proof fn lemma_invalidated_from(lib: LibraryView, s: ScanView, n: int, w: int)
    requires
        0 <= n,
        0 <= w < invalidated_ids(lib, s, n).len(),
    ensures
        exists|fi: int|
            0 <= fi < n && #[trigger] track_pos(lib.tracks, upsert_id(lib, s), s.files[fi]) >= 0 && content_changed(
                lib.tracks[track_pos(lib.tracks, upsert_id(lib, s), s.files[fi])],
                s.meta[fi],
            ) && lib.tracks[track_pos(lib.tracks, upsert_id(lib, s), s.files[fi])].id == invalidated_ids(
                lib,
                s,
                n,
            )[w],
    decreases n,
{
    let prev = invalidated_ids(lib, s, n - 1);
    let j = track_pos(lib.tracks, upsert_id(lib, s), s.files[n - 1]);
    if j >= 0 && content_changed(lib.tracks[j], s.meta[n - 1]) && w == prev.len() {
        assert(track_pos(lib.tracks, upsert_id(lib, s), s.files[n - 1]) >= 0);
    } else {
        lemma_invalidated_from(lib, s, n - 1, w);
        let fi = choose|fi: int|
            0 <= fi < n - 1 && #[trigger] track_pos(lib.tracks, upsert_id(lib, s), s.files[fi]) >= 0 && content_changed(
                lib.tracks[track_pos(lib.tracks, upsert_id(lib, s), s.files[fi])],
                s.meta[fi],
            ) && lib.tracks[track_pos(lib.tracks, upsert_id(lib, s), s.files[fi])].id == prev[w];
        assert(invalidated_ids(lib, s, n)[w] == prev[w]);
        assert(track_pos(lib.tracks, upsert_id(lib, s), s.files[fi]) >= 0);
    }
}

/// The row of the folder's crate for a file found on disk.
proof fn lemma_row_of_present_file(lib: LibraryView, s: ScanView, j: int)
    requires
        0 <= j < lib.tracks.len(),
        track_files_unique(lib.tracks),
        lib.tracks[j].crate_id == upsert_id(lib, s),
    ensures
        track_pos(lib.tracks, upsert_id(lib, s), lib.tracks[j].filename) == j,
{
    let x = upsert_id(lib, s);
    let f = lib.tracks[j].filename;
    lemma_track_pos(lib.tracks, x, f);
    let q = track_pos(lib.tracks, x, f);
    if q != j {
        if q >= 0 {
            assert(lib.tracks[q].crate_id == lib.tracks[j].crate_id);
        } else {
            assert(!(lib.tracks[j].crate_id == x && lib.tracks[j].filename == f));
        }
    }
}

/// A row of the folder's crate whose file is on disk stays, under the same
/// id and with the same title, number and position: it takes the file's
/// fingerprint, a newly read duration, and stops being missing. A file
/// re-exported over its own path, or one that reappears, keeps its row.
pub proof fn law_present_file_keeps_its_row(lib: LibraryView, s: ScanView, read_ok: Seq<bool>, now: i64, j: int)
    requires
        0 <= j < lib.tracks.len(),
        track_files_unique(lib.tracks),
        lib.tracks[j].crate_id == upsert_id(lib, s),
        s.files.contains(lib.tracks[j].filename),
    ensures
        ({
            let fi = file_pos(s.files, lib.tracks[j].filename);
            ingest_crate_spec(lib, s, read_ok, now).tracks.contains(refresh_track(lib.tracks[j], s.meta[fi], read_ok[fi]))
        }),
{
    lemma_row_of_present_file(lib, s, j);
    lemma_file_pos(s.files, lib.tracks[j].filename);
    let w0 = choose|w: int| 0 <= w < s.files.len() && s.files[w] == lib.tracks[j].filename;
    assert(s.files[w0] == lib.tracks[j].filename);
    lemma_kept_tracks_has(lib, s, read_ok, now, lib.tracks.len() as int, j);
    let k = kept_tracks(lib, s, read_ok, now, lib.tracks.len() as int);
    let ins = inserted_tracks(lib, s, read_ok, s.files.len() as int);
    let x = track_after(lib, s, read_ok, now, j)->0;
    let w = choose|w: int| 0 <= w < k.len() && k[w] == x;
    assert((k + ins)[w] == x);
}

/// A row whose file changed on disk (known fingerprint, different now) is
/// reported for re-measuring.
pub proof fn law_reexport_invalidates_measurement(lib: LibraryView, s: ScanView, j: int)
    requires
        0 <= j < lib.tracks.len(),
        track_files_unique(lib.tracks),
        lib.tracks[j].crate_id == upsert_id(lib, s),
        s.files.contains(lib.tracks[j].filename),
        content_changed(lib.tracks[j], s.meta[file_pos(s.files, lib.tracks[j].filename)]),
    ensures
        invalidated_ids(lib, s, s.files.len() as int).contains(lib.tracks[j].id),
{
    lemma_row_of_present_file(lib, s, j);
    lemma_file_pos(s.files, lib.tracks[j].filename);
    let w0 = choose|w: int| 0 <= w < s.files.len() && s.files[w] == lib.tracks[j].filename;
    assert(s.files[w0] == lib.tracks[j].filename);
    lemma_invalidated_has(lib, s, s.files.len() as int, file_pos(s.files, lib.tracks[j].filename));
}

/// A row whose stored fingerprint is unknown, whose file's fingerprint could
/// not be read, or whose fingerprint equals the file's, is never reported as
/// changed: unknown is never a change.
pub proof fn law_unchanged_or_unknown_fingerprint_is_not_invalidated(lib: LibraryView, s: ScanView, j: int)
    requires
        0 <= j < lib.tracks.len(),
        track_files_unique(lib.tracks),
        track_ids_unique(lib.tracks),
        scan_files_distinct(s),
        lib.tracks[j].crate_id == upsert_id(lib, s),
        s.files.contains(lib.tracks[j].filename),
        !content_changed(lib.tracks[j], s.meta[file_pos(s.files, lib.tracks[j].filename)]),
    ensures
        !invalidated_ids(lib, s, s.files.len() as int).contains(lib.tracks[j].id),
{
    lemma_row_of_present_file(lib, s, j);
    lemma_file_pos(s.files, lib.tracks[j].filename);
    let inv = invalidated_ids(lib, s, s.files.len() as int);
    if inv.contains(lib.tracks[j].id) {
        let w = choose|w: int| 0 <= w < inv.len() && inv[w] == lib.tracks[j].id;
        lemma_invalidated_from(lib, s, s.files.len() as int, w);
        let fi = choose|fi: int|
            0 <= fi < s.files.len() && #[trigger] track_pos(lib.tracks, upsert_id(lib, s), s.files[fi]) >= 0
                && content_changed(lib.tracks[track_pos(lib.tracks, upsert_id(lib, s), s.files[fi])], s.meta[fi])
                && lib.tracks[track_pos(lib.tracks, upsert_id(lib, s), s.files[fi])].id == inv[w];
        let j2 = track_pos(lib.tracks, upsert_id(lib, s), s.files[fi]);
        lemma_track_pos(lib.tracks, upsert_id(lib, s), s.files[fi]);
        assert(j2 == j);
        let p = file_pos(s.files, lib.tracks[j].filename);
        assert(s.files[p] == s.files[fi]);
        assert(p == fi);
    }
}

/// A file whose metadata could not be read is not reported as changed: its
/// row keeps its id (and so its loudness measurement), and the unknown
/// fingerprint is written as read.
pub proof fn law_unreadable_metadata_is_not_a_change(
    lib: LibraryView,
    s: ScanView,
    read_ok: Seq<bool>,
    now: i64,
    j: int,
)
    requires
        0 <= j < lib.tracks.len(),
        track_files_unique(lib.tracks),
        track_ids_unique(lib.tracks),
        scan_files_distinct(s),
        lib.tracks[j].crate_id == upsert_id(lib, s),
        s.files.contains(lib.tracks[j].filename),
        !meta_known(s.meta[file_pos(s.files, lib.tracks[j].filename)]),
    ensures
        !invalidated_ids(lib, s, s.files.len() as int).contains(lib.tracks[j].id),
        ({
            let fi = file_pos(s.files, lib.tracks[j].filename);
            let t = refresh_track(lib.tracks[j], s.meta[fi], read_ok[fi]);
            &&& ingest_crate_spec(lib, s, read_ok, now).tracks.contains(t)
            &&& t.id == lib.tracks[j].id
            &&& t.file_mtime == s.meta[fi].mtime
            &&& t.file_size == s.meta[fi].size
        }),
{
    law_unchanged_or_unknown_fingerprint_is_not_invalidated(lib, s, j);
    law_present_file_keeps_its_row(lib, s, read_ok, now, j);
}

/// A row of the folder's crate whose file is gone is not deleted on the first
/// miss: it is stamped missing now; within the grace window it is kept as it
/// is; once its stamp is at least the grace window old it is deleted.
pub proof fn law_missing_file_survives_the_grace_window(
    lib: LibraryView,
    s: ScanView,
    read_ok: Seq<bool>,
    now: i64,
    j: int,
)
    requires
        0 <= j < lib.tracks.len(),
        track_ids_unique(lib.tracks),
        track_ids_below_next(lib),
        lib.next_track_id + s.files.len() <= i64::MAX,
        lib.tracks[j].crate_id == upsert_id(lib, s),
        !s.files.contains(lib.tracks[j].filename),
    ensures
        lib.tracks[j].missing_since is None ==> ingest_crate_spec(lib, s, read_ok, now).tracks.contains(
            TrackView { missing_since: Some(now), ..lib.tracks[j] },
        ),
        lib.tracks[j].missing_since matches Some(m) && m > now - PRUNE_GRACE_SECS ==> ingest_crate_spec(
            lib,
            s,
            read_ok,
            now,
        ).tracks.contains(lib.tracks[j]),
        lib.tracks[j].missing_since matches Some(m) && m <= now - PRUNE_GRACE_SECS ==> forall|w: int|
            0 <= w < ingest_crate_spec(lib, s, read_ok, now).tracks.len() ==> (#[trigger] ingest_crate_spec(
                lib,
                s,
                read_ok,
                now,
            ).tracks[w]).id != lib.tracks[j].id,
{
    lemma_file_pos(s.files, lib.tracks[j].filename);
    if file_pos(s.files, lib.tracks[j].filename) >= 0 {
        assert(s.files.contains(lib.tracks[j].filename));
    }
    let res = ingest_crate_spec(lib, s, read_ok, now).tracks;
    let k = kept_tracks(lib, s, read_ok, now, lib.tracks.len() as int);
    let ins = inserted_tracks(lib, s, read_ok, s.files.len() as int);
    assert(res == k + ins);
    if track_after(lib, s, read_ok, now, j) is Some {
        lemma_kept_tracks_has(lib, s, read_ok, now, lib.tracks.len() as int, j);
        let x = track_after(lib, s, read_ok, now, j)->0;
        let w = choose|w: int| 0 <= w < k.len() && k[w] == x;
        assert(res[w] == x);
    } else {
        assert forall|w: int| 0 <= w < res.len() implies (#[trigger] res[w]).id != lib.tracks[j].id by {
            if w < k.len() {
                assert(res[w] == k[w]);
                lemma_kept_tracks_from(lib, s, read_ok, now, lib.tracks.len() as int, w);
                let j2 = choose|j2: int|
                    0 <= j2 < lib.tracks.len() && #[trigger] track_after(lib, s, read_ok, now, j2) == Some(k[w]);
                lemma_track_after_keeps_id(lib, s, read_ok, now, j2);
                if j2 != j {
                    assert(lib.tracks[j2].id != lib.tracks[j].id);
                }
            } else {
                assert(res[w] == ins[w - k.len()]);
                lemma_inserted_ids_fresh(lib, s, read_ok, s.files.len() as int, w - k.len());
            }
        }
    }
}

// ── re-ingest of an unchanged folder ────────────────────────────────────────

proof fn lemma_inserted_has(lib: LibraryView, s: ScanView, read_ok: Seq<bool>, n: int, fi: int)
    requires
        0 <= fi < n,
        track_pos(lib.tracks, upsert_id(lib, s), s.files[fi]) < 0,
    ensures
        inserted_tracks(lib, s, read_ok, n).contains(new_track_for(lib, s, read_ok, fi)),
    decreases n,
{
    let prev = inserted_tracks(lib, s, read_ok, n - 1);
    let x = new_track_for(lib, s, read_ok, fi);
    if fi < n - 1 {
        lemma_inserted_has(lib, s, read_ok, n - 1, fi);
        if track_pos(lib.tracks, upsert_id(lib, s), s.files[n - 1]) < 0 {
            let w = choose|w: int| 0 <= w < prev.len() && prev[w] == x;
            assert(prev.push(new_track_for(lib, s, read_ok, n - 1))[w] == prev[w]);
        }
    } else {
        assert(prev.push(x).last() == x);
    }
}

/// After the ingest, the folder's crate is found by its folder under the same
/// id the ingest gave it.
proof fn lemma_upsert_id_stable(lib: LibraryView, s: ScanView, read_ok: Seq<bool>, now: i64)
    ensures
        upsert_id(ingest_crate_spec(lib, s, read_ok, now), s) == upsert_id(lib, s),
        ({
            let cs = ingest_crate_spec(lib, s, read_ok, now).crates;
            let c = crate_pos(cs, s.folder);
            0 <= c < cs.len() && cs[c].folder == s.folder && cs[c].id == upsert_id(lib, s)
        }),
{
    let l2 = ingest_crate_spec(lib, s, read_ok, now);
    let cs = l2.crates;
    lemma_crate_pos(lib.crates, s.folder);
    let p = crate_pos(lib.crates, s.folder);
    if p >= 0 {
        assert forall|j: int| 0 <= j < cs.len() && (p < 0 || j < p) implies #[trigger] cs[j].folder != s.folder by {
            assert(cs[j] == lib.crates[j]);
        }
        lemma_crate_pos_char(cs, s.folder, p);
    } else {
        let q = lib.crates.len() as int;
        assert forall|j: int| 0 <= j < cs.len() && (q < 0 || j < q) implies #[trigger] cs[j].folder != s.folder by {
            assert(cs[j] == lib.crates[j]);
        }
        lemma_crate_pos_char(cs, s.folder, q);
    }
}

/// The row the ingest leaves for file `fi`: refreshed from its file or newly
/// inserted, in the folder's crate, under the file's name, with the file's
/// fingerprint and a duration when one was read.
proof fn lemma_row_for_file(lib: LibraryView, s: ScanView, read_ok: Seq<bool>, now: i64, fi: int) -> (w: int)
    requires
        scan_wf(s),
        scan_files_distinct(s),
        read_ok.len() == s.files.len(),
        0 <= fi < s.files.len(),
        lib.next_track_id + s.files.len() <= i64::MAX,
    ensures
        ({
            let ts = ingest_crate_spec(lib, s, read_ok, now).tracks;
            &&& 0 <= w < ts.len()
            &&& ts[w].crate_id == upsert_id(lib, s)
            &&& ts[w].filename == s.files[fi]
            &&& ts[w].file_mtime == s.meta[fi].mtime
            &&& ts[w].file_size == s.meta[fi].size
            &&& (read_ok[fi] ==> ts[w].has_duration)
        }),
{
    let x = upsert_id(lib, s);
    let ts = ingest_crate_spec(lib, s, read_ok, now).tracks;
    let k = kept_tracks(lib, s, read_ok, now, lib.tracks.len() as int);
    let ins = inserted_tracks(lib, s, read_ok, s.files.len() as int);
    assert(ts == k + ins);
    lemma_track_pos(lib.tracks, x, s.files[fi]);
    let jo = track_pos(lib.tracks, x, s.files[fi]);
    if jo >= 0 {
        lemma_file_pos_char(s.files, s.files[fi], fi);
        let t = track_after(lib, s, read_ok, now, jo)->0;
        assert(t == refresh_track(lib.tracks[jo], s.meta[fi], read_ok[fi]));
        lemma_kept_tracks_has(lib, s, read_ok, now, lib.tracks.len() as int, jo);
        let w = choose|w: int| 0 <= w < k.len() && k[w] == t;
        assert(ts[w] == t);
        w
    } else {
        lemma_inserted_has(lib, s, read_ok, s.files.len() as int, fi);
        let t = new_track_for(lib, s, read_ok, fi);
        let v = choose|v: int| 0 <= v < ins.len() && ins[v] == t;
        assert(ts[k.len() + v] == t);
        k.len() + v
    }
}

/// Ingesting a folder twice: a file whose duration was read on the first
/// pass, and which is unchanged (known fingerprint), is not opened again.
pub proof fn law_unchanged_files_are_not_reread(
    lib: LibraryView,
    s: ScanView,
    read_ok: Seq<bool>,
    now: i64,
    fi: int,
)
    requires
        scan_wf(s),
        scan_files_distinct(s),
        read_ok.len() == s.files.len(),
        0 <= fi < s.files.len(),
        read_ok[fi],
        meta_known(s.meta[fi]),
        lib.next_track_id + s.files.len() <= i64::MAX,
    ensures
        !duration_read_needed(ingest_crate_spec(lib, s, read_ok, now), s, fi),
{
    let l2 = ingest_crate_spec(lib, s, read_ok, now);
    lemma_upsert_id_stable(lib, s, read_ok, now);
    let c = crate_pos(l2.crates, s.folder);
    let w = lemma_row_for_file(lib, s, read_ok, now, fi);
    assert(l2.crates[c].folder == s.folder && l2.tracks[w].crate_id == l2.crates[c].id);
}

proof fn lemma_inserted_from(lib: LibraryView, s: ScanView, read_ok: Seq<bool>, n: int, w: int)
    requires
        0 <= n,
        0 <= w < inserted_tracks(lib, s, read_ok, n).len(),
    ensures
        exists|fi: int| 0 <= fi < n && inserted_tracks(lib, s, read_ok, n)[w] == #[trigger] new_track_for(lib, s, read_ok, fi),
    decreases n,
{
    let prev = inserted_tracks(lib, s, read_ok, n - 1);
    if track_pos(lib.tracks, upsert_id(lib, s), s.files[n - 1]) < 0 && w == prev.len() {
        assert(inserted_tracks(lib, s, read_ok, n)[w] == new_track_for(lib, s, read_ok, n - 1));
    } else {
        lemma_inserted_from(lib, s, read_ok, n - 1, w);
        let fi = choose|fi: int| 0 <= fi < n - 1 && prev[w] == #[trigger] new_track_for(lib, s, read_ok, fi);
        if track_pos(lib.tracks, upsert_id(lib, s), s.files[n - 1]) < 0 {
            assert(inserted_tracks(lib, s, read_ok, n)[w] == prev[w]);
        }
        assert(inserted_tracks(lib, s, read_ok, n)[w] == new_track_for(lib, s, read_ok, fi));
    }
}

proof fn lemma_no_invalidation(l: LibraryView, s: ScanView, n: int)
    requires
        0 <= n <= s.files.len(),
        forall|fi: int|
            0 <= fi < n && #[trigger] track_pos(l.tracks, upsert_id(l, s), s.files[fi]) >= 0 ==> !content_changed(
                l.tracks[track_pos(l.tracks, upsert_id(l, s), s.files[fi])],
                s.meta[fi],
            ),
    ensures
        invalidated_ids(l, s, n) == Seq::<i64>::empty(),
    decreases n,
{
    if n > 0 {
        lemma_no_invalidation(l, s, n - 1);
        let j = track_pos(l.tracks, upsert_id(l, s), s.files[n - 1]);
        if j >= 0 {
            assert(!content_changed(l.tracks[j], s.meta[n - 1]));
        }
    }
}

/// Ingesting an unchanged folder a second time reports no track as changed:
/// every row of its files carries the fingerprint the first pass recorded.
pub proof fn law_reingest_reports_no_change(lib: LibraryView, s: ScanView, read_ok: Seq<bool>, now: i64)
    requires
        scan_wf(s),
        scan_files_distinct(s),
        read_ok.len() == s.files.len(),
        track_files_unique(lib.tracks),
        lib.next_track_id + s.files.len() <= i64::MAX,
    ensures
        invalidated_ids(ingest_crate_spec(lib, s, read_ok, now), s, s.files.len() as int) == Seq::<i64>::empty(),
{
    let l2 = ingest_crate_spec(lib, s, read_ok, now);
    let x = upsert_id(lib, s);
    lemma_upsert_id_stable(lib, s, read_ok, now);
    let k = kept_tracks(lib, s, read_ok, now, lib.tracks.len() as int);
    let ins = inserted_tracks(lib, s, read_ok, s.files.len() as int);
    assert(l2.tracks == k + ins);
    assert forall|fi: int|
        0 <= fi < s.files.len() && #[trigger] track_pos(l2.tracks, upsert_id(l2, s), s.files[fi]) >= 0 implies !content_changed(
        l2.tracks[track_pos(l2.tracks, upsert_id(l2, s), s.files[fi])],
        s.meta[fi],
    ) by {
        lemma_track_pos(l2.tracks, x, s.files[fi]);
        let w = track_pos(l2.tracks, x, s.files[fi]);
        let row = l2.tracks[w];
        assert(row.crate_id == x && row.filename == s.files[fi]);
        if w < k.len() {
            assert(row == k[w]);
            lemma_kept_tracks_from(lib, s, read_ok, now, lib.tracks.len() as int, w);
            let j = choose|j: int| 0 <= j < lib.tracks.len() && #[trigger] track_after(lib, s, read_ok, now, j) == Some(k[w]);
            let t = lib.tracks[j];
            assert(t.crate_id == x && t.filename == s.files[fi]);
            lemma_file_pos_char(s.files, s.files[fi], fi);
            lemma_row_of_present_file(lib, s, j);
            assert(row == refresh_track(t, s.meta[fi], read_ok[fi]));
        } else {
            assert(row == ins[w - k.len()]);
            lemma_inserted_from(lib, s, read_ok, s.files.len() as int, w - k.len());
            let f2 = choose|f2: int| 0 <= f2 < s.files.len() && ins[w - k.len()] == #[trigger] new_track_for(lib, s, read_ok, f2);
            assert(s.files[f2] == s.files[fi]);
            assert(f2 == fi);
        }
    }
    lemma_no_invalidation(l2, s, s.files.len() as int);
}

// ── what the ingest keeps ───────────────────────────────────────────────────

proof fn lemma_kept_tracks_from_pair(
    lib: LibraryView,
    s: ScanView,
    read_ok: Seq<bool>,
    now: i64,
    n: int,
    w1: int,
    w2: int,
)
    requires
        0 <= n <= lib.tracks.len(),
        0 <= w1 < w2 < kept_tracks(lib, s, read_ok, now, n).len(),
    ensures
        exists|j1: int, j2: int|
            0 <= j1 < j2 < n && #[trigger] track_after(lib, s, read_ok, now, j1) == Some(
                kept_tracks(lib, s, read_ok, now, n)[w1],
            ) && #[trigger] track_after(lib, s, read_ok, now, j2) == Some(kept_tracks(lib, s, read_ok, now, n)[w2]),
    decreases n,
{
    let prev = kept_tracks(lib, s, read_ok, now, n - 1);
    let cur = kept_tracks(lib, s, read_ok, now, n);
    match track_after(lib, s, read_ok, now, n - 1) {
        Some(t) => {
            if w2 < prev.len() {
                lemma_kept_tracks_from_pair(lib, s, read_ok, now, n - 1, w1, w2);
                let (j1, j2) = choose|j1: int, j2: int|
                    0 <= j1 < j2 < n - 1 && #[trigger] track_after(lib, s, read_ok, now, j1) == Some(prev[w1])
                        && #[trigger] track_after(lib, s, read_ok, now, j2) == Some(prev[w2]);
                assert(cur[w1] == prev[w1] && cur[w2] == prev[w2]);
                assert(track_after(lib, s, read_ok, now, j1) == Some(cur[w1]));
                assert(track_after(lib, s, read_ok, now, j2) == Some(cur[w2]));
            } else {
                lemma_kept_tracks_from(lib, s, read_ok, now, n - 1, w1);
                let j1 = choose|j1: int| 0 <= j1 < n - 1 && #[trigger] track_after(lib, s, read_ok, now, j1) == Some(prev[w1]);
                assert(cur[w1] == prev[w1]);
                assert(cur[w2] == t);
                assert(track_after(lib, s, read_ok, now, j1) == Some(cur[w1]));
                assert(track_after(lib, s, read_ok, now, n - 1) == Some(cur[w2]));
            }
        },
        None => {
            lemma_kept_tracks_from_pair(lib, s, read_ok, now, n - 1, w1, w2);
        },
    }
}

proof fn lemma_inserted_from_pair(lib: LibraryView, s: ScanView, read_ok: Seq<bool>, n: int, w1: int, w2: int)
    requires
        0 <= n,
        0 <= w1 < w2 < inserted_tracks(lib, s, read_ok, n).len(),
    ensures
        exists|f1: int, f2: int|
            0 <= f1 < f2 < n && inserted_tracks(lib, s, read_ok, n)[w1] == #[trigger] new_track_for(lib, s, read_ok, f1)
                && inserted_tracks(lib, s, read_ok, n)[w2] == #[trigger] new_track_for(lib, s, read_ok, f2)
                && track_pos(lib.tracks, upsert_id(lib, s), s.files[f1]) < 0
                && track_pos(lib.tracks, upsert_id(lib, s), s.files[f2]) < 0,
    decreases n,
{
    let prev = inserted_tracks(lib, s, read_ok, n - 1);
    let cur = inserted_tracks(lib, s, read_ok, n);
    if track_pos(lib.tracks, upsert_id(lib, s), s.files[n - 1]) < 0 {
        if w2 < prev.len() {
            lemma_inserted_from_pair(lib, s, read_ok, n - 1, w1, w2);
            let (f1, f2) = choose|f1: int, f2: int|
                0 <= f1 < f2 < n - 1 && prev[w1] == #[trigger] new_track_for(lib, s, read_ok, f1) && prev[w2]
                    == #[trigger] new_track_for(lib, s, read_ok, f2) && track_pos(lib.tracks, upsert_id(lib, s), s.files[f1]) < 0
                    && track_pos(lib.tracks, upsert_id(lib, s), s.files[f2]) < 0;
            assert(cur[w1] == prev[w1] && cur[w2] == prev[w2]);
            assert(cur[w1] == new_track_for(lib, s, read_ok, f1) && cur[w2] == new_track_for(lib, s, read_ok, f2));
        } else {
            lemma_inserted_from_with_pos(lib, s, read_ok, n - 1, w1);
            let f1 = choose|f1: int|
                0 <= f1 < n - 1 && prev[w1] == #[trigger] new_track_for(lib, s, read_ok, f1) && track_pos(
                    lib.tracks,
                    upsert_id(lib, s),
                    s.files[f1],
                ) < 0;
            assert(cur[w1] == prev[w1]);
            assert(cur[w2] == new_track_for(lib, s, read_ok, n - 1));
            assert(cur[w1] == new_track_for(lib, s, read_ok, f1));
        }
    } else {
        lemma_inserted_from_pair(lib, s, read_ok, n - 1, w1, w2);
    }
}

proof fn lemma_inserted_from_with_pos(lib: LibraryView, s: ScanView, read_ok: Seq<bool>, n: int, w: int)
    requires
        0 <= n,
        0 <= w < inserted_tracks(lib, s, read_ok, n).len(),
    ensures
        exists|fi: int|
            0 <= fi < n && inserted_tracks(lib, s, read_ok, n)[w] == #[trigger] new_track_for(lib, s, read_ok, fi)
                && track_pos(lib.tracks, upsert_id(lib, s), s.files[fi]) < 0,
    decreases n,
{
    let prev = inserted_tracks(lib, s, read_ok, n - 1);
    if track_pos(lib.tracks, upsert_id(lib, s), s.files[n - 1]) < 0 && w == prev.len() {
        assert(inserted_tracks(lib, s, read_ok, n)[w] == new_track_for(lib, s, read_ok, n - 1));
    } else {
        lemma_inserted_from_with_pos(lib, s, read_ok, n - 1, w);
        let fi = choose|fi: int|
            0 <= fi < n - 1 && prev[w] == #[trigger] new_track_for(lib, s, read_ok, fi) && track_pos(
                lib.tracks,
                upsert_id(lib, s),
                s.files[fi],
            ) < 0;
        if track_pos(lib.tracks, upsert_id(lib, s), s.files[n - 1]) < 0 {
            assert(inserted_tracks(lib, s, read_ok, n)[w] == prev[w]);
        }
        assert(inserted_tracks(lib, s, read_ok, n)[w] == new_track_for(lib, s, read_ok, fi));
    }
}

proof fn lemma_new_before_monotone(lib: LibraryView, s: ScanView, a: int, b: int)
    requires
        0 <= a <= b,
    ensures
        new_before(lib, s, a) <= new_before(lib, s, b),
    decreases b - a,
{
    if a < b {
        lemma_new_before_monotone(lib, s, a, b - 1);
    }
}

proof fn lemma_new_before_step(lib: LibraryView, s: ScanView, a: int, b: int)
    requires
        0 <= a < b,
        track_pos(lib.tracks, upsert_id(lib, s), s.files[a]) < 0,
    ensures
        new_before(lib, s, a) < new_before(lib, s, b),
{
    lemma_new_before_monotone(lib, s, a + 1, b);
}

/// The ingest of a folder keeps the table's invariants: no two rows of a
/// crate share a file name, no two rows share an id, and every id lies below
/// the next one handed out.
pub proof fn law_ingest_keeps_rows_unique(lib: LibraryView, s: ScanView, read_ok: Seq<bool>, now: i64)
    requires
        scan_wf(s),
        scan_files_distinct(s),
        read_ok.len() == s.files.len(),
        track_files_unique(lib.tracks),
        track_ids_unique(lib.tracks),
        track_ids_below_next(lib),
        lib.next_track_id + s.files.len() <= i64::MAX,
    ensures
        track_files_unique(ingest_crate_spec(lib, s, read_ok, now).tracks),
        track_ids_unique(ingest_crate_spec(lib, s, read_ok, now).tracks),
        track_ids_below_next(ingest_crate_spec(lib, s, read_ok, now)),
{
    let l2 = ingest_crate_spec(lib, s, read_ok, now);
    let x = upsert_id(lib, s);
    let k = kept_tracks(lib, s, read_ok, now, lib.tracks.len() as int);
    let ins = inserted_tracks(lib, s, read_ok, s.files.len() as int);
    let ts = l2.tracks;
    assert(ts == k + ins);
    lemma_new_before_bounds(lib, s, s.files.len() as int);
    // Where each row of the result comes from.
    assert forall|w: int| 0 <= w < k.len() implies {
        &&& (#[trigger] k[w]).id < lib.next_track_id
    } by {
        lemma_kept_tracks_from(lib, s, read_ok, now, lib.tracks.len() as int, w);
        let j = choose|j: int| 0 <= j < lib.tracks.len() && #[trigger] track_after(lib, s, read_ok, now, j) == Some(k[w]);
        lemma_track_after_keeps_id(lib, s, read_ok, now, j);
    }
    assert forall|v: int| 0 <= v < ins.len() implies {
        &&& lib.next_track_id <= (#[trigger] ins[v]).id
        &&& ins[v].id < lib.next_track_id + new_before(lib, s, s.files.len() as int)
        &&& ins[v].crate_id == x
    } by {
        lemma_inserted_from_with_pos(lib, s, read_ok, s.files.len() as int, v);
        let fi = choose|fi: int|
            0 <= fi < s.files.len() && ins[v] == #[trigger] new_track_for(lib, s, read_ok, fi) && track_pos(
                lib.tracks,
                upsert_id(lib, s),
                s.files[fi],
            ) < 0;
        lemma_new_before_bounds(lib, s, fi);
        lemma_new_before_step(lib, s, fi, s.files.len() as int);
    }
    assert forall|a: int, b: int|
        0 <= a < ts.len() && 0 <= b < ts.len() && a != b implies #[trigger] ts[a].id != #[trigger] ts[b].id && (
        ts[a].crate_id == ts[b].crate_id ==> ts[a].filename != ts[b].filename) by {
        let (lo, hi) = if a < b {
            (a, b)
        } else {
            (b, a)
        };
        if hi < k.len() {
            lemma_kept_tracks_from_pair(lib, s, read_ok, now, lib.tracks.len() as int, lo, hi);
            let (j1, j2) = choose|j1: int, j2: int|
                0 <= j1 < j2 < lib.tracks.len() && #[trigger] track_after(lib, s, read_ok, now, j1) == Some(k[lo])
                    && #[trigger] track_after(lib, s, read_ok, now, j2) == Some(k[hi]);
            assert(ts[lo] == k[lo] && ts[hi] == k[hi]);
            assert(lib.tracks[j1].id != lib.tracks[j2].id);
        } else if lo >= k.len() {
            lemma_inserted_from_pair(lib, s, read_ok, s.files.len() as int, lo - k.len(), hi - k.len());
            let (f1, f2) = choose|f1: int, f2: int|
                0 <= f1 < f2 < s.files.len() && ins[lo - k.len()] == #[trigger] new_track_for(lib, s, read_ok, f1)
                    && ins[hi - k.len()] == #[trigger] new_track_for(lib, s, read_ok, f2) && track_pos(
                    lib.tracks,
                    upsert_id(lib, s),
                    s.files[f1],
                ) < 0 && track_pos(lib.tracks, upsert_id(lib, s), s.files[f2]) < 0;
            assert(ts[lo] == ins[lo - k.len()] && ts[hi] == ins[hi - k.len()]);
            lemma_new_before_bounds(lib, s, f1);
            lemma_new_before_bounds(lib, s, f2);
            lemma_new_before_step(lib, s, f1, f2);
            assert(s.files[f1] != s.files[f2]);
        } else {
            assert(ts[lo] == k[lo]);
            assert(ts[hi] == ins[hi - k.len()]);
            assert(k[lo].id < lib.next_track_id);
            assert(lib.next_track_id <= ins[hi - k.len()].id);
            lemma_inserted_from_with_pos(lib, s, read_ok, s.files.len() as int, hi - k.len());
            let fi = choose|fi: int|
                0 <= fi < s.files.len() && ins[hi - k.len()] == #[trigger] new_track_for(lib, s, read_ok, fi)
                    && track_pos(lib.tracks, upsert_id(lib, s), s.files[fi]) < 0;
            lemma_kept_tracks_from(lib, s, read_ok, now, lib.tracks.len() as int, lo);
            let j = choose|j: int| 0 <= j < lib.tracks.len() && #[trigger] track_after(lib, s, read_ok, now, j) == Some(k[lo]);
            lemma_track_pos(lib.tracks, x, s.files[fi]);
            if k[lo].crate_id == x && k[lo].filename == s.files[fi] {
                assert(lib.tracks[j].crate_id == x && lib.tracks[j].filename == s.files[fi]);
            }
        }
    }
    assert forall|j: int| 0 <= j < ts.len() implies (#[trigger] ts[j]).id < l2.next_track_id by {
        if j < k.len() {
            assert(ts[j] == k[j]);
        } else {
            assert(ts[j] == ins[j - k.len()]);
        }
    }
}

/// The ingest of one folder leaves the rows of every other crate exactly as
/// they were.
pub proof fn law_other_crates_are_untouched(lib: LibraryView, s: ScanView, read_ok: Seq<bool>, now: i64, j: int)
    requires
        0 <= j < lib.tracks.len(),
        lib.tracks[j].crate_id != upsert_id(lib, s),
    ensures
        ingest_crate_spec(lib, s, read_ok, now).tracks.contains(lib.tracks[j]),
{
    lemma_kept_tracks_has(lib, s, read_ok, now, lib.tracks.len() as int, j);
    let k = kept_tracks(lib, s, read_ok, now, lib.tracks.len() as int);
    let ins = inserted_tracks(lib, s, read_ok, s.files.len() as int);
    let w = choose|w: int| 0 <= w < k.len() && k[w] == lib.tracks[j];
    assert((k + ins)[w] == lib.tracks[j]);
}

/// A file with no row yet gets one at the bottom of its crate: no sort order,
/// its position as track number, the title derived from its name, and its
/// fingerprint.
pub proof fn law_new_file_lands_at_the_bottom(lib: LibraryView, s: ScanView, read_ok: Seq<bool>, now: i64, fi: int)
    requires
        scan_wf(s),
        read_ok.len() == s.files.len(),
        0 <= fi < s.files.len(),
        !crate_has_file(lib.tracks, upsert_id(lib, s), s.files[fi]),
    ensures
        exists|w: int|
            0 <= w < ingest_crate_spec(lib, s, read_ok, now).tracks.len() && {
                let t = #[trigger] ingest_crate_spec(lib, s, read_ok, now).tracks[w];
                &&& t.crate_id == upsert_id(lib, s)
                &&& t.filename == s.files[fi]
                &&& t.title == crate::title::title_spec(s.files[fi])
                &&& t.track_num == Some((fi + 1) as i64)
                &&& t.sort_order is None
                &&& t.file_mtime == s.meta[fi].mtime
                &&& t.file_size == s.meta[fi].size
                &&& t.missing_since is None
            },
{
    lemma_track_pos(lib.tracks, upsert_id(lib, s), s.files[fi]);
    if track_pos(lib.tracks, upsert_id(lib, s), s.files[fi]) >= 0 {
        let j = track_pos(lib.tracks, upsert_id(lib, s), s.files[fi]);
        assert(lib.tracks[j].crate_id == upsert_id(lib, s) && lib.tracks[j].filename == s.files[fi]);
    }
    lemma_inserted_has(lib, s, read_ok, s.files.len() as int, fi);
    let k = kept_tracks(lib, s, read_ok, now, lib.tracks.len() as int);
    let ins = inserted_tracks(lib, s, read_ok, s.files.len() as int);
    let t = new_track_for(lib, s, read_ok, fi);
    let v = choose|v: int| 0 <= v < ins.len() && ins[v] == t;
    let ts = ingest_crate_spec(lib, s, read_ok, now).tracks;
    assert(ts == k + ins);
    assert(ts[k.len() + v] == t);
}

// ── scanning ────────────────────────────────────────────────────────────────

/// Some scanned folder with no audio is `f`.
pub open spec fn scanned_without_audio(found: Seq<ScanView>, f: Seq<char>) -> bool {
    exists|k: int| 0 <= k < found.len() && (#[trigger] found[k]).files.len() == 0 && found[k].folder == f
}

/// Splitting the scanned folders never sends a folder without audio to the
/// ingest, and every folder it reports as empty was scanned without audio.
pub proof fn law_split_keeps_empty_folders_out(found: Seq<ScanView>)
    ensures
        forall|w: int| 0 <= w < nonempty_scans(found).len() ==> (#[trigger] nonempty_scans(found)[w]).files.len() > 0,
        forall|w: int|
            0 <= w < empty_folders(found).len() ==> scanned_without_audio(found, #[trigger] empty_folders(found)[w]),
    decreases found.len(),
{
    if found.len() > 0 {
        let prev = found.drop_last();
        law_split_keeps_empty_folders_out(prev);
        assert forall|w: int| 0 <= w < nonempty_scans(found).len() implies (#[trigger] nonempty_scans(found)[w]).files.len() > 0 by {
            if w < nonempty_scans(prev).len() {
                assert(nonempty_scans(found)[w] == nonempty_scans(prev)[w]);
            }
        }
        assert forall|w: int|
            0 <= w < empty_folders(found).len() implies scanned_without_audio(found, #[trigger] empty_folders(found)[w]) by {
            if w < empty_folders(prev).len() {
                assert(empty_folders(found)[w] == empty_folders(prev)[w]);
                assert(scanned_without_audio(prev, empty_folders(prev)[w]));
                let k = choose|k: int| 0 <= k < prev.len() && (#[trigger] prev[k]).files.len() == 0 && prev[k].folder == empty_folders(prev)[w];
                assert(found[k] == prev[k]);
            } else {
                let k = found.len() - 1;
                assert(empty_folders(found)[w] == found[k].folder);
                assert(found[k].files.len() == 0);
            }
        }
    }
}

// ── Live Sets ───────────────────────────────────────────────────────────────

/// The plugin and sample lists name each entry once, and hold exactly the
/// names found.
pub proof fn law_dedup_lists_each_name_once(s: Seq<Seq<char>>)
    ensures
        forall|a: int, b: int|
            0 <= a < b < dedup(s).len() ==> #[trigger] dedup(s)[a] != #[trigger] dedup(s)[b],
        forall|x: Seq<char>| #[trigger] dedup(s).contains(x) <==> s.contains(x),
    decreases s.len(),
{
    if s.len() > 0 {
        let p = s.drop_last();
        law_dedup_lists_each_name_once(p);
        let d = dedup(p);
        assert forall|x: Seq<char>| #[trigger] dedup(s).contains(x) <==> s.contains(x) by {
            if s.contains(x) {
                let i = choose|i: int| 0 <= i < s.len() && s[i] == x;
                if i < s.len() - 1 {
                    assert(p[i] == x);
                    assert(p.contains(x));
                }
            }
            if p.contains(x) {
                let i = choose|i: int| 0 <= i < p.len() && p[i] == x;
                assert(s[i] == x);
            }
            if !d.contains(s.last()) {
                if d.push(s.last()).contains(x) && x != s.last() {
                    let i = choose|i: int| 0 <= i < d.push(s.last()).len() && d.push(s.last())[i] == x;
                    assert(d[i] == x);
                }
                if d.contains(x) {
                    let i = choose|i: int| 0 <= i < d.len() && d[i] == x;
                    assert(d.push(s.last())[i] == x);
                }
                assert(d.push(s.last())[d.len() as int] == s.last());
            }
        }
        if !d.contains(s.last()) {
            assert forall|a: int, b: int|
                0 <= a < b < dedup(s).len() implies #[trigger] dedup(s)[a] != #[trigger] dedup(s)[b] by {
                if b == d.len() {
                    assert(dedup(s)[a] == d[a]);
                }
            }
        }
    }
}

/// A Live Set always counts at least its main track.
pub proof fn law_main_track_always_counts(ns: Seq<XmlNodeView>, ls: int)
    ensures
        active_track_count_spec(ns, ls) >= 1,
{
    match crate::xml::child_spec(ns, ls, "Tracks"@) {
        Some(tr) => lemma_count_active_nonneg(ns, ns[tr].children, ns[tr].children.len() as int),
        None => {},
    }
}

proof fn lemma_count_active_nonneg(ns: Seq<XmlNodeView>, kids: Seq<usize>, k: int)
    ensures
        crate::als::count_active(ns, kids, k) >= 0,
    decreases k,
{
    if k > 0 {
        lemma_count_active_nonneg(ns, kids, k - 1);
    }
}

proof fn lemma_missing_paths_not_on_disk(existing: Seq<Seq<char>>, on_disk: Seq<Seq<char>>, n: int)
    ensures
        forall|w: int|
            0 <= w < missing_paths(existing, on_disk, n).len() ==> !on_disk.contains(
                #[trigger] missing_paths(existing, on_disk, n)[w],
            ),
    decreases n,
{
    if n > 0 {
        lemma_missing_paths_not_on_disk(existing, on_disk, n - 1);
        let prev = missing_paths(existing, on_disk, n - 1);
        assert forall|w: int|
            0 <= w < missing_paths(existing, on_disk, n).len() implies !on_disk.contains(
            #[trigger] missing_paths(existing, on_disk, n)[w],
        ) by {
            if w < prev.len() {
                assert(missing_paths(existing, on_disk, n)[w] == prev[w]);
            }
        }
    }
}

/// Pruning the project index removes only projects whose file is no longer on
/// disk, and nothing at all when the walk found no file.
pub proof fn law_prune_only_what_is_gone(existing: Seq<Seq<char>>, on_disk: Seq<Seq<char>>)
    ensures
        forall|w: int|
            0 <= w < orphans_spec(existing, on_disk).len() ==> !on_disk.contains(#[trigger] orphans_spec(existing, on_disk)[w]),
        on_disk.len() == 0 ==> orphans_spec(existing, on_disk).len() == 0,
{
    lemma_missing_paths_not_on_disk(existing, on_disk, existing.len() as int);
}

// ── numbers as text ─────────────────────────────────────────────────────────

proof fn lemma_decimal_reads_back(m: nat)
    ensures
        decimal_spec(m).len() > 0,
        all_digits(decimal_spec(m)),
        digits_value(decimal_spec(m)) == m,
        decimal_spec(m)[0] != '+' && decimal_spec(m)[0] != '-',
    decreases m,
{
    let d = decimal_spec(m);
    let c = digit_char(m % 10);
    assert(c as int - '0' as int == m % 10);
    if m >= 10 {
        lemma_decimal_reads_back(m / 10);
        let p = decimal_spec(m / 10);
        assert(d.drop_last() =~= p);
        assert(d.last() == c);
        assert(d[0] == p[0]);
        assert forall|k: int| 0 <= k < d.len() implies is_ascii_digit(#[trigger] d[k]) by {
            if k < p.len() {
                assert(d[k] == p[k]);
            }
        }
        assert(digits_value(d) == digits_value(p) * 10 + (c as int - '0' as int));
        assert((m / 10) * 10 + m % 10 == m);
    } else {
        assert(d.drop_last() =~= Seq::<char>::empty());
        assert(d.last() == c);
        assert(digits_value(d) == digits_value(d.drop_last()) * 10 + (c as int - '0' as int));
    }
}

/// Every `i64` written as text (as the app writes numbers) reads back as the
/// same number.
pub proof fn law_written_numbers_read_back(n: i64)
    ensures
        parse_i64_spec(int_text(n as int)) == Some(n),
{
    if n < 0 {
        let m = (-n) as nat;
        lemma_decimal_reads_back(m);
        let t = int_text(n as int);
        assert(t.drop_first() =~= decimal_spec(m));
    } else {
        lemma_decimal_reads_back(n as nat);
    }
}

// ── the command surface ─────────────────────────────────────────────────────

/// Note matches are listed once per (track, text): every match has exactly
/// one listed row with its track and text, the earliest.
pub proof fn law_each_note_is_listed_once(keys: Seq<(i64, Seq<char>)>, i: int)
    requires
        0 <= i < keys.len(),
    ensures
        exists|a: int| 0 <= a <= i && #[trigger] first_of_kind(keys, a) && keys[a] == keys[i],
        forall|a: int, b: int|
            0 <= a < keys.len() && 0 <= b < keys.len() && #[trigger] first_of_kind(keys, a) && #[trigger] first_of_kind(
                keys,
                b,
            ) && keys[a] == keys[b] ==> a == b,
    decreases i,
{
    if first_of_kind(keys, i) {
        assert(first_of_kind(keys, i) && keys[i] == keys[i]);
    } else {
        let j = choose|j: int| 0 <= j < i && !(keys[j] != keys[i]);
        law_each_note_is_listed_once(keys, j);
        let a = choose|a: int| 0 <= a <= j && #[trigger] first_of_kind(keys, a) && keys[a] == keys[j];
        assert(first_of_kind(keys, a) && keys[a] == keys[i]);
    }
    assert forall|a: int, b: int|
        0 <= a < keys.len() && 0 <= b < keys.len() && #[trigger] first_of_kind(keys, a) && #[trigger] first_of_kind(
            keys,
            b,
        ) && keys[a] == keys[b] implies a == b by {
        if a < b {
            assert(keys[a] != keys[b]);
        } else if b < a {
            assert(keys[b] != keys[a]);
        }
    }
}

/// The weekly window holds today: this week's Monday is at most six days
/// back and its Sunday at most six days ahead, and last week ends the day
/// before this one starts.
pub proof fn law_week_holds_today(from_sunday: u32)
    ensures
        -6 <= -days_since_monday_spec(from_sunday) <= 0,
        0 <= -days_since_monday_spec(from_sunday) + 6 <= 6,
{
}

/// An accepted avatar is within the size cap, carries the magic bytes of the
/// format it declared, and is stored under one of the accepted extensions.
pub proof fn law_accepted_avatar_is_an_image(u: Seq<char>)
    requires
        avatar_check_spec(u) is Ok,
    ensures
        ({
            let (ext, bytes) = avatar_check_spec(u)->Ok_0;
            &&& bytes.len() <= MAX_AVATAR_BYTES
            &&& (ext == "jpg"@ || ext == "png"@ || ext == "gif"@ || ext == "webp"@)
            &&& exists|raw: Seq<char>| bytes_match_format_spec(bytes, raw) && #[trigger] crate::profile::stored_ext(raw) == ext
        }),
{
    let prefix = "data:image/"@;
    let m = crate::profile::find_spec(u, ";base64,"@);
    let raw = u.subrange(prefix.len() as int, m);
    assert(crate::profile::stored_ext(raw) == (avatar_check_spec(u)->Ok_0).0);
}

/// A row re-attached to a renamed or moved file carries that file's
/// fingerprint, so the ingest that follows does not take the move for a
/// content change.
pub proof fn law_move_is_not_a_content_change(
    lib: LibraryView,
    scans: Seq<ScanView>,
    empties: Seq<Seq<char>>,
    now: i64,
    j: int,
    k: int,
    fi: int,
)
    requires
        moved_to(lib, scans, empties, now, j, k, fi),
    ensures
        !content_changed(moves_spec(lib, scans, empties, now).tracks[j], scans[k].meta[fi]),
{
    lemma_move_of_is(lib, scans, empties, now, j, k, fi);
}

/// A Live Set without a time signature element is in 4/4.
pub proof fn law_time_signature_defaults_to_four_four(ns: Seq<XmlNodeView>, ls: int)
    requires
        crate::xml::find_first_spec(ns, ls, "RemoteableTimeSignature"@) is None,
    ensures
        crate::als::sig_part(ns, ls, "Numerator"@) == 4,
        crate::als::sig_part(ns, ls, "Denominator"@) == 4,
{
}

/// A key is recorded only when the set says it is in key: otherwise neither
/// root nor scale is stored.
pub proof fn law_key_only_when_in_key(ns: Seq<XmlNodeView>, ls: int)
    requires
        !crate::als::key_confirmed_spec(ns, ls),
    ensures
        crate::als::key_root_spec(ns, ls) is None,
        crate::als::key_scale_spec(ns, ls) is None,
{
}

// ── a whole ingest pass ─────────────────────────────────────────────────────

/// The per-folder ingest of the scanned folders `k..`, in order: the library
/// it leaves and the ids it reports as changed.
pub open spec fn ingest_from(
    lib: LibraryView,
    scans: Seq<ScanView>,
    reads: Seq<Seq<bool>>,
    now: i64,
    k: int,
) -> (LibraryView, Seq<i64>)
    decreases scans.len() - k,
{
    if k < 0 || k >= scans.len() {
        (lib, Seq::empty())
    } else {
        let l1 = ingest_crate_spec(lib, scans[k], reads[k], now);
        let inv = invalidated_ids(lib, scans[k], scans[k].files.len() as int);
        let rest = ingest_from(l1, scans, reads, now, k + 1);
        (rest.0, inv + rest.1)
    }
}

/// One ingest of the music folder, as the program runs it: folder renames,
/// then file renames and moves, then each scanned folder in order, then the
/// emptied crates. The library it leaves and the ids it reports as changed.
pub open spec fn ingest_pass(
    lib: LibraryView,
    scans: Seq<ScanView>,
    empties: Seq<Seq<char>>,
    reads: Seq<Seq<bool>>,
    now: i64,
) -> (LibraryView, Seq<i64>) {
    let l = moves_spec(renames_spec(lib, scans), scans, empties, now);
    let r = ingest_from(l, scans, reads, now, 0);
    (prune_spec(r.0, empties, now), r.1)
}

/// The row of file `fi` of folder `s` exists and its fingerprint is not
/// changed with respect to the file's.
pub open spec fn row_settled(lib: LibraryView, s: ScanView, fi: int) -> bool {
    let j = track_pos(lib.tracks, upsert_id(lib, s), s.files[fi]);
    &&& j >= 0
    &&& !content_changed(lib.tracks[j], s.meta[fi])
}

/// Every scanned folder has its crate and every scanned file its row, which
/// carries the file's fingerprint (or one of the two is unknown): the library
/// is what an ingest of these folders left, with no file changed since.
pub open spec fn settled(lib: LibraryView, scans: Seq<ScanView>) -> bool {
    &&& scan_folders_distinct(scans)
    &&& forall|k: int| 0 <= k < scans.len() ==> scan_wf(#[trigger] scans[k]) && scan_files_distinct(scans[k])
    &&& forall|k: int| 0 <= k < scans.len() ==> crate_pos(lib.crates, #[trigger] scans[k].folder) >= 0
    &&& forall|k1: int, k2: int|
        0 <= k1 < scans.len() && 0 <= k2 < scans.len() && k1 != k2 ==> #[trigger] upsert_id(lib, scans[k1])
            != #[trigger] upsert_id(lib, scans[k2])
    &&& forall|k: int, fi: int| 0 <= k < scans.len() && 0 <= fi < scans[k].files.len() ==> #[trigger] row_settled(lib, scans[k], fi)
}

proof fn lemma_track_pos_push(ts: Seq<TrackView>, t: TrackView, y: i64, f: Seq<char>)
    ensures
        track_pos(ts.push(t), y, f) == (if track_pos(ts, y, f) >= 0 {
            track_pos(ts, y, f)
        } else if t.crate_id == y && t.filename == f {
            ts.len() as int
        } else {
            -1
        }),
{
    assert(ts.push(t).drop_last() =~= ts);
}

proof fn lemma_track_pos_concat(a: Seq<TrackView>, b: Seq<TrackView>, y: i64, f: Seq<char>)
    requires
        track_pos(a, y, f) >= 0,
    ensures
        track_pos(a + b, y, f) == track_pos(a, y, f),
    decreases b.len(),
{
    if b.len() > 0 {
        lemma_track_pos_concat(a, b.drop_last(), y, f);
        assert((a + b).drop_last() =~= a + b.drop_last());
    } else {
        assert(a + b =~= a);
    }
}

/// The ingest never changes a row's crate or file name; it only refreshes,
/// stamps or deletes it.
proof fn lemma_track_after_keeps_key(lib: LibraryView, s: ScanView, read_ok: Seq<bool>, now: i64, j: int)
    requires
        0 <= j < lib.tracks.len(),
        track_after(lib, s, read_ok, now, j) is Some,
    ensures
        track_after(lib, s, read_ok, now, j)->0.crate_id == lib.tracks[j].crate_id,
        track_after(lib, s, read_ok, now, j)->0.filename == lib.tracks[j].filename,
{
}

/// The first row of `(y, f)` after the ingest is what became of the first
/// row of `(y, f)` before it, when that row is kept.
proof fn lemma_track_pos_kept(lib: LibraryView, s: ScanView, read_ok: Seq<bool>, now: i64, y: i64, f: Seq<char>, n: int)
    requires
        0 <= n <= lib.tracks.len(),
        track_pos(lib.tracks, y, f) >= 0,
        track_after(lib, s, read_ok, now, track_pos(lib.tracks, y, f)) is Some,
    ensures
        ({
            let j0 = track_pos(lib.tracks, y, f);
            let kn = kept_tracks(lib, s, read_ok, now, n);
            let p = track_pos(kn, y, f);
            &&& n <= j0 ==> p == -1
            &&& n > j0 ==> 0 <= p < kn.len() && kn[p] == track_after(lib, s, read_ok, now, j0)->0
        }),
    decreases n,
{
    lemma_track_pos(lib.tracks, y, f);
    let j0 = track_pos(lib.tracks, y, f);
    if n > 0 {
        lemma_track_pos_kept(lib, s, read_ok, now, y, f, n - 1);
        let prev = kept_tracks(lib, s, read_ok, now, n - 1);
        match track_after(lib, s, read_ok, now, n - 1) {
            Some(u) => {
                lemma_track_after_keeps_key(lib, s, read_ok, now, n - 1);
                lemma_track_pos_push(prev, u, y, f);
                if n - 1 < j0 {
                    assert(!(lib.tracks[n - 1].crate_id == y && lib.tracks[n - 1].filename == f));
                }
            },
            None => {},
        }
    }
}

proof fn lemma_invalidated_empty(lib: LibraryView, s: ScanView, n: int)
    requires
        0 <= n <= s.files.len(),
        forall|fi: int| 0 <= fi < n ==> #[trigger] row_settled(lib, s, fi),
    ensures
        invalidated_ids(lib, s, n) == Seq::<i64>::empty(),
    decreases n,
{
    if n > 0 {
        lemma_invalidated_empty(lib, s, n - 1);
        assert(row_settled(lib, s, n - 1));
    }
}

proof fn lemma_crate_pos_update(cs: Seq<CrateView>, p: int, c: CrateView, g: Seq<char>)
    requires
        0 <= p < cs.len(),
        c.folder == cs[p].folder,
    ensures
        crate_pos(cs.update(p, c), g) == crate_pos(cs, g),
{
    lemma_crate_pos(cs, g);
    let q = crate_pos(cs, g);
    let cu = cs.update(p, c);
    assert forall|j: int| 0 <= j < cu.len() && (q < 0 || j < q) implies #[trigger] cu[j].folder != g by {
        assert(cs[j].folder != g);
    }
    lemma_crate_pos_char(cu, g, q);
}

/// Ingesting one folder of a settled library reports nothing and leaves the
/// library settled.
proof fn lemma_step_keeps_settled(lib: LibraryView, scans: Seq<ScanView>, reads: Seq<Seq<bool>>, now: i64, k: int)
    requires
        settled(lib, scans),
        0 <= k < scans.len(),
    ensures
        invalidated_ids(lib, scans[k], scans[k].files.len() as int) == Seq::<i64>::empty(),
        settled(ingest_crate_spec(lib, scans[k], reads[k], now), scans),
{
    let s = scans[k];
    let ro = reads[k];
    assert(scan_wf(s) && scan_files_distinct(s));
    assert forall|fi: int| 0 <= fi < s.files.len() implies #[trigger] row_settled(lib, s, fi) by {
        assert(row_settled(lib, scans[k], fi));
    }
    lemma_invalidated_empty(lib, s, s.files.len() as int);
    let l2 = ingest_crate_spec(lib, s, ro, now);
    let x = upsert_id(lib, s);
    assert(crate_pos(lib.crates, scans[k].folder) >= 0);
    lemma_crate_pos(lib.crates, s.folder);
    let p = crate_pos(lib.crates, s.folder);
    let c2 = CrateView { name: s.name, cover_path: s.cover_path, emptied_since: None, ..lib.crates[p] };
    assert(l2.crates == lib.crates.update(p, c2));
    // Every folder finds the crate it found before, under the same id.
    assert forall|g: Seq<char>| #[trigger] crate_pos(l2.crates, g) == crate_pos(lib.crates, g) by {
        lemma_crate_pos_update(lib.crates, p, c2, g);
    }
    assert forall|q: int| 0 <= q < l2.crates.len() implies #[trigger] l2.crates[q].id == lib.crates[q].id by {}
    assert forall|k2: int| 0 <= k2 < scans.len() implies #[trigger] upsert_id(l2, scans[k2]) == upsert_id(lib, scans[k2]) by {
        assert(crate_pos(lib.crates, scans[k2].folder) >= 0);
        lemma_crate_pos(lib.crates, scans[k2].folder);
        let p2 = crate_pos(lib.crates, scans[k2].folder);
        assert(crate_pos(l2.crates, scans[k2].folder) == p2);
        assert(l2.crates[p2].id == lib.crates[p2].id);
    }
    let kept = kept_tracks(lib, s, ro, now, lib.tracks.len() as int);
    let ins = inserted_tracks(lib, s, ro, s.files.len() as int);
    assert(l2.tracks == kept + ins);
    assert forall|k2: int, fi: int| 0 <= k2 < scans.len() && 0 <= fi < scans[k2].files.len() implies #[trigger] row_settled(l2, scans[k2], fi) by {
        let s2 = scans[k2];
        let f = s2.files[fi];
        let y = upsert_id(lib, s2);
        assert(row_settled(lib, s2, fi));
        lemma_track_pos(lib.tracks, y, f);
        let j0 = track_pos(lib.tracks, y, f);
        let t = lib.tracks[j0];
        assert(t.crate_id == y && t.filename == f);
        assert(crate_pos(lib.crates, s2.folder) >= 0);
        lemma_crate_pos(lib.crates, s2.folder);
        if k2 != k {
            assert(upsert_id(lib, scans[k2]) != upsert_id(lib, scans[k]));
        }
        if y == x {
            assert(k2 == k);
            assert(scan_files_distinct(s));
            assert forall|j: int| 0 <= j < s.files.len() && (fi < 0 || j < fi) implies #[trigger] s.files[j] != f by {}
            lemma_file_pos_char(s.files, f, fi);
            assert(track_after(lib, s, ro, now, j0) == Some(refresh_track(t, s.meta[fi], ro[fi])));
        } else {
            assert(track_after(lib, s, ro, now, j0) == Some(t));
        }
        lemma_track_pos_kept(lib, s, ro, now, y, f, lib.tracks.len() as int);
        lemma_track_pos_concat(kept, ins, y, f);
        assert(upsert_id(l2, s2) == y);
    }
}

proof fn lemma_ingest_from_settled(lib: LibraryView, scans: Seq<ScanView>, reads: Seq<Seq<bool>>, now: i64, k: int)
    requires
        settled(lib, scans),
        0 <= k <= scans.len(),
    ensures
        ingest_from(lib, scans, reads, now, k).1 == Seq::<i64>::empty(),
    decreases scans.len() - k,
{
    if k < scans.len() {
        lemma_step_keeps_settled(lib, scans, reads, now, k);
        let l1 = ingest_crate_spec(lib, scans[k], reads[k], now);
        lemma_ingest_from_settled(l1, scans, reads, now, k + 1);
        assert(Seq::<i64>::empty() + Seq::<i64>::empty() =~= Seq::<i64>::empty());
    }
}

proof fn lemma_settled_renames_nothing(lib: LibraryView, scans: Seq<ScanView>)
    requires
        settled(lib, scans),
    ensures
        renames_spec(lib, scans) == lib,
{
    assert forall|i: int, k: int| !#[trigger] rename_match(lib, scans, i, k) by {
        if 0 <= k < scans.len() {
            assert(crate_pos(lib.crates, scans[k].folder) >= 0);
            lemma_crate_pos(lib.crates, scans[k].folder);
            let p = crate_pos(lib.crates, scans[k].folder);
            assert(lib.crates[p].folder == scans[k].folder);
            assert(folder_known(lib.crates, scans[k].folder));
        }
    }
    assert forall|i: int| 0 <= i < lib.crates.len() implies rename_target(lib, scans, i) is None by {
        assert(!exists|k: int| renamed_to(lib, scans, i, k));
    }
    assert(renames_spec(lib, scans).crates =~= lib.crates);
}

proof fn lemma_no_created_crates(
    lib: LibraryView,
    scans: Seq<ScanView>,
    empties: Seq<Seq<char>>,
    now: i64,
    k: int,
)
    requires
        0 <= k,
        forall|x: int| !#[trigger] created_by_move(lib, scans, empties, now, x),
    ensures
        created_crates(lib, scans, empties, now, k) == Seq::<CrateView>::empty(),
        created_before(lib, scans, empties, now, k) == 0,
    decreases k,
{
    if k > 0 {
        lemma_no_created_crates(lib, scans, empties, now, k - 1);
        assert(!created_by_move(lib, scans, empties, now, k - 1));
    }
}

proof fn lemma_settled_moves_nothing(lib: LibraryView, scans: Seq<ScanView>, empties: Seq<Seq<char>>, now: i64)
    requires
        settled(lib, scans),
    ensures
        moves_spec(lib, scans, empties, now) == lib,
{
    assert forall|k: int, fi: int| !#[trigger] fresh_file(lib, scans, k, fi) by {
        if 0 <= k < scans.len() && 0 <= fi < scans[k].files.len() {
            assert(row_settled(lib, scans[k], fi));
            assert(crate_pos(lib.crates, scans[k].folder) >= 0);
            let y = upsert_id(lib, scans[k]);
            let f = scans[k].files[fi];
            lemma_track_pos(lib.tracks, y, f);
            let j = track_pos(lib.tracks, y, f);
            assert(lib.tracks[j].crate_id == y && lib.tracks[j].filename == f);
            assert(crate_has_file(lib.tracks, y, f));
        }
    }
    assert forall|j: int, k: int, fi: int| !#[trigger] moved_to(lib, scans, empties, now, j, k, fi) by {
        assert(!fresh_file(lib, scans, k, fi));
    }
    assert forall|x: int| !#[trigger] created_by_move(lib, scans, empties, now, x) by {
        if created_by_move(lib, scans, empties, now, x) {
            let (j, fi) = choose|j: int, fi: int| #[trigger] moved_to(lib, scans, empties, now, j, x, fi);
            assert(moved_to(lib, scans, empties, now, j, x, fi));
        }
    }
    lemma_no_created_crates(lib, scans, empties, now, scans.len() as int);
    assert forall|j: int| 0 <= j < lib.tracks.len() implies move_of(lib, scans, empties, now, j) is None by {
        assert(!exists|kf: (int, int)| moved_to(lib, scans, empties, now, j, kf.0, kf.1));
    }
    let r = moves_spec(lib, scans, empties, now);
    assert(r.tracks =~= lib.tracks);
    assert(r.crates =~= lib.crates);
}

/// Re-running the ingest over a settled library, one where every scanned
/// folder has its crate and every scanned file its row carrying the file's
/// fingerprint (what an ingest of the same folders leaves when no file has
/// changed since), reports no track as changed: folder renames and moves find
/// nothing to do, and no folder's ingest invalidates a measurement.
pub proof fn law_settled_library_reingest_reports_nothing(
    lib: LibraryView,
    scans: Seq<ScanView>,
    empties: Seq<Seq<char>>,
    reads: Seq<Seq<bool>>,
    now: i64,
)
    requires
        settled(lib, scans),
    ensures
        ingest_pass(lib, scans, empties, reads, now).1 == Seq::<i64>::empty(),
{
    lemma_settled_renames_nothing(lib, scans);
    lemma_settled_moves_nothing(lib, scans, empties, now);
    lemma_ingest_from_settled(lib, scans, reads, now, 0);
}

// ── a first pass leaves the library settled ─────────────────────────────────

/// The `crates` table's invariants: ids are distinct and below the next one
/// handed out.
pub open spec fn crates_ok(lib: LibraryView) -> bool {
    &&& crate_ids_unique(lib.crates)
    &&& forall|c: int| 0 <= c < lib.crates.len() ==> #[trigger] lib.crates[c].id < lib.next_crate_id
}

proof fn lemma_crate_pos_push(cs: Seq<CrateView>, c: CrateView, g: Seq<char>)
    ensures
        crate_pos(cs.push(c), g) == (if crate_pos(cs, g) >= 0 {
            crate_pos(cs, g)
        } else if c.folder == g {
            cs.len() as int
        } else {
            -1
        }),
{
    assert(cs.push(c).drop_last() =~= cs);
}

proof fn lemma_track_pos_concat_second(a: Seq<TrackView>, b: Seq<TrackView>, y: i64, f: Seq<char>)
    requires
        track_pos(a, y, f) < 0,
        track_pos(b, y, f) >= 0,
    ensures
        track_pos(a + b, y, f) == a.len() + track_pos(b, y, f),
    decreases b.len(),
{
    lemma_track_pos(b, y, f);
    let q = track_pos(b, y, f);
    let bd = b.drop_last();
    assert((a + b).drop_last() =~= a + bd);
    lemma_track_pos(bd, y, f);
    if track_pos(bd, y, f) >= 0 {
        lemma_track_pos_concat_second(a, bd, y, f);
        lemma_track_pos_char(b, y, f, track_pos(bd, y, f));
    } else {
        lemma_track_pos_none_concat(a, bd, y, f);
        if q < b.len() - 1 {
            assert(bd[q] == b[q]);
        }
    }
}

proof fn lemma_track_pos_none_concat(a: Seq<TrackView>, b: Seq<TrackView>, y: i64, f: Seq<char>)
    requires
        track_pos(a, y, f) < 0,
        track_pos(b, y, f) < 0,
    ensures
        track_pos(a + b, y, f) < 0,
{
    lemma_track_pos(a, y, f);
    lemma_track_pos(b, y, f);
    let ab = a + b;
    assert forall|j: int| 0 <= j < ab.len() && (-1 < 0 || j < -1) implies !(#[trigger] ab[j].crate_id == y && ab[j].filename == f) by {
        if j < a.len() {
            assert(ab[j] == a[j]);
        } else {
            assert(ab[j] == b[j - a.len()]);
        }
    }
    lemma_track_pos_char(ab, y, f, -1);
}

/// Rows of `(y, f)` only come from rows of `(y, f)`: when there is none
/// before the ingest, none is kept.
proof fn lemma_track_pos_kept_none(lib: LibraryView, s: ScanView, read_ok: Seq<bool>, now: i64, y: i64, f: Seq<char>, n: int)
    requires
        0 <= n <= lib.tracks.len(),
        track_pos(lib.tracks, y, f) < 0,
    ensures
        track_pos(kept_tracks(lib, s, read_ok, now, n), y, f) < 0,
    decreases n,
{
    lemma_track_pos(lib.tracks, y, f);
    if n > 0 {
        lemma_track_pos_kept_none(lib, s, read_ok, now, y, f, n - 1);
        let prev = kept_tracks(lib, s, read_ok, now, n - 1);
        match track_after(lib, s, read_ok, now, n - 1) {
            Some(u) => {
                lemma_track_after_keeps_key(lib, s, read_ok, now, n - 1);
                lemma_track_pos_push(prev, u, y, f);
                assert(!(lib.tracks[n - 1].crate_id == y && lib.tracks[n - 1].filename == f));
            },
            None => {},
        }
    }
}

/// The ingest of a folder leaves every file of it a row that carries the
/// file's fingerprint.
proof fn lemma_step_settles_own(lib: LibraryView, s: ScanView, ro: Seq<bool>, now: i64, fi: int)
    requires
        scan_wf(s),
        scan_files_distinct(s),
        0 <= fi < s.files.len(),
    ensures
        row_settled(ingest_crate_spec(lib, s, ro, now), s, fi),
{
    let l2 = ingest_crate_spec(lib, s, ro, now);
    lemma_upsert_id_stable(lib, s, ro, now);
    let x = upsert_id(lib, s);
    let f = s.files[fi];
    let kept = kept_tracks(lib, s, ro, now, lib.tracks.len() as int);
    let ins = inserted_tracks(lib, s, ro, s.files.len() as int);
    assert(l2.tracks == kept + ins);
    assert forall|j: int| 0 <= j < s.files.len() && (fi < 0 || j < fi) implies #[trigger] s.files[j] != f by {}
    lemma_file_pos_char(s.files, f, fi);
    lemma_track_pos(lib.tracks, x, f);
    let j0 = track_pos(lib.tracks, x, f);
    if j0 >= 0 {
        let t = lib.tracks[j0];
        assert(track_after(lib, s, ro, now, j0) == Some(refresh_track(t, s.meta[fi], ro[fi])));
        lemma_track_pos_kept(lib, s, ro, now, x, f, lib.tracks.len() as int);
        lemma_track_pos_concat(kept, ins, x, f);
    } else {
        lemma_track_pos_kept_none(lib, s, ro, now, x, f, lib.tracks.len() as int);
        lemma_inserted_has(lib, s, ro, s.files.len() as int, fi);
        let nt = new_track_for(lib, s, ro, fi);
        let v = choose|v: int| 0 <= v < ins.len() && ins[v] == nt;
        lemma_track_pos(ins, x, f);
        assert(ins[v].crate_id == x && ins[v].filename == f);
        let q = track_pos(ins, x, f);
        assert(q >= 0);
        lemma_track_pos_concat_second(kept, ins, x, f);
        lemma_inserted_from(lib, s, ro, s.files.len() as int, q);
        let fi2 = choose|fi2: int| 0 <= fi2 < s.files.len() && ins[q] == #[trigger] new_track_for(lib, s, ro, fi2);
        assert(s.files[fi2] == f);
        assert(fi2 == fi);
        assert(l2.tracks[kept.len() + q] == ins[q]);
    }
}

/// The ingest of one folder leaves the crate and the rows of another folder's
/// crate as they were.
proof fn lemma_step_frame(lib: LibraryView, s: ScanView, ro: Seq<bool>, now: i64, s2: ScanView, fi: int)
    requires
        crate_pos(lib.crates, s2.folder) >= 0,
        s2.folder != s.folder,
        upsert_id(lib, s2) != upsert_id(lib, s),
        0 <= fi < s2.files.len(),
        row_settled(lib, s2, fi),
    ensures
        crate_pos(ingest_crate_spec(lib, s, ro, now).crates, s2.folder) == crate_pos(lib.crates, s2.folder),
        upsert_id(ingest_crate_spec(lib, s, ro, now), s2) == upsert_id(lib, s2),
        row_settled(ingest_crate_spec(lib, s, ro, now), s2, fi),
{
    let l2 = ingest_crate_spec(lib, s, ro, now);
    lemma_crate_pos(lib.crates, s2.folder);
    let p2 = crate_pos(lib.crates, s2.folder);
    lemma_crate_pos(lib.crates, s.folder);
    let p = crate_pos(lib.crates, s.folder);
    if p >= 0 {
        let c2 = CrateView { name: s.name, cover_path: s.cover_path, emptied_since: None, ..lib.crates[p] };
        assert(l2.crates == lib.crates.update(p, c2));
        lemma_crate_pos_update(lib.crates, p, c2, s2.folder);
        assert(l2.crates[p2].id == lib.crates[p2].id);
    } else {
        lemma_crate_pos_push(lib.crates, new_crate_for(s, lib.next_crate_id), s2.folder);
        assert(l2.crates[p2] == lib.crates[p2]);
    }
    let x = upsert_id(lib, s);
    let y = upsert_id(lib, s2);
    let f = s2.files[fi];
    let kept = kept_tracks(lib, s, ro, now, lib.tracks.len() as int);
    let ins = inserted_tracks(lib, s, ro, s.files.len() as int);
    assert(l2.tracks == kept + ins);
    lemma_track_pos(lib.tracks, y, f);
    let j0 = track_pos(lib.tracks, y, f);
    assert(track_after(lib, s, ro, now, j0) == Some(lib.tracks[j0]));
    lemma_track_pos_kept(lib, s, ro, now, y, f, lib.tracks.len() as int);
    lemma_track_pos_concat(kept, ins, y, f);
}

/// The ingest of one folder keeps the `crates` table's invariants and leaves
/// the folder a crate.
proof fn lemma_step_crates_ok(lib: LibraryView, s: ScanView, ro: Seq<bool>, now: i64)
    requires
        crates_ok(lib),
        lib.next_crate_id < i64::MAX,
    ensures
        crates_ok(ingest_crate_spec(lib, s, ro, now)),
        ingest_crate_spec(lib, s, ro, now).next_crate_id <= lib.next_crate_id + 1,
        crate_pos(ingest_crate_spec(lib, s, ro, now).crates, s.folder) >= 0,
{
    let l2 = ingest_crate_spec(lib, s, ro, now);
    lemma_upsert_id_stable(lib, s, ro, now);
    lemma_crate_pos(lib.crates, s.folder);
    let p = crate_pos(lib.crates, s.folder);
    if p >= 0 {
        assert forall|c: int| 0 <= c < l2.crates.len() implies #[trigger] l2.crates[c].id == lib.crates[c].id by {}
        assert(crate_ids_unique(l2.crates));
    } else {
        assert forall|c: int| 0 <= c < lib.crates.len() implies #[trigger] l2.crates[c] == lib.crates[c] by {}
        assert(l2.crates[lib.crates.len() as int].id == lib.next_crate_id);
        assert(crate_ids_unique(l2.crates));
    }
}

/// Scanned folders hold files with distinct names, their lists parallel.
pub open spec fn scans_ok(scans: Seq<ScanView>) -> bool {
    &&& scan_folders_distinct(scans)
    &&& forall|k: int| 0 <= k < scans.len() ==> scan_wf(#[trigger] scans[k]) && scan_files_distinct(scans[k])
}

/// The folders before `k` have their crates and their files' rows carry the
/// files' fingerprints.
pub open spec fn settled_upto(lib: LibraryView, scans: Seq<ScanView>, k: int) -> bool {
    &&& forall|k2: int| 0 <= k2 < k ==> crate_pos(lib.crates, #[trigger] scans[k2].folder) >= 0
    &&& forall|k2: int, fi: int| 0 <= k2 < k && 0 <= fi < scans[k2].files.len() ==> #[trigger] row_settled(lib, scans[k2], fi)
}

proof fn lemma_distinct_folders_distinct_ids(lib: LibraryView, s1: ScanView, s2: ScanView)
    requires
        crates_ok(lib),
        crate_pos(lib.crates, s1.folder) >= 0,
        s1.folder != s2.folder,
    ensures
        upsert_id(lib, s1) != upsert_id(lib, s2),
{
    lemma_crate_pos(lib.crates, s1.folder);
    lemma_crate_pos(lib.crates, s2.folder);
    let p1 = crate_pos(lib.crates, s1.folder);
    let p2 = crate_pos(lib.crates, s2.folder);
    if p2 >= 0 {
        assert(lib.crates[p1].folder != lib.crates[p2].folder);
        assert(lib.crates[p1].id != lib.crates[p2].id);
    } else {
        assert(lib.crates[p1].id < lib.next_crate_id);
    }
}

/// Ingesting the folders `k..` in order leaves every folder its crate and
/// every file a row carrying its fingerprint.
proof fn lemma_steps_settle(lib: LibraryView, scans: Seq<ScanView>, reads: Seq<Seq<bool>>, now: i64, k: int)
    requires
        0 <= k <= scans.len(),
        crates_ok(lib),
        lib.next_crate_id + (scans.len() - k) <= i64::MAX,
        scans_ok(scans),
        settled_upto(lib, scans, k),
    ensures
        crates_ok(ingest_from(lib, scans, reads, now, k).0),
        settled_upto(ingest_from(lib, scans, reads, now, k).0, scans, scans.len() as int),
    decreases scans.len() - k,
{
    if k < scans.len() {
        let s = scans[k];
        let ro = reads[k];
        let l1 = ingest_crate_spec(lib, s, ro, now);
        assert(scan_wf(s) && scan_files_distinct(s));
        lemma_step_crates_ok(lib, s, ro, now);
        assert forall|k2: int| 0 <= k2 < k + 1 implies crate_pos(l1.crates, #[trigger] scans[k2].folder) >= 0 by {
            if k2 < k {
                assert(crate_pos(lib.crates, scans[k2].folder) >= 0);
                assert(scans[k2].folder != s.folder);
                lemma_distinct_folders_distinct_ids(lib, scans[k2], s);
                lemma_crate_pos(lib.crates, scans[k2].folder);
                lemma_crate_pos(lib.crates, s.folder);
                let p = crate_pos(lib.crates, s.folder);
                if p >= 0 {
                    let c2 = CrateView { name: s.name, cover_path: s.cover_path, emptied_since: None, ..lib.crates[p] };
                    assert(l1.crates == lib.crates.update(p, c2));
                    lemma_crate_pos_update(lib.crates, p, c2, scans[k2].folder);
                } else {
                    lemma_crate_pos_push(lib.crates, new_crate_for(s, lib.next_crate_id), scans[k2].folder);
                }
            }
        }
        assert forall|k2: int, fi: int| 0 <= k2 < k + 1 && 0 <= fi < scans[k2].files.len() implies #[trigger] row_settled(l1, scans[k2], fi) by {
            if k2 < k {
                assert(crate_pos(lib.crates, scans[k2].folder) >= 0);
                assert(scans[k2].folder != s.folder);
                lemma_distinct_folders_distinct_ids(lib, scans[k2], s);
                assert(row_settled(lib, scans[k2], fi));
                lemma_step_frame(lib, s, ro, now, scans[k2], fi);
            } else {
                lemma_step_settles_own(lib, s, ro, now, fi);
            }
        }
        lemma_steps_settle(l1, scans, reads, now, k + 1);
    }
}

proof fn lemma_crate_pos_pruned(cs: Seq<CrateView>, empties: Seq<Seq<char>>, now: i64, g: Seq<char>, n: int)
    requires
        0 <= n <= cs.len(),
        !empties.contains(g),
        crate_pos(cs, g) >= 0,
    ensures
        ({
            let p = crate_pos(cs, g);
            let kn = kept_crates(cs, empties, now, n);
            let q = crate_pos(kn, g);
            &&& n <= p ==> q == -1
            &&& n > p ==> 0 <= q < kn.len() && kn[q] == cs[p]
        }),
    decreases n,
{
    lemma_crate_pos(cs, g);
    let p = crate_pos(cs, g);
    if n > 0 {
        lemma_crate_pos_pruned(cs, empties, now, g, n - 1);
        let prev = kept_crates(cs, empties, now, n - 1);
        match crate_after_prune(cs[n - 1], empties, now) {
            Some(c) => {
                assert(c.folder == cs[n - 1].folder);
                lemma_crate_pos_push(prev, c, g);
                if n - 1 == p {
                    assert(c == cs[p]);
                }
            },
            None => {
                assert(n - 1 != p);
            },
        }
    }
}

proof fn lemma_track_pos_surviving(lib: LibraryView, empties: Seq<Seq<char>>, now: i64, y: i64, f: Seq<char>, n: int)
    requires
        0 <= n <= lib.tracks.len(),
        track_pos(lib.tracks, y, f) >= 0,
        !track_cascaded(lib, lib.tracks[track_pos(lib.tracks, y, f)], empties, now),
    ensures
        ({
            let j0 = track_pos(lib.tracks, y, f);
            let sn = tracks_surviving(lib, empties, now, n);
            let q = track_pos(sn, y, f);
            &&& n <= j0 ==> q == -1
            &&& n > j0 ==> 0 <= q < sn.len() && sn[q] == lib.tracks[j0]
        }),
    decreases n,
{
    lemma_track_pos(lib.tracks, y, f);
    let j0 = track_pos(lib.tracks, y, f);
    if n > 0 {
        lemma_track_pos_surviving(lib, empties, now, y, f, n - 1);
        let prev = tracks_surviving(lib, empties, now, n - 1);
        if !track_cascaded(lib, lib.tracks[n - 1], empties, now) {
            lemma_track_pos_push(prev, lib.tracks[n - 1], y, f);
        }
    }
}

/// Pruning emptied crates never touches the crate or the rows of a folder
/// that is scanned with audio.
proof fn lemma_prune_keeps_settled(lib: LibraryView, scans: Seq<ScanView>, empties: Seq<Seq<char>>, now: i64)
    requires
        crates_ok(lib),
        scans_ok(scans),
        settled_upto(lib, scans, scans.len() as int),
        forall|k: int| 0 <= k < scans.len() ==> !empties.contains(#[trigger] scans[k].folder),
    ensures
        settled(prune_spec(lib, empties, now), scans),
{
    let r = prune_spec(lib, empties, now);
    let n = lib.crates.len() as int;
    assert forall|k: int| 0 <= k < scans.len() implies #[trigger] upsert_id(r, scans[k]) == upsert_id(lib, scans[k])
        && crate_pos(r.crates, scans[k].folder) >= 0 by {
        assert(crate_pos(lib.crates, scans[k].folder) >= 0);
        assert(!empties.contains(scans[k].folder));
        lemma_crate_pos(lib.crates, scans[k].folder);
        lemma_crate_pos_pruned(lib.crates, empties, now, scans[k].folder, n);
    }
    assert forall|k1: int, k2: int|
        0 <= k1 < scans.len() && 0 <= k2 < scans.len() && k1 != k2 implies #[trigger] upsert_id(r, scans[k1])
            != #[trigger] upsert_id(r, scans[k2]) by {
        assert(upsert_id(r, scans[k1]) == upsert_id(lib, scans[k1]));
        assert(upsert_id(r, scans[k2]) == upsert_id(lib, scans[k2]));
        assert(crate_pos(lib.crates, scans[k1].folder) >= 0);
        lemma_distinct_folders_distinct_ids(lib, scans[k1], scans[k2]);
    }
    assert forall|k: int| 0 <= k < scans.len() implies crate_pos(r.crates, #[trigger] scans[k].folder) >= 0 by {
        assert(upsert_id(r, scans[k]) == upsert_id(lib, scans[k]));
    }
    assert forall|k: int, fi: int| 0 <= k < scans.len() && 0 <= fi < scans[k].files.len() implies #[trigger] row_settled(r, scans[k], fi) by {
        let sk = scans[k];
        assert(upsert_id(r, sk) == upsert_id(lib, sk));
        assert(row_settled(lib, sk, fi));
        let y = upsert_id(lib, sk);
        let f = sk.files[fi];
        lemma_track_pos(lib.tracks, y, f);
        let j0 = track_pos(lib.tracks, y, f);
        assert(crate_pos(lib.crates, sk.folder) >= 0);
        lemma_crate_pos(lib.crates, sk.folder);
        let p = crate_pos(lib.crates, sk.folder);
        assert(!empties.contains(sk.folder));
        if track_cascaded(lib, lib.tracks[j0], empties, now) {
            let c = choose|c: int| 0 <= c < lib.crates.len() && #[trigger] crate_pruned(lib.crates[c], empties, now) && lib.crates[c].id == lib.tracks[j0].crate_id;
            assert(lib.crates[c].id == lib.crates[p].id);
            assert(c == p);
        }
        lemma_track_pos_surviving(lib, empties, now, y, f, lib.tracks.len() as int);
    }
}

// ── renames and moves keep the crates table's invariants ────────────────────

proof fn lemma_renames_crates_ok(lib: LibraryView, scans: Seq<ScanView>)
    requires
        crates_ok(lib),
    ensures
        crates_ok(renames_spec(lib, scans)),
        renames_spec(lib, scans).next_crate_id == lib.next_crate_id,
{
    let r = renames_spec(lib, scans);
    assert forall|i: int| 0 <= i < lib.crates.len() implies #[trigger] r.crates[i].id == lib.crates[i].id by {
        law_renames_keep_ids_and_tracks(lib, scans, i);
    }
}

/// The smallest fingerprint of a move of one of the rows before `m` into
/// folder `k`, if any.
proof fn lemma_min_move(
    lib: LibraryView,
    scans: Seq<ScanView>,
    empties: Seq<Seq<char>>,
    now: i64,
    k: int,
    m: int,
) -> (r: Option<(i64, i64)>)
    requires
        0 <= m,
    ensures
        match r {
            Some(fp) => moves_into_with(lib, scans, empties, now, k, fp) && forall|j: int, fi: int|
                0 <= j < m && #[trigger] moved_to(lib, scans, empties, now, j, k, fi) ==> !fp_lt(track_fp(lib.tracks[j]), fp),
            None => forall|j: int, fi: int| 0 <= j < m ==> !#[trigger] moved_to(lib, scans, empties, now, j, k, fi),
        },
    decreases m,
{
    if m == 0 {
        None
    } else {
        let r0 = lemma_min_move(lib, scans, empties, now, k, m - 1);
        let j = m - 1;
        if exists|fi: int| #[trigger] moved_to(lib, scans, empties, now, j, k, fi) {
            let fi = choose|fi: int| #[trigger] moved_to(lib, scans, empties, now, j, k, fi);
            let fp = track_fp(lib.tracks[j]);
            assert(moves_into_with(lib, scans, empties, now, k, fp));
            match r0 {
                None => Some(fp),
                Some(b) => {
                    if fp_lt(fp, b) {
                        Some(fp)
                    } else {
                        Some(b)
                    }
                },
            }
        } else {
            r0
        }
    }
}

proof fn lemma_first_exists(lib: LibraryView, scans: Seq<ScanView>, empties: Seq<Seq<char>>, now: i64, k: int) -> (fp: (i64, i64))
    requires
        created_by_move(lib, scans, empties, now, k),
    ensures
        first_move_fp(lib, scans, empties, now, k, fp),
{
    let r = lemma_min_move(lib, scans, empties, now, k, lib.tracks.len() as int);
    let (j, fi) = choose|j: int, fi: int| #[trigger] moved_to(lib, scans, empties, now, j, k, fi);
    assert(moved_to(lib, scans, empties, now, j, k, fi));
    assert(0 <= j < lib.tracks.len());
    let fp = r->0;
    assert forall|fp2: (i64, i64)| #[trigger] moves_into_with(lib, scans, empties, now, k, fp2) implies !fp_lt(fp2, fp) by {
        let (j2, f2) = choose|j2: int, f2: int| #[trigger] moved_to(lib, scans, empties, now, j2, k, f2) && track_fp(lib.tracks[j2]) == fp2;
        assert(moved_to(lib, scans, empties, now, j2, k, f2));
        assert(0 <= j2 < lib.tracks.len());
    }
    fp
}

proof fn lemma_not_earlier_than_itself(lib: LibraryView, scans: Seq<ScanView>, empties: Seq<Seq<char>>, now: i64, k: int)
    ensures
        !moved_into_earlier(lib, scans, empties, now, k, k),
{
    if moved_into_earlier(lib, scans, empties, now, k, k) {
        let fp = choose|fp: (i64, i64)|
            #[trigger] moves_into_with(lib, scans, empties, now, k, fp) && forall|fp2: (i64, i64)|
                #[trigger] moves_into_with(lib, scans, empties, now, k, fp2) ==> fp_lt(fp, fp2);
        assert(fp_lt(fp, fp));
    }
}

proof fn lemma_created_earlier_below(
    lib: LibraryView,
    scans: Seq<ScanView>,
    empties: Seq<Seq<char>>,
    now: i64,
    k: int,
    m: int,
)
    requires
        0 <= m,
        created_by_move(lib, scans, empties, now, k),
    ensures
        created_earlier(lib, scans, empties, now, k, m) + (if k < m { 1int } else { 0int }) <= created_before(
            lib,
            scans,
            empties,
            now,
            m,
        ),
    decreases m,
{
    if m > 0 {
        lemma_created_earlier_below(lib, scans, empties, now, k, m - 1);
        lemma_not_earlier_than_itself(lib, scans, empties, now, k);
    }
}

proof fn lemma_created_before_le(lib: LibraryView, scans: Seq<ScanView>, empties: Seq<Seq<char>>, now: i64, m: int)
    requires
        0 <= m,
    ensures
        0 <= created_before(lib, scans, empties, now, m) <= m,
        created_crates(lib, scans, empties, now, m).len() == created_before(lib, scans, empties, now, m),
    decreases m,
{
    if m > 0 {
        lemma_created_before_le(lib, scans, empties, now, m - 1);
    }
}

/// Two folders whose crates moves create get distinct ids.
proof fn lemma_created_ids_distinct(
    lib: LibraryView,
    scans: Seq<ScanView>,
    empties: Seq<Seq<char>>,
    now: i64,
    k1: int,
    k2: int,
)
    requires
        lib.next_crate_id + scans.len() <= i64::MAX,
        0 <= k1 < scans.len(),
        0 <= k2 < scans.len(),
        k1 != k2,
        created_by_move(lib, scans, empties, now, k1),
        created_by_move(lib, scans, empties, now, k2),
    ensures
        new_crate_id(lib, scans, empties, now, k1) != new_crate_id(lib, scans, empties, now, k2),
{
    let n = scans.len() as int;
    let f1 = lemma_first_exists(lib, scans, empties, now, k1);
    let f2 = lemma_first_exists(lib, scans, empties, now, k2);
    if f1 == f2 {
        let (j1, i1) = choose|j: int, fi: int| #[trigger] moved_to(lib, scans, empties, now, j, k1, fi) && track_fp(lib.tracks[j]) == f1;
        let (j2, i2) = choose|j: int, fi: int| #[trigger] moved_to(lib, scans, empties, now, j, k2, fi) && track_fp(lib.tracks[j]) == f2;
        assert(moved_to(lib, scans, empties, now, j1, k1, i1));
        assert(moved_to(lib, scans, empties, now, j2, k2, i2));
        assert(fresh_file(lib, scans, k2, i2));
        assert(meta_fp(scans[k2].meta[i2]) == track_fp(lib.tracks[j1]));
    }
    lemma_created_earlier_le(lib, scans, empties, now, k1, n);
    lemma_created_earlier_le(lib, scans, empties, now, k2, n);
    lemma_first_moves_order(lib, scans, empties, now, k1, f1, k2, f2);
    lemma_first_moves_order(lib, scans, empties, now, k2, f2, k1, f1);
    if fp_lt(f1, f2) {
        lemma_created_earlier_ordered(lib, scans, empties, now, k1, k2, n);
    } else {
        assert(fp_lt(f2, f1));
        lemma_created_earlier_ordered(lib, scans, empties, now, k2, k1, n);
    }
}

/// The crates that moves create for the folders before `m` carry distinct
/// ids, each that of a folder before `m` whose crate a move creates.
pub open spec fn created_ids_ok(lib: LibraryView, scans: Seq<ScanView>, empties: Seq<Seq<char>>, now: i64, m: int) -> bool {
    let cc = created_crates(lib, scans, empties, now, m);
    &&& forall|r: int| 0 <= r < cc.len() ==> #[trigger] created_id_of(lib, scans, empties, now, m, cc[r].id)
    &&& forall|r1: int, r2: int| 0 <= r1 < cc.len() && 0 <= r2 < cc.len() && r1 != r2 ==> #[trigger] cc[r1].id != #[trigger] cc[r2].id
}

/// `id` is the new id of a folder before `m` whose crate a move creates.
pub open spec fn created_id_of(lib: LibraryView, scans: Seq<ScanView>, empties: Seq<Seq<char>>, now: i64, m: int, id: i64) -> bool {
    exists|k: int| 0 <= k < m && created_by_move(lib, scans, empties, now, k) && id == #[trigger] new_crate_id(lib, scans, empties, now, k)
}

proof fn lemma_created_crates_ids(lib: LibraryView, scans: Seq<ScanView>, empties: Seq<Seq<char>>, now: i64, m: int)
    requires
        lib.next_crate_id + scans.len() <= i64::MAX,
        0 <= m <= scans.len(),
    ensures
        created_ids_ok(lib, scans, empties, now, m),
    decreases m,
{
    if m > 0 {
        lemma_created_crates_ids(lib, scans, empties, now, m - 1);
        let prev = created_crates(lib, scans, empties, now, m - 1);
        let cc = created_crates(lib, scans, empties, now, m);
        assert forall|r: int| 0 <= r < prev.len() implies #[trigger] created_id_of(lib, scans, empties, now, m, prev[r].id) by {
            assert(created_id_of(lib, scans, empties, now, m - 1, prev[r].id));
            let k = choose|k: int| 0 <= k < m - 1 && created_by_move(lib, scans, empties, now, k) && prev[r].id == #[trigger] new_crate_id(lib, scans, empties, now, k);
            assert(new_crate_id(lib, scans, empties, now, k) == prev[r].id);
        }
        if created_by_move(lib, scans, empties, now, m - 1) {
            let nid = new_crate_id(lib, scans, empties, now, m - 1);
            assert(cc == prev.push(new_crate_for(scans[m - 1], nid)));
            assert forall|r: int| 0 <= r < prev.len() implies #[trigger] prev[r].id != nid by {
                assert(created_id_of(lib, scans, empties, now, m - 1, prev[r].id));
                let k = choose|k: int| 0 <= k < m - 1 && created_by_move(lib, scans, empties, now, k) && prev[r].id == #[trigger] new_crate_id(lib, scans, empties, now, k);
                lemma_created_ids_distinct(lib, scans, empties, now, k, m - 1);
            }
            assert forall|r: int| 0 <= r < cc.len() implies #[trigger] created_id_of(lib, scans, empties, now, m, cc[r].id) by {
                if r < prev.len() {
                    assert(cc[r] == prev[r]);
                    assert(created_id_of(lib, scans, empties, now, m, prev[r].id));
                } else {
                    assert(cc[r].id == nid);
                    assert(created_id_of(lib, scans, empties, now, m, nid));
                }
            }
            assert forall|r1: int, r2: int| 0 <= r1 < cc.len() && 0 <= r2 < cc.len() && r1 != r2 implies #[trigger] cc[r1].id != #[trigger] cc[r2].id by {
                if r1 < prev.len() && r2 < prev.len() {
                    assert(cc[r1] == prev[r1] && cc[r2] == prev[r2]);
                } else if r1 < prev.len() {
                    assert(cc[r1] == prev[r1]);
                    assert(prev[r1].id != nid);
                } else {
                    assert(cc[r2] == prev[r2]);
                    assert(prev[r2].id != nid);
                }
            }
        } else {
            assert(cc == prev);
        }
    }
}

/// Re-attaching moved files keeps the `crates` table's invariants: the
/// crates it creates take fresh ids, distinct from each other and from every
/// existing one.
proof fn lemma_moves_crates_ok(lib: LibraryView, scans: Seq<ScanView>, empties: Seq<Seq<char>>, now: i64)
    requires
        crates_ok(lib),
        lib.next_crate_id + scans.len() <= i64::MAX,
    ensures
        crates_ok(moves_spec(lib, scans, empties, now)),
        moves_spec(lib, scans, empties, now).next_crate_id <= lib.next_crate_id + scans.len(),
{
    let n = scans.len() as int;
    let r = moves_spec(lib, scans, empties, now);
    let cc = created_crates(lib, scans, empties, now, n);
    let cb = created_before(lib, scans, empties, now, n);
    lemma_created_before_le(lib, scans, empties, now, n);
    lemma_created_crates_ids(lib, scans, empties, now, n);
    assert(r.crates == lib.crates + cc);
    assert(r.next_crate_id == lib.next_crate_id + cb);
    // Every created id lies in [next, next + created).
    assert forall|q: int| 0 <= q < cc.len() implies lib.next_crate_id <= #[trigger] cc[q].id < lib.next_crate_id + cb by {
        assert(created_id_of(lib, scans, empties, now, n, cc[q].id));
        let k = choose|k: int| 0 <= k < n && created_by_move(lib, scans, empties, now, k) && cc[q].id == #[trigger] new_crate_id(lib, scans, empties, now, k);
        lemma_created_earlier_le(lib, scans, empties, now, k, n);
        lemma_created_earlier_below(lib, scans, empties, now, k, n);
    }
    let lc = lib.crates.len() as int;
    assert forall|a: int, b: int| 0 <= a < r.crates.len() && 0 <= b < r.crates.len() && a != b implies #[trigger] r.crates[a].id != #[trigger] r.crates[b].id by {
        if a < lc && b < lc {
            assert(r.crates[a] == lib.crates[a] && r.crates[b] == lib.crates[b]);
        } else if a < lc {
            assert(r.crates[a] == lib.crates[a] && r.crates[b] == cc[b - lc]);
            assert(lib.crates[a].id < lib.next_crate_id);
        } else if b < lc {
            assert(r.crates[b] == lib.crates[b] && r.crates[a] == cc[a - lc]);
            assert(lib.crates[b].id < lib.next_crate_id);
        } else {
            assert(r.crates[a] == cc[a - lc] && r.crates[b] == cc[b - lc]);
        }
    }
    assert forall|c: int| 0 <= c < r.crates.len() implies #[trigger] r.crates[c].id < r.next_crate_id by {
        if c < lc {
            assert(r.crates[c] == lib.crates[c]);
            assert(lib.crates[c].id < lib.next_crate_id);
        } else {
            assert(r.crates[c] == cc[c - lc]);
        }
    }
}

/// An ingest pass over the music folder leaves the library settled: every
/// scanned folder has its crate and every scanned file its row carrying the
/// file's fingerprint. So running the ingest again with no file changed on
/// disk reports no track as changed (and no loudness measurement is thrown
/// away). Needed: the `crates` table's invariants, room in the id space for a
/// new crate per scanned folder at the moves and again at the upserts, file
/// listings with distinct names, and folders without audio kept apart from
/// the scanned ones (as splitting the scan does).
pub proof fn law_reingest_after_a_pass_reports_nothing(
    lib: LibraryView,
    scans: Seq<ScanView>,
    empties: Seq<Seq<char>>,
    reads1: Seq<Seq<bool>>,
    now1: i64,
    reads2: Seq<Seq<bool>>,
    now2: i64,
)
    requires
        crates_ok(lib),
        lib.next_crate_id + 2 * scans.len() <= i64::MAX,
        scans_ok(scans),
        forall|k: int| 0 <= k < scans.len() ==> !empties.contains(#[trigger] scans[k].folder),
    ensures
        settled(ingest_pass(lib, scans, empties, reads1, now1).0, scans),
        ingest_pass(ingest_pass(lib, scans, empties, reads1, now1).0, scans, empties, reads2, now2).1
            == Seq::<i64>::empty(),
{
    let l1 = renames_spec(lib, scans);
    lemma_renames_crates_ok(lib, scans);
    let l2 = moves_spec(l1, scans, empties, now1);
    lemma_moves_crates_ok(l1, scans, empties, now1);
    lemma_steps_settle(l2, scans, reads1, now1, 0);
    let r = ingest_from(l2, scans, reads1, now1, 0).0;
    lemma_prune_keeps_settled(r, scans, empties, now1);
    let p = ingest_pass(lib, scans, empties, reads1, now1).0;
    assert(p == prune_spec(r, empties, now1));
    law_settled_library_reingest_reports_nothing(p, scans, empties, reads2, now2);
}

// ── what each operation is for, stated on its inputs ────────────────────────

/// The ingest of a scanned folder leaves the folder's crate row carrying the
/// scanned name and cover image (a cover added to, changed in or removed from
/// the folder is picked up) with no pending emptied stamp; an existing crate
/// keeps its id.
pub proof fn law_ingest_takes_the_scanned_name_and_cover(lib: LibraryView, s: ScanView, read_ok: Seq<bool>, now: i64)
    ensures
        ({
            let cs = ingest_crate_spec(lib, s, read_ok, now).crates;
            let c = crate_pos(cs, s.folder);
            &&& 0 <= c < cs.len()
            &&& cs[c].folder == s.folder
            &&& cs[c].name == s.name
            &&& cs[c].cover_path == s.cover_path
            &&& cs[c].emptied_since is None
            &&& crate_pos(lib.crates, s.folder) >= 0 ==> cs[c].id == lib.crates[crate_pos(lib.crates, s.folder)].id
        }),
{
    let cs = ingest_crate_spec(lib, s, read_ok, now).crates;
    lemma_crate_pos(lib.crates, s.folder);
    let p = crate_pos(lib.crates, s.folder);
    if p >= 0 {
        let c2 = CrateView { name: s.name, cover_path: s.cover_path, emptied_since: None, ..lib.crates[p] };
        assert(cs == lib.crates.update(p, c2));
        lemma_crate_pos_update(lib.crates, p, c2, s.folder);
    } else {
        let nc = new_crate_for(s, lib.next_crate_id);
        assert(cs == lib.crates.push(nc));
        lemma_crate_pos_push(lib.crates, nc, s.folder);
    }
}

/// The plugin names a `PluginDesc` element gives through `path`, when
/// present and not empty.
proof fn lemma_plugin_name_listed(ns: Seq<XmlNodeView>, d: int, n: int, v: Seq<char>)
    requires
        0 <= d < n <= ns.len(),
        elem_named(ns, d, "PluginDesc"@),
        crate::als::plugin_names_at(ns, d).contains(v),
    ensures
        crate::als::plugin_candidates(ns, n).contains(v),
    decreases n,
{
    let prev = crate::als::plugin_candidates(ns, n - 1);
    if d < n - 1 {
        lemma_plugin_name_listed(ns, d, n - 1, v);
        let i = choose|i: int| 0 <= i < prev.len() && prev[i] == v;
        let cur = crate::als::plugin_candidates(ns, n);
        assert(cur[i] == v);
    } else {
        let names = crate::als::plugin_names_at(ns, d);
        let i = choose|i: int| 0 <= i < names.len() && names[i] == v;
        let cur = crate::als::plugin_candidates(ns, n);
        assert(cur == prev + names);
        assert(cur[prev.len() + i] == v);
    }
}

/// Every plugin a Live Set names is listed: for each `PluginDesc` element,
/// the non-empty `Value` of its `VstPluginInfo/PlugName`, of its
/// `Vst3PluginInfo/Name` and of its `AuPluginInfo/Name` is among the
/// plugins read from the set.
pub proof fn law_every_plugin_is_listed(ns: Seq<XmlNodeView>, file_mod_date: i64, created_date: i64, d: int)
    requires
        0 <= d < ns.len(),
        ns[d].is_element,
        ns[d].name == "PluginDesc"@,
        als_meta_spec(ns, file_mod_date, created_date) is Some,
    ensures
        ({
            let ps = als_meta_spec(ns, file_mod_date, created_date)->0.plugins;
            &&& forall|v: Seq<char>|
                value_of(ns, chain_spec(ns, d, seq!["VstPluginInfo"@, "PlugName"@])) == Some(v) && v.len() > 0 ==> #[trigger] ps.contains(v)
            &&& forall|v: Seq<char>|
                value_of(ns, chain_spec(ns, d, seq!["Vst3PluginInfo"@, "Name"@])) == Some(v) && v.len() > 0 ==> #[trigger] ps.contains(v)
            &&& forall|v: Seq<char>|
                value_of(ns, chain_spec(ns, d, seq!["AuPluginInfo"@, "Name"@])) == Some(v) && v.len() > 0 ==> #[trigger] ps.contains(v)
        }),
{
    let cands = crate::als::plugin_candidates(ns, ns.len() as int);
    law_dedup_lists_each_name_once(cands);
    let a = crate::als::nonempty_value(value_of(ns, chain_spec(ns, d, seq!["VstPluginInfo"@, "PlugName"@])));
    let b = crate::als::nonempty_value(value_of(ns, chain_spec(ns, d, seq!["Vst3PluginInfo"@, "Name"@])));
    let c = crate::als::nonempty_value(value_of(ns, chain_spec(ns, d, seq!["AuPluginInfo"@, "Name"@])));
    let names = crate::als::plugin_names_at(ns, d);
    assert(names == a + b + c);
    let ps = als_meta_spec(ns, file_mod_date, created_date)->0.plugins;
    assert(ps == dedup(cands));
    assert forall|v: Seq<char>|
        value_of(ns, chain_spec(ns, d, seq!["VstPluginInfo"@, "PlugName"@])) == Some(v) && v.len() > 0 implies #[trigger] ps.contains(v) by {
        assert(names[0] == v);
        lemma_plugin_name_listed(ns, d, ns.len() as int, v);
    }
    assert forall|v: Seq<char>|
        value_of(ns, chain_spec(ns, d, seq!["Vst3PluginInfo"@, "Name"@])) == Some(v) && v.len() > 0 implies #[trigger] ps.contains(v) by {
        assert(names[a.len() as int] == v);
        lemma_plugin_name_listed(ns, d, ns.len() as int, v);
    }
    assert forall|v: Seq<char>|
        value_of(ns, chain_spec(ns, d, seq!["AuPluginInfo"@, "Name"@])) == Some(v) && v.len() > 0 implies #[trigger] ps.contains(v) by {
        assert(names[(a.len() + b.len()) as int] == v);
        lemma_plugin_name_listed(ns, d, ns.len() as int, v);
    }
}

proof fn lemma_last_dot_of_extension(x: Seq<char>, w: Seq<char>)
    requires
        forall|i: int| 0 <= i < w.len() ==> #[trigger] w[i] != '.',
    ensures
        crate::text::last_index_of(x + seq!['.'] + w, '.') == x.len(),
    decreases w.len(),
{
    let s = x + seq!['.'] + w;
    if w.len() == 0 {
        assert(s.last() == '.');
    } else {
        assert(s.last() == w.last());
        assert(w.last() != '.');
        assert(s.drop_last() =~= x + seq!['.'] + w.drop_last());
        lemma_last_dot_of_extension(x, w.drop_last());
    }
}

/// A lowercased file name `<stem>.<ext>`, whose `<ext>` has no dot, counts
/// as audio exactly when `.<ext>` is one of `.wav`, `.aiff`, `.aif`, `.mp3`,
/// `.flac`, `.m4a` and `.ogg`, whatever the stem (dots included). A name
/// without a dot is never audio.
pub proof fn law_audio_extensions(stem: Seq<char>, ext: Seq<char>, bare: Seq<char>)
    requires
        forall|i: int| 0 <= i < ext.len() ==> #[trigger] ext[i] != '.',
        forall|i: int| 0 <= i < bare.len() ==> #[trigger] bare[i] != '.',
    ensures
        crate::scan::has_audio_ext_spec(stem + seq!['.'] + ext) <==> {
            let e = seq!['.'] + ext;
            ||| e == ".wav"@
            ||| e == ".aiff"@
            ||| e == ".aif"@
            ||| e == ".mp3"@
            ||| e == ".flac"@
            ||| e == ".m4a"@
            ||| e == ".ogg"@
        },
        !crate::scan::has_audio_ext_spec(bare),
{
    lemma_last_dot_of_extension(stem, ext);
    let s = stem + seq!['.'] + ext;
    assert(s.skip(stem.len() as int) =~= seq!['.'] + ext);
    lemma_no_dot(bare);
}

proof fn lemma_no_dot(s: Seq<char>)
    requires
        forall|i: int| 0 <= i < s.len() ==> #[trigger] s[i] != '.',
    ensures
        crate::text::last_index_of(s, '.') == -1,
    decreases s.len(),
{
    if s.len() > 0 {
        assert(s.last() != '.');
        lemma_no_dot(s.drop_last());
    }
}

/// The magic bytes that mark each accepted avatar format, written out.
pub open spec fn magic_bytes_for(e: Seq<char>, b: Seq<u8>) -> bool {
    ||| e == "png"@ && b.len() >= 8 && b[0] == 0x89u8 && b[1] == 0x50u8 && b[2] == 0x4Eu8 && b[3] == 0x47u8
        && b[4] == 0x0Du8 && b[5] == 0x0Au8 && b[6] == 0x1Au8 && b[7] == 0x0Au8
    ||| (e == "jpg"@ || e == "jpeg"@) && b.len() >= 3 && b[0] == 0xFFu8 && b[1] == 0xD8u8 && b[2] == 0xFFu8
    ||| e == "gif"@ && b.len() >= 6 && b[0] == 0x47u8 && b[1] == 0x49u8 && b[2] == 0x46u8 && b[3] == 0x38u8
        && (b[4] == 0x37u8 || b[4] == 0x39u8) && b[5] == 0x61u8
    ||| e == "webp"@ && b.len() >= 12 && b[0] == 0x52u8 && b[1] == 0x49u8 && b[2] == 0x46u8 && b[3] == 0x46u8
        && b[8] == 0x57u8 && b[9] == 0x45u8 && b[10] == 0x42u8 && b[11] == 0x50u8
}

proof fn lemma_find_from_first(s: Seq<char>, p: Seq<char>, k: int, m: int)
    requires
        0 <= k <= m,
        m + p.len() <= s.len(),
        s.subrange(m, m + p.len()) == p,
        p.len() > 0,
        forall|j: int| k <= j < m ==> #[trigger] s[j] != p[0],
    ensures
        crate::profile::find_from(s, p, k) == m,
    decreases m - k,
{
    if k < m {
        assert(s.subrange(k, k + p.len())[0] == s[k]);
        lemma_find_from_first(s, p, k + 1, m);
    }
}

/// An avatar upload that is well formed is accepted: for a data URL
/// `data:image/<e>;base64,<data>` with `<e>` one of `jpeg`, `jpg`, `png`,
/// `gif` and `webp`, whose encoded data passes the size estimate and decodes
/// to bytes within the cap that carry `<e>`'s magic bytes, the check accepts
/// exactly those bytes, stored under `<e>` (`jpeg` as `jpg`).
pub proof fn law_well_formed_avatar_is_accepted(e: Seq<char>, b64: Seq<char>, bytes: Seq<u8>)
    requires
        e == "jpeg"@ || e == "jpg"@ || e == "png"@ || e == "gif"@ || e == "webp"@,
        crate::profile::base64_standard_decode(b64) == Some(bytes),
        (vstd::utf8::encode_utf8(b64).len() as usize) / 4 * 3 <= MAX_AVATAR_BYTES + 1024,
        bytes.len() <= MAX_AVATAR_BYTES,
        magic_bytes_for(e, bytes),
    ensures
        avatar_check_spec("data:image/"@ + e + ";base64,"@ + b64) == Ok::<(Seq<char>, Seq<u8>), crate::profile::AvatarError>(
            (if e == "jpeg"@ { "jpg"@ } else { e }, bytes),
        ),
{
    reveal_strlit("data:image/");
    reveal_strlit(";base64,");
    reveal_strlit("jpeg");
    reveal_strlit("jpg");
    reveal_strlit("png");
    reveal_strlit("gif");
    reveal_strlit("webp");
    let prefix = "data:image/"@;
    let marker = ";base64,"@;
    let u = prefix + e + marker + b64;
    let m = (prefix.len() + e.len()) as int;
    assert(u.take(prefix.len() as int) =~= prefix);
    assert(u.subrange(m, m + marker.len() as int) =~= marker);
    assert forall|j: int| 0 <= j < m implies #[trigger] u[j] != marker[0] by {
        if j < prefix.len() {
            assert(u[j] == prefix[j]);
        } else {
            assert(u[j] == e[j - prefix.len()]);
        }
    }
    lemma_find_from_first(u, marker, 0, m);
    assert(u.subrange(prefix.len() as int, m) =~= e);
    assert(u.skip(m + 8) =~= b64);
    assert("png"@ != "jpg"@ && "png"@ != "jpeg"@ && "png"@ != "gif"@ && "png"@ != "webp"@) by {
        assert("png"@[0] != "jpg"@[0] && "png"@.len() != "jpeg"@.len() && "png"@[0] != "gif"@[0]);
    }
    assert("jpg"@ != "gif"@ && "jpeg"@ != "gif"@ && "jpg"@ != "webp"@ && "jpeg"@ != "webp"@) by {
        assert("jpg"@[0] != "gif"@[0] && "jpeg"@.len() != "gif"@.len() && "jpg"@.len() != "webp"@.len());
        assert("jpeg"@[0] != "webp"@[0]);
    }
    assert("gif"@ != "webp"@) by {
        assert("gif"@.len() != "webp"@.len());
    }
    if e == "png"@ {
        assert(bytes.take(8) =~= seq![0x89u8, 0x50, 0x4E, 0x47, 0x0D, 0x0A, 0x1A, 0x0A]);
    } else if e == "jpg"@ || e == "jpeg"@ {
        assert(bytes.take(3) =~= seq![0xFFu8, 0xD8, 0xFF]);
    } else if e == "gif"@ {
        if bytes[4] == 0x37u8 {
            assert(bytes.take(6) =~= seq![0x47u8, 0x49, 0x46, 0x38, 0x37, 0x61]);
        } else {
            assert(bytes.take(6) =~= seq![0x47u8, 0x49, 0x46, 0x38, 0x39, 0x61]);
        }
    } else {
        assert(bytes.subrange(0, 4) =~= seq![0x52u8, 0x49, 0x46, 0x46]);
        assert(bytes.subrange(8, 12) =~= seq![0x57u8, 0x45, 0x42, 0x50]);
    }
    assert(crate::profile::bytes_match_format_spec(bytes, e));
}

/// One or two ASCII digits.
pub open spec fn one_or_two_digits(d: Seq<char>) -> bool {
    &&& 1 <= d.len() <= 2
    &&& forall|i: int| 0 <= i < d.len() ==> '0' <= #[trigger] d[i] && d[i] <= '9'
}

/// ASCII whitespace: space, tab, line feed, form feed, carriage return.
pub open spec fn ascii_blank(c: char) -> bool {
    c == ' ' || c == '\t' || c == '\n' || c == '\x0C' || c == '\r'
}

/// A Beat-A-Day prefix is stripped whole: for one- or two-digit numbers `m`
/// and `d`, a run `w` of whitespace, and a rest `r` that does not start with
/// whitespace, `m.d<w><r>` strips to exactly `r`. A name that does not start
/// with a digit has no such prefix.
pub proof fn law_beat_a_day_prefix_is_stripped(m: Seq<char>, d: Seq<char>, w: Seq<char>, r: Seq<char>, other: Seq<char>)
    requires
        one_or_two_digits(m),
        one_or_two_digits(d),
        1 <= w.len() <= usize::MAX,
        forall|i: int| 0 <= i < w.len() ==> ascii_blank(#[trigger] w[i]),
        r.len() == 0 || !ascii_blank(r[0]),
        other.len() == 0 || !('0' <= other[0] && other[0] <= '9'),
    ensures
        crate::title::strip_beat_a_day_spec(m + seq!['.'] + d + w + r) == Some(r),
        crate::title::strip_beat_a_day_spec(other) is None,
{
    let s = m + seq!['.'] + d + w + r;
    let a = m.len() as int;
    let b = d.len() as int;
    let c = w.len() as int;
    assert forall|k: int| 0 <= k < a implies in_class(#[trigger] s[0 + k], CharClass::Digit) by {
        assert(s[k] == m[k]);
    }
    assert(s[a] == '.');
    lemma_count_while_char(s, 0, 2, CharClass::Digit, a);
    assert forall|k: int| 0 <= k < b implies in_class(#[trigger] s[(a + 1) + k], CharClass::Digit) by {
        assert(s[a + 1 + k] == d[k]);
    }
    assert(s[a + 1 + b] == w[0]);
    lemma_count_while_char(s, a + 1, 2, CharClass::Digit, b);
    assert forall|k: int| 0 <= k < c implies in_class(#[trigger] s[(a + 1 + b) + k], CharClass::AsciiSpace) by {
        assert(s[a + 1 + b + k] == w[k]);
    }
    if r.len() > 0 {
        assert(s[a + 1 + b + c] == r[0]);
    }
    lemma_count_while_char(s, a + 1 + b, usize::MAX as int, CharClass::AsciiSpace, c);
    assert(s.skip(a + 1 + b + c) =~= r);
    if other.len() > 0 {
        assert(!in_class(other[0], CharClass::Digit));
    }
    assert(count_while_spec(other, 0, 2, CharClass::Digit) == 0);
}

} // verus!
