use beatcrate::library::{
    duration_reads_needed, ingest_one_crate, prune_emptied_crates, reconcile_moved_files, reconcile_renames,
    CrateScan, FileMeta, Library, TrackRow, PRUNE_GRACE_SECS,
};
use beatcrate::scan::{file_meta, scan_crate, split_scans, FolderEntry};

const ROOT: &str = "/music";

fn meta(mtime: i64, size: i64) -> FileMeta {
    FileMeta { mtime: Some(mtime), size: Some(size) }
}

fn folder(name: &str) -> String {
    format!("{ROOT}/{name}")
}

/// A crate folder's scan as `scan_crate` builds it from a listing.
fn scan(name: &str, files: &[(&str, FileMeta)]) -> CrateScan {
    let entries: Vec<FolderEntry> = files
        .iter()
        .map(|(f, m)| FolderEntry { name: f.to_string(), is_file: true, meta: *m })
        .collect();
    scan_crate(&folder(name), &entries).unwrap()
}

fn empty_library() -> Library {
    Library { crates: vec![], tracks: vec![], next_crate_id: 1, next_track_id: 1 }
}

/// One ingest of the music folder, as the app runs it: split empty folders
/// off, reconcile folder renames and file moves, then refresh each crate
/// (reading durations only where needed, all reads succeeding) and prune
/// emptied crates. Returns the invalidated track ids and how many files were
/// opened for their duration.
fn ingest(lib: &mut Library, found: Vec<CrateScan>, now: i64) -> (Vec<i64>, usize) {
    let (scans, empties) = split_scans(found);
    reconcile_renames(lib, &scans);
    reconcile_moved_files(lib, &scans, &empties, now);
    let mut invalidated = Vec::new();
    let mut reads = 0;
    for s in &scans {
        let needed = duration_reads_needed(lib, s);
        reads += needed.iter().filter(|b| **b).count();
        invalidated.extend(ingest_one_crate(lib, s, &needed, now));
    }
    prune_emptied_crates(lib, &empties, now);
    (invalidated, reads)
}

fn track<'a>(lib: &'a Library, filename: &str) -> Option<&'a TrackRow> {
    lib.tracks.iter().find(|t| t.filename == filename)
}

fn crate_id_named(lib: &Library, name: &str) -> i64 {
    lib.crates.iter().find(|c| c.name == name).unwrap().id
}

#[test]
fn unchanged_files_are_not_reparsed() {
    let mut lib = empty_library();
    let a = || vec![scan("Crate", &[("a.wav", meta(1000, 4)), ("b.wav", meta(1000, 4))])];
    let (_, reads) = ingest(&mut lib, a(), 100);
    assert_eq!(reads, 2, "first scan reads every file");
    let (_, reads) = ingest(&mut lib, a(), 200);
    assert_eq!(reads, 0, "unchanged files are skipped");
    let changed = vec![scan(
        "Crate",
        &[("a.wav", meta(1000, 4)), ("b.wav", meta(2000, 6)), ("c.wav", meta(1000, 4))],
    )];
    let (_, reads) = ingest(&mut lib, changed, 300);
    assert_eq!(reads, 2, "the re-export and the new file are read");
    assert!(track(&lib, "a.wav").unwrap().has_duration, "a skipped file keeps its duration");
}

#[test]
fn rename_preserves_crate_identity_and_metadata() {
    let mut lib = empty_library();
    let files = [("one.wav", meta(1, 1)), ("two.wav", meta(2, 2))];
    ingest(&mut lib, vec![scan("Album A", &files)], 100);
    let crate_id = lib.crates[0].id;
    let track_id = track(&lib, "one.wav").unwrap().id;

    ingest(&mut lib, vec![scan("Album B", &files)], 200);
    assert_eq!(lib.crates.len(), 1, "rename must not create a duplicate crate");
    assert_eq!(lib.crates[0].id, crate_id, "crate id must survive the rename");
    assert_eq!(lib.crates[0].folder, folder("Album B"));
    assert_eq!(lib.crates[0].name, "Album B");
    assert_eq!(track(&lib, "one.wav").unwrap().id, track_id, "track id must survive the rename");
    assert_eq!(lib.tracks.len(), 2);
}

#[test]
fn distinct_content_is_not_treated_as_rename() {
    let mut lib = empty_library();
    ingest(&mut lib, vec![scan("Album A", &[("one.wav", meta(1, 1))])], 100);
    ingest(&mut lib, vec![scan("Album B", &[("different.wav", meta(5, 5))])], 200);
    assert_eq!(lib.crates.len(), 2);
}

#[test]
fn emptied_crate_folder_is_deleted() {
    let mut lib = empty_library();
    ingest(&mut lib, vec![scan("Album A", &[("one.wav", meta(1, 1)), ("two.wav", meta(2, 2))])], 1000);
    ingest(&mut lib, vec![scan("Album A", &[])], 2000);
    assert_eq!(lib.crates.len(), 1, "crate must survive the grace window");
    assert_eq!(lib.crates[0].emptied_since, Some(2000));
    ingest(&mut lib, vec![scan("Album A", &[])], 2000 + PRUNE_GRACE_SECS);
    assert_eq!(lib.crates.len(), 0, "emptied crate must be deleted");
    assert_eq!(lib.tracks.len(), 0, "tracks must cascade-delete with the crate");
}

#[test]
fn emptied_crate_recovers_when_audio_returns() {
    let mut lib = empty_library();
    let files = [("one.wav", meta(1, 1))];
    ingest(&mut lib, vec![scan("Album A", &files)], 1000);
    ingest(&mut lib, vec![scan("Album A", &[])], 2000);
    ingest(&mut lib, vec![scan("Album A", &files)], 2010);
    assert_eq!(lib.crates[0].emptied_since, None, "audio back clears the stamp");
    ingest(&mut lib, vec![scan("Album A", &files)], 5000);
    assert_eq!(lib.crates.len(), 1);
}

#[test]
fn reexport_preserves_row_and_invalidates_measurements() {
    let mut lib = empty_library();
    let (inv, _) = ingest(
        &mut lib,
        vec![scan("Album A", &[("one.wav", meta(1, 8)), ("two.wav", meta(1, 5))])],
        100,
    );
    assert!(inv.is_empty());
    let id = track(&lib, "one.wav").unwrap().id;
    lib.tracks.iter_mut().find(|t| t.id == id).unwrap().sort_order = Some(0);

    let reexport = || vec![scan("Album A", &[("one.wav", meta(2, 24)), ("two.wav", meta(1, 5))])];
    let (inv, _) = ingest(&mut lib, reexport(), 200);
    assert_eq!(inv, vec![id], "only the changed file");
    let t = track(&lib, "one.wav").unwrap();
    assert_eq!(t.id, id, "the row must survive a re-export");
    assert_eq!(t.sort_order, Some(0), "position must not move");

    let (inv, _) = ingest(&mut lib, reexport(), 300);
    assert!(inv.is_empty(), "a no-op re-ingest invalidates nothing");
}

#[test]
fn null_fingerprint_is_adopted_not_invalidated() {
    let mut lib = empty_library();
    ingest(&mut lib, vec![scan("Album A", &[("one.wav", meta(1, 8))])], 100);
    for t in lib.tracks.iter_mut() {
        t.file_mtime = None;
        t.file_size = None;
    }
    let (inv, _) = ingest(&mut lib, vec![scan("Album A", &[("one.wav", meta(1, 8))])], 200);
    assert!(inv.is_empty(), "unknown fingerprint is not a change");
    let t = track(&lib, "one.wav").unwrap();
    assert!(t.file_mtime.is_some() && t.file_size.is_some(), "fingerprint adopted");
}

#[test]
fn missing_file_survives_the_grace_window() {
    let mut lib = empty_library();
    let both = || vec![scan("Album A", &[("one.wav", meta(1, 1)), ("two.wav", meta(2, 2))])];
    let only_two = || vec![scan("Album A", &[("two.wav", meta(2, 2))])];
    ingest(&mut lib, both(), 1000);
    let id = track(&lib, "one.wav").unwrap().id;

    ingest(&mut lib, only_two(), 1010);
    let t = lib.tracks.iter().find(|t| t.id == id).expect("a transient gap must not delete the row");
    assert_eq!(t.missing_since, Some(1010), "row is stamped while missing");

    ingest(&mut lib, both(), 1020);
    let t = lib.tracks.iter().find(|t| t.id == id).unwrap();
    assert_eq!(t.missing_since, None, "reappearing file resets the clock");

    ingest(&mut lib, only_two(), 1030);
    ingest(&mut lib, only_two(), 1030 + PRUNE_GRACE_SECS - 1);
    assert!(lib.tracks.iter().any(|t| t.id == id), "still within the window");
    ingest(&mut lib, only_two(), 1030 + PRUNE_GRACE_SECS);
    assert!(!lib.tracks.iter().any(|t| t.id == id), "a file missing past the window is pruned");
}

#[test]
fn empty_folder_creates_no_crate() {
    let mut lib = empty_library();
    ingest(&mut lib, vec![scan("Empty Folder", &[])], 100);
    assert_eq!(lib.crates.len(), 0, "an empty folder must not become a crate");
}

#[test]
fn file_rename_in_crate_keeps_row() {
    let mut lib = empty_library();
    ingest(
        &mut lib,
        vec![scan("Album A", &[("01 beat.wav", meta(1000, 10)), ("02 other.wav", meta(1000, 5))])],
        100,
    );
    let id = track(&lib, "01 beat.wav").unwrap().id;
    lib.tracks.iter_mut().find(|t| t.id == id).unwrap().sort_order = Some(1);

    let (inv, _) = ingest(
        &mut lib,
        vec![scan("Album A", &[("01 beat v2.wav", meta(1000, 10)), ("02 other.wav", meta(1000, 5))])],
        200,
    );
    assert!(inv.is_empty(), "a rename is not a content change");
    let t = track(&lib, "01 beat v2.wav").unwrap();
    assert_eq!(t.id, id, "track id must survive a file rename");
    assert_eq!(t.title, "beat v2", "title follows the new filename");
    assert_eq!(t.sort_order, Some(1), "position must not move");
    assert_eq!(lib.tracks.len(), 2, "no duplicate row for the renamed file");
}

#[test]
fn case_only_rename_keeps_row() {
    let mut lib = empty_library();
    ingest(&mut lib, vec![scan("Album A", &[("Beat.wav", meta(1000, 10))])], 100);
    let id = lib.tracks[0].id;
    ingest(&mut lib, vec![scan("Album A", &[("beat.wav", meta(1000, 10))])], 200);
    assert_eq!(lib.tracks.len(), 1);
    assert_eq!(lib.tracks[0].id, id);
    assert_eq!(lib.tracks[0].filename, "beat.wav");
}

#[test]
fn cross_crate_move_keeps_row() {
    let mut lib = empty_library();
    ingest(
        &mut lib,
        vec![
            scan("Album A", &[("mover.wav", meta(1000, 11)), ("last.wav", meta(1000, 8))]),
            scan("Album B", &[("resident.wav", meta(2000, 8))]),
        ],
        100,
    );
    let id = track(&lib, "mover.wav").unwrap().id;
    lib.tracks.iter_mut().find(|t| t.id == id).unwrap().sort_order = Some(0);
    let b = crate_id_named(&lib, "Album B");

    let (inv, _) = ingest(
        &mut lib,
        vec![
            scan("Album A", &[("last.wav", meta(1000, 8))]),
            scan("Album B", &[("mover.wav", meta(1000, 11)), ("resident.wav", meta(2000, 8))]),
        ],
        200,
    );
    assert!(inv.is_empty(), "a move is not a content change");
    let t = track(&lib, "mover.wav").unwrap();
    assert_eq!(t.id, id, "track id must survive a cross-crate move");
    assert_eq!(t.crate_id, b, "re-parented to the destination crate");
    assert_eq!(t.sort_order, None, "lands at the bottom like a new file");

    // Moving on into a brand-new folder creates its crate.
    ingest(
        &mut lib,
        vec![
            scan("Album A", &[("last.wav", meta(1000, 8))]),
            scan("Album B", &[("resident.wav", meta(2000, 8))]),
            scan("Album C", &[("mover.wav", meta(1000, 11))]),
        ],
        300,
    );
    let t = track(&lib, "mover.wav").unwrap();
    assert_eq!(t.id, id);
    assert_eq!(t.crate_id, crate_id_named(&lib, "Album C"));
    assert_eq!(lib.tracks.len(), 3, "no duplicate rows after either move");
}

#[test]
fn ambiguous_missing_rows_do_not_pair() {
    let mut lib = empty_library();
    ingest(
        &mut lib,
        vec![scan(
            "Album A",
            &[("x.wav", meta(1000, 4)), ("y.wav", meta(1000, 4)), ("keep.wav", meta(1000, 6))],
        )],
        100,
    );
    ingest(&mut lib, vec![scan("Album A", &[("keep.wav", meta(1000, 6)), ("x2.wav", meta(1000, 4))])], 200);
    let fresh = track(&lib, "x2.wav").unwrap();
    assert!(fresh.id > 3, "ambiguous → fresh row");
    let stamped = lib.tracks.iter().filter(|t| t.missing_since.is_some()).count();
    assert_eq!(stamped, 2, "both old rows stamped as before");
}

#[test]
fn ambiguous_new_files_do_not_pair() {
    let mut lib = empty_library();
    ingest(&mut lib, vec![scan("Album A", &[("x.wav", meta(1000, 4))])], 100);
    let id = lib.tracks[0].id;
    ingest(&mut lib, vec![scan("Album A", &[("x2.wav", meta(1000, 4)), ("x copy.wav", meta(1000, 4))])], 200);
    assert_eq!(lib.tracks.len(), 3, "ambiguous → fresh rows");
    let old = lib.tracks.iter().find(|t| t.id == id).unwrap();
    assert_eq!(old.missing_since, Some(200), "old row stamped as before");
}

#[test]
fn null_fingerprint_never_pairs() {
    let mut lib = empty_library();
    ingest(&mut lib, vec![scan("Album A", &[("one.wav", meta(1000, 4))])], 100);
    let id = lib.tracks[0].id;
    lib.tracks[0].file_mtime = None;
    lib.tracks[0].file_size = None;
    ingest(&mut lib, vec![scan("Album A", &[("one v2.wav", meta(1000, 4))])], 200);
    let old = lib.tracks.iter().find(|t| t.id == id).unwrap();
    assert_eq!(old.missing_since, Some(200), "old row stamped as before");
    assert_eq!(lib.tracks.len(), 2);
}

#[test]
fn scan_picks_cover_and_sorts_audio() {
    let entries = vec![
        FolderEntry { name: "b.mp3".to_string(), is_file: true, meta: meta(1, 1) },
        FolderEntry { name: "Cover.JPG".to_string(), is_file: true, meta: meta(1, 1) },
        FolderEntry { name: "notes.txt".to_string(), is_file: true, meta: meta(1, 1) },
        FolderEntry { name: "A.WAV".to_string(), is_file: true, meta: meta(2, 2) },
        FolderEntry { name: "sub.wav".to_string(), is_file: false, meta: meta(1, 1) },
    ];
    let s = scan_crate("/music/Album", &entries).unwrap();
    assert_eq!(s.name, "Album");
    assert_eq!(s.folder, "/music/Album");
    assert_eq!(s.cover_path, Some("/music/Album/Cover.JPG".to_string()));
    assert_eq!(s.audio_files, vec!["A.WAV".to_string(), "b.mp3".to_string()]);
    assert!(s.file_meta[0] == meta(2, 2));
    assert!(scan_crate("/", &entries).is_none(), "no folder name, no scan");
}

#[test]
fn split_separates_empty_folders() {
    let found = vec![scan("A", &[("a.wav", meta(1, 1))]), scan("B", &[]), scan("C", &[("c.wav", meta(1, 1))])];
    let (scans, empties) = split_scans(found);
    assert_eq!(scans.len(), 2);
    assert_eq!(scans[1].name, "C");
    assert_eq!(empties, vec![folder("B")]);
}

#[test]
fn file_meta_converts_times_and_sizes() {
    let m = file_meta(Some(1_700_000_000_123), 42);
    assert_eq!(m.mtime, Some(1_700_000_000_123));
    assert_eq!(m.size, Some(42));
    let m = file_meta(None, 0);
    assert_eq!(m.mtime, None);
}

#[test]
fn new_file_lands_at_the_bottom_and_other_crates_are_untouched() {
    let mut lib = empty_library();
    ingest(
        &mut lib,
        vec![scan("Album A", &[("01 a.wav", meta(1, 1))]), scan("Album B", &[("b.wav", meta(2, 2))])],
        100,
    );
    let b_before: Vec<(i64, String, Option<i64>)> =
        lib.tracks.iter().filter(|t| t.filename == "b.wav").map(|t| (t.id, t.title.clone(), t.missing_since)).collect();
    ingest(
        &mut lib,
        vec![
            scan("Album A", &[("01 a.wav", meta(1, 1)), ("02 - new one.flac", meta(3, 3))]),
            scan("Album B", &[("b.wav", meta(2, 2))]),
        ],
        200,
    );
    let t = track(&lib, "02 - new one.flac").unwrap();
    assert_eq!(t.sort_order, None);
    assert_eq!(t.track_num, Some(2), "numbered by its position in the folder");
    assert_eq!(t.title, "new one");
    let b_after: Vec<(i64, String, Option<i64>)> =
        lib.tracks.iter().filter(|t| t.filename == "b.wav").map(|t| (t.id, t.title.clone(), t.missing_since)).collect();
    assert_eq!(b_before, b_after);
}

#[test]
fn changes_list_exactly_the_rows_to_write() {
    let mut before = empty_library();
    ingest(&mut before, vec![scan("A", &[("a.wav", meta(1, 1)), ("b.wav", meta(2, 2))])], 100);
    let mut after = empty_library();
    ingest(&mut after, vec![scan("A", &[("a.wav", meta(1, 1)), ("b.wav", meta(2, 2))])], 100);
    ingest(&mut after, vec![scan("A", &[("a.wav", meta(1, 1)), ("c.wav", meta(3, 3))])], 200);
    let ch = beatcrate::changes::library_changes(&before, &after);
    assert!(ch.deleted_crates.is_empty() && ch.inserted_crates.is_empty() && ch.updated_crates.is_empty());
    assert!(ch.deleted_tracks.is_empty(), "b.wav is only stamped missing");
    assert_eq!(ch.inserted_tracks.len(), 1);
    assert_eq!(after.tracks[ch.inserted_tracks[0]].filename, "c.wav");
    assert_eq!(ch.updated_tracks.len(), 1);
    assert_eq!(after.tracks[ch.updated_tracks[0]].filename, "b.wav");
}

#[test]
fn ambiguous_orphan_crates_are_not_renamed() {
    let mut lib = empty_library();
    let files = [("one.wav", meta(1, 1))];
    ingest(&mut lib, vec![scan("Album A", &files), scan("Album B", &files)], 100);
    let a = crate_id_named(&lib, "Album A");
    let b = crate_id_named(&lib, "Album B");

    ingest(&mut lib, vec![scan("Album C", &files)], 200);
    assert_eq!(lib.crates.len(), 3, "the new folder gets a fresh crate");
    let ca = lib.crates.iter().find(|c| c.id == a).unwrap();
    let cb = lib.crates.iter().find(|c| c.id == b).unwrap();
    assert_eq!(ca.folder, folder("Album A"), "neither vanished crate is renamed");
    assert_eq!(cb.folder, folder("Album B"), "neither vanished crate is renamed");
    let c = crate_id_named(&lib, "Album C");
    assert!(c != a && c != b);
}

#[test]
fn unreadable_metadata_is_not_a_change() {
    let mut lib = empty_library();
    ingest(&mut lib, vec![scan("Album A", &[("one.wav", meta(1000, 8)), ("two.wav", meta(1000, 9))])], 100);
    let one = track(&lib, "one.wav").unwrap().id;
    let unknown = FileMeta { mtime: None, size: None };
    let half = FileMeta { mtime: None, size: Some(99) };
    let (inv, _) = ingest(&mut lib, vec![scan("Album A", &[("one.wav", unknown), ("two.wav", half)])], 200);
    assert!(inv.is_empty(), "unreadable metadata is never a change");
    let t1 = track(&lib, "one.wav").unwrap();
    assert_eq!(t1.id, one, "the row stays");
    assert_eq!((t1.file_mtime, t1.file_size), (None, None), "written as read");
    let t2 = track(&lib, "two.wav").unwrap();
    assert_eq!((t2.file_mtime, t2.file_size), (None, Some(99)));

    // Once the metadata reads again, the unknown stored fingerprint is adopted.
    let (inv, _) = ingest(&mut lib, vec![scan("Album A", &[("one.wav", meta(2000, 8)), ("two.wav", meta(1000, 9))])], 300);
    assert!(inv.is_empty());
    let t1 = track(&lib, "one.wav").unwrap();
    assert_eq!((t1.file_mtime, t1.file_size), (Some(2000), Some(8)));
}

#[test]
fn crates_created_by_moves_take_ids_in_fingerprint_order() {
    let mut lib = empty_library();
    ingest(&mut lib, vec![scan("Old", &[("x.wav", meta(5, 5)), ("y.wav", meta(1, 1))])], 100);
    let old = crate_id_named(&lib, "Old");
    let x = track(&lib, "x.wav").unwrap().id;
    let y = track(&lib, "y.wav").unwrap().id;

    ingest(
        &mut lib,
        vec![scan("Old", &[]), scan("A", &[("x.wav", meta(5, 5))]), scan("B", &[("y.wav", meta(1, 1))])],
        200,
    );
    let a = crate_id_named(&lib, "A");
    let b = crate_id_named(&lib, "B");
    assert_eq!(b, old + 1, "y.wav has the smaller fingerprint: its folder's crate comes first");
    assert_eq!(a, old + 2);
    assert_eq!(track(&lib, "x.wav").unwrap().id, x);
    assert_eq!(track(&lib, "x.wav").unwrap().crate_id, a);
    assert_eq!(track(&lib, "y.wav").unwrap().id, y);
    assert_eq!(track(&lib, "y.wav").unwrap().crate_id, b);
}

#[test]
fn a_second_pass_with_nothing_changed_reports_nothing() {
    let mut lib = empty_library();
    ingest(&mut lib, vec![scan("Old", &[("x.wav", meta(5, 5)), ("keep.wav", meta(7, 7))])], 100);
    // The first pass moves x.wav into a new folder, re-exports keep.wav and
    // adds a folder; the second pass over the same disk finds nothing to do.
    let disk = || {
        vec![
            scan("Old", &[("keep.wav", meta(8, 9))]),
            scan("New", &[("x.wav", meta(5, 5)), ("fresh.wav", meta(3, 3))]),
            scan("Other", &[("o.wav", FileMeta { mtime: None, size: Some(1) })]),
        ]
    };
    let (inv, _) = ingest(&mut lib, disk(), 200);
    assert_eq!(inv, vec![track(&lib, "keep.wav").unwrap().id], "the re-export is reported once");
    let (inv, _) = ingest(&mut lib, disk(), 300);
    assert!(inv.is_empty(), "nothing changed since the first pass");
}
