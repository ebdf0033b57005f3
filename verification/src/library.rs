//! The stored library as the ingest sees it (crate rows and track rows), and
//! the rules that reconcile it with a fresh scan of the music folder:
//! folder renames, file renames and moves, re-exports, and the grace window
//! before a vanished file or an emptied crate is pruned.

use vstd::prelude::*;
use crate::title::{title_from_filename, title_spec};

verus! {

/// How long a track (or a crate's last audio file) must stay missing before
/// its row is deleted, in seconds.
pub const PRUNE_GRACE_SECS: i64 = 60;

/// Content fingerprint of an audio file: modification time (epoch millis) and
/// byte size. `None` means unknown, which is never treated as a change.
#[derive(Clone, Copy, PartialEq, Eq, Structural)]
pub struct FileMeta {
    pub mtime: Option<i64>,
    pub size: Option<i64>,
}

/// One crate folder as scanned on disk: its name, path, cover image and the
/// sorted list of its audio files with their fingerprints (same index, same
/// file).
pub struct CrateScan {
    pub name: String,
    pub folder: String,
    pub cover_path: Option<String>,
    pub audio_files: Vec<String>,
    pub file_meta: Vec<FileMeta>,
}

/// A row of the `crates` table, as far as the ingest reads and writes it.
pub struct CrateRow {
    pub id: i64,
    pub name: String,
    pub folder: String,
    pub cover_path: Option<String>,
    pub emptied_since: Option<i64>,
}

/// A row of the `tracks` table, as far as the ingest reads and writes it.
/// `has_duration` says whether a duration is stored (its value stays in the
/// database).
pub struct TrackRow {
    pub id: i64,
    pub crate_id: i64,
    pub filename: String,
    pub title: String,
    pub track_num: Option<i64>,
    pub sort_order: Option<i64>,
    pub has_duration: bool,
    pub file_mtime: Option<i64>,
    pub file_size: Option<i64>,
    pub missing_since: Option<i64>,
}

/// The crates and tracks of the library, and the ids the next inserted rows
/// receive.
pub struct Library {
    pub crates: Vec<CrateRow>,
    pub tracks: Vec<TrackRow>,
    pub next_crate_id: i64,
    pub next_track_id: i64,
}

// ── views ────────────────────────────────────────────────────────────────────

pub open spec fn opt_view(o: Option<String>) -> Option<Seq<char>> {
    match o {
        Some(s) => Some(s@),
        None => None,
    }
}

pub struct CrateView {
    pub id: i64,
    pub name: Seq<char>,
    pub folder: Seq<char>,
    pub cover_path: Option<Seq<char>>,
    pub emptied_since: Option<i64>,
}

pub struct TrackView {
    pub id: i64,
    pub crate_id: i64,
    pub filename: Seq<char>,
    pub title: Seq<char>,
    pub track_num: Option<i64>,
    pub sort_order: Option<i64>,
    pub has_duration: bool,
    pub file_mtime: Option<i64>,
    pub file_size: Option<i64>,
    pub missing_since: Option<i64>,
}

pub struct ScanView {
    pub name: Seq<char>,
    pub folder: Seq<char>,
    pub cover_path: Option<Seq<char>>,
    pub files: Seq<Seq<char>>,
    pub meta: Seq<FileMeta>,
}

pub struct LibraryView {
    pub crates: Seq<CrateView>,
    pub tracks: Seq<TrackView>,
    pub next_crate_id: i64,
    pub next_track_id: i64,
}

impl View for CrateRow {
    type V = CrateView;

    open spec fn view(&self) -> CrateView {
        CrateView {
            id: self.id,
            name: self.name@,
            folder: self.folder@,
            cover_path: opt_view(self.cover_path),
            emptied_since: self.emptied_since,
        }
    }
}

impl View for TrackRow {
    type V = TrackView;

    open spec fn view(&self) -> TrackView {
        TrackView {
            id: self.id,
            crate_id: self.crate_id,
            filename: self.filename@,
            title: self.title@,
            track_num: self.track_num,
            sort_order: self.sort_order,
            has_duration: self.has_duration,
            file_mtime: self.file_mtime,
            file_size: self.file_size,
            missing_since: self.missing_since,
        }
    }
}

pub open spec fn strings_view(v: Seq<String>) -> Seq<Seq<char>> {
    v.map_values(|s: String| s@)
}

impl View for CrateScan {
    type V = ScanView;

    open spec fn view(&self) -> ScanView {
        ScanView {
            name: self.name@,
            folder: self.folder@,
            cover_path: opt_view(self.cover_path),
            files: strings_view(self.audio_files@),
            meta: self.file_meta@,
        }
    }
}

pub open spec fn crates_view(v: Seq<CrateRow>) -> Seq<CrateView> {
    v.map_values(|c: CrateRow| c@)
}

pub open spec fn tracks_view(v: Seq<TrackRow>) -> Seq<TrackView> {
    v.map_values(|t: TrackRow| t@)
}

pub open spec fn scans_view(v: Seq<CrateScan>) -> Seq<ScanView> {
    v.map_values(|s: CrateScan| s@)
}

impl View for Library {
    type V = LibraryView;

    open spec fn view(&self) -> LibraryView {
        LibraryView {
            crates: crates_view(self.crates@),
            tracks: tracks_view(self.tracks@),
            next_crate_id: self.next_crate_id,
            next_track_id: self.next_track_id,
        }
    }
}

/// A scan is well formed when its file list and fingerprint list are
/// parallel.
pub open spec fn scan_wf(s: ScanView) -> bool {
    s.files.len() == s.meta.len()
}

pub open spec fn scans_wf(scans: Seq<ScanView>) -> bool {
    forall|k: int| 0 <= k < scans.len() ==> scan_wf(#[trigger] scans[k])
}

// ── small exec helpers ──────────────────────────────────────────────────────

fn clone_opt_string(o: &Option<String>) -> (r: Option<String>)
    ensures
        opt_view(r) == opt_view(*o),
{
    match o {
        Some(s) => Some(s.clone()),
        None => None,
    }
}

impl CrateRow {
    pub fn duplicate(&self) -> (r: CrateRow)
        ensures
            r@ == self@,
    {
        CrateRow {
            id: self.id,
            name: self.name.clone(),
            folder: self.folder.clone(),
            cover_path: clone_opt_string(&self.cover_path),
            emptied_since: self.emptied_since,
        }
    }
}

impl TrackRow {
    pub fn duplicate(&self) -> (r: TrackRow)
        ensures
            r@ == self@,
    {
        TrackRow {
            id: self.id,
            crate_id: self.crate_id,
            filename: self.filename.clone(),
            title: self.title.clone(),
            track_num: self.track_num,
            sort_order: self.sort_order,
            has_duration: self.has_duration,
            file_mtime: self.file_mtime,
            file_size: self.file_size,
            missing_since: self.missing_since,
        }
    }
}

// ── lookups ─────────────────────────────────────────────────────────────────

/// Index of the first crate whose folder is `folder`, or -1 (the row
/// `SELECT id FROM crates WHERE folder = ?` returns).
pub open spec fn crate_pos(cs: Seq<CrateView>, folder: Seq<char>) -> int
    decreases cs.len(),
{
    if cs.len() == 0 {
        -1
    } else {
        let r = crate_pos(cs.drop_last(), folder);
        if r >= 0 {
            r
        } else if cs.last().folder == folder {
            cs.len() - 1
        } else {
            -1
        }
    }
}

pub proof fn lemma_crate_pos(cs: Seq<CrateView>, folder: Seq<char>)
    ensures
        -1 <= crate_pos(cs, folder) < cs.len(),
        crate_pos(cs, folder) >= 0 ==> cs[crate_pos(cs, folder)].folder == folder,
        forall|j: int|
            0 <= j < cs.len() && (crate_pos(cs, folder) < 0 || j < crate_pos(cs, folder))
                ==> #[trigger] cs[j].folder != folder,
    decreases cs.len(),
{
    if cs.len() > 0 {
        let t = cs.drop_last();
        lemma_crate_pos(t, folder);
        assert forall|j: int|
            0 <= j < cs.len() && (crate_pos(cs, folder) < 0 || j < crate_pos(cs, folder))
                implies #[trigger] cs[j].folder != folder by {
            if j < cs.len() - 1 {
                assert(cs[j] == t[j]);
            }
        }
    }
}

pub proof fn lemma_crate_pos_char(cs: Seq<CrateView>, folder: Seq<char>, p: int)
    requires
        -1 <= p < cs.len(),
        p >= 0 ==> cs[p].folder == folder,
        forall|j: int| 0 <= j < cs.len() && (p < 0 || j < p) ==> #[trigger] cs[j].folder != folder,
    ensures
        crate_pos(cs, folder) == p,
{
    lemma_crate_pos(cs, folder);
    let q = crate_pos(cs, folder);
    if q != p {
        if q >= 0 && (p < 0 || q < p) {
            assert(cs[q].folder != folder);
        } else if p >= 0 {
            assert(cs[p].folder != folder);
        }
    }
}

/// Position of the first crate row whose folder is `folder`.
pub fn find_crate_by_folder(crates: &Vec<CrateRow>, folder: &String) -> (r: Option<usize>)
    ensures
        match r {
            Some(i) => crate_pos(crates_view(crates@), folder@) == i as int,
            None => crate_pos(crates_view(crates@), folder@) == -1,
        },
{
    let ghost cs = crates_view(crates@);
    let mut i: usize = 0;
    while i < crates.len()
        invariant
            i <= crates@.len(),
            cs == crates_view(crates@),
            forall|j: int| 0 <= j < i ==> #[trigger] cs[j].folder != folder@,
        decreases crates@.len() - i,
    {
        if crates[i].folder == *folder {
            proof {
                lemma_crate_pos_char(cs, folder@, i as int);
            }
            return Some(i);
        }
        i = i + 1;
    }
    proof {
        lemma_crate_pos_char(cs, folder@, -1);
    }
    None
}

/// Whether some scanned folder is `folder`.
pub open spec fn folder_scanned(scans: Seq<ScanView>, folder: Seq<char>) -> bool {
    exists|k: int| 0 <= k < scans.len() && #[trigger] scans[k].folder == folder
}

fn is_folder_scanned(scans: &Vec<CrateScan>, folder: &String) -> (r: bool)
    ensures
        r == folder_scanned(scans_view(scans@), folder@),
{
    let ghost sv = scans_view(scans@);
    let mut k: usize = 0;
    while k < scans.len()
        invariant
            k <= scans@.len(),
            sv == scans_view(scans@),
            forall|j: int| 0 <= j < k ==> #[trigger] sv[j].folder != folder@,
        decreases scans@.len() - k,
    {
        if scans[k].folder == *folder {
            assert(sv[k as int].folder == folder@);
            return true;
        }
        k = k + 1;
    }
    false
}

/// Whether some crate row has the folder `folder`.
pub open spec fn folder_known(cs: Seq<CrateView>, folder: Seq<char>) -> bool {
    exists|i: int| 0 <= i < cs.len() && #[trigger] cs[i].folder == folder
}

/// Whether some track of crate `id` has the file name `f`.
pub open spec fn crate_has_file(ts: Seq<TrackView>, id: i64, f: Seq<char>) -> bool {
    exists|j: int| 0 <= j < ts.len() && #[trigger] ts[j].crate_id == id && ts[j].filename == f
}

/// Whether crate `id` has at least one track.
pub open spec fn crate_has_tracks(ts: Seq<TrackView>, id: i64) -> bool {
    exists|j: int| 0 <= j < ts.len() && #[trigger] ts[j].crate_id == id
}

fn has_file(tracks: &Vec<TrackRow>, id: i64, f: &String) -> (r: bool)
    ensures
        r == crate_has_file(tracks_view(tracks@), id, f@),
{
    let ghost ts = tracks_view(tracks@);
    let mut j: usize = 0;
    while j < tracks.len()
        invariant
            j <= tracks@.len(),
            ts == tracks_view(tracks@),
            forall|x: int| 0 <= x < j ==> !(#[trigger] ts[x].crate_id == id && ts[x].filename == f@),
        decreases tracks@.len() - j,
    {
        if tracks[j].crate_id == id && tracks[j].filename == *f {
            assert(ts[j as int].crate_id == id && ts[j as int].filename == f@);
            return true;
        }
        j = j + 1;
    }
    false
}

fn has_tracks(tracks: &Vec<TrackRow>, id: i64) -> (r: bool)
    ensures
        r == crate_has_tracks(tracks_view(tracks@), id),
{
    let ghost ts = tracks_view(tracks@);
    let mut j: usize = 0;
    while j < tracks.len()
        invariant
            j <= tracks@.len(),
            ts == tracks_view(tracks@),
            forall|x: int| 0 <= x < j ==> #[trigger] ts[x].crate_id != id,
        decreases tracks@.len() - j,
    {
        if tracks[j].crate_id == id {
            assert(ts[j as int].crate_id == id);
            return true;
        }
        j = j + 1;
    }
    false
}

pub fn list_has(files: &Vec<String>, f: &String) -> (r: bool)
    ensures
        r == strings_view(files@).contains(f@),
{
    let ghost fv = strings_view(files@);
    let mut i: usize = 0;
    while i < files.len()
        invariant
            i <= files@.len(),
            fv == strings_view(files@),
            forall|x: int| 0 <= x < i ==> #[trigger] fv[x] != f@,
        decreases files@.len() - i,
    {
        if files[i] == *f {
            assert(fv[i as int] == f@);
            return true;
        }
        i = i + 1;
    }
    false
}

// ── folder renames ──────────────────────────────────────────────────────────

/// The crate's track file names are exactly `files`, and there is at least
/// one.
pub open spec fn same_files(ts: Seq<TrackView>, id: i64, files: Seq<Seq<char>>) -> bool {
    &&& crate_has_tracks(ts, id)
    &&& forall|f: Seq<char>| #[trigger] crate_has_file(ts, id, f) <==> files.contains(f)
}

/// Two crates hold the same set of track file names.
pub open spec fn same_crate_files(ts: Seq<TrackView>, a: i64, b: i64) -> bool {
    forall|f: Seq<char>| #[trigger] crate_has_file(ts, a, f) <==> crate_has_file(ts, b, f)
}

/// A crate row whose folder is no longer among the scanned folders.
pub open spec fn is_orphan(lib: LibraryView, scans: Seq<ScanView>, i: int) -> bool {
    !folder_scanned(scans, lib.crates[i].folder)
}

/// A scanned folder that no crate row has.
pub open spec fn is_new_scan(lib: LibraryView, scans: Seq<ScanView>, k: int) -> bool {
    !folder_known(lib.crates, scans[k].folder)
}

/// Orphan crate `i` and new folder `k` hold the same non-empty file set.
pub open spec fn rename_match(lib: LibraryView, scans: Seq<ScanView>, i: int, k: int) -> bool {
    &&& 0 <= i < lib.crates.len()
    &&& 0 <= k < scans.len()
    &&& is_orphan(lib, scans, i)
    &&& is_new_scan(lib, scans, k)
    &&& same_files(lib.tracks, lib.crates[i].id, scans[k].files)
}

/// Orphan crate `i` is renamed to folder `k`: the match is one to one. `k` is
/// the only new folder with the crate's file set, and no other orphan crate
/// holds that same set (when several do, none of them is renamed).
pub open spec fn renamed_to(lib: LibraryView, scans: Seq<ScanView>, i: int, k: int) -> bool {
    &&& rename_match(lib, scans, i, k)
    &&& forall|k2: int| 0 <= k2 < scans.len() && #[trigger] rename_match(lib, scans, i, k2) ==> k2 == k
    &&& forall|i2: int|
        0 <= i2 < lib.crates.len() && i2 != i && #[trigger] is_orphan(lib, scans, i2) && crate_has_tracks(
            lib.tracks,
            lib.crates[i2].id,
        ) ==> !same_crate_files(lib.tracks, lib.crates[i2].id, lib.crates[i].id)
}

/// The folder crate `i` is renamed to, if any.
pub open spec fn rename_target(lib: LibraryView, scans: Seq<ScanView>, i: int) -> Option<int> {
    if exists|k: int| renamed_to(lib, scans, i, k) {
        Some(choose|k: int| renamed_to(lib, scans, i, k))
    } else {
        None
    }
}

pub open spec fn apply_rename(c: CrateView, s: ScanView) -> CrateView {
    CrateView { folder: s.folder, name: s.name, cover_path: s.cover_path, ..c }
}

/// The library after folder renames: each renamed crate keeps its id (and so
/// its tracks and everything attached to them) and takes the new folder's
/// path, name and cover.
pub open spec fn renames_spec(lib: LibraryView, scans: Seq<ScanView>) -> LibraryView {
    LibraryView {
        crates: Seq::new(
            lib.crates.len(),
            |i: int|
                match rename_target(lib, scans, i) {
                    Some(k) => apply_rename(lib.crates[i], scans[k]),
                    None => lib.crates[i],
                },
        ),
        ..lib
    }
}

fn files_match(tracks: &Vec<TrackRow>, id: i64, files: &Vec<String>) -> (r: bool)
    ensures
        r == same_files(tracks_view(tracks@), id, strings_view(files@)),
{
    let ghost ts = tracks_view(tracks@);
    let ghost fv = strings_view(files@);
    if !has_tracks(tracks, id) {
        return false;
    }
    let mut j: usize = 0;
    while j < tracks.len()
        invariant
            j <= tracks@.len(),
            ts == tracks_view(tracks@),
            fv == strings_view(files@),
            forall|x: int| 0 <= x < j && #[trigger] ts[x].crate_id == id ==> fv.contains(ts[x].filename),
        decreases tracks@.len() - j,
    {
        if tracks[j].crate_id == id {
            if !list_has(files, &tracks[j].filename) {
                proof {
                    assert(ts[j as int] == tracks@[j as int]@);
                    assert(ts[j as int].crate_id == id);
                    assert(crate_has_file(ts, id, ts[j as int].filename));
                }
                return false;
            }
        }
        j = j + 1;
    }
    let mut i: usize = 0;
    while i < files.len()
        invariant
            i <= files@.len(),
            ts == tracks_view(tracks@),
            fv == strings_view(files@),
            forall|x: int| 0 <= x < i ==> crate_has_file(ts, id, #[trigger] fv[x]),
        decreases files@.len() - i,
    {
        if !has_file(tracks, id, &files[i]) {
            proof {
                assert(fv.contains(fv[i as int]));
            }
            return false;
        }
        i = i + 1;
    }
    proof {
        assert forall|f: Seq<char>| #[trigger] crate_has_file(ts, id, f) <==> fv.contains(f) by {
            if crate_has_file(ts, id, f) {
                let x = choose|x: int| 0 <= x < ts.len() && #[trigger] ts[x].crate_id == id && ts[x].filename == f;
                assert(fv.contains(ts[x].filename));
            }
            if fv.contains(f) {
                let x = choose|x: int| 0 <= x < fv.len() && fv[x] == f;
                assert(crate_has_file(ts, id, fv[x]));
            }
        }
    }
    true
}

fn crate_files_match(tracks: &Vec<TrackRow>, a: i64, b: i64) -> (r: bool)
    ensures
        r == same_crate_files(tracks_view(tracks@), a, b),
{
    let ghost ts = tracks_view(tracks@);
    let mut j: usize = 0;
    while j < tracks.len()
        invariant
            j <= tracks@.len(),
            ts == tracks_view(tracks@),
            forall|x: int|
                0 <= x < j ==> (#[trigger] ts[x].crate_id == a ==> crate_has_file(ts, b, ts[x].filename))
                    && (ts[x].crate_id == b ==> crate_has_file(ts, a, ts[x].filename)),
        decreases tracks@.len() - j,
    {
        assert(ts[j as int] == tracks@[j as int]@);
        if tracks[j].crate_id == a && !has_file(tracks, b, &tracks[j].filename) {
            assert(ts[j as int].crate_id == a);
            assert(crate_has_file(ts, a, ts[j as int].filename));
            return false;
        }
        if tracks[j].crate_id == b && !has_file(tracks, a, &tracks[j].filename) {
            assert(ts[j as int].crate_id == b);
            assert(crate_has_file(ts, b, ts[j as int].filename));
            return false;
        }
        j = j + 1;
    }
    proof {
        assert forall|f: Seq<char>| #[trigger] crate_has_file(ts, a, f) <==> crate_has_file(ts, b, f) by {
            if crate_has_file(ts, a, f) {
                let x = choose|x: int| 0 <= x < ts.len() && #[trigger] ts[x].crate_id == a && ts[x].filename == f;
                assert(ts[x].crate_id == a);
            }
            if crate_has_file(ts, b, f) {
                let x = choose|x: int| 0 <= x < ts.len() && #[trigger] ts[x].crate_id == b && ts[x].filename == f;
                assert(ts[x].crate_id == b);
            }
        }
    }
    true
}

proof fn lemma_folder_known(cs: Seq<CrateView>, folder: Seq<char>)
    ensures
        folder_known(cs, folder) <==> crate_pos(cs, folder) >= 0,
{
    lemma_crate_pos(cs, folder);
    if folder_known(cs, folder) {
        let i = choose|i: int| 0 <= i < cs.len() && #[trigger] cs[i].folder == folder;
        assert(cs[i].folder == folder);
    }
    if crate_pos(cs, folder) >= 0 {
        assert(cs[crate_pos(cs, folder)].folder == folder);
    }
}

fn is_folder_known(crates: &Vec<CrateRow>, folder: &String) -> (r: bool)
    ensures
        r == folder_known(crates_view(crates@), folder@),
{
    proof {
        lemma_folder_known(crates_view(crates@), folder@);
    }
    find_crate_by_folder(crates, folder).is_some()
}

/// Which new folder, if any, crate `i` is renamed to.
fn rename_choice(lib: &Library, scans: &Vec<CrateScan>, i: usize) -> (r: Option<usize>)
    requires
        i < lib.crates@.len(),
    ensures
        match r {
            Some(k) => k < scans@.len() && renamed_to(lib@, scans_view(scans@), i as int, k as int),
            None => forall|k: int| !renamed_to(lib@, scans_view(scans@), i as int, k),
        },
{
    let ghost l = lib@;
    let ghost sv = scans_view(scans@);
    let c = &lib.crates[i];
    assert(l.crates[i as int] == c@);
    if is_folder_scanned(scans, &c.folder) {
        return None;
    }
    let id = c.id;
    if !has_tracks(&lib.tracks, id) {
        return None;
    }
    let nc = lib.crates.len();
    let mut i2: usize = 0;
    while i2 < nc
        invariant
            nc == lib.crates@.len(),
            i2 <= nc,
            i < nc,
            l == lib@,
            sv == scans_view(scans@),
            id == l.crates[i as int].id,
            forall|x: int|
                0 <= x < i2 && x != i && #[trigger] is_orphan(l, sv, x) && crate_has_tracks(
                    l.tracks,
                    l.crates[x].id,
                ) ==> !same_crate_files(l.tracks, l.crates[x].id, id),
        decreases nc - i2,
    {
        let other = &lib.crates[i2];
        assert(l.crates[i2 as int] == other@);
        if i2 != i && !is_folder_scanned(scans, &other.folder) && has_tracks(&lib.tracks, other.id)
            && crate_files_match(&lib.tracks, other.id, id) {
            assert(is_orphan(l, sv, i2 as int));
            return None;
        }
        i2 = i2 + 1;
    }
    let mut found: Option<usize> = None;
    let mut k: usize = 0;
    while k < scans.len()
        invariant
            k <= scans@.len(),
            i < lib.crates@.len(),
            l == lib@,
            sv == scans_view(scans@),
            id == l.crates[i as int].id,
            is_orphan(l, sv, i as int),
            match found {
                Some(k1) => k1 < k && rename_match(l, sv, i as int, k1 as int) && forall|k2: int|
                    0 <= k2 < k && #[trigger] rename_match(l, sv, i as int, k2) ==> k2 == k1,
                None => forall|k2: int| 0 <= k2 < k ==> !#[trigger] rename_match(l, sv, i as int, k2),
            },
        decreases scans@.len() - k,
    {
        let s = &scans[k];
        assert(sv[k as int] == s@);
        if !is_folder_known(&lib.crates, &s.folder) && files_match(&lib.tracks, id, &s.audio_files) {
            assert(rename_match(l, sv, i as int, k as int));
            if found.is_some() {
                return None;
            }
            found = Some(k);
        } else {
            assert(!rename_match(l, sv, i as int, k as int));
        }
        k = k + 1;
    }
    found
}

/// Folder renames: a crate whose folder is gone from disk and whose track file
/// set equals exactly one new folder's audio file set takes over that folder
/// (keeping its id, tracks and metadata). Only one-to-one matches are acted
/// on: when two new folders, or two such crates, hold the same set, nothing
/// changes and the folder gets a fresh crate later.
pub fn reconcile_renames(lib: &mut Library, scans: &Vec<CrateScan>)
    ensures
        final(lib)@ == renames_spec(old(lib)@, scans_view(scans@)),
{
    let ghost l = lib@;
    let ghost sv = scans_view(scans@);
    let n = lib.crates.len();
    let mut new_crates: Vec<CrateRow> = Vec::new();
    let mut i: usize = 0;
    while i < n
        invariant
            n == lib.crates@.len(),
            i <= n,
            l == lib@,
            sv == scans_view(scans@),
            new_crates@.len() == i,
            forall|x: int|
                0 <= x < i ==> (#[trigger] new_crates@[x])@ == (match rename_target(l, sv, x) {
                    Some(k) => apply_rename(l.crates[x], sv[k]),
                    None => l.crates[x],
                }),
        decreases n - i,
    {
        let c = &lib.crates[i];
        assert(l.crates[i as int] == c@);
        match rename_choice(lib, scans, i) {
            Some(k) => {
                let s = &scans[k];
                assert(sv[k as int] == s@);
                let row = CrateRow {
                    id: c.id,
                    name: s.name.clone(),
                    folder: s.folder.clone(),
                    cover_path: clone_opt_string(&s.cover_path),
                    emptied_since: c.emptied_since,
                };
                proof {
                    let k1 = choose|k1: int| renamed_to(l, sv, i as int, k1);
                    assert(renamed_to(l, sv, i as int, k1));
                    assert(rename_match(l, sv, i as int, k1));
                    assert(k1 == k);
                    assert(row@ == apply_rename(l.crates[i as int], sv[k as int]));
                }
                new_crates.push(row);
            },
            None => {
                new_crates.push(c.duplicate());
            },
        }
        i = i + 1;
    }
    lib.crates = new_crates;
    proof {
        let r = renames_spec(l, sv);
        assert(lib@.crates =~= r.crates);
    }
}

// ── file renames and moves ──────────────────────────────────────────────────

/// The crate ids of the library are pairwise distinct.
pub open spec fn crate_ids_unique(cs: Seq<CrateView>) -> bool {
    forall|a: int, b: int| 0 <= a < cs.len() && 0 <= b < cs.len() && a != b ==> #[trigger] cs[a].id != #[trigger] cs[b].id
}

/// The number of folder entries of a scan: the scanned folders, then the
/// folders that are on disk but hold no audio.
pub open spec fn entry_count(scans: Seq<ScanView>, empties: Seq<Seq<char>>) -> int {
    (scans.len() + empties.len()) as int
}

pub open spec fn entry_folder(scans: Seq<ScanView>, empties: Seq<Seq<char>>, e: int) -> Seq<char> {
    if e < scans.len() {
        scans[e].folder
    } else {
        empties[e - scans.len()]
    }
}

pub open spec fn entry_files(scans: Seq<ScanView>, e: int) -> Seq<Seq<char>> {
    if e < scans.len() {
        scans[e].files
    } else {
        Seq::empty()
    }
}

/// A stamp of `missing_since` that is still within the grace window (or no
/// stamp at all).
pub open spec fn in_grace(t: TrackView, now: i64) -> bool {
    match t.missing_since {
        None => true,
        Some(m) => m > now - PRUNE_GRACE_SECS,
    }
}

pub open spec fn track_fp_known(t: TrackView) -> bool {
    t.file_mtime is Some && t.file_size is Some
}

pub open spec fn track_fp(t: TrackView) -> (i64, i64) {
    (t.file_mtime->0, t.file_size->0)
}

pub open spec fn meta_known(m: FileMeta) -> bool {
    m.mtime is Some && m.size is Some
}

pub open spec fn meta_fp(m: FileMeta) -> (i64, i64) {
    (m.mtime->0, m.size->0)
}

/// Track `j` belongs to a crate whose folder is on disk, its file is absent
/// from that folder, it is within the grace window, and its fingerprint is
/// known.
pub open spec fn missing_track(
    lib: LibraryView,
    scans: Seq<ScanView>,
    empties: Seq<Seq<char>>,
    now: i64,
    j: int,
) -> bool {
    let t = lib.tracks[j];
    &&& 0 <= j < lib.tracks.len()
    &&& track_fp_known(t)
    &&& in_grace(t, now)
    &&& exists|e: int|
        0 <= e < entry_count(scans, empties) && {
            let p = #[trigger] crate_pos(lib.crates, entry_folder(scans, empties, e));
            &&& p >= 0
            &&& lib.crates[p].id == t.crate_id
            &&& !entry_files(scans, e).contains(t.filename)
        }
}

/// The file `fi` of scanned folder `k` has no track row in that folder's crate
/// (or the folder has no crate) and its fingerprint is known.
pub open spec fn fresh_file(lib: LibraryView, scans: Seq<ScanView>, k: int, fi: int) -> bool {
    let p = crate_pos(lib.crates, scans[k].folder);
    &&& 0 <= k < scans.len()
    &&& 0 <= fi < scans[k].files.len()
    &&& meta_known(scans[k].meta[fi])
    &&& !(p >= 0 && crate_has_file(lib.tracks, lib.crates[p].id, scans[k].files[fi]))
}

/// Missing track `j` is re-attached to file `fi` of folder `k`: they share a
/// fingerprint, and no other missing track and no other new file has it.
pub open spec fn moved_to(
    lib: LibraryView,
    scans: Seq<ScanView>,
    empties: Seq<Seq<char>>,
    now: i64,
    j: int,
    k: int,
    fi: int,
) -> bool {
    &&& missing_track(lib, scans, empties, now, j)
    &&& fresh_file(lib, scans, k, fi)
    &&& track_fp(lib.tracks[j]) == meta_fp(scans[k].meta[fi])
    &&& forall|j2: int|
        #[trigger] missing_track(lib, scans, empties, now, j2) && track_fp(lib.tracks[j2]) == track_fp(
            lib.tracks[j],
        ) ==> j2 == j
    &&& forall|k2: int, f2: int|
        #[trigger] fresh_file(lib, scans, k2, f2) && meta_fp(scans[k2].meta[f2]) == track_fp(
            lib.tracks[j],
        ) ==> k2 == k && f2 == fi
}

/// The file track `j` is re-attached to, if any.
pub open spec fn move_of(
    lib: LibraryView,
    scans: Seq<ScanView>,
    empties: Seq<Seq<char>>,
    now: i64,
    j: int,
) -> Option<(int, int)> {
    if exists|kf: (int, int)| moved_to(lib, scans, empties, now, j, kf.0, kf.1) {
        Some(choose|kf: (int, int)| moved_to(lib, scans, empties, now, j, kf.0, kf.1))
    } else {
        None
    }
}

/// Scanned folder `k` has no crate yet and some track moves into it: the move
/// creates its crate.
pub open spec fn created_by_move(
    lib: LibraryView,
    scans: Seq<ScanView>,
    empties: Seq<Seq<char>>,
    now: i64,
    k: int,
) -> bool {
    &&& crate_pos(lib.crates, scans[k].folder) < 0
    &&& exists|j: int, fi: int| #[trigger] moved_to(lib, scans, empties, now, j, k, fi)
}

/// How many of the folders before `k` get their crate created by a move.
pub open spec fn created_before(
    lib: LibraryView,
    scans: Seq<ScanView>,
    empties: Seq<Seq<char>>,
    now: i64,
    k: int,
) -> int
    decreases k,
{
    if k <= 0 {
        0
    } else {
        created_before(lib, scans, empties, now, k - 1) + if created_by_move(
            lib,
            scans,
            empties,
            now,
            k - 1,
        ) {
            1int
        } else {
            0int
        }
    }
}

pub open spec fn new_crate_for(s: ScanView, id: i64) -> CrateView {
    CrateView { id, name: s.name, folder: s.folder, cover_path: s.cover_path, emptied_since: None }
}

/// Fingerprints in the order the moves are applied: by modification time,
/// then by size.
pub open spec fn fp_lt(a: (i64, i64), b: (i64, i64)) -> bool {
    a.0 < b.0 || (a.0 == b.0 && a.1 < b.1)
}

/// Some track moves into folder `k` with fingerprint `fp`.
pub open spec fn moves_into_with(
    lib: LibraryView,
    scans: Seq<ScanView>,
    empties: Seq<Seq<char>>,
    now: i64,
    k: int,
    fp: (i64, i64),
) -> bool {
    exists|j: int, fi: int| #[trigger] moved_to(lib, scans, empties, now, j, k, fi) && track_fp(lib.tracks[j]) == fp
}

/// A move into folder `k` comes, in fingerprint order, before every move into
/// folder `k2`: if both folders get their crate from a move, `k`'s is created
/// first.
pub open spec fn moved_into_earlier(
    lib: LibraryView,
    scans: Seq<ScanView>,
    empties: Seq<Seq<char>>,
    now: i64,
    k: int,
    k2: int,
) -> bool {
    exists|fp: (i64, i64)|
        #[trigger] moves_into_with(lib, scans, empties, now, k, fp) && forall|fp2: (i64, i64)|
            #[trigger] moves_into_with(lib, scans, empties, now, k2, fp2) ==> fp_lt(fp, fp2)
}

/// How many of the folders before `m` get their crate from a move that comes
/// before every move into folder `k`.
pub open spec fn created_earlier(
    lib: LibraryView,
    scans: Seq<ScanView>,
    empties: Seq<Seq<char>>,
    now: i64,
    k: int,
    m: int,
) -> int
    decreases m,
{
    if m <= 0 {
        0
    } else {
        created_earlier(lib, scans, empties, now, k, m - 1) + if created_by_move(lib, scans, empties, now, m - 1)
            && moved_into_earlier(lib, scans, empties, now, m - 1, k) {
            1int
        } else {
            0int
        }
    }
}

/// The id of the crate a move creates for folder `k`. Moves are applied in
/// fingerprint order and a folder's crate is created at its first move, so
/// the id counts the crates created before it.
pub open spec fn new_crate_id(
    lib: LibraryView,
    scans: Seq<ScanView>,
    empties: Seq<Seq<char>>,
    now: i64,
    k: int,
) -> i64 {
    (lib.next_crate_id + created_earlier(lib, scans, empties, now, k, scans.len() as int)) as i64
}

/// The crates that moves create for the folders before `k`, one per folder
/// in folder order, each under the id of its place in the fingerprint order.
pub open spec fn created_crates(
    lib: LibraryView,
    scans: Seq<ScanView>,
    empties: Seq<Seq<char>>,
    now: i64,
    k: int,
) -> Seq<CrateView>
    decreases k,
{
    if k <= 0 {
        Seq::empty()
    } else {
        let prev = created_crates(lib, scans, empties, now, k - 1);
        if created_by_move(lib, scans, empties, now, k - 1) {
            prev.push(new_crate_for(scans[k - 1], new_crate_id(lib, scans, empties, now, k - 1)))
        } else {
            prev
        }
    }
}

/// The id of the crate of scanned folder `k` once moves are applied.
pub open spec fn move_target_id(
    lib: LibraryView,
    scans: Seq<ScanView>,
    empties: Seq<Seq<char>>,
    now: i64,
    k: int,
) -> i64 {
    let p = crate_pos(lib.crates, scans[k].folder);
    if p >= 0 {
        lib.crates[p].id
    } else {
        new_crate_id(lib, scans, empties, now, k)
    }
}

/// A re-attached track: within its own crate only its file name and title
/// change; moved to another crate it also takes that crate, a track number by
/// its position, and no sort order (it lands at the bottom like a new file).
/// Either way it is no longer missing.
pub open spec fn apply_move(t: TrackView, target: i64, f: Seq<char>, fi: int) -> TrackView {
    if target == t.crate_id {
        TrackView { filename: f, title: title_spec(f), missing_since: None, ..t }
    } else {
        TrackView {
            crate_id: target,
            filename: f,
            title: title_spec(f),
            track_num: Some((fi + 1) as i64),
            sort_order: None,
            missing_since: None,
            ..t
        }
    }
}

/// The library after file renames and moves are re-attached.
pub open spec fn moves_spec(
    lib: LibraryView,
    scans: Seq<ScanView>,
    empties: Seq<Seq<char>>,
    now: i64,
) -> LibraryView {
    LibraryView {
        crates: lib.crates + created_crates(lib, scans, empties, now, scans.len() as int),
        tracks: Seq::new(
            lib.tracks.len(),
            |j: int|
                match move_of(lib, scans, empties, now, j) {
                    Some(kf) => apply_move(
                        lib.tracks[j],
                        move_target_id(lib, scans, empties, now, kf.0),
                        scans[kf.0].files[kf.1],
                        kf.1,
                    ),
                    None => lib.tracks[j],
                },
        ),
        next_crate_id: (lib.next_crate_id + created_before(
            lib,
            scans,
            empties,
            now,
            scans.len() as int,
        )) as i64,
        ..lib
    }
}

pub open spec fn fresh_with_fp(lib: LibraryView, scans: Seq<ScanView>, k: int, fi: int, fp: (i64, i64)) -> bool {
    fresh_file(lib, scans, k, fi) && meta_fp(scans[k].meta[fi]) == fp
}

/// The crate position of every folder entry (scanned folders, then empty
/// folders).
fn entry_positions(lib: &Library, scans: &Vec<CrateScan>, empties: &Vec<String>) -> (r: Vec<Option<usize>>)
    ensures
        r@.len() == entry_count(scans_view(scans@), strings_view(empties@)),
        forall|e: int|
            0 <= e < r@.len() ==> match #[trigger] r@[e] {
                Some(p) => crate_pos(
                    lib@.crates,
                    entry_folder(scans_view(scans@), strings_view(empties@), e),
                ) == p as int,
                None => crate_pos(
                    lib@.crates,
                    entry_folder(scans_view(scans@), strings_view(empties@), e),
                ) == -1,
            },
{
    let ghost sv = scans_view(scans@);
    let ghost ev = strings_view(empties@);
    let mut r: Vec<Option<usize>> = Vec::new();
    let mut k: usize = 0;
    while k < scans.len()
        invariant
            k <= scans@.len(),
            sv == scans_view(scans@),
            ev == strings_view(empties@),
            r@.len() == k,
            forall|e: int|
                0 <= e < r@.len() ==> match #[trigger] r@[e] {
                    Some(p) => crate_pos(lib@.crates, entry_folder(sv, ev, e)) == p as int,
                    None => crate_pos(lib@.crates, entry_folder(sv, ev, e)) == -1,
                },
        decreases scans@.len() - k,
    {
        assert(sv[k as int] == scans@[k as int]@);
        r.push(find_crate_by_folder(&lib.crates, &scans[k].folder));
        k = k + 1;
    }
    let mut x: usize = 0;
    while x < empties.len()
        invariant
            x <= empties@.len(),
            sv == scans_view(scans@),
            ev == strings_view(empties@),
            r@.len() == sv.len() + x,
            forall|e: int|
                0 <= e < r@.len() ==> match #[trigger] r@[e] {
                    Some(p) => crate_pos(lib@.crates, entry_folder(sv, ev, e)) == p as int,
                    None => crate_pos(lib@.crates, entry_folder(sv, ev, e)) == -1,
                },
        decreases empties@.len() - x,
    {
        assert(ev[x as int] == empties@[x as int]@);
        r.push(find_crate_by_folder(&lib.crates, &empties[x]));
        x = x + 1;
    }
    r
}

fn in_grace_exec(missing_since: Option<i64>, now: i64) -> (r: bool)
    ensures
        r == match missing_since {
            None => true,
            Some(m) => m > now - PRUNE_GRACE_SECS,
        },
{
    match missing_since {
        None => true,
        Some(m) => (m as i128) > (now as i128) - (PRUNE_GRACE_SECS as i128),
    }
}

fn track_is_missing(
    lib: &Library,
    scans: &Vec<CrateScan>,
    empties: &Vec<String>,
    pos: &Vec<Option<usize>>,
    now: i64,
    j: usize,
) -> (r: bool)
    requires
        j < lib.tracks@.len(),
        pos@.len() == entry_count(scans_view(scans@), strings_view(empties@)),
        forall|e: int|
            0 <= e < pos@.len() ==> match #[trigger] pos@[e] {
                Some(p) => crate_pos(
                    lib@.crates,
                    entry_folder(scans_view(scans@), strings_view(empties@), e),
                ) == p as int,
                None => crate_pos(
                    lib@.crates,
                    entry_folder(scans_view(scans@), strings_view(empties@), e),
                ) == -1,
            },
    ensures
        r == missing_track(lib@, scans_view(scans@), strings_view(empties@), now, j as int),
{
    let ghost l = lib@;
    let ghost sv = scans_view(scans@);
    let ghost ev = strings_view(empties@);
    let t = &lib.tracks[j];
    assert(l.tracks[j as int] == t@);
    if !(t.file_mtime.is_some() && t.file_size.is_some() && in_grace_exec(t.missing_since, now)) {
        return false;
    }
    let n = pos.len();
    let mut e: usize = 0;
    while e < n
        invariant
            n == pos@.len(),
            e <= n,
            l == lib@,
            sv == scans_view(scans@),
            ev == strings_view(empties@),
            j < l.tracks.len(),
            t@ == l.tracks[j as int],
            track_fp_known(t@),
            in_grace(t@, now),
            pos@.len() == entry_count(sv, ev),
            forall|x: int|
                0 <= x < pos@.len() ==> match #[trigger] pos@[x] {
                    Some(p) => crate_pos(l.crates, entry_folder(sv, ev, x)) == p as int,
                    None => crate_pos(l.crates, entry_folder(sv, ev, x)) == -1,
                },
            forall|x: int|
                0 <= x < e ==> !{
                    let p = #[trigger] crate_pos(l.crates, entry_folder(sv, ev, x));
                    &&& p >= 0
                    &&& l.crates[p].id == t@.crate_id
                    &&& !entry_files(sv, x).contains(t@.filename)
                },
        decreases n - e,
    {
        let ghost pe = crate_pos(l.crates, entry_folder(sv, ev, e as int));
        assert(pos@[e as int] == pos@[e as int]);
        match pos[e] {
            Some(p) => {
                proof {
                    lemma_crate_pos(l.crates, entry_folder(sv, ev, e as int));
                }
                assert(l.crates[p as int] == lib.crates@[p as int]@);
                if lib.crates[p].crate_id_is(t.crate_id) {
                    let on_disk = if e < scans.len() {
                        assert(sv[e as int] == scans@[e as int]@);
                        list_has(&scans[e].audio_files, &t.filename)
                    } else {
                        false
                    };
                    if !on_disk {
                        assert(pe >= 0 && l.crates[pe].id == t@.crate_id && !entry_files(sv, e as int).contains(t@.filename));
                        assert(exists|x: int|
                            0 <= x < entry_count(sv, ev) && {
                                let p = #[trigger] crate_pos(l.crates, entry_folder(sv, ev, x));
                                &&& p >= 0
                                &&& l.crates[p].id == t@.crate_id
                                &&& !entry_files(sv, x).contains(t@.filename)
                            });
                        return true;
                    }
                }
            },
            None => {},
        }
        e = e + 1;
    }
    false
}

impl CrateRow {
    fn crate_id_is(&self, id: i64) -> (r: bool)
        ensures
            r == (self.id == id),
    {
        self.id == id
    }
}

/// For every scanned file, whether it is fresh (see `fresh_file`).
fn fresh_flags(lib: &Library, scans: &Vec<CrateScan>, pos: &Vec<Option<usize>>) -> (r: Vec<Vec<bool>>)
    requires
        scans_wf(scans_view(scans@)),
        pos@.len() >= scans@.len(),
        forall|e: int|
            0 <= e < scans@.len() ==> match #[trigger] pos@[e] {
                Some(p) => crate_pos(lib@.crates, scans_view(scans@)[e].folder) == p as int,
                None => crate_pos(lib@.crates, scans_view(scans@)[e].folder) == -1,
            },
    ensures
        r@.len() == scans@.len(),
        forall|k: int|
            0 <= k < scans@.len() ==> (#[trigger] r@[k])@.len() == scans_view(scans@)[k].files.len(),
        forall|k: int, fi: int|
            0 <= k < scans@.len() && 0 <= fi < scans_view(scans@)[k].files.len() ==> #[trigger] r@[k]@[fi]
                == fresh_file(lib@, scans_view(scans@), k, fi),
{
    let ghost l = lib@;
    let ghost sv = scans_view(scans@);
    let mut r: Vec<Vec<bool>> = Vec::new();
    let mut k: usize = 0;
    while k < scans.len()
        invariant
            k <= scans@.len(),
            l == lib@,
            sv == scans_view(scans@),
            scans_wf(sv),
            pos@.len() >= scans@.len(),
            forall|e: int|
                0 <= e < scans@.len() ==> match #[trigger] pos@[e] {
                    Some(p) => crate_pos(l.crates, sv[e].folder) == p as int,
                    None => crate_pos(l.crates, sv[e].folder) == -1,
                },
            r@.len() == k,
            forall|x: int| 0 <= x < k ==> (#[trigger] r@[x])@.len() == sv[x].files.len(),
            forall|x: int, fi: int|
                0 <= x < k && 0 <= fi < sv[x].files.len() ==> #[trigger] r@[x]@[fi] == fresh_file(l, sv, x, fi),
        decreases scans@.len() - k,
    {
        let s = &scans[k];
        assert(sv[k as int] == s@);
        assert(scan_wf(sv[k as int]));
        let p = pos[k];
        let mut row: Vec<bool> = Vec::new();
        let mut fi: usize = 0;
        while fi < s.audio_files.len()
            invariant
                k < scans@.len(),
                l == lib@,
                sv == scans_view(scans@),
                s@ == sv[k as int],
                scan_wf(s@),
                match p {
                    Some(pp) => crate_pos(l.crates, sv[k as int].folder) == pp as int,
                    None => crate_pos(l.crates, sv[k as int].folder) == -1,
                },
                fi <= s.audio_files@.len(),
                row@.len() == fi,
                forall|y: int| 0 <= y < fi ==> #[trigger] row@[y] == fresh_file(l, sv, k as int, y),
            decreases s.audio_files@.len() - fi,
        {
            assert(s@.files[fi as int] == s.audio_files@[fi as int]@);
            let m = s.file_meta[fi];
            let known = match p {
                Some(pp) => {
                    proof {
                        lemma_crate_pos(l.crates, sv[k as int].folder);
                    }
                    assert(l.crates[pp as int] == lib.crates@[pp as int]@);
                    has_file(&lib.tracks, lib.crates[pp].id, &s.audio_files[fi])
                },
                None => false,
            };
            row.push(m.mtime.is_some() && m.size.is_some() && !known);
            fi = fi + 1;
        }
        r.push(row);
        k = k + 1;
    }
    r
}

/// The only fresh file with fingerprint `fp`, if exactly one has it.
fn unique_fresh_with_fp(scans: &Vec<CrateScan>, flags: &Vec<Vec<bool>>, fp: (i64, i64), Ghost(l): Ghost<LibraryView>) -> (r: Option<(usize, usize)>)
    requires
        scans_wf(scans_view(scans@)),
        flags@.len() == scans@.len(),
        forall|k: int|
            0 <= k < scans@.len() ==> (#[trigger] flags@[k])@.len() == scans_view(scans@)[k].files.len(),
        forall|k: int, fi: int|
            0 <= k < scans@.len() && 0 <= fi < scans_view(scans@)[k].files.len() ==> #[trigger] flags@[k]@[fi]
                == fresh_file(l, scans_view(scans@), k, fi),
    ensures
        match r {
            Some((k, fi)) => k < scans@.len() && fi < scans_view(scans@)[k as int].files.len()
                && fresh_with_fp(l, scans_view(scans@), k as int, fi as int, fp) && forall|k2: int, f2: int|
                #[trigger] fresh_with_fp(l, scans_view(scans@), k2, f2, fp) ==> k2 == k && f2 == fi,
            None => forall|k: int, fi: int|
                #[trigger] fresh_with_fp(l, scans_view(scans@), k, fi, fp) ==> exists|k2: int, f2: int|
                    #[trigger] fresh_with_fp(l, scans_view(scans@), k2, f2, fp) && (k2 != k || f2 != fi),
        },
{
    let ghost sv = scans_view(scans@);
    let mut found: Option<(usize, usize)> = None;
    let mut k: usize = 0;
    while k < scans.len()
        invariant
            k <= scans@.len(),
            sv == scans_view(scans@),
            scans_wf(sv),
            flags@.len() == scans@.len(),
            forall|x: int| 0 <= x < scans@.len() ==> (#[trigger] flags@[x])@.len() == sv[x].files.len(),
            forall|x: int, fi: int|
                0 <= x < scans@.len() && 0 <= fi < sv[x].files.len() ==> #[trigger] flags@[x]@[fi]
                    == fresh_file(l, sv, x, fi),
            match found {
                Some((k1, f1)) => k1 < k && f1 < sv[k1 as int].files.len() && fresh_with_fp(l, sv, k1 as int, f1 as int, fp)
                    && forall|k2: int, f2: int|
                    0 <= k2 < k && #[trigger] fresh_with_fp(l, sv, k2, f2, fp) ==> k2 == k1 && f2 == f1,
                None => forall|k2: int, f2: int| 0 <= k2 < k ==> !#[trigger] fresh_with_fp(l, sv, k2, f2, fp),
            },
        decreases scans@.len() - k,
    {
        let s = &scans[k];
        assert(sv[k as int] == s@);
        assert(scan_wf(sv[k as int]));
        let row = &flags[k];
        let mut fi: usize = 0;
        while fi < row.len()
            invariant
                k < scans@.len(),
                sv == scans_view(scans@),
                s@ == sv[k as int],
                scan_wf(s@),
                row@ == flags@[k as int]@,
                row@.len() == sv[k as int].files.len(),
                forall|y: int| 0 <= y < row@.len() ==> #[trigger] row@[y] == fresh_file(l, sv, k as int, y),
                fi <= row@.len(),
                match found {
                    Some((k1, f1)) => k1 <= k && (k1 < k || f1 < fi) && f1 < sv[k1 as int].files.len() && fresh_with_fp(l, sv, k1 as int, f1 as int, fp)
                        && (forall|k2: int, f2: int|
                        0 <= k2 < k && #[trigger] fresh_with_fp(l, sv, k2, f2, fp) ==> k2 == k1 && f2 == f1)
                        && (forall|f2: int| 0 <= f2 < fi && #[trigger] fresh_with_fp(l, sv, k as int, f2, fp) ==> k == k1 && f2 == f1),
                    None => (forall|k2: int, f2: int| 0 <= k2 < k ==> !#[trigger] fresh_with_fp(l, sv, k2, f2, fp))
                        && (forall|f2: int| 0 <= f2 < fi ==> !#[trigger] fresh_with_fp(l, sv, k as int, f2, fp)),
                },
            decreases row@.len() - fi,
        {
            let m = s.file_meta[fi];
            if row[fi] && m.mtime == Some(fp.0) && m.size == Some(fp.1) {
                assert(fresh_with_fp(l, sv, k as int, fi as int, fp));
                match found {
                    Some((k1, f1)) => {
                        proof {
                            assert forall|kk: int, ff: int| #[trigger] fresh_with_fp(l, sv, kk, ff, fp) implies exists|k2: int, f2: int|
                                #[trigger] fresh_with_fp(l, sv, k2, f2, fp) && (k2 != kk || f2 != ff) by {
                                if kk == k1 && ff == f1 {
                                    assert(fresh_with_fp(l, sv, k as int, fi as int, fp) && (k != kk || fi != ff));
                                } else {
                                    assert(fresh_with_fp(l, sv, k1 as int, f1 as int, fp) && (k1 != kk || f1 != ff));
                                }
                            }
                        }
                        return None;
                    },
                    None => {
                        found = Some((k, fi));
                    },
                }
            } else {
                assert(!fresh_with_fp(l, sv, k as int, fi as int, fp));
            }
            fi = fi + 1;
        }
        k = k + 1;
    }
    proof {
        match found {
            Some((k1, f1)) => {
                assert forall|k2: int, f2: int| #[trigger] fresh_with_fp(l, sv, k2, f2, fp) implies k2 == k1 && f2 == f1 by {
                    assert(0 <= k2 < sv.len());
                }
            },
            None => {
                assert forall|k2: int, f2: int| #[trigger] fresh_with_fp(l, sv, k2, f2, fp) implies exists|k3: int, f3: int|
                    #[trigger] fresh_with_fp(l, sv, k3, f3, fp) && (k3 != k2 || f3 != f2) by {
                    assert(0 <= k2 < sv.len());
                }
            },
        }
    }
    found
}

fn other_missing_with_fp(
    tracks: &Vec<TrackRow>,
    missing: &Vec<bool>,
    j: usize,
    fp: (i64, i64),
    Ghost(lm): Ghost<spec_fn(int) -> bool>,
) -> (r: bool)
    requires
        missing@.len() == tracks@.len(),
        forall|x: int| 0 <= x < missing@.len() ==> #[trigger] missing@[x] == lm(x),
        forall|x: int| #[trigger] lm(x) ==> 0 <= x < tracks@.len() && track_fp_known(tracks@[x]@),
    ensures
        r == exists|j2: int| #[trigger] lm(j2) && j2 != j && track_fp(tracks@[j2]@) == fp,
{
    let mut x: usize = 0;
    while x < tracks.len()
        invariant
            x <= tracks@.len(),
            missing@.len() == tracks@.len(),
            forall|y: int| 0 <= y < missing@.len() ==> #[trigger] missing@[y] == lm(y),
            forall|y: int| #[trigger] lm(y) ==> 0 <= y < tracks@.len() && track_fp_known(tracks@[y]@),
            forall|y: int| 0 <= y < x ==> !(#[trigger] lm(y) && y != j && track_fp(tracks@[y]@) == fp),
        decreases tracks@.len() - x,
    {
        let t = &tracks[x];
        if missing[x] && x != j && t.file_mtime == Some(fp.0) && t.file_size == Some(fp.1) {
            assert(lm(x as int) && x != j && track_fp(tracks@[x as int]@) == fp);
            return true;
        }
        x = x + 1;
    }
    false
}

/// For every track, the file it is re-attached to (see `moved_to`).
fn plan_moves(lib: &Library, scans: &Vec<CrateScan>, empties: &Vec<String>, now: i64) -> (plan: Vec<Option<(usize, usize)>>)
    requires
        scans_wf(scans_view(scans@)),
    ensures
        plan@.len() == lib.tracks@.len(),
        forall|j: int|
            0 <= j < plan@.len() ==> match #[trigger] plan@[j] {
                Some((k, fi)) => k < scans@.len() && fi < scans_view(scans@)[k as int].files.len() && moved_to(
                    lib@,
                    scans_view(scans@),
                    strings_view(empties@),
                    now,
                    j,
                    k as int,
                    fi as int,
                ),
                None => forall|k: int, fi: int|
                    !moved_to(lib@, scans_view(scans@), strings_view(empties@), now, j, k, fi),
            },
{
    let ghost l = lib@;
    let ghost sv = scans_view(scans@);
    let ghost ev = strings_view(empties@);
    let pos = entry_positions(lib, scans, empties);
    assert forall|e: int| 0 <= e < scans@.len() implies match #[trigger] pos@[e] {
        Some(p) => crate_pos(lib@.crates, scans_view(scans@)[e].folder) == p as int,
        None => crate_pos(lib@.crates, scans_view(scans@)[e].folder) == -1,
    } by {
        assert(entry_folder(sv, ev, e) == sv[e].folder);
    }
    let flags = fresh_flags(lib, scans, &pos);
    let n = lib.tracks.len();
    let mut missing: Vec<bool> = Vec::new();
    let mut j: usize = 0;
    while j < n
        invariant
            n == lib.tracks@.len(),
            j <= n,
            l == lib@,
            sv == scans_view(scans@),
            ev == strings_view(empties@),
            pos@.len() == entry_count(sv, ev),
            forall|e: int|
                0 <= e < pos@.len() ==> match #[trigger] pos@[e] {
                    Some(p) => crate_pos(l.crates, entry_folder(sv, ev, e)) == p as int,
                    None => crate_pos(l.crates, entry_folder(sv, ev, e)) == -1,
                },
            missing@.len() == j,
            forall|x: int| 0 <= x < j ==> #[trigger] missing@[x] == missing_track(l, sv, ev, now, x),
        decreases n - j,
    {
        missing.push(track_is_missing(lib, scans, empties, &pos, now, j));
        j = j + 1;
    }
    let ghost lm = |x: int| missing_track(l, sv, ev, now, x);
    let mut plan: Vec<Option<(usize, usize)>> = Vec::new();
    let mut j: usize = 0;
    while j < n
        invariant
            n == lib.tracks@.len(),
            j <= n,
            l == lib@,
            sv == scans_view(scans@),
            ev == strings_view(empties@),
            scans_wf(sv),
            missing@.len() == n,
            forall|x: int| 0 <= x < n ==> #[trigger] missing@[x] == missing_track(l, sv, ev, now, x),
            lm == (|x: int| missing_track(l, sv, ev, now, x)),
            flags@.len() == scans@.len(),
            forall|k: int| 0 <= k < scans@.len() ==> (#[trigger] flags@[k])@.len() == sv[k].files.len(),
            forall|k: int, fi: int|
                0 <= k < scans@.len() && 0 <= fi < sv[k].files.len() ==> #[trigger] flags@[k]@[fi]
                    == fresh_file(l, sv, k, fi),
            plan@.len() == j,
            forall|x: int|
                0 <= x < j ==> match #[trigger] plan@[x] {
                    Some((k, fi)) => k < scans@.len() && fi < sv[k as int].files.len() && moved_to(l, sv, ev, now, x, k as int, fi as int),
                    None => forall|k: int, fi: int| !moved_to(l, sv, ev, now, x, k, fi),
                },
        decreases n - j,
    {
        if !missing[j] {
            plan.push(None);
        } else {
            let t = &lib.tracks[j];
            assert(l.tracks[j as int] == t@);
            let fp = (t.file_mtime.unwrap(), t.file_size.unwrap());
            assert(fp == track_fp(l.tracks[j as int]));
            proof {
                assert forall|x: int| 0 <= x < missing@.len() implies #[trigger] missing@[x] == lm(x) by {}
                assert forall|x: int| #[trigger] lm(x) implies 0 <= x < lib.tracks@.len() && track_fp_known(lib.tracks@[x]@) by {
                    assert(l.tracks[x] == lib.tracks@[x]@);
                }
            }
            if other_missing_with_fp(&lib.tracks, &missing, j, fp, Ghost(lm)) {
                proof {
                    let j2 = choose|j2: int| #[trigger] lm(j2) && j2 != j && track_fp(lib.tracks@[j2]@) == fp;
                    assert(missing_track(l, sv, ev, now, j2));
                    assert(l.tracks[j2] == lib.tracks@[j2]@);
                }
                plan.push(None);
            } else {
                proof {
                    assert forall|j2: int| #[trigger] missing_track(l, sv, ev, now, j2) && track_fp(l.tracks[j2]) == track_fp(l.tracks[j as int]) implies j2 == j by {
                        assert(lm(j2));
                        assert(l.tracks[j2] == lib.tracks@[j2]@);
                    }
                }
                match unique_fresh_with_fp(scans, &flags, fp, Ghost(l)) {
                    Some((k, fi)) => {
                        proof {
                            assert forall|k2: int, f2: int| #[trigger] fresh_file(l, sv, k2, f2) && meta_fp(sv[k2].meta[f2]) == track_fp(l.tracks[j as int]) implies k2 == k && f2 == fi by {
                                assert(fresh_with_fp(l, sv, k2, f2, fp));
                            }
                            assert(moved_to(l, sv, ev, now, j as int, k as int, fi as int));
                        }
                        plan.push(Some((k, fi)));
                    },
                    None => {
                        proof {
                            assert forall|k: int, fi: int| !moved_to(l, sv, ev, now, j as int, k, fi) by {
                                if moved_to(l, sv, ev, now, j as int, k, fi) {
                                    assert(fresh_with_fp(l, sv, k, fi, fp));
                                    let (k2, f2) = choose|k2: int, f2: int| #[trigger] fresh_with_fp(l, sv, k2, f2, fp) && (k2 != k || f2 != fi);
                                    assert(fresh_file(l, sv, k2, f2));
                                }
                            }
                        }
                        plan.push(None);
                    },
                }
            }
        }
        j = j + 1;
    }
    plan
}

proof fn lemma_created_before_bounds(
    lib: LibraryView,
    scans: Seq<ScanView>,
    empties: Seq<Seq<char>>,
    now: i64,
    k: int,
)
    requires
        0 <= k,
    ensures
        0 <= created_before(lib, scans, empties, now, k) <= k,
        created_crates(lib, scans, empties, now, k).len() == created_before(lib, scans, empties, now, k),
    decreases k,
{
    if k > 0 {
        lemma_created_before_bounds(lib, scans, empties, now, k - 1);
    }
}

proof fn lemma_moved_to_unique(
    lib: LibraryView,
    scans: Seq<ScanView>,
    empties: Seq<Seq<char>>,
    now: i64,
    j: int,
    k: int,
    fi: int,
    k2: int,
    f2: int,
)
    requires
        moved_to(lib, scans, empties, now, j, k, fi),
        moved_to(lib, scans, empties, now, j, k2, f2),
    ensures
        k == k2 && fi == f2,
{
    assert(fresh_file(lib, scans, k2, f2));
}

/// A move into folder `k` has fingerprint `fp`, and none into it comes
/// earlier.
pub open spec fn first_move_fp(
    lib: LibraryView,
    scans: Seq<ScanView>,
    empties: Seq<Seq<char>>,
    now: i64,
    k: int,
    fp: (i64, i64),
) -> bool {
    &&& moves_into_with(lib, scans, empties, now, k, fp)
    &&& forall|fp2: (i64, i64)| #[trigger] moves_into_with(lib, scans, empties, now, k, fp2) ==> !fp_lt(fp2, fp)
}

proof fn lemma_created_earlier_bounds(
    lib: LibraryView,
    scans: Seq<ScanView>,
    empties: Seq<Seq<char>>,
    now: i64,
    k: int,
    m: int,
)
    requires
        0 <= m,
    ensures
        0 <= created_earlier(lib, scans, empties, now, k, m) <= m,
    decreases m,
{
    if m > 0 {
        lemma_created_earlier_bounds(lib, scans, empties, now, k, m - 1);
    }
}

/// Two folders' crates are created in the order of their first moves.
pub proof fn lemma_first_moves_order(
    lib: LibraryView,
    scans: Seq<ScanView>,
    empties: Seq<Seq<char>>,
    now: i64,
    k1: int,
    fp1: (i64, i64),
    k2: int,
    fp2: (i64, i64),
)
    requires
        first_move_fp(lib, scans, empties, now, k1, fp1),
        first_move_fp(lib, scans, empties, now, k2, fp2),
    ensures
        moved_into_earlier(lib, scans, empties, now, k1, k2) == fp_lt(fp1, fp2),
{
    if fp_lt(fp1, fp2) {
        assert forall|f: (i64, i64)| #[trigger] moves_into_with(lib, scans, empties, now, k2, f) implies fp_lt(fp1, f) by {
            assert(!fp_lt(f, fp2));
        }
        assert(moves_into_with(lib, scans, empties, now, k1, fp1));
    }
    if moved_into_earlier(lib, scans, empties, now, k1, k2) {
        let fp = choose|fp: (i64, i64)|
            #[trigger] moves_into_with(lib, scans, empties, now, k1, fp) && forall|f: (i64, i64)|
                #[trigger] moves_into_with(lib, scans, empties, now, k2, f) ==> fp_lt(fp, f);
        assert(fp_lt(fp, fp2));
        assert(!fp_lt(fp, fp1));
    }
}

/// The fingerprint of the first move into folder `k`, or `None` when no track
/// moves there.
fn first_move_into(
    lib: &Library,
    scans: &Vec<CrateScan>,
    plan: &Vec<Option<(usize, usize)>>,
    k: usize,
    Ghost(ev): Ghost<Seq<Seq<char>>>,
    Ghost(now): Ghost<i64>,
) -> (r: Option<(i64, i64)>)
    requires
        plan@.len() == lib.tracks@.len(),
        forall|j: int|
            0 <= j < plan@.len() ==> match #[trigger] plan@[j] {
                Some((k1, fi)) => k1 < scans@.len() && fi < scans_view(scans@)[k1 as int].files.len()
                    && moved_to(lib@, scans_view(scans@), ev, now, j, k1 as int, fi as int),
                None => forall|k1: int, fi: int| !moved_to(lib@, scans_view(scans@), ev, now, j, k1, fi),
            },
    ensures
        match r {
            Some(fp) => first_move_fp(lib@, scans_view(scans@), ev, now, k as int, fp),
            None => forall|j: int, fi: int| !moved_to(lib@, scans_view(scans@), ev, now, j, k as int, fi),
        },
{
    let ghost l = lib@;
    let ghost sv = scans_view(scans@);
    let mut best: Option<(i64, i64)> = None;
    let mut j: usize = 0;
    while j < plan.len()
        invariant
            j <= plan@.len(),
            l == lib@,
            sv == scans_view(scans@),
            plan@.len() == lib.tracks@.len(),
            forall|y: int|
                0 <= y < plan@.len() ==> match #[trigger] plan@[y] {
                    Some((k1, fi)) => k1 < scans@.len() && fi < sv[k1 as int].files.len() && moved_to(l, sv, ev, now, y, k1 as int, fi as int),
                    None => forall|k1: int, fi: int| !moved_to(l, sv, ev, now, y, k1, fi),
                },
            match best {
                Some(fp) => moves_into_with(l, sv, ev, now, k as int, fp) && forall|y: int, fi: int|
                    0 <= y < j && #[trigger] moved_to(l, sv, ev, now, y, k as int, fi) ==> !fp_lt(track_fp(l.tracks[y]), fp),
                None => forall|y: int, fi: int| 0 <= y < j ==> !#[trigger] moved_to(l, sv, ev, now, y, k as int, fi),
            },
        decreases plan@.len() - j,
    {
        match plan[j] {
            Some((k1, fi)) => {
                if k1 == k {
                    assert(moved_to(l, sv, ev, now, j as int, k as int, fi as int));
                    let t = &lib.tracks[j];
                    assert(l.tracks[j as int] == t@);
                    let fp = (t.file_mtime.unwrap(), t.file_size.unwrap());
                    assert(fp == track_fp(l.tracks[j as int]));
                    assert(moves_into_with(l, sv, ev, now, k as int, fp));
                    proof {
                        assert forall|fi2: int| #[trigger] moved_to(l, sv, ev, now, j as int, k as int, fi2) implies fi2 == fi by {
                            lemma_moved_to_unique(l, sv, ev, now, j as int, k as int, fi2, k as int, fi as int);
                        }
                    }
                    best = match best {
                        None => Some(fp),
                        Some(b) => {
                            if fp.0 < b.0 || (fp.0 == b.0 && fp.1 < b.1) {
                                Some(fp)
                            } else {
                                Some(b)
                            }
                        },
                    };
                } else {
                    proof {
                        assert forall|fi2: int| !moved_to(l, sv, ev, now, j as int, k as int, fi2) by {
                            if moved_to(l, sv, ev, now, j as int, k as int, fi2) {
                                lemma_moved_to_unique(l, sv, ev, now, j as int, k as int, fi2, k1 as int, fi as int);
                            }
                        }
                    }
                }
            },
            None => {},
        }
        j = j + 1;
    }
    proof {
        match best {
            Some(fp) => {
                assert forall|fp2: (i64, i64)| #[trigger] moves_into_with(l, sv, ev, now, k as int, fp2) implies !fp_lt(fp2, fp) by {
                    let (y, fi) = choose|y: int, fi: int| #[trigger] moved_to(l, sv, ev, now, y, k as int, fi) && track_fp(l.tracks[y]) == fp2;
                    assert(0 <= y < plan@.len());
                }
            },
            None => {
                assert forall|y: int, fi: int| !moved_to(l, sv, ev, now, y, k as int, fi) by {
                    if moved_to(l, sv, ev, now, y, k as int, fi) {
                        assert(0 <= y < plan@.len());
                    }
                }
            },
        }
    }
    best
}

/// File renames and moves: a track whose file vanished from its (still
/// present) crate folder, within the grace window and with a known
/// fingerprint, is re-attached in place to the one new file that has its exact
/// (mtime, size), when neither side is ambiguous. A move into a folder with no
/// crate yet creates that crate; moves are applied in fingerprint order, so
/// the crates they create take their ids in the order of their first moves.
pub fn reconcile_moved_files(lib: &mut Library, scans: &Vec<CrateScan>, empties: &Vec<String>, now: i64)
    requires
        scans_wf(scans_view(scans@)),
        old(lib).next_crate_id + scans@.len() <= i64::MAX,
    ensures
        final(lib)@ == moves_spec(old(lib)@, scans_view(scans@), strings_view(empties@), now),
{
    let ghost l = lib@;
    let ghost sv = scans_view(scans@);
    let ghost ev = strings_view(empties@);
    let plan = plan_moves(lib, scans, empties, now);
    let nsc = scans.len();
    // The first move into each folder that has no crate yet.
    let mut firsts: Vec<Option<(i64, i64)>> = Vec::new();
    let mut k: usize = 0;
    while k < nsc
        invariant
            nsc == scans@.len(),
            k <= nsc,
            l == lib@,
            sv == scans_view(scans@),
            ev == strings_view(empties@),
            plan@.len() == lib.tracks@.len(),
            forall|j: int|
                0 <= j < plan@.len() ==> match #[trigger] plan@[j] {
                    Some((k1, fi)) => k1 < scans@.len() && fi < sv[k1 as int].files.len() && moved_to(l, sv, ev, now, j, k1 as int, fi as int),
                    None => forall|k1: int, fi: int| !moved_to(l, sv, ev, now, j, k1, fi),
                },
            firsts@.len() == k,
            forall|x: int|
                0 <= x < k ==> match #[trigger] firsts@[x] {
                    Some(fp) => created_by_move(l, sv, ev, now, x) && first_move_fp(l, sv, ev, now, x, fp),
                    None => !created_by_move(l, sv, ev, now, x),
                },
        decreases nsc - k,
    {
        let s = &scans[k];
        assert(sv[k as int] == s@);
        match find_crate_by_folder(&lib.crates, &s.folder) {
            Some(_) => {
                assert(!created_by_move(l, sv, ev, now, k as int));
                firsts.push(None);
            },
            None => {
                let f = first_move_into(lib, scans, &plan, k, Ghost(ev), Ghost(now));
                proof {
                    match f {
                        Some(fp) => {
                            assert(moves_into_with(l, sv, ev, now, k as int, fp));
                            let (j, fi) = choose|j: int, fi: int| #[trigger] moved_to(l, sv, ev, now, j, k as int, fi) && track_fp(l.tracks[j]) == fp;
                            assert(created_by_move(l, sv, ev, now, k as int));
                        },
                        None => {},
                    }
                }
                firsts.push(f);
            },
        }
        k = k + 1;
    }
    let base = lib.next_crate_id;
    let mut next = lib.next_crate_id;
    let mut targets: Vec<i64> = Vec::new();
    let mut created: Vec<CrateRow> = Vec::new();
    let mut k: usize = 0;
    while k < nsc
        invariant
            nsc == scans@.len(),
            k <= nsc,
            l == lib@,
            sv == scans_view(scans@),
            ev == strings_view(empties@),
            base == l.next_crate_id,
            l.next_crate_id + scans@.len() <= i64::MAX,
            firsts@.len() == nsc,
            forall|x: int|
                0 <= x < nsc ==> match #[trigger] firsts@[x] {
                    Some(fp) => created_by_move(l, sv, ev, now, x) && first_move_fp(l, sv, ev, now, x, fp),
                    None => !created_by_move(l, sv, ev, now, x),
                },
            next == l.next_crate_id + created_before(l, sv, ev, now, k as int),
            crates_view(created@) == created_crates(l, sv, ev, now, k as int),
            targets@.len() == k,
            forall|x: int|
                0 <= x < k && (crate_pos(l.crates, sv[x].folder) >= 0 || created_by_move(l, sv, ev, now, x))
                    ==> #[trigger] targets@[x] == move_target_id(l, sv, ev, now, x),
        decreases nsc - k,
    {
        proof {
            lemma_created_before_bounds(l, sv, ev, now, k as int);
        }
        let s = &scans[k];
        assert(sv[k as int] == s@);
        match find_crate_by_folder(&lib.crates, &s.folder) {
            Some(p) => {
                proof {
                    lemma_crate_pos(l.crates, s@.folder);
                }
                assert(l.crates[p as int] == lib.crates@[p as int]@);
                targets.push(lib.crates[p].id);
                assert(!created_by_move(l, sv, ev, now, k as int));
                assert(crates_view(created@) =~= created_crates(l, sv, ev, now, k + 1));
            },
            None => {
                match firsts[k] {
                    Some(fp) => {
                        // Count the crates whose first move comes before this one.
                        let mut rank: usize = 0;
                        let mut x: usize = 0;
                        while x < nsc
                            invariant
                                nsc == scans@.len(),
                                x <= nsc,
                                k < nsc,
                                firsts@.len() == nsc,
                                firsts@[k as int] == Some(fp),
                                forall|y: int|
                                    0 <= y < nsc ==> match #[trigger] firsts@[y] {
                                        Some(f) => created_by_move(l, sv, ev, now, y) && first_move_fp(l, sv, ev, now, y, f),
                                        None => !created_by_move(l, sv, ev, now, y),
                                    },
                                rank == created_earlier(l, sv, ev, now, k as int, x as int),
                            decreases nsc - x,
                        {
                            proof {
                                lemma_created_earlier_bounds(l, sv, ev, now, k as int, x as int);
                            }
                            match firsts[x] {
                                Some(f) => {
                                    proof {
                                        lemma_first_moves_order(l, sv, ev, now, x as int, f, k as int, fp);
                                    }
                                    if f.0 < fp.0 || (f.0 == fp.0 && f.1 < fp.1) {
                                        rank = rank + 1;
                                    }
                                },
                                None => {},
                            }
                            x = x + 1;
                        }
                        proof {
                            lemma_created_earlier_bounds(l, sv, ev, now, k as int, nsc as int);
                        }
                        let id = ((base as i128) + (rank as i128)) as i64;
                        assert(id == new_crate_id(l, sv, ev, now, k as int));
                        targets.push(id);
                        let row = CrateRow {
                            id,
                            name: s.name.clone(),
                            folder: s.folder.clone(),
                            cover_path: clone_opt_string(&s.cover_path),
                            emptied_since: None,
                        };
                        created.push(row);
                        next = next + 1;
                        assert(crates_view(created@) =~= created_crates(l, sv, ev, now, k + 1));
                    },
                    None => {
                        targets.push(base);
                        assert(crates_view(created@) =~= created_crates(l, sv, ev, now, k + 1));
                    },
                }
            },
        }
        k = k + 1;
    }
    let n = lib.tracks.len();
    let mut new_tracks: Vec<TrackRow> = Vec::new();
    let mut j: usize = 0;
    while j < n
        invariant
            n == lib.tracks@.len(),
            j <= n,
            l == lib@,
            sv == scans_view(scans@),
            ev == strings_view(empties@),
            scans_wf(sv),
            plan@.len() == n,
            forall|y: int|
                0 <= y < plan@.len() ==> match #[trigger] plan@[y] {
                    Some((k1, fi)) => k1 < scans@.len() && fi < sv[k1 as int].files.len() && moved_to(l, sv, ev, now, y, k1 as int, fi as int),
                    None => forall|k1: int, fi: int| !moved_to(l, sv, ev, now, y, k1, fi),
                },
            targets@.len() == scans@.len(),
            forall|x: int|
                0 <= x < scans@.len() && (crate_pos(l.crates, sv[x].folder) >= 0 || created_by_move(l, sv, ev, now, x))
                    ==> #[trigger] targets@[x] == move_target_id(l, sv, ev, now, x),
            new_tracks@.len() == j,
            forall|y: int|
                0 <= y < j ==> (#[trigger] new_tracks@[y])@ == (match move_of(l, sv, ev, now, y) {
                    Some(kf) => apply_move(
                        l.tracks[y],
                        move_target_id(l, sv, ev, now, kf.0),
                        sv[kf.0].files[kf.1],
                        kf.1,
                    ),
                    None => l.tracks[y],
                }),
        decreases n - j,
    {
        let t = &lib.tracks[j];
        assert(l.tracks[j as int] == t@);
        match plan[j] {
            Some((k1, fi)) => {
                proof {
                    let kf = choose|kf: (int, int)| moved_to(l, sv, ev, now, j as int, kf.0, kf.1);
                    assert(moved_to(l, sv, ev, now, j as int, k1 as int, fi as int));
                    lemma_moved_to_unique(l, sv, ev, now, j as int, k1 as int, fi as int, kf.0, kf.1);
                }
                let s = &scans[k1];
                assert(sv[k1 as int] == s@);
                assert(s@.files[fi as int] == s.audio_files@[fi as int]@);
                assert(crate_pos(l.crates, sv[k1 as int].folder) >= 0 || created_by_move(l, sv, ev, now, k1 as int));
                let target = targets[k1];
                // The file count bounds the track number given to a moved row.
                let n_files = s.audio_files.len();
                assert(fi < n_files);
                let f = &s.audio_files[fi];
                let row = if target == t.crate_id {
                    TrackRow {
                        id: t.id,
                        crate_id: t.crate_id,
                        filename: f.clone(),
                        title: title_from_filename(f.as_str()),
                        track_num: t.track_num,
                        sort_order: t.sort_order,
                        has_duration: t.has_duration,
                        file_mtime: t.file_mtime,
                        file_size: t.file_size,
                        missing_since: None,
                    }
                } else {
                    TrackRow {
                        id: t.id,
                        crate_id: target,
                        filename: f.clone(),
                        title: title_from_filename(f.as_str()),
                        track_num: Some((fi + 1) as i64),
                        sort_order: None,
                        has_duration: t.has_duration,
                        file_mtime: t.file_mtime,
                        file_size: t.file_size,
                        missing_since: None,
                    }
                };
                new_tracks.push(row);
            },
            None => {
                new_tracks.push(t.duplicate());
            },
        }
        j = j + 1;
    }
    lib.crates.append(&mut created);
    lib.tracks = new_tracks;
    lib.next_crate_id = next;
    proof {
        let r = moves_spec(l, sv, ev, now);
        assert(lib@.crates =~= r.crates);
        assert(lib@.tracks =~= r.tracks);
    }
}

// ── per-crate upsert ─────────────────────────────────────────────────────────

/// Position of the first of `files` that equals `f`, or -1.
pub open spec fn file_pos(files: Seq<Seq<char>>, f: Seq<char>) -> int
    decreases files.len(),
{
    if files.len() == 0 {
        -1
    } else {
        let r = file_pos(files.drop_last(), f);
        if r >= 0 {
            r
        } else if files.last() == f {
            files.len() - 1
        } else {
            -1
        }
    }
}

/// Position of the first track row of crate `id` with file name `f`, or -1
/// (the row `SELECT ... FROM tracks WHERE crate_id = ? AND filename = ?`
/// returns).
pub open spec fn track_pos(ts: Seq<TrackView>, id: i64, f: Seq<char>) -> int
    decreases ts.len(),
{
    if ts.len() == 0 {
        -1
    } else {
        let r = track_pos(ts.drop_last(), id, f);
        if r >= 0 {
            r
        } else if ts.last().crate_id == id && ts.last().filename == f {
            ts.len() - 1
        } else {
            -1
        }
    }
}

/// The files of a scan are pairwise distinct (a directory listing).
pub open spec fn scan_files_distinct(s: ScanView) -> bool {
    forall|a: int, b: int|
        0 <= a < s.files.len() && 0 <= b < s.files.len() && a != b ==> #[trigger] s.files[a] != #[trigger] s.files[b]
}

/// The id the scanned folder's crate has once it is upserted.
pub open spec fn upsert_id(lib: LibraryView, s: ScanView) -> i64 {
    let p = crate_pos(lib.crates, s.folder);
    if p >= 0 {
        lib.crates[p].id
    } else {
        lib.next_crate_id
    }
}

/// The crates after the upsert of a scanned folder: an existing row takes the
/// folder's name and cover and loses any pending emptied-crate stamp; a new
/// row is appended otherwise.
pub open spec fn upsert_crates(lib: LibraryView, s: ScanView) -> Seq<CrateView> {
    let p = crate_pos(lib.crates, s.folder);
    if p >= 0 {
        lib.crates.update(
            p,
            CrateView { name: s.name, cover_path: s.cover_path, emptied_since: None, ..lib.crates[p] },
        )
    } else {
        lib.crates.push(new_crate_for(s, lib.next_crate_id))
    }
}

/// Both the stored fingerprint of a row and the file's are known, and they
/// differ. An unknown fingerprint on either side is never a change.
pub open spec fn content_changed(t: TrackView, m: FileMeta) -> bool {
    &&& t.file_mtime is Some
    &&& t.file_size is Some
    &&& meta_known(m)
    &&& (t.file_mtime != m.mtime || t.file_size != m.size)
}

/// A row refreshed from its file: the file's fingerprint is written as it was
/// read (an unreadable one is written as unknown, which is not a change), a
/// duration read now is stored (a failed read keeps the old one), and it is
/// no longer missing.
pub open spec fn refresh_track(t: TrackView, m: FileMeta, read: bool) -> TrackView {
    TrackView {
        has_duration: read || t.has_duration,
        file_mtime: m.mtime,
        file_size: m.size,
        missing_since: None,
        ..t
    }
}

/// Track `j` after the ingest of a scanned folder (`None`: deleted). A row of
/// the folder's crate whose file is on disk is refreshed; a row whose file is
/// absent is stamped missing now, or deleted once its stamp is at least the
/// grace window old.
pub open spec fn track_after(
    lib: LibraryView,
    s: ScanView,
    read_ok: Seq<bool>,
    now: i64,
    j: int,
) -> Option<TrackView> {
    let t = lib.tracks[j];
    let x = upsert_id(lib, s);
    let fi = file_pos(s.files, t.filename);
    if t.crate_id != x {
        Some(t)
    } else if fi >= 0 {
        if track_pos(lib.tracks, x, t.filename) == j {
            Some(refresh_track(t, s.meta[fi], read_ok[fi]))
        } else {
            Some(t)
        }
    } else if t.missing_since is None {
        Some(TrackView { missing_since: Some(now), ..t })
    } else if t.missing_since->0 <= now - PRUNE_GRACE_SECS {
        None
    } else {
        Some(t)
    }
}

/// The rows `0..n` after the ingest, in order, without the deleted ones.
pub open spec fn kept_tracks(lib: LibraryView, s: ScanView, read_ok: Seq<bool>, now: i64, n: int) -> Seq<TrackView>
    decreases n,
{
    if n <= 0 {
        Seq::empty()
    } else {
        let prev = kept_tracks(lib, s, read_ok, now, n - 1);
        match track_after(lib, s, read_ok, now, n - 1) {
            Some(t) => prev.push(t),
            None => prev,
        }
    }
}

/// How many of the files before `fi` have no row yet.
pub open spec fn new_before(lib: LibraryView, s: ScanView, fi: int) -> int
    decreases fi,
{
    if fi <= 0 {
        0
    } else {
        new_before(lib, s, fi - 1) + if track_pos(lib.tracks, upsert_id(lib, s), s.files[fi - 1]) < 0 {
            1int
        } else {
            0int
        }
    }
}

pub open spec fn new_track_for(lib: LibraryView, s: ScanView, read_ok: Seq<bool>, fi: int) -> TrackView {
    TrackView {
        id: (lib.next_track_id + new_before(lib, s, fi)) as i64,
        crate_id: upsert_id(lib, s),
        filename: s.files[fi],
        title: title_spec(s.files[fi]),
        track_num: Some((fi + 1) as i64),
        sort_order: None,
        has_duration: read_ok[fi],
        file_mtime: s.meta[fi].mtime,
        file_size: s.meta[fi].size,
        missing_since: None,
    }
}

/// The rows inserted for the files before `fi` that have none, in file order.
pub open spec fn inserted_tracks(lib: LibraryView, s: ScanView, read_ok: Seq<bool>, fi: int) -> Seq<TrackView>
    decreases fi,
{
    if fi <= 0 {
        Seq::empty()
    } else {
        let prev = inserted_tracks(lib, s, read_ok, fi - 1);
        if track_pos(lib.tracks, upsert_id(lib, s), s.files[fi - 1]) < 0 {
            prev.push(new_track_for(lib, s, read_ok, fi - 1))
        } else {
            prev
        }
    }
}

/// The ids of the rows, among the files before `fi`, whose content changed on
/// disk (their loudness has to be measured again), in file order.
pub open spec fn invalidated_ids(lib: LibraryView, s: ScanView, fi: int) -> Seq<i64>
    decreases fi,
{
    if fi <= 0 {
        Seq::empty()
    } else {
        let prev = invalidated_ids(lib, s, fi - 1);
        let j = track_pos(lib.tracks, upsert_id(lib, s), s.files[fi - 1]);
        if j >= 0 && content_changed(lib.tracks[j], s.meta[fi - 1]) {
            prev.push(lib.tracks[j].id)
        } else {
            prev
        }
    }
}

/// The library after the ingest of one scanned folder.
pub open spec fn ingest_crate_spec(lib: LibraryView, s: ScanView, read_ok: Seq<bool>, now: i64) -> LibraryView {
    let created = crate_pos(lib.crates, s.folder) < 0;
    LibraryView {
        crates: upsert_crates(lib, s),
        tracks: kept_tracks(lib, s, read_ok, now, lib.tracks.len() as int) + inserted_tracks(
            lib,
            s,
            read_ok,
            s.files.len() as int,
        ),
        next_crate_id: if created {
            (lib.next_crate_id + 1) as i64
        } else {
            lib.next_crate_id
        },
        next_track_id: (lib.next_track_id + new_before(lib, s, s.files.len() as int)) as i64,
    }
}

/// Whether the file `fi` has to be opened for its duration: it does not when
/// its row has a stored duration and an unchanged known fingerprint.
pub open spec fn duration_read_needed(lib: LibraryView, s: ScanView, fi: int) -> bool {
    !exists|c: int, j: int|
        0 <= c < lib.crates.len() && 0 <= j < lib.tracks.len() && #[trigger] lib.crates[c].folder
            == s.folder && #[trigger] lib.tracks[j].crate_id == lib.crates[c].id && lib.tracks[j].filename
            == s.files[fi] && lib.tracks[j].has_duration && lib.tracks[j].file_mtime is Some
            && lib.tracks[j].file_mtime == s.meta[fi].mtime && lib.tracks[j].file_size is Some
            && lib.tracks[j].file_size == s.meta[fi].size
}

fn find_track(tracks: &Vec<TrackRow>, id: i64, f: &String) -> (r: Option<usize>)
    ensures
        match r {
            Some(j) => j < tracks@.len() && track_pos(tracks_view(tracks@), id, f@) == j as int,
            None => track_pos(tracks_view(tracks@), id, f@) == -1,
        },
{
    let ghost ts = tracks_view(tracks@);
    let mut j: usize = 0;
    while j < tracks.len()
        invariant
            j <= tracks@.len(),
            ts == tracks_view(tracks@),
            forall|x: int| 0 <= x < j ==> !(#[trigger] ts[x].crate_id == id && ts[x].filename == f@),
        decreases tracks@.len() - j,
    {
        assert(ts[j as int] == tracks@[j as int]@);
        if tracks[j].crate_id == id && tracks[j].filename == *f {
            proof {
                lemma_track_pos_char(ts, id, f@, j as int);
            }
            return Some(j);
        }
        j = j + 1;
    }
    proof {
        lemma_track_pos_char(ts, id, f@, -1);
    }
    None
}

fn file_position(files: &Vec<String>, f: &String) -> (r: Option<usize>)
    ensures
        match r {
            Some(i) => i < files@.len() && file_pos(strings_view(files@), f@) == i as int,
            None => file_pos(strings_view(files@), f@) == -1,
        },
{
    let ghost fv = strings_view(files@);
    let mut i: usize = 0;
    while i < files.len()
        invariant
            i <= files@.len(),
            fv == strings_view(files@),
            forall|x: int| 0 <= x < i ==> #[trigger] fv[x] != f@,
        decreases files@.len() - i,
    {
        assert(fv[i as int] == files@[i as int]@);
        if files[i] == *f {
            proof {
                lemma_file_pos_char(fv, f@, i as int);
            }
            return Some(i);
        }
        i = i + 1;
    }
    proof {
        lemma_file_pos_char(fv, f@, -1);
    }
    None
}

pub proof fn lemma_file_pos(files: Seq<Seq<char>>, f: Seq<char>)
    ensures
        -1 <= file_pos(files, f) < files.len(),
        file_pos(files, f) >= 0 ==> files[file_pos(files, f)] == f,
        forall|j: int| 0 <= j < files.len() && (file_pos(files, f) < 0 || j < file_pos(files, f)) ==> #[trigger] files[j] != f,
    decreases files.len(),
{
    if files.len() > 0 {
        let t = files.drop_last();
        lemma_file_pos(t, f);
        assert forall|j: int| 0 <= j < files.len() && (file_pos(files, f) < 0 || j < file_pos(files, f)) implies #[trigger] files[j] != f by {
            if j < files.len() - 1 {
                assert(files[j] == t[j]);
            }
        }
    }
}

pub proof fn lemma_file_pos_char(files: Seq<Seq<char>>, f: Seq<char>, k: int)
    requires
        -1 <= k < files.len(),
        k >= 0 ==> files[k] == f,
        forall|j: int| 0 <= j < files.len() && (k < 0 || j < k) ==> #[trigger] files[j] != f,
    ensures
        file_pos(files, f) == k,
{
    lemma_file_pos(files, f);
    let q = file_pos(files, f);
    if q != k {
        if q >= 0 && (k < 0 || q < k) {
            assert(files[q] != f);
        } else if k >= 0 {
            assert(files[k] != f);
        }
    }
}

pub proof fn lemma_track_pos(ts: Seq<TrackView>, id: i64, f: Seq<char>)
    ensures
        -1 <= track_pos(ts, id, f) < ts.len(),
        track_pos(ts, id, f) >= 0 ==> ts[track_pos(ts, id, f)].crate_id == id && ts[track_pos(ts, id, f)].filename == f,
        forall|j: int|
            0 <= j < ts.len() && (track_pos(ts, id, f) < 0 || j < track_pos(ts, id, f)) ==> !(#[trigger] ts[j].crate_id == id && ts[j].filename == f),
    decreases ts.len(),
{
    if ts.len() > 0 {
        let t = ts.drop_last();
        lemma_track_pos(t, id, f);
        assert forall|j: int|
            0 <= j < ts.len() && (track_pos(ts, id, f) < 0 || j < track_pos(ts, id, f)) implies !(#[trigger] ts[j].crate_id == id && ts[j].filename == f) by {
            if j < ts.len() - 1 {
                assert(ts[j] == t[j]);
            }
        }
    }
}

pub proof fn lemma_track_pos_char(ts: Seq<TrackView>, id: i64, f: Seq<char>, k: int)
    requires
        -1 <= k < ts.len(),
        k >= 0 ==> ts[k].crate_id == id && ts[k].filename == f,
        forall|j: int| 0 <= j < ts.len() && (k < 0 || j < k) ==> !(#[trigger] ts[j].crate_id == id && ts[j].filename == f),
    ensures
        track_pos(ts, id, f) == k,
{
    lemma_track_pos(ts, id, f);
    let q = track_pos(ts, id, f);
    if q != k {
        if q >= 0 && (k < 0 || q < k) {
            assert(!(ts[q].crate_id == id && ts[q].filename == f));
        } else if k >= 0 {
            assert(!(ts[k].crate_id == id && ts[k].filename == f));
        }
    }
}

pub proof fn lemma_new_before_bounds(lib: LibraryView, s: ScanView, fi: int)
    requires
        0 <= fi,
    ensures
        0 <= new_before(lib, s, fi) <= fi,
    decreases fi,
{
    if fi > 0 {
        lemma_new_before_bounds(lib, s, fi - 1);
    }
}

/// Upsert one scanned folder: refresh or create its crate, refresh the rows of
/// the files on disk (a changed fingerprint invalidates the loudness
/// measurement; the file's fingerprint is written as read, and an unknown
/// one on either side is never a change), insert rows for new files at the
/// end (no sort order, track number by position), stamp rows whose file is
/// absent, and delete those stamped at least the grace window ago. Returns the
/// ids of the rows whose content changed.
pub fn ingest_one_crate(lib: &mut Library, scan: &CrateScan, read_ok: &Vec<bool>, now: i64) -> (invalidated: Vec<i64>)
    requires
        scan_wf(scan@),
        scan_files_distinct(scan@),
        read_ok@.len() == scan@.files.len(),
        old(lib).next_crate_id < i64::MAX,
        old(lib).next_track_id + scan@.files.len() <= i64::MAX,
    ensures
        final(lib)@ == ingest_crate_spec(old(lib)@, scan@, read_ok@, now),
        invalidated@ == invalidated_ids(old(lib)@, scan@, scan@.files.len() as int),
{
    let ghost l = lib@;
    let ghost sv = scan@;
    let nf = scan.audio_files.len();
    let pos = find_crate_by_folder(&lib.crates, &scan.folder);
    proof {
        lemma_crate_pos(l.crates, sv.folder);
    }
    let x: i64 = match pos {
        Some(p) => {
            assert(l.crates[p as int] == lib.crates@[p as int]@);
            lib.crates[p].id
        },
        None => lib.next_crate_id,
    };
    assert(x == upsert_id(l, sv));
    // The existing row of every file.
    let mut existing: Vec<Option<usize>> = Vec::new();
    let mut invalidated: Vec<i64> = Vec::new();
    let mut fi: usize = 0;
    while fi < nf
        invariant
            nf == scan.audio_files@.len(),
            fi <= nf,
            l == lib@,
            sv == scan@,
            scan_wf(sv),
            x == upsert_id(l, sv),
            existing@.len() == fi,
            forall|y: int|
                0 <= y < fi ==> match #[trigger] existing@[y] {
                    Some(j) => j < l.tracks.len() && track_pos(l.tracks, x, sv.files[y]) == j as int,
                    None => track_pos(l.tracks, x, sv.files[y]) == -1,
                },
            invalidated@ == invalidated_ids(l, sv, fi as int),
        decreases nf - fi,
    {
        assert(sv.files[fi as int] == scan.audio_files@[fi as int]@);
        let e = find_track(&lib.tracks, x, &scan.audio_files[fi]);
        match e {
            Some(j) => {
                let t = &lib.tracks[j];
                assert(l.tracks[j as int] == t@);
                let m = scan.file_meta[fi];
                if t.file_mtime.is_some() && t.file_size.is_some() && m.mtime.is_some() && m.size.is_some()
                    && (t.file_mtime != m.mtime || t.file_size != m.size) {
                    invalidated.push(t.id);
                }
            },
            None => {},
        }
        existing.push(e);
        fi = fi + 1;
    }
    // The rows after the ingest, in order.
    let nt = lib.tracks.len();
    let mut kept: Vec<TrackRow> = Vec::new();
    let mut j: usize = 0;
    while j < nt
        invariant
            nt == lib.tracks@.len(),
            nf == scan.audio_files@.len(),
            j <= nt,
            l == lib@,
            sv == scan@,
            scan_wf(sv),
            read_ok@.len() == sv.files.len(),
            x == upsert_id(l, sv),
            existing@.len() == nf,
            forall|y: int|
                0 <= y < nf ==> match #[trigger] existing@[y] {
                    Some(j) => j < l.tracks.len() && track_pos(l.tracks, x, sv.files[y]) == j as int,
                    None => track_pos(l.tracks, x, sv.files[y]) == -1,
                },
            tracks_view(kept@) == kept_tracks(l, sv, read_ok@, now, j as int),
        decreases nt - j,
    {
        let t = &lib.tracks[j];
        assert(l.tracks[j as int] == t@);
        let ghost before = tracks_view(kept@);
        let ghost ta = track_after(l, sv, read_ok@, now, j as int);
        if t.crate_id != x {
            let row = t.duplicate();
            assert(ta == Some(row@));
            kept.push(row);
        } else {
            match file_position(&scan.audio_files, &t.filename) {
                Some(fi) => {
                    assert(sv.files[fi as int] == scan.audio_files@[fi as int]@);
                    proof {
                        lemma_file_pos(sv.files, t@.filename);
                    }
                    assert(sv.files[fi as int] == t@.filename);
                    let is_row = match existing[fi] {
                        Some(e) => e == j,
                        None => false,
                    };
                    assert(is_row == (track_pos(l.tracks, x, t@.filename) == j));
                    if is_row {
                        let m = scan.file_meta[fi];
                        let row = TrackRow {
                            id: t.id,
                            crate_id: t.crate_id,
                            filename: t.filename.clone(),
                            title: t.title.clone(),
                            track_num: t.track_num,
                            sort_order: t.sort_order,
                            has_duration: read_ok[fi] || t.has_duration,
                            file_mtime: m.mtime,
                            file_size: m.size,
                            missing_since: None,
                        };
                        assert(ta == Some(row@));
                        kept.push(row);
                    } else {
                        let row = t.duplicate();
                        assert(ta == Some(row@));
                        kept.push(row);
                    }
                },
                None => {
                    match t.missing_since {
                        None => {
                            let mut row = t.duplicate();
                            row.missing_since = Some(now);
                            assert(ta == Some(row@));
                            kept.push(row);
                        },
                        Some(ms) => {
                            if (ms as i128) <= (now as i128) - (PRUNE_GRACE_SECS as i128) {
                                assert(ta is None);
                            } else {
                                let row = t.duplicate();
                                assert(ta == Some(row@));
                                kept.push(row);
                            }
                        },
                    }
                },
            }
        }
        proof {
            assert(tracks_view(kept@) =~= kept_tracks(l, sv, read_ok@, now, j + 1));
        }
        j = j + 1;
    }
    // Rows for the new files.
    let mut next = lib.next_track_id;
    let mut fi: usize = 0;
    while fi < nf
        invariant
            nf == scan.audio_files@.len(),
            fi <= nf,
            l == lib@,
            sv == scan@,
            scan_wf(sv),
            read_ok@.len() == sv.files.len(),
            l.next_track_id + sv.files.len() <= i64::MAX,
            x == upsert_id(l, sv),
            existing@.len() == nf,
            forall|y: int|
                0 <= y < nf ==> match #[trigger] existing@[y] {
                    Some(j) => j < l.tracks.len() && track_pos(l.tracks, x, sv.files[y]) == j as int,
                    None => track_pos(l.tracks, x, sv.files[y]) == -1,
                },
            next == l.next_track_id + new_before(l, sv, fi as int),
            tracks_view(kept@) == kept_tracks(l, sv, read_ok@, now, l.tracks.len() as int)
                + inserted_tracks(l, sv, read_ok@, fi as int),
        decreases nf - fi,
    {
        proof {
            lemma_new_before_bounds(l, sv, fi as int);
        }
        assert(sv.files[fi as int] == scan.audio_files@[fi as int]@);
        let ghost tp = track_pos(l.tracks, x, sv.files[fi as int]);
        assert(existing@[fi as int] is None <==> tp == -1);
        if existing[fi].is_none() {
            let f = &scan.audio_files[fi];
            let m = scan.file_meta[fi];
            let row = TrackRow {
                id: next,
                crate_id: x,
                filename: f.clone(),
                title: title_from_filename(f.as_str()),
                track_num: Some((fi + 1) as i64),
                sort_order: None,
                has_duration: read_ok[fi],
                file_mtime: m.mtime,
                file_size: m.size,
                missing_since: None,
            };
            assert(row@ == new_track_for(l, sv, read_ok@, fi as int));
            assert(inserted_tracks(l, sv, read_ok@, fi + 1) == inserted_tracks(l, sv, read_ok@, fi as int).push(row@));
            let ghost kv = tracks_view(kept@);
            kept.push(row);
            assert(tracks_view(kept@) =~= kv.push(row@));
            next = next + 1;
        } else {
            assert(inserted_tracks(l, sv, read_ok@, fi + 1) == inserted_tracks(l, sv, read_ok@, fi as int));
        }
        proof {
            assert(tracks_view(kept@) =~= kept_tracks(l, sv, read_ok@, now, l.tracks.len() as int)
                + inserted_tracks(l, sv, read_ok@, fi + 1));
        }
        fi = fi + 1;
    }
    // The crate row.
    match pos {
        Some(p) => {
            let c = &lib.crates[p];
            let row = CrateRow {
                id: c.id,
                name: scan.name.clone(),
                folder: c.folder.clone(),
                cover_path: clone_opt_string(&scan.cover_path),
                emptied_since: None,
            };
            lib.crates.set(p, row);
        },
        None => {
            let row = CrateRow {
                id: x,
                name: scan.name.clone(),
                folder: scan.folder.clone(),
                cover_path: clone_opt_string(&scan.cover_path),
                emptied_since: None,
            };
            lib.crates.push(row);
            lib.next_crate_id = lib.next_crate_id + 1;
        },
    }
    lib.tracks = kept;
    lib.next_track_id = next;
    proof {
        let r = ingest_crate_spec(l, sv, read_ok@, now);
        assert(lib@.crates =~= r.crates);
        assert(lib@.tracks =~= r.tracks);
    }
    invalidated
}

/// Crate rows with folder `folder` have an id in `ids`, and every id in `ids`
/// is such a row's.
fn ids_with_folder(crates: &Vec<CrateRow>, folder: &String) -> (ids: Vec<i64>)
    ensures
        forall|id: i64|
            #[trigger] ids@.contains(id) <==> exists|c: int|
                0 <= c < crates@.len() && #[trigger] crates_view(crates@)[c].folder == folder@
                    && crates_view(crates@)[c].id == id,
{
    let ghost cs = crates_view(crates@);
    let mut ids: Vec<i64> = Vec::new();
    let mut c: usize = 0;
    while c < crates.len()
        invariant
            c <= crates@.len(),
            cs == crates_view(crates@),
            forall|id: i64|
                #[trigger] ids@.contains(id) <==> exists|x: int| 0 <= x < c && #[trigger] cs[x].folder == folder@ && cs[x].id == id,
        decreases crates@.len() - c,
    {
        assert(cs[c as int] == crates@[c as int]@);
        if crates[c].folder == *folder {
            let ghost old_ids = ids@;
            ids.push(crates[c].id);
            proof {
                assert forall|id: i64| #[trigger] ids@.contains(id) <==> exists|x: int| 0 <= x < c + 1 && #[trigger] cs[x].folder == folder@ && cs[x].id == id by {
                    if ids@.contains(id) && !old_ids.contains(id) {
                        assert(id == crates@[c as int].id);
                        assert(cs[c as int].folder == folder@ && cs[c as int].id == id);
                    }
                    if exists|x: int| 0 <= x < c + 1 && #[trigger] cs[x].folder == folder@ && cs[x].id == id {
                        let x = choose|x: int| 0 <= x < c + 1 && #[trigger] cs[x].folder == folder@ && cs[x].id == id;
                        if x < c {
                            assert(old_ids.contains(id));
                            let i = choose|i: int| 0 <= i < old_ids.len() && old_ids[i] == id;
                            assert(ids@[i] == id);
                        } else {
                            assert(ids@[old_ids.len() as int] == id);
                        }
                    }
                }
            }
        } else {
            proof {
                assert forall|id: i64| #[trigger] ids@.contains(id) <==> exists|x: int| 0 <= x < c + 1 && #[trigger] cs[x].folder == folder@ && cs[x].id == id by {
                    if exists|x: int| 0 <= x < c + 1 && #[trigger] cs[x].folder == folder@ && cs[x].id == id {
                        let x = choose|x: int| 0 <= x < c + 1 && #[trigger] cs[x].folder == folder@ && cs[x].id == id;
                        assert(x < c);
                    }
                }
            }
        }
        c = c + 1;
    }
    ids
}

fn vec_has_id(ids: &Vec<i64>, id: i64) -> (r: bool)
    ensures
        r == ids@.contains(id),
{
    let mut i: usize = 0;
    while i < ids.len()
        invariant
            i <= ids@.len(),
            forall|x: int| 0 <= x < i ==> ids@[x] != id,
        decreases ids@.len() - i,
    {
        if ids[i] == id {
            assert(ids@[i as int] == id);
            return true;
        }
        i = i + 1;
    }
    false
}

/// For every file of a scanned folder, whether it has to be opened for its
/// duration (see `duration_read_needed`): files that are new, re-exported, or
/// still without a stored duration.
pub fn duration_reads_needed(lib: &Library, scan: &CrateScan) -> (r: Vec<bool>)
    requires
        scan_wf(scan@),
    ensures
        r@.len() == scan@.files.len(),
        forall|fi: int| 0 <= fi < r@.len() ==> #[trigger] r@[fi] == duration_read_needed(lib@, scan@, fi),
{
    let ghost l = lib@;
    let ghost sv = scan@;
    let ids = ids_with_folder(&lib.crates, &scan.folder);
    let nf = scan.audio_files.len();
    let mut r: Vec<bool> = Vec::new();
    let mut fi: usize = 0;
    while fi < nf
        invariant
            nf == scan.audio_files@.len(),
            fi <= nf,
            l == lib@,
            sv == scan@,
            scan_wf(sv),
            forall|id: i64|
                #[trigger] ids@.contains(id) <==> exists|c: int|
                    0 <= c < lib.crates@.len() && #[trigger] l.crates[c].folder == sv.folder && l.crates[c].id == id,
            r@.len() == fi,
            forall|y: int| 0 <= y < fi ==> #[trigger] r@[y] == duration_read_needed(l, sv, y),
        decreases nf - fi,
    {
        assert(sv.files[fi as int] == scan.audio_files@[fi as int]@);
        let f = &scan.audio_files[fi];
        let m = scan.file_meta[fi];
        let mut current = false;
        let mut j: usize = 0;
        while j < lib.tracks.len()
            invariant
                j <= lib.tracks@.len(),
                l == lib@,
                fi < sv.files.len(),
                f@ == sv.files[fi as int],
                m == sv.meta[fi as int],
                forall|id: i64|
                    #[trigger] ids@.contains(id) <==> exists|c: int|
                        0 <= c < lib.crates@.len() && #[trigger] l.crates[c].folder == sv.folder && l.crates[c].id == id,
                current ==> !duration_read_needed(l, sv, fi as int),
                !current ==> forall|c: int, y: int|
                    0 <= c < l.crates.len() && 0 <= y < j ==> !(#[trigger] l.crates[c].folder == sv.folder
                        && #[trigger] l.tracks[y].crate_id == l.crates[c].id && l.tracks[y].filename == sv.files[fi as int]
                        && l.tracks[y].has_duration && l.tracks[y].file_mtime is Some
                        && l.tracks[y].file_mtime == sv.meta[fi as int].mtime && l.tracks[y].file_size is Some
                        && l.tracks[y].file_size == sv.meta[fi as int].size),
            decreases lib.tracks@.len() - j,
        {
            let t = &lib.tracks[j];
            assert(l.tracks[j as int] == t@);
            if !current && t.filename == *f && t.has_duration && t.file_mtime.is_some() && t.file_mtime == m.mtime
                && t.file_size.is_some() && t.file_size == m.size && vec_has_id(&ids, t.crate_id) {
                proof {
                    let c = choose|c: int| 0 <= c < lib.crates@.len() && #[trigger] l.crates[c].folder == sv.folder && l.crates[c].id == t.crate_id;
                    assert(l.crates[c].folder == sv.folder && l.tracks[j as int].crate_id == l.crates[c].id);
                }
                current = true;
            } else if !current {
                proof {
                    assert forall|c: int| 0 <= c < l.crates.len() implies !(#[trigger] l.crates[c].folder == sv.folder
                        && #[trigger] l.tracks[j as int].crate_id == l.crates[c].id && l.tracks[j as int].filename == sv.files[fi as int]
                        && l.tracks[j as int].has_duration && l.tracks[j as int].file_mtime is Some
                        && l.tracks[j as int].file_mtime == sv.meta[fi as int].mtime && l.tracks[j as int].file_size is Some
                        && l.tracks[j as int].file_size == sv.meta[fi as int].size) by {
                        if l.crates[c].folder == sv.folder && l.tracks[j as int].crate_id == l.crates[c].id {
                            assert(ids@.contains(t.crate_id));
                        }
                    }
                }
            }
            j = j + 1;
        }
        r.push(!current);
        fi = fi + 1;
    }
    r
}

// ── emptied crates ──────────────────────────────────────────────────────────

/// A crate whose folder is on disk without audio, stamped emptied at least the
/// grace window ago.
pub open spec fn crate_pruned(c: CrateView, empties: Seq<Seq<char>>, now: i64) -> bool {
    &&& empties.contains(c.folder)
    &&& c.emptied_since is Some
    &&& c.emptied_since->0 <= now - PRUNE_GRACE_SECS
}

/// A crate after the emptied-folder pass: a crate of an emptied folder is
/// stamped now if it has no stamp, deleted once the stamp is old enough, and
/// otherwise kept as it is.
pub open spec fn crate_after_prune(c: CrateView, empties: Seq<Seq<char>>, now: i64) -> Option<CrateView> {
    if !empties.contains(c.folder) {
        Some(c)
    } else if c.emptied_since is None {
        Some(CrateView { emptied_since: Some(now), ..c })
    } else if crate_pruned(c, empties, now) {
        None
    } else {
        Some(c)
    }
}

pub open spec fn kept_crates(cs: Seq<CrateView>, empties: Seq<Seq<char>>, now: i64, n: int) -> Seq<CrateView>
    decreases n,
{
    if n <= 0 {
        Seq::empty()
    } else {
        let prev = kept_crates(cs, empties, now, n - 1);
        match crate_after_prune(cs[n - 1], empties, now) {
            Some(c) => prev.push(c),
            None => prev,
        }
    }
}

/// A track whose crate is deleted goes with it.
pub open spec fn track_cascaded(lib: LibraryView, t: TrackView, empties: Seq<Seq<char>>, now: i64) -> bool {
    exists|c: int| 0 <= c < lib.crates.len() && #[trigger] crate_pruned(lib.crates[c], empties, now) && lib.crates[c].id == t.crate_id
}

pub open spec fn tracks_surviving(lib: LibraryView, empties: Seq<Seq<char>>, now: i64, n: int) -> Seq<TrackView>
    decreases n,
{
    if n <= 0 {
        Seq::empty()
    } else {
        let prev = tracks_surviving(lib, empties, now, n - 1);
        if track_cascaded(lib, lib.tracks[n - 1], empties, now) {
            prev
        } else {
            prev.push(lib.tracks[n - 1])
        }
    }
}

pub open spec fn prune_spec(lib: LibraryView, empties: Seq<Seq<char>>, now: i64) -> LibraryView {
    LibraryView {
        crates: kept_crates(lib.crates, empties, now, lib.crates.len() as int),
        tracks: tracks_surviving(lib, empties, now, lib.tracks.len() as int),
        ..lib
    }
}

/// Emptied crates: a crate whose folder is still on disk but holds no audio is
/// stamped, and deleted with all its tracks once the stamp is at least the
/// grace window old. Folders that never had a crate change nothing.
pub fn prune_emptied_crates(lib: &mut Library, empties: &Vec<String>, now: i64)
    ensures
        final(lib)@ == prune_spec(old(lib)@, strings_view(empties@), now),
{
    let ghost l = lib@;
    let ghost ev = strings_view(empties@);
    let nc = lib.crates.len();
    let mut crates: Vec<CrateRow> = Vec::new();
    let mut gone: Vec<i64> = Vec::new();
    let mut c: usize = 0;
    while c < nc
        invariant
            nc == lib.crates@.len(),
            c <= nc,
            l == lib@,
            ev == strings_view(empties@),
            crates_view(crates@) == kept_crates(l.crates, ev, now, c as int),
            forall|id: i64|
                #[trigger] gone@.contains(id) <==> exists|x: int| 0 <= x < c && #[trigger] crate_pruned(l.crates[x], ev, now) && l.crates[x].id == id,
        decreases nc - c,
    {
        let row = &lib.crates[c];
        assert(l.crates[c as int] == row@);
        let ghost cv = crates_view(crates@);
        let ghost og = gone@;
        if list_has(empties, &row.folder) {
            match row.emptied_since {
                None => {
                    let mut r = row.duplicate();
                    r.emptied_since = Some(now);
                    crates.push(r);
                    assert(crates_view(crates@) =~= cv.push(r@));
                },
                Some(e) => {
                    if (e as i128) <= (now as i128) - (PRUNE_GRACE_SECS as i128) {
                        gone.push(row.id);
                    } else {
                        let r = row.duplicate();
                        crates.push(r);
                        assert(crates_view(crates@) =~= cv.push(r@));
                    }
                },
            }
        } else {
            let r = row.duplicate();
            crates.push(r);
            assert(crates_view(crates@) =~= cv.push(r@));
        }
        proof {
            assert(crate_pruned(l.crates[c as int], ev, now) == (gone@.len() > og.len()));
            assert forall|id: i64|
                #[trigger] gone@.contains(id) <==> exists|x: int| 0 <= x < c + 1 && #[trigger] crate_pruned(l.crates[x], ev, now) && l.crates[x].id == id by {
                if gone@.len() > og.len() {
                    assert(gone@ == og.push(row.id));
                    if gone@.contains(id) && !og.contains(id) {
                        assert(crate_pruned(l.crates[c as int], ev, now) && l.crates[c as int].id == id);
                    }
                    if og.contains(id) {
                        let i = choose|i: int| 0 <= i < og.len() && og[i] == id;
                        assert(gone@[i] == id);
                    }
                } else {
                    assert(gone@ == og);
                }
                if exists|x: int| 0 <= x < c + 1 && #[trigger] crate_pruned(l.crates[x], ev, now) && l.crates[x].id == id {
                    let x = choose|x: int| 0 <= x < c + 1 && #[trigger] crate_pruned(l.crates[x], ev, now) && l.crates[x].id == id;
                    if x == c {
                        assert(gone@[og.len() as int] == id);
                    }
                }
            }
            assert(crates_view(crates@) =~= kept_crates(l.crates, ev, now, c + 1));
        }
        c = c + 1;
    }
    let nt = lib.tracks.len();
    let mut tracks: Vec<TrackRow> = Vec::new();
    let mut j: usize = 0;
    while j < nt
        invariant
            nt == lib.tracks@.len(),
            j <= nt,
            l == lib@,
            ev == strings_view(empties@),
            forall|id: i64|
                #[trigger] gone@.contains(id) <==> exists|x: int| 0 <= x < l.crates.len() && #[trigger] crate_pruned(l.crates[x], ev, now) && l.crates[x].id == id,
            tracks_view(tracks@) == tracks_surviving(l, ev, now, j as int),
        decreases nt - j,
    {
        let t = &lib.tracks[j];
        assert(l.tracks[j as int] == t@);
        let ghost tv = tracks_view(tracks@);
        if !vec_has_id(&gone, t.crate_id) {
            let r = t.duplicate();
            tracks.push(r);
            assert(tracks_view(tracks@) =~= tv.push(r@));
        }
        proof {
            assert(track_cascaded(l, l.tracks[j as int], ev, now) == gone@.contains(t.crate_id));
            assert(tracks_view(tracks@) =~= tracks_surviving(l, ev, now, j + 1));
        }
        j = j + 1;
    }
    lib.crates = crates;
    lib.tracks = tracks;
}

} // verus!
