//! The files of one crate folder: which is the cover image, which are audio
//! files (sorted by name, each with its fingerprint), and the folder's name.

use vstd::prelude::*;
use vstd::multiset::Multiset;
use crate::library::{CrateScan, FileMeta, ScanView, opt_view, scan_files_distinct, scans_view, strings_view};
use crate::text::{chars_of, file_name, file_name_spec, last_index_in, last_index_of, str_is, string_of};

verus! {

/// `str::to_lowercase` (full Unicode lowercase mapping) of a string.
pub uninterp spec fn lowercase_spec(s: Seq<char>) -> Seq<char>;

/// `str::to_lowercase`: the string with every character mapped to its Unicode
/// lowercase form. Trusted: the result is `lowercase_spec` of the argument.
#[verifier::external_body]
fn to_lowercase(s: &str) -> (r: String)
    ensures
        r@ == lowercase_spec(s@),
{
    s.to_lowercase()
}

/// The audio extensions a track file may have (matched on the lowercased
/// name, including the dot).
pub open spec fn is_audio_ext(e: Seq<char>) -> bool {
    ||| e == ".wav"@
    ||| e == ".aiff"@
    ||| e == ".aif"@
    ||| e == ".mp3"@
    ||| e == ".flac"@
    ||| e == ".m4a"@
    ||| e == ".ogg"@
}

/// The lowercased file names that are taken as a crate's cover image.
pub open spec fn is_cover_name(lname: Seq<char>) -> bool {
    lname == "cover.jpg"@ || lname == "cover.jpeg"@ || lname == "cover.png"@
}

/// The part of the lowercased name from its last `.` on is an audio
/// extension.
pub open spec fn has_audio_ext_spec(lname: Seq<char>) -> bool {
    let d = last_index_of(lname, '.');
    d >= 0 && is_audio_ext(lname.skip(d))
}

/// Whether a lowercased file name ends in one of the audio extensions.
pub fn has_audio_ext(lname: &str) -> (r: bool)
    ensures
        r == has_audio_ext_spec(lname@),
{
    let v = chars_of(lname);
    let n = v.len();
    assert(v@.take(n as int) =~= v@);
    match last_index_in(&v, n, '.') {
        Some(dot) => {
            let ext = string_of(lname, dot, n);
            assert(ext@ =~= lname@.skip(dot as int));
            let e = ext.as_str();
            str_is(e, ".wav") || str_is(e, ".aiff") || str_is(e, ".aif") || str_is(e, ".mp3")
                || str_is(e, ".flac") || str_is(e, ".m4a") || str_is(e, ".ogg")
        },
        None => false,
    }
}

fn is_cover(lname: &str) -> (r: bool)
    ensures
        r == is_cover_name(lname@),
{
    str_is(lname, "cover.jpg") || str_is(lname, "cover.jpeg") || str_is(lname, "cover.png")
}

/// `PathBuf::join` for `/`-separated paths: an absolute `name` replaces the
/// folder; otherwise a `/` is put between them unless the folder is empty or
/// already ends with one.
pub open spec fn path_join_spec(folder: Seq<char>, name: Seq<char>) -> Seq<char> {
    if name.len() > 0 && name[0] == '/' {
        name
    } else if folder.len() == 0 || folder.last() == '/' {
        folder + name
    } else {
        folder + seq!['/'] + name
    }
}

/// `folder` joined with `name`.
pub fn path_join(folder: &str, name: &str) -> (r: String)
    ensures
        r@ == path_join_spec(folder@, name@),
{
    let f = chars_of(folder);
    let n = chars_of(name);
    if n.len() > 0 && n[0] == '/' {
        return String::from_str(name);
    }
    let mut out = String::from_str(folder);
    if !(f.len() == 0 || f[f.len() - 1] == '/') {
        out.append("/");
        proof {
            reveal_strlit("/");
        }
    }
    out.append(name);
    out
}

/// One entry of a crate folder's directory listing.
pub struct FolderEntry {
    pub name: String,
    pub is_file: bool,
    pub meta: FileMeta,
}

pub struct EntryView {
    pub name: Seq<char>,
    pub is_file: bool,
    pub meta: FileMeta,
}

impl View for FolderEntry {
    type V = EntryView;

    open spec fn view(&self) -> EntryView {
        EntryView { name: self.name@, is_file: self.is_file, meta: self.meta }
    }
}

pub open spec fn entries_view(v: Seq<FolderEntry>) -> Seq<EntryView> {
    v.map_values(|e: FolderEntry| e@)
}

/// Lexicographic order of names by character (the order of `String`'s `Ord`,
/// which compares UTF-8 bytes).
pub open spec fn name_le(a: Seq<char>, b: Seq<char>) -> bool
    decreases a.len(),
{
    if a.len() == 0 {
        true
    } else if b.len() == 0 {
        false
    } else if a[0] != b[0] {
        a[0] < b[0]
    } else {
        name_le(a.drop_first(), b.drop_first())
    }
}

pub proof fn lemma_name_le_total(a: Seq<char>, b: Seq<char>)
    ensures
        name_le(a, b) || name_le(b, a),
    decreases a.len(),
{
    if a.len() > 0 && b.len() > 0 && a[0] == b[0] {
        lemma_name_le_total(a.drop_first(), b.drop_first());
    }
}

pub proof fn lemma_name_le_refl(a: Seq<char>)
    ensures
        name_le(a, a),
    decreases a.len(),
{
    if a.len() > 0 {
        lemma_name_le_refl(a.drop_first());
    }
}

pub proof fn lemma_name_le_trans(a: Seq<char>, b: Seq<char>, c: Seq<char>)
    requires
        name_le(a, b),
        name_le(b, c),
    ensures
        name_le(a, c),
    decreases a.len(),
{
    if a.len() > 0 && b.len() > 0 && c.len() > 0 && a[0] == b[0] && b[0] == c[0] {
        lemma_name_le_trans(a.drop_first(), b.drop_first(), c.drop_first());
    }
}

/// Whether `a` sorts before or equal to `b`.
pub fn name_le_exec(a: &String, b: &String) -> (r: bool)
    ensures
        r == name_le(a@, b@),
{
    let x = chars_of(a.as_str());
    let y = chars_of(b.as_str());
    let mut i: usize = 0;
    assert(x@.skip(0) =~= x@);
    assert(y@.skip(0) =~= y@);
    while i < x.len() && i < y.len() && x[i] == y[i]
        invariant
            i <= x@.len(),
            i <= y@.len(),
            name_le(a@, b@) == name_le(x@.skip(i as int), y@.skip(i as int)),
        decreases x@.len() - i,
    {
        proof {
            let xs = x@.skip(i as int);
            let ys = y@.skip(i as int);
            assert(xs.drop_first() =~= x@.skip(i + 1));
            assert(ys.drop_first() =~= y@.skip(i + 1));
        }
        i = i + 1;
    }
    let ghost xs = x@.skip(i as int);
    let ghost ys = y@.skip(i as int);
    if i == x.len() {
        true
    } else if i == y.len() {
        false
    } else {
        assert(xs[0] == x@[i as int] && ys[0] == y@[i as int]);
        x[i] < y[i]
    }
}

/// The audio entries of a folder, in listing order: files whose lowercased
/// name is not a cover name and has an audio extension.
pub open spec fn is_audio_entry(e: EntryView) -> bool {
    e.is_file && !is_cover_name(lowercase_spec(e.name)) && has_audio_ext_spec(lowercase_spec(e.name))
}

pub open spec fn audio_pairs(es: Seq<EntryView>, n: int) -> Seq<(Seq<char>, FileMeta)>
    decreases n,
{
    if n <= 0 {
        Seq::empty()
    } else {
        let prev = audio_pairs(es, n - 1);
        if is_audio_entry(es[n - 1]) {
            prev.push((es[n - 1].name, es[n - 1].meta))
        } else {
            prev
        }
    }
}

/// The cover image of a folder: the last file in the listing whose lowercased
/// name is a cover name, joined to the folder path.
pub open spec fn cover_of(folder: Seq<char>, es: Seq<EntryView>, n: int) -> Option<Seq<char>>
    decreases n,
{
    if n <= 0 {
        None
    } else if es[n - 1].is_file && is_cover_name(lowercase_spec(es[n - 1].name)) {
        Some(path_join_spec(folder, es[n - 1].name))
    } else {
        cover_of(folder, es, n - 1)
    }
}

pub open spec fn pairs_sorted(p: Seq<(Seq<char>, FileMeta)>) -> bool {
    forall|a: int, b: int| 0 <= a < b < p.len() ==> name_le(#[trigger] p[a].0, #[trigger] p[b].0)
}

/// What a scan of a crate folder holds: the folder's file name as the crate
/// name (no scan when the path has none), its path, the cover image, and the
/// audio files sorted by name, each with its fingerprint.
pub open spec fn scan_matches(folder: Seq<char>, es: Seq<EntryView>, s: ScanView) -> bool {
    &&& file_name_spec(folder) == Some(s.name)
    &&& s.folder == folder
    &&& s.cover_path == cover_of(folder, es, es.len() as int)
    &&& s.files.len() == s.meta.len()
    &&& {
        let sorted = Seq::new(s.files.len(), |i: int| (s.files[i], s.meta[i]));
        &&& pairs_sorted(sorted)
        &&& sorted.to_multiset() == audio_pairs(es, es.len() as int).to_multiset()
    }
}

/// Sort (name, fingerprint) pairs by name (stable insertion sort).
fn sort_pairs(v: Vec<(String, FileMeta)>) -> (r: Vec<(String, FileMeta)>)
    ensures
        pairs_sorted(r@.map_values(|p: (String, FileMeta)| (p.0@, p.1))),
        r@.map_values(|p: (String, FileMeta)| (p.0@, p.1)).to_multiset() == v@.map_values(
            |p: (String, FileMeta)| (p.0@, p.1),
        ).to_multiset(),
{
    let ghost pv = |p: (String, FileMeta)| (p.0@, p.1);
    let mut out: Vec<(String, FileMeta)> = Vec::new();
    let mut v = v;
    let ghost orig = v@.map_values(pv);
    proof {
        let e = out@.map_values(pv);
        e.to_multiset_ensures();
        vstd::multiset::lemma_multiset_empty_len(e.to_multiset());
        assert(e.to_multiset().add(orig.to_multiset()) =~= orig.to_multiset());
    }
    // Move the elements of `v` one by one, from the back, into `out`.
    while v.len() > 0
        invariant
            pv == (|p: (String, FileMeta)| (p.0@, p.1)),
            pairs_sorted(out@.map_values(pv)),
            out@.map_values(pv).to_multiset().add(v@.map_values(pv).to_multiset()) == orig.to_multiset(),
        decreases v@.len(),
    {
        let ghost vv = v@.map_values(pv);
        let x = v.pop().unwrap();
        proof {
            assert(vv =~= v@.map_values(pv).push(pv(x)));
            vv.drop_last().to_multiset_ensures();
            assert(vv.drop_last() =~= v@.map_values(pv));
        }
        let ghost ov = out@.map_values(pv);
        // Position: after every element that sorts before or equal to x.
        let mut p: usize = 0;
        while p < out.len() && name_le_exec(&out[p].0, &x.0)
            invariant
                p <= out@.len(),
                ov == out@.map_values(pv),
                pv == (|p: (String, FileMeta)| (p.0@, p.1)),
                forall|q: int| 0 <= q < p ==> name_le(#[trigger] ov[q].0, x.0@),
            decreases out@.len() - p,
        {
            assert(ov[p as int] == pv(out@[p as int]));
            p = p + 1;
        }
        proof {
            if p < out@.len() {
                assert(ov[p as int] == pv(out@[p as int]));
                assert(!name_le(ov[p as int].0, x.0@));
                lemma_name_le_total(ov[p as int].0, x.0@);
            }
        }
        out.insert(p, x);
        proof {
            let nv = out@.map_values(pv);
            assert(nv =~= ov.insert(p as int, pv(x)));
            assert forall|a: int, b: int| 0 <= a < b < nv.len() implies name_le(#[trigger] nv[a].0, #[trigger] nv[b].0) by {
                if b < p {
                } else if b == p {
                    assert(nv[a] == ov[a]);
                } else if a < p {
                    assert(nv[b] == ov[b - 1]);
                    assert(nv[a] == ov[a]);
                    if a < p {
                        assert(name_le(ov[a].0, x.0@));
                    }
                    lemma_name_le_total(ov[p as int].0, x.0@);
                    lemma_name_le_refl(ov[p as int].0);
                    lemma_name_le_trans(x.0@, ov[p as int].0, ov[b - 1].0);
                    lemma_name_le_trans(ov[a].0, x.0@, ov[b - 1].0);
                } else if a == p {
                    assert(nv[b] == ov[b - 1]);
                    lemma_name_le_total(ov[p as int].0, x.0@);
                    lemma_name_le_refl(ov[p as int].0);
                    lemma_name_le_trans(x.0@, ov[p as int].0, ov[b - 1].0);
                } else {
                    assert(nv[a] == ov[a - 1]);
                    assert(nv[b] == ov[b - 1]);
                }
            }
            vstd::seq_lib::to_multiset_insert(ov, p as int, pv(x));
            assert(nv.to_multiset() =~= ov.to_multiset().insert(pv(x)));
            assert(vv.to_multiset() =~= v@.map_values(pv).to_multiset().insert(pv(x)));
        }
    }
    proof {
        let e = v@.map_values(pv);
        e.to_multiset_ensures();
        vstd::multiset::lemma_multiset_empty_len(e.to_multiset());
        assert(out@.map_values(pv).to_multiset().add(Multiset::empty()) =~= out@.map_values(pv).to_multiset());
    }
    out
}

/// Build the scan of a crate folder from its directory listing: `None` when
/// the path has no final name component; otherwise the folder's name, the
/// cover image (the last cover-named file of the listing), and the audio files
/// sorted by name with their fingerprints.
pub fn scan_crate(folder: &str, entries: &Vec<FolderEntry>) -> (r: Option<CrateScan>)
    ensures
        r is None <==> file_name_spec(folder@) is None,
        r matches Some(sc) ==> scan_matches(folder@, entries_view(entries@), sc@),
{
    let name = match file_name(folder) {
        Some(n) => n,
        None => return None,
    };
    let ghost es = entries_view(entries@);
    let ghost pv = |p: (String, FileMeta)| (p.0@, p.1);
    let mut cover: Option<String> = None;
    let mut pairs: Vec<(String, FileMeta)> = Vec::new();
    let mut i: usize = 0;
    while i < entries.len()
        invariant
            i <= entries@.len(),
            es == entries_view(entries@),
            pv == (|p: (String, FileMeta)| (p.0@, p.1)),
            opt_view(cover) == cover_of(folder@, es, i as int),
            pairs@.map_values(pv) == audio_pairs(es, i as int),
        decreases entries@.len() - i,
    {
        let e = &entries[i];
        assert(es[i as int] == e@);
        if e.is_file {
            let lname = to_lowercase(e.name.as_str());
            if is_cover(lname.as_str()) {
                cover = Some(path_join(folder, e.name.as_str()));
            } else if has_audio_ext(lname.as_str()) {
                let ghost before = pairs@.map_values(pv);
                pairs.push((e.name.clone(), e.meta));
                assert(pairs@.map_values(pv) =~= before.push((e.name@, e.meta)));
            }
        }
        i = i + 1;
    }
    assert(es.len() == entries@.len());
    let sorted = sort_pairs(pairs);
    let mut files: Vec<String> = Vec::new();
    let mut metas: Vec<FileMeta> = Vec::new();
    let mut k: usize = 0;
    while k < sorted.len()
        invariant
            k <= sorted@.len(),
            files@.len() == k,
            metas@.len() == k,
            forall|j: int| 0 <= j < k ==> files@[j]@ == #[trigger] sorted@[j].0@ && metas@[j] == sorted@[j].1,
        decreases sorted@.len() - k,
    {
        let f = sorted[k].0.clone();
        files.push(f);
        metas.push(sorted[k].1);
        assert(files@[k as int]@ == sorted@[k as int].0@);
        k = k + 1;
    }
    let sc = CrateScan {
        name,
        folder: String::from_str(folder),
        cover_path: cover,
        audio_files: files,
        file_meta: metas,
    };
    proof {
        let v = sc@;
        let sv = sorted@.map_values(pv);
        let built = Seq::new(v.files.len(), |j: int| (v.files[j], v.meta[j]));
        assert(built =~= sv);
    }
    Some(sc)
}

/// The scans of a library folder's crate folders that hold audio, in listing
/// order.
pub open spec fn nonempty_scans(found: Seq<ScanView>) -> Seq<ScanView>
    decreases found.len(),
{
    if found.len() == 0 {
        Seq::empty()
    } else {
        let prev = nonempty_scans(found.drop_last());
        if found.last().files.len() > 0 {
            prev.push(found.last())
        } else {
            prev
        }
    }
}

/// The paths of the crate folders that hold no audio, in listing order.
pub open spec fn empty_folders(found: Seq<ScanView>) -> Seq<Seq<char>>
    decreases found.len(),
{
    if found.len() == 0 {
        Seq::empty()
    } else {
        let prev = empty_folders(found.drop_last());
        if found.last().files.len() == 0 {
            prev.push(found.last().folder)
        } else {
            prev
        }
    }
}

/// Split the scanned crate folders into those that hold audio (which are
/// ingested) and the paths of those that hold none (whose crates may be
/// pruned); an empty folder never becomes a crate.
pub fn split_scans(found: Vec<CrateScan>) -> (r: (Vec<CrateScan>, Vec<String>))
    ensures
        scans_view(r.0@) == nonempty_scans(scans_view(found@)),
        strings_view(r.1@) == empty_folders(scans_view(found@)),
{
    let ghost fv = scans_view(found@);
    let mut found = found;
    let mut scans: Vec<CrateScan> = Vec::new();
    let mut empties: Vec<String> = Vec::new();
    let ghost mut n: int = 0;
    while found.len() > 0
        invariant
            0 <= n <= fv.len(),
            scans_view(found@) == fv.skip(n),
            scans_view(scans@) == nonempty_scans(fv.take(n)),
            strings_view(empties@) == empty_folders(fv.take(n)),
        decreases found@.len(),
    {
        let ghost before = found@;
        let sc = found.remove(0);
        proof {
            assert(scans_view(before).len() == before.len());
            assert(n < fv.len());
            assert(scans_view(before)[0] == sc@);
            assert(fv.skip(n)[0] == fv[n]);
            assert(found@ =~= before.skip(1));
            assert(scans_view(found@) =~= scans_view(before).skip(1));
            assert(fv.skip(n).skip(1) =~= fv.skip(n + 1));
            assert(fv.take(n + 1).drop_last() =~= fv.take(n));
            assert(fv.take(n + 1).last() == sc@);
        }
        let ghost sv = scans@;
        let ghost ev = empties@;
        if sc.audio_files.len() == 0 {
            empties.push(sc.folder);
            assert(strings_view(empties@) =~= strings_view(ev).push(sc@.folder));
        } else {
            scans.push(sc);
            assert(scans_view(scans@) =~= scans_view(sv).push(sc@));
        }
        proof {
            n = n + 1;
        }
    }
    assert(fv.skip(n).len() == 0);
    assert(fv.take(n) =~= fv);
    (scans, empties)
}

/// The fingerprint of a file from its metadata: the modification time in
/// milliseconds since the epoch (unknown when the time could not be read or
/// lies before the epoch) and the byte size, each as `as` converts it to
/// `i64`.
pub fn file_meta(modified_millis: Option<u128>, len: u64) -> (r: FileMeta)
    ensures
        r.mtime == match modified_millis {
            Some(ms) => Some(ms as i64),
            None => None,
        },
        r.size == Some(len as i64),
{
    let mtime = match modified_millis {
        Some(ms) => Some(ms as i64),
        None => None,
    };
    FileMeta { mtime, size: Some(len as i64) }
}

/// Whether no file name occurs twice in a scan (as in any directory listing).
pub fn scan_files_are_distinct(s: &CrateScan) -> (r: bool)
    ensures
        r == scan_files_distinct(s@),
{
    let ghost fv = strings_view(s.audio_files@);
    let n = s.audio_files.len();
    let mut a: usize = 0;
    while a < n
        invariant
            n == s.audio_files@.len(),
            fv == strings_view(s.audio_files@),
            a <= n,
            forall|x: int, y: int| 0 <= x < a && 0 <= y < n && x != y ==> #[trigger] fv[x] != #[trigger] fv[y],
        decreases n - a,
    {
        let mut b: usize = 0;
        while b < n
            invariant
                n == s.audio_files@.len(),
                fv == strings_view(s.audio_files@),
                a < n,
                b <= n,
                forall|y: int| 0 <= y < b && a != y ==> fv[a as int] != #[trigger] fv[y],
            decreases n - b,
        {
            if a != b && s.audio_files[a] == s.audio_files[b] {
                assert(s@.files == fv);
                assert(s@.files[a as int] == s@.files[b as int]);
                return false;
            }
            b = b + 1;
        }
        a = a + 1;
    }
    true
}

} // verus!
