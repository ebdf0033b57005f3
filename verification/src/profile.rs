//! The user profile's avatar: checking an uploaded data-URL image (format,
//! size, magic bytes) and turning a stored avatar reference into a safe file
//! path under the data directory.

use vstd::prelude::*;
use base64::Engine;
use crate::scan::{path_join, path_join_spec};
use crate::text::{chars_of, last_index_in, last_index_of, str_is};

verus! {

/// The largest avatar accepted, in decoded bytes (8 MB).
pub const MAX_AVATAR_BYTES: usize = 8388608;

/// What `base64::engine::general_purpose::STANDARD.decode` gives for the
/// UTF-8 bytes of `text`: the decoded bytes, or `None` when it refuses them.
pub uninterp spec fn base64_standard_decode(text: Seq<char>) -> Option<Seq<u8>>;

/// Decode standard base64 (`base64::engine::general_purpose::STANDARD`).
/// Trusted: the result is `base64_standard_decode(text)`.
#[verifier::external_body]
fn decode_base64(text: &str) -> (r: Option<Vec<u8>>)
    ensures
        match r {
            Some(v) => base64_standard_decode(text@) == Some(v@),
            None => base64_standard_decode(text@) is None,
        },
{
    base64::engine::general_purpose::STANDARD.decode(text).ok()
}

/// Why an avatar upload is refused.
pub enum AvatarError {
    /// Not a base64 data URL of a supported image, or the bytes are not that
    /// image format.
    Invalid,
    /// Over the size cap.
    TooLarge,
}

impl AvatarError {
    pub open spec fn message_spec(&self) -> Seq<char> {
        match self {
            AvatarError::Invalid => "invalid image data"@,
            AvatarError::TooLarge => "image is too large (max 8 MB)"@,
        }
    }

    /// The message the app shows for this refusal.
    pub fn message(&self) -> (r: String)
        ensures
            r@ == self.message_spec(),
    {
        match self {
            AvatarError::Invalid => String::from_str("invalid image data"),
            AvatarError::TooLarge => String::from_str("image is too large (max 8 MB)"),
        }
    }
}

/// An accepted avatar: the file extension to store it under, and its bytes.
pub struct AvatarImage {
    pub ext: String,
    pub bytes: Vec<u8>,
}

pub open spec fn starts_with_bytes(b: Seq<u8>, p: Seq<u8>) -> bool {
    p.len() <= b.len() && b.take(p.len() as int) == p
}

/// The magic bytes of each accepted image format.
pub open spec fn bytes_match_format_spec(b: Seq<u8>, ext: Seq<char>) -> bool {
    if ext == "png"@ {
        starts_with_bytes(b, seq![0x89u8, 0x50, 0x4E, 0x47, 0x0D, 0x0A, 0x1A, 0x0A])
    } else if ext == "jpg"@ || ext == "jpeg"@ {
        starts_with_bytes(b, seq![0xFFu8, 0xD8, 0xFF])
    } else if ext == "gif"@ {
        starts_with_bytes(b, seq![0x47u8, 0x49, 0x46, 0x38, 0x37, 0x61]) || starts_with_bytes(
            b,
            seq![0x47u8, 0x49, 0x46, 0x38, 0x39, 0x61],
        )
    } else if ext == "webp"@ {
        b.len() >= 12 && b.subrange(0, 4) == seq![0x52u8, 0x49, 0x46, 0x46] && b.subrange(8, 12) == seq![
            0x57u8,
            0x45,
            0x42,
            0x50,
        ]
    } else {
        false
    }
}

/// Whether `b` starts with the bytes `p`.
fn has_prefix(b: &[u8], p: &[u8]) -> (r: bool)
    ensures
        r == starts_with_bytes(b@, p@),
{
    if p.len() > b.len() {
        return false;
    }
    let mut i: usize = 0;
    while i < p.len()
        invariant
            i <= p@.len() <= b@.len(),
            forall|j: int| 0 <= j < i ==> b@[j] == p@[j],
        decreases p@.len() - i,
    {
        if b[i] != p[i] {
            return false;
        }
        i = i + 1;
    }
    assert(b@.take(p@.len() as int) =~= p@);
    true
}

/// Whether the bytes carry the magic number of the declared format.
pub fn bytes_match_format(b: &[u8], ext_raw: &str) -> (r: bool)
    ensures
        r == bytes_match_format_spec(b@, ext_raw@),
{
    if str_is(ext_raw, "png") {
        let p: [u8; 8] = [0x89, 0x50, 0x4E, 0x47, 0x0D, 0x0A, 0x1A, 0x0A];
        let r = has_prefix(b, p.as_slice());
        assert(p@ =~= seq![0x89u8, 0x50, 0x4E, 0x47, 0x0D, 0x0A, 0x1A, 0x0A]);
        r
    } else if str_is(ext_raw, "jpg") || str_is(ext_raw, "jpeg") {
        let p: [u8; 3] = [0xFF, 0xD8, 0xFF];
        let r = has_prefix(b, p.as_slice());
        assert(p@ =~= seq![0xFFu8, 0xD8, 0xFF]);
        r
    } else if str_is(ext_raw, "gif") {
        let p7: [u8; 6] = [0x47, 0x49, 0x46, 0x38, 0x37, 0x61];
        let p9: [u8; 6] = [0x47, 0x49, 0x46, 0x38, 0x39, 0x61];
        let r = has_prefix(b, p7.as_slice()) || has_prefix(b, p9.as_slice());
        assert(p7@ =~= seq![0x47u8, 0x49, 0x46, 0x38, 0x37, 0x61]);
        assert(p9@ =~= seq![0x47u8, 0x49, 0x46, 0x38, 0x39, 0x61]);
        r
    } else if str_is(ext_raw, "webp") {
        if b.len() < 12 {
            return false;
        }
        let r = b[0] == 0x52 && b[1] == 0x49 && b[2] == 0x46 && b[3] == 0x46 && b[8] == 0x57 && b[9] == 0x45
            && b[10] == 0x42 && b[11] == 0x50;
        assert(r ==> b@.subrange(0, 4) =~= seq![0x52u8, 0x49, 0x46, 0x46]);
        assert(r ==> b@.subrange(8, 12) =~= seq![0x57u8, 0x45, 0x42, 0x50]);
        assert(b@.subrange(0, 4) == seq![0x52u8, 0x49, 0x46, 0x46] ==> b@[0] == 0x52 && b@[1] == 0x49 && b@[2]
            == 0x46 && b@[3] == 0x46);
        assert(b@.subrange(8, 12) == seq![0x57u8, 0x45, 0x42, 0x50] ==> b@[8] == 0x57 && b@[9] == 0x45
            && b@[10] == 0x42 && b@[11] == 0x50);
        r
    } else {
        false
    }
}

/// The image formats an avatar may declare.
pub open spec fn avatar_ext_ok(e: Seq<char>) -> bool {
    e == "jpeg"@ || e == "jpg"@ || e == "png"@ || e == "gif"@ || e == "webp"@
}

/// The extension an avatar is stored under (`jpeg` is stored as `jpg`).
pub open spec fn stored_ext(e: Seq<char>) -> Seq<char> {
    if e == "jpeg"@ {
        "jpg"@
    } else {
        e
    }
}

/// After decoding: refused when decoding failed, when over the cap, or when
/// the bytes are not the declared format; else the image.
pub open spec fn decoded_avatar_spec(ext_raw: Seq<char>, decoded: Option<Seq<u8>>) -> Result<
    (Seq<char>, Seq<u8>),
    AvatarError,
> {
    match decoded {
        None => Err(AvatarError::Invalid),
        Some(bytes) => if bytes.len() > MAX_AVATAR_BYTES {
            Err(AvatarError::TooLarge)
        } else if !bytes_match_format_spec(bytes, ext_raw) {
            Err(AvatarError::Invalid)
        } else {
            Ok((stored_ext(ext_raw), bytes))
        },
    }
}

pub open spec fn avatar_result_view(r: Result<AvatarImage, AvatarError>) -> Result<(Seq<char>, Seq<u8>), AvatarError> {
    match r {
        Ok(img) => Ok((img.ext@, img.bytes@)),
        Err(e) => Err(e),
    }
}

/// Accept or refuse the decoded bytes of an avatar declared as `ext_raw`.
pub fn avatar_from_decoded(ext_raw: &str, decoded: Option<Vec<u8>>) -> (r: Result<AvatarImage, AvatarError>)
    requires
        avatar_ext_ok(ext_raw@),
    ensures
        avatar_result_view(r) == decoded_avatar_spec(
            ext_raw@,
            match decoded {
                Some(v) => Some(v@),
                None => None,
            },
        ),
{
    let bytes = match decoded {
        Some(b) => b,
        None => return Err(AvatarError::Invalid),
    };
    if bytes.len() > MAX_AVATAR_BYTES {
        return Err(AvatarError::TooLarge);
    }
    if !bytes_match_format(bytes.as_slice(), ext_raw) {
        return Err(AvatarError::Invalid);
    }
    let ext = if str_is(ext_raw, "jpeg") {
        String::from_str("jpg")
    } else {
        String::from_str(ext_raw)
    };
    Ok(AvatarImage { ext, bytes })
}

/// The first position at or after `k` where `p` occurs in `s`, or -1.
pub open spec fn find_from(s: Seq<char>, p: Seq<char>, k: int) -> int
    decreases s.len() + 1 - k,
{
    if k < 0 || k + p.len() > s.len() {
        -1
    } else if s.subrange(k, k + p.len()) == p {
        k
    } else {
        find_from(s, p, k + 1)
    }
}

/// `str::find`: the first position of `p` in `s`, or -1.
pub open spec fn find_spec(s: Seq<char>, p: Seq<char>) -> int {
    find_from(s, p, 0)
}

/// The first position of `p` in `s`.
pub fn find(s: &Vec<char>, p: &Vec<char>) -> (r: Option<usize>)
    ensures
        match r {
            Some(i) => find_spec(s@, p@) == i,
            None => find_spec(s@, p@) == -1,
        },
{
    let mut k: usize = 0;
    if p.len() > s.len() {
        return None;
    }
    while k <= s.len() - p.len()
        invariant
            p@.len() <= s@.len(),
            find_spec(s@, p@) == find_from(s@, p@, k as int),
        decreases s@.len() + 1 - k,
    {
        let mut j: usize = 0;
        let mut same = true;
        let sl = s.len();
        while j < p.len()
            invariant
                sl == s@.len(),
                j <= p@.len(),
                p@.len() <= s@.len(),
                k <= s@.len() - p@.len(),
                same == forall|a: int| 0 <= a < j ==> s@[k + a] == p@[a],
            decreases p@.len() - j,
        {
            if s[k + j] != p[j] {
                same = false;
            }
            j = j + 1;
        }
        if same {
            assert(s@.subrange(k as int, k + p@.len()) =~= p@);
            return Some(k);
        } else {
            let ghost a = choose|a: int| 0 <= a < p@.len() && s@[k + a] != p@[a];
            assert(s@.subrange(k as int, k + p@.len())[a] != p@[a]);
        }
        k = k + 1;
    }
    None
}

/// The check of an uploaded data URL: `data:image/<ext>;base64,<data>` with a
/// supported `<ext>`, a size estimate of the encoded data (three bytes per
/// four UTF-8 bytes) within the cap plus 1 KB, and then the decoded bytes.
pub open spec fn avatar_check_spec(u: Seq<char>) -> Result<(Seq<char>, Seq<u8>), AvatarError> {
    let prefix = "data:image/"@;
    let m = find_spec(u, ";base64,"@);
    if !(prefix.len() <= u.len() && u.take(prefix.len() as int) == prefix) || m < prefix.len() {
        Err(AvatarError::Invalid)
    } else {
        let ext_raw = u.subrange(prefix.len() as int, m);
        let b64 = u.skip(m + 8);
        if !avatar_ext_ok(ext_raw) {
            Err(AvatarError::Invalid)
        } else if (vstd::utf8::encode_utf8(b64).len() as usize) / 4 * 3 > MAX_AVATAR_BYTES + 1024 {
            Err(AvatarError::TooLarge)
        } else {
            decoded_avatar_spec(ext_raw, base64_standard_decode(b64))
        }
    }
}

/// Check an avatar upload given as a data URL.
pub fn check_avatar(data_url: &str) -> (r: Result<AvatarImage, AvatarError>)
    ensures
        avatar_result_view(r) == avatar_check_spec(data_url@),
{
    let u = chars_of(data_url);
    let prefix = chars_of("data:image/");
    let marker = chars_of(";base64,");
    proof {
        reveal_strlit("data:image/");
        reveal_strlit(";base64,");
    }
    let pl = prefix.len();
    assert(pl == 11);
    if u.len() < pl {
        return Err(AvatarError::Invalid);
    }
    let mut i: usize = 0;
    while i < pl
        invariant
            i <= pl <= u@.len(),
            pl == prefix@.len(),
            u@ == data_url@,
            prefix@ == "data:image/"@,
            forall|j: int| 0 <= j < i ==> u@[j] == prefix@[j],
        decreases pl - i,
    {
        if u[i] != prefix[i] {
            assert(u@.take(pl as int)[i as int] != prefix@[i as int]);
            return Err(AvatarError::Invalid);
        }
        i = i + 1;
    }
    assert(u@.take(pl as int) =~= prefix@);
    let m = match find(&u, &marker) {
        Some(m) => m,
        None => return Err(AvatarError::Invalid),
    };
    if m < pl {
        return Err(AvatarError::Invalid);
    }
    proof {
        lemma_find_in_range(u@, marker@, 0);
    }
    let ext_raw = data_url.substring_char(pl, m);
    let b64 = data_url.substring_char(m + 8, u.len());
    if !(str_is(ext_raw, "jpeg") || str_is(ext_raw, "jpg") || str_is(ext_raw, "png") || str_is(ext_raw, "gif")
        || str_is(ext_raw, "webp")) {
        return Err(AvatarError::Invalid);
    }
    if b64.len() / 4 * 3 > MAX_AVATAR_BYTES + 1024 {
        return Err(AvatarError::TooLarge);
    }
    avatar_from_decoded(ext_raw, decode_base64(b64))
}

proof fn lemma_find_in_range(s: Seq<char>, p: Seq<char>, k: int)
    ensures
        find_from(s, p, k) >= 0 ==> find_from(s, p, k) + p.len() <= s.len(),
    decreases s.len() + 1 - k,
{
    if 0 <= k && k + p.len() <= s.len() && s.subrange(k, k + p.len()) != p {
        lemma_find_in_range(s, p, k + 1);
    }
}

// ── avatar references ───────────────────────────────────────────────────────

/// The last `/`-separated part of a reference.
pub open spec fn last_segment(r: Seq<char>) -> Seq<char> {
    r.skip(last_index_of(r, '/') + 1)
}

/// A safe avatar file name: not empty, not `.` or `..`, and without `/` or
/// `\`.
pub open spec fn safe_basename(n: Seq<char>) -> bool {
    n.len() > 0 && n != "."@ && n != ".."@ && !n.contains('\\') && !n.contains('/')
}

/// Reduce an avatar reference (`/uploads/<file>` or a bare name) to a file
/// name that cannot leave the uploads folder.
pub fn path_basename(reference: &str) -> (r: Result<&str, String>)
    ensures
        match r {
            Ok(n) => n@ == last_segment(reference@) && safe_basename(n@),
            Err(m) => !safe_basename(last_segment(reference@)) && m@ == "invalid avatar filename"@,
        },
{
    let v = chars_of(reference);
    let n = v.len();
    assert(v@.take(n as int) =~= v@);
    let start = match last_index_in(&v, n, '/') {
        Some(d) => d + 1,
        None => 0,
    };
    let name = reference.substring_char(start, n);
    assert(name@ =~= last_segment(reference@));
    let nv = chars_of(name);
    let mut k: usize = 0;
    let mut bad = false;
    while k < nv.len()
        invariant
            k <= nv@.len(),
            nv@ == name@,
            bad == exists|j: int| 0 <= j < k && (nv@[j] == '\\' || nv@[j] == '/'),
        decreases nv@.len() - k,
    {
        if nv[k] == '\\' || nv[k] == '/' {
            bad = true;
        }
        k = k + 1;
    }
    proof {
        reveal_strlit(".");
        reveal_strlit("..");
        if bad {
            let j = choose|j: int| 0 <= j < nv@.len() && (nv@[j] == '\\' || nv@[j] == '/');
            assert(name@[j] == '\\' || name@[j] == '/');
        } else {
            assert(!name@.contains('\\') && !name@.contains('/')) by {
                if name@.contains('\\') {
                    let j = choose|j: int| 0 <= j < name@.len() && name@[j] == '\\';
                    assert(nv@[j] == '\\');
                }
                if name@.contains('/') {
                    let j = choose|j: int| 0 <= j < name@.len() && name@[j] == '/';
                    assert(nv@[j] == '/');
                }
            }
        }
    }
    if nv.len() == 0 || str_is(name, ".") || str_is(name, "..") || bad {
        return Err(String::from_str("invalid avatar filename"));
    }
    Ok(name)
}

/// The file an avatar reference points to: `<data_dir>/uploads/<name>`.
pub fn avatar_path(data_dir: &str, reference: &str) -> (r: Result<String, String>)
    ensures
        match r {
            Ok(p) => safe_basename(last_segment(reference@)) && p@ == path_join_spec(
                path_join_spec(data_dir@, "uploads"@),
                last_segment(reference@),
            ),
            Err(m) => !safe_basename(last_segment(reference@)) && m@ == "invalid avatar filename"@,
        },
{
    let name = match path_basename(reference) {
        Ok(n) => n,
        Err(m) => return Err(m),
    };
    let uploads = path_join(data_dir, "uploads");
    Ok(path_join(uploads.as_str(), name))
}

/// The reference stored for an avatar file: `/uploads/<file>`.
pub fn avatar_reference(file_name: &str) -> (r: String)
    ensures
        r@ == "/uploads/"@ + file_name@,
{
    let mut r = String::from_str("/uploads/");
    r.append(file_name);
    r
}

} // verus!
