use vstd::prelude::*;
use vstd::string::{StrSliceExecFns, StringExecFns};

verus! {

/// `s` ends with `suffix`.
pub open spec fn ends_with(s: Seq<char>, suffix: Seq<char>) -> bool {
    suffix.len() <= s.len() && s.subrange(s.len() - suffix.len(), s.len() as int) == suffix
}

/// The MIME type that a path's extension selects; anything unrecognised is
/// an opaque byte stream.
pub open spec fn mime_for(path: Seq<char>) -> Seq<char> {
    if ends_with(path, ".png"@) {
        "image/png"@
    } else if ends_with(path, ".jpg"@) || ends_with(path, ".jpeg"@) {
        "image/jpeg"@
    } else if ends_with(path, ".gif"@) {
        "image/gif"@
    } else if ends_with(path, ".webp"@) {
        "image/webp"@
    } else if ends_with(path, ".bmp"@) {
        "image/bmp"@
    } else {
        "application/octet-stream"@
    }
}

/// The `data:` URL for a payload already encoded as base64.
pub open spec fn data_url_of(path: Seq<char>, payload: Seq<char>) -> Seq<char> {
    "data:"@ + mime_for(path) + ";base64,"@ + payload
}

fn has_suffix(s: &str, suffix: &str) -> (r: bool)
    ensures
        r == ends_with(s@, suffix@),
{
    let n: usize = s.unicode_len();
    let m: usize = suffix.unicode_len();
    if m > n {
        return false;
    }
    let start: usize = n - m;
    let mut i: usize = 0;
    while i < m
        invariant
            n == s@.len(),
            m == suffix@.len(),
            start == n - m,
            i <= m,
            forall|j: int| 0 <= j < i ==> s@[start + j] == suffix@[j],
        decreases m - i,
    {
        if s.get_char(start + i) != suffix.get_char(i) {
            assert(s@.subrange(start as int, n as int)[i as int] != suffix@[i as int]);
            return false;
        }
        i = i + 1;
    }
    assert(s@.subrange(start as int, n as int) =~= suffix@);
    true
}

/// The MIME type of an image file, chosen by the path's extension.
pub fn mime_type(path: &str) -> (r: &'static str)
    ensures
        r@ == mime_for(path@),
{
    proof {
        reveal_strlit(".png");
        reveal_strlit(".jpg");
        reveal_strlit(".jpeg");
        reveal_strlit(".gif");
        reveal_strlit(".webp");
        reveal_strlit(".bmp");
    }
    if has_suffix(path, ".png") {
        "image/png"
    } else if has_suffix(path, ".jpg") || has_suffix(path, ".jpeg") {
        "image/jpeg"
    } else if has_suffix(path, ".gif") {
        "image/gif"
    } else if has_suffix(path, ".webp") {
        "image/webp"
    } else if has_suffix(path, ".bmp") {
        "image/bmp"
    } else {
        "application/octet-stream"
    }
}

/// The standard base64 encoding (with padding) of a byte sequence.
pub uninterp spec fn base64_of(b: Seq<u8>) -> Seq<char>;

/// Relies on `base64::Engine::encode` with the `STANDARD` engine: padded
/// base64, four characters for each started group of three bytes. It panics
/// only when that length overflows `usize`.
#[verifier::external_body]
fn encode_base64(b: &Vec<u8>) -> (r: String)
    requires
        b@.len() <= usize::MAX / 2,
    ensures
        r@ == base64_of(b@),
        r@.len() == 4 * ((b@.len() + 2) / 3),
{
    base64::Engine::encode(&base64::engine::general_purpose::STANDARD, b)
}

/// The `data:` URL of a file at `path` whose contents are already encoded
/// as base64 in `payload`.
pub fn data_url_from_payload(path: &str, payload: &str) -> (r: String)
    ensures
        r@ == data_url_of(path@, payload@),
{
    let mut url = String::from_str("data:");
    url.append(mime_type(path));
    url.append(";base64,");
    url.append(payload);
    url
}

/// The `data:` URL of an image file at `path` with contents `bytes`.
pub fn image_data_url(path: &str, bytes: &Vec<u8>) -> (r: String)
    requires
        bytes@.len() <= usize::MAX / 2,
    ensures
        r@ == data_url_of(path@, base64_of(bytes@)),
{
    let payload = encode_base64(bytes);
    data_url_from_payload(path, payload.as_str())
}

} // verus!
