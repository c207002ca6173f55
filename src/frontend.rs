//! Text handed to the front end: icon previews as data URIs, and greetings.
use vstd::prelude::*;

use base64::engine::general_purpose;
use base64::Engine;

verus! {

/// `s` ends with `suffix`.
pub open spec fn ends_with(s: Seq<char>, suffix: Seq<char>) -> bool {
    suffix.len() <= s.len() && s.subrange(s.len() - suffix.len(), s.len() as int) == suffix
}

/// The MIME type of a file, judged by its extension alone.
pub open spec fn mime_of(path: Seq<char>) -> Seq<char> {
    if ends_with(path, ".png"@) {
        "image/png"@
    } else if ends_with(path, ".svg"@) {
        "image/svg+xml"@
    } else {
        "application/octet-stream"@
    }
}

/// Standard base64 (with padding) of some bytes, as the `base64` crate
/// encodes them.
pub uninterp spec fn base64_of(b: Seq<u8>) -> Seq<char>;

/// Relies on the `encode` of `base64`'s `STANDARD` engine; it panics only
/// where the encoded length overflows `usize`.
#[verifier::external_body]
fn encode_base64(b: &[u8]) -> (r: String)
    requires
        b@.len() <= usize::MAX / 2,
    ensures
        r@ == base64_of(b@),
{
    general_purpose::STANDARD.encode(b)
}

/// Whether `s` ends with `suffix`.
pub fn has_suffix(s: &str, suffix: &str) -> (r: bool)
    ensures
        r == ends_with(s@, suffix@),
{
    let n = s.unicode_len();
    let m = suffix.unicode_len();
    if m > n {
        return false;
    }
    let mut i: usize = 0;
    while i < m
        invariant
            i <= m <= n,
            n == s@.len(),
            m == suffix@.len(),
            forall|j: int| 0 <= j < i ==> s@[n - m + j] == #[trigger] suffix@[j],
        decreases m - i,
    {
        if s.get_char(n - m + i) != suffix.get_char(i) {
            assert(s@.subrange(n - m, n as int)[i as int] != suffix@[i as int]);
            return false;
        }
        i = i + 1;
    }
    assert(s@.subrange(n - m, n as int) =~= suffix@);
    true
}

/// The MIME type of the file at `path`: `image/png` for `.png`,
/// `image/svg+xml` for `.svg`, else `application/octet-stream`.
pub fn mime_for_path(path: &str) -> (r: &'static str)
    ensures
        r@ == mime_of(path@),
{
    if has_suffix(path, ".png") {
        "image/png"
    } else if has_suffix(path, ".svg") {
        "image/svg+xml"
    } else {
        "application/octet-stream"
    }
}

/// The data URI of a payload already encoded in base64.
pub fn data_uri(mime: &str, encoded: &str) -> (r: String)
    ensures
        r@ == "data:"@ + mime@ + ";base64,"@ + encoded@,
{
    let mut r = String::from_str("data:");
    r.append(mime);
    r.append(";base64,");
    r.append(encoded);
    r
}

/// The data URI of a file's bytes, typed by the file's extension.
pub fn icon_data_uri(path: &str, bytes: &[u8]) -> (r: String)
    requires
        bytes@.len() <= usize::MAX / 2,
    ensures
        r@ == "data:"@ + mime_of(path@) + ";base64,"@ + base64_of(bytes@),
{
    let encoded = encode_base64(bytes);
    data_uri(mime_for_path(path), encoded.as_str())
}

/// The greeting shown for a name.
pub fn greet(name: &str) -> (r: String)
    ensures
        r@ == "Hello, "@ + name@ + "! You've been greeted from Rust!"@,
{
    let mut r = String::from_str("Hello, ");
    r.append(name);
    r.append("! You've been greeted from Rust!");
    r
}

} // verus!
