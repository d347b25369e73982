//! Classifying input files by extension: only JPEG and PNG files are
//! accepted into the atlas.  Walking directories and splitting paths is
//! the caller's business; this module decides, case-insensitively, whether
//! an extension names a supported image format.

use vstd::prelude::*;

verus! {

use vstd::string::StringSliceAdditionalSpecFns;

/// What `str::to_lowercase` returns for the given characters.
pub uninterp spec fn lower_of(s: Seq<char>) -> Seq<char>;

/// Relies on str::to_lowercase: the result is a function of the
/// characters alone.
#[verifier::external_body]
fn lowercase(s: &str) -> (r: String)
    ensures
        r@ == lower_of(s@),
{
    s.to_lowercase()
}

/// Byte-wise string equality; equal byte encodings mean equal character
/// sequences.
fn str_eq(a: &str, b: &str) -> (r: bool)
    ensures
        r == (a@ == b@),
{
    let ab = a.as_bytes();
    let bb = b.as_bytes();
    if ab.len() != bb.len() {
        return false;
    }
    let n = ab.len();
    let mut i: usize = 0;
    while i < n
        invariant
            0 <= i <= n,
            n == ab@.len() == bb@.len(),
            ab@ == a.spec_bytes(),
            bb@ == b.spec_bytes(),
            forall|k: int| 0 <= k < i ==> ab@[k] == bb@[k],
        decreases n - i,
    {
        if ab[i] != bb[i] {
            return false;
        }
        i += 1;
    }
    proof {
        assert(ab@ =~= bb@);
        vstd::utf8::encode_utf8_decode_utf8(a@);
        vstd::utf8::encode_utf8_decode_utf8(b@);
    }
    true
}

/// True when the already lower-cased extension names a supported image
/// format.
pub fn is_image_ext_folded(lc: &str) -> (r: bool)
    ensures
        r == (lc@ == "jpg"@ || lc@ == "jpeg"@ || lc@ == "png"@),
{
    str_eq(lc, "jpg") || str_eq(lc, "jpeg") || str_eq(lc, "png")
}

/// True when the file extension, compared case-insensitively, names a
/// supported image format (`jpg`, `jpeg` or `png`).
pub fn is_image_file(ext: &str) -> (r: bool)
    ensures
        r == (lower_of(ext@) == "jpg"@ || lower_of(ext@) == "jpeg"@ || lower_of(ext@) == "png"@),
{
    let lc = lowercase(ext);
    is_image_ext_folded(lc.as_str())
}

} // verus!
