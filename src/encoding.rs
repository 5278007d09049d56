use vstd::prelude::*;
use vstd::slice::{slice_subrange, slice_to_vec};

use crate::error::{Result, XFilesError};
use crate::hash::{blake3_hex, compute_hash};

verus! {

/// Metadata written in front of encoded content.
#[derive(Debug, Clone)]
pub struct ContentHeader {
    /// MIME type.
    pub mime: String,
    /// Size of the content in bytes.
    pub size: usize,
    /// Digest of the content.
    pub hash: String,
    /// Whether the content is compressed.
    pub compressed: bool,
    /// Encoding version.
    pub version: u8,
}

impl ContentHeader {
    /// The header of uncompressed `content` of type `mime`, version 1.
    pub fn for_content(content: &[u8], mime: &str) -> (r: ContentHeader)
        ensures
            r.mime@ == mime@,
            r.size == content@.len(),
            r.hash@ == blake3_hex(content@),
            !r.compressed,
            r.version == 1,
    {
        ContentHeader {
            mime: String::from_str(mime),
            size: content.len(),
            hash: compute_hash(content),
            compressed: false,
            version: 1,
        }
    }
}

/// The line that separates the header from the content.
pub open spec fn separator() -> Seq<u8> {
    seq![10u8, 45u8, 45u8, 45u8, 10u8]
}

/// `sep` occurs in `s` at position `i`.
pub open spec fn occurs_at(s: Seq<u8>, sep: Seq<u8>, i: int) -> bool {
    0 <= i && i + sep.len() <= s.len() && s.subrange(i, i + sep.len()) == sep
}

fn separator_bytes() -> (r: Vec<u8>)
    ensures
        r@ == separator(),
{
    let r = vec![10u8, 45u8, 45u8, 45u8, 10u8];
    assert(r@ =~= separator());
    r
}

/// The encoded form: the header text, the separator, then the content.
pub fn frame_with_header(header: &[u8], content: &[u8]) -> (r: Vec<u8>)
    ensures
        r@ == header@ + separator() + content@,
{
    let mut r = slice_to_vec(header);
    let sep = separator_bytes();
    let mut i: usize = 0;
    while i < sep.len()
        invariant
            sep@ == separator(),
            i <= sep@.len(),
            r@ == header@ + sep@.subrange(0, i as int),
        decreases sep@.len() - i,
    {
        r.push(sep[i]);
        i = i + 1;
        assert(r@ =~= header@ + sep@.subrange(0, i as int));
    }
    let mut j: usize = 0;
    while j < content.len()
        invariant
            sep@ == separator(),
            j <= content@.len(),
            r@ == header@ + separator() + content@.subrange(0, j as int),
        decreases content@.len() - j,
    {
        r.push(content[j]);
        j = j + 1;
        assert(r@ =~= header@ + separator() + content@.subrange(0, j as int));
    }
    assert(content@.subrange(0, j as int) =~= content@);
    assert(sep@.subrange(0, i as int) =~= sep@);
    r
}

/// The separator occurs in `encoded` at position `i`.
fn separator_at(encoded: &[u8], i: usize) -> (r: bool)
    requires
        i + 5 <= encoded@.len(),
    ensures
        r == occurs_at(encoded@, separator(), i as int),
{
    let sep = separator_bytes();
    let n = encoded.len();
    let mut k: usize = 0;
    while k < 5
        invariant
            sep@ == separator(),
            n == encoded@.len(),
            i + 5 <= encoded@.len(),
            k <= 5,
            forall|q: int| 0 <= q < k ==> encoded@[i + q] == sep@[q],
        decreases 5 - k,
    {
        if encoded[i + k] != sep[k] {
            assert(encoded@.subrange(i as int, i + 5)[k as int] != separator()[k as int]);
            return false;
        }
        k = k + 1;
    }
    assert(encoded@.subrange(i as int, i + 5) =~= separator());
    true
}

/// Splits encoded content at the first separator into the header text and
/// the content; fails when there is no separator.
pub fn split_header(encoded: &[u8]) -> (r: Result<(Vec<u8>, Vec<u8>)>)
    ensures
        match r {
            Ok((h, c)) => {
                &&& encoded@ == h@ + separator() + c@
                &&& occurs_at(encoded@, separator(), h@.len() as int)
                &&& forall|i: int| 0 <= i < h@.len() ==> !occurs_at(encoded@, separator(), i)
            },
            Err(e) => {
                &&& e is InvalidEncoding
                &&& forall|i: int| 0 <= i ==> !occurs_at(encoded@, separator(), i)
            },
        },
{
    let n = encoded.len();
    let mut i: usize = 0;
    while i < n && n - i >= 5
        invariant
            n == encoded@.len(),
            i <= n,
            forall|q: int| 0 <= q < i ==> !occurs_at(encoded@, separator(), q),
        decreases n - i,
    {
        if separator_at(encoded, i) {
            let h = slice_to_vec(slice_subrange(encoded, 0, i));
            let c = slice_to_vec(slice_subrange(encoded, i + 5, n));
            assert(encoded@ =~= h@ + separator() + c@);
            return Ok((h, c));
        }
        i = i + 1;
    }
    Err(XFilesError::InvalidEncoding(String::from_str("Missing header separator")))
}

} // verus!
