//! Which byte stream a document path calls for, decided from its suffix
//! before anything is read.
use vstd::prelude::*;
use vstd::string::StringSliceAdditionalSpecFns;

verus! {

/// How the document's bytes are stored.
#[derive(Debug, Clone, Copy, PartialEq, Eq, Structural)]
pub enum InputFormat {
    /// Plain JSON text (`.json`).
    Json,
    /// JSON text in a zstd stream (`.json.zst`).
    JsonZstd,
}

/// A path the splitter will not open.
#[derive(Debug, Clone, Copy, PartialEq, Eq, Structural)]
pub enum UsageError {
    /// The path ends neither in `.json` nor in `.json.zst`.
    UnrecognizedSuffix,
}

/// The bytes of `.json`.
pub open spec fn json_suffix() -> Seq<u8> {
    seq![46u8, 106u8, 115u8, 111u8, 110u8]
}

/// The bytes of `.json.zst`.
pub open spec fn zstd_suffix() -> Seq<u8> {
    json_suffix() + seq![46u8, 122u8, 115u8, 116u8]
}

/// `s` ends with `suffix`.
pub open spec fn has_suffix(s: Seq<u8>, suffix: Seq<u8>) -> bool {
    s.len() >= suffix.len() && s.subrange(s.len() - suffix.len(), s.len() as int) == suffix
}

/// Whether `s` ends with `suffix`.
pub fn ends_with(s: &[u8], suffix: &[u8]) -> (r: bool)
    ensures
        r == has_suffix(s@, suffix@),
{
    if s.len() < suffix.len() {
        return false;
    }
    let off: usize = s.len() - suffix.len();
    let mut i: usize = 0;
    while i < suffix.len()
        invariant
            off + suffix.len() == s.len(),
            i <= suffix.len(),
            forall|j: int| 0 <= j < i ==> s@[off + j] == suffix@[j],
        decreases suffix.len() - i,
    {
        if s[off + i] != suffix[i] {
            assert(s@.subrange(off as int, s@.len() as int)[i as int] != suffix@[i as int]);
            return false;
        }
        i += 1;
    }
    assert(s@.subrange(off as int, s@.len() as int) =~= suffix@);
    true
}

/// The format a document path calls for: `.json.zst` is read through a
/// zstd decoder, `.json` as it is; any other path is refused.
pub fn input_format(path: &str) -> (r: Result<InputFormat, UsageError>)
    ensures
        has_suffix(path.spec_bytes(), zstd_suffix()) ==> r == Ok::<InputFormat, UsageError>(InputFormat::JsonZstd),
        !has_suffix(path.spec_bytes(), zstd_suffix()) && has_suffix(path.spec_bytes(), json_suffix())
            ==> r == Ok::<InputFormat, UsageError>(InputFormat::Json),
        !has_suffix(path.spec_bytes(), zstd_suffix()) && !has_suffix(path.spec_bytes(), json_suffix())
            ==> r == Err::<InputFormat, UsageError>(UsageError::UnrecognizedSuffix),
{
    let bytes = path.as_bytes();
    let zst: Vec<u8> = vec![46u8, 106u8, 115u8, 111u8, 110u8, 46u8, 122u8, 115u8, 116u8];
    let json: Vec<u8> = vec![46u8, 106u8, 115u8, 111u8, 110u8];
    assert(zst@ =~= zstd_suffix());
    assert(json@ =~= json_suffix());
    if ends_with(bytes, zst.as_slice()) {
        Ok(InputFormat::JsonZstd)
    } else if ends_with(bytes, json.as_slice()) {
        Ok(InputFormat::Json)
    } else {
        Err(UsageError::UnrecognizedSuffix)
    }
}

} // verus!
