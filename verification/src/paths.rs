//! File paths, through camino, and suffix tests, through str-utils.
use vstd::prelude::*;

use camino::Utf8Path;
use str_utils::EndsWithIgnoreAsciiCase;

use crate::toc::opt_str_view;

verus! {

/// `Utf8Path::file_stem` of a path: its file name without the final
/// extension, if it has a file name. Paths are split by the rules of the
/// platform the crate is built for, so the name is fixed for one build.
pub uninterp spec fn path_file_stem(path: Seq<char>) -> Option<Seq<char>>;

/// `Utf8Path::extension` of a path: the part of its file name after the
/// final `.`, if there is one that does not start the name (by the path
/// rules of the platform the crate is built for).
pub uninterp spec fn path_extension(path: Seq<char>) -> Option<Seq<char>>;

/// `Utf8Path::file_stem`: the stem of the path's file name.
#[verifier::external_body]
pub(crate) fn file_stem(path: &str) -> (r: Option<String>)
    ensures
        opt_str_view(r) == path_file_stem(path@),
{
    Utf8Path::new(path).file_stem().map(|stem| stem.to_string())
}

/// `Utf8Path::extension`: the extension of the path's file name.
#[verifier::external_body]
pub(crate) fn extension(path: &str) -> (r: Option<String>)
    ensures
        opt_str_view(r) == path_extension(path@),
{
    Utf8Path::new(path).extension().map(|ext| ext.to_string())
}

/// An ASCII letter's lowercase form; other bytes unchanged.
pub open spec fn ascii_lower(b: u8) -> u8 {
    if 65 <= b <= 90 {
        (b + 32) as u8
    } else {
        b
    }
}

/// `s` ends with `suffix`, ignoring ASCII case.
pub open spec fn ends_with_ci(s: Seq<u8>, suffix: Seq<u8>) -> bool {
    suffix.len() <= s.len() && forall|i: int|
        0 <= i < suffix.len() ==> ascii_lower(#[trigger] s[s.len() - suffix.len() + i]) == ascii_lower(
            suffix[i],
        )
}

/// `EndsWithIgnoreAsciiCase::ends_with_ignore_ascii_case` of str-utils:
/// whether the UTF-8 bytes of `s` end with those of `suffix`, ignoring ASCII
/// case.
#[verifier::external_body]
pub(crate) fn ends_with_ignore_ascii_case(s: &str, suffix: &str) -> (r: bool)
    ensures
        r == ends_with_ci(vstd::utf8::encode_utf8(s@), vstd::utf8::encode_utf8(suffix@)),
{
    s.ends_with_ignore_ascii_case(suffix)
}

} // verus!
