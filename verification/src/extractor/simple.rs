//! The plain-text extractor.
use vstd::prelude::*;

use tokio_util::sync::CancellationToken;

use super::encoding::{decode_body, decoded, detect_encoding, detected, strict_decoding, TextEncoding};
use super::{Content, Encoding, ExtractorError, ParsedContent};
use crate::cancel::is_cancelled;
use crate::paths::{ends_with_ci, ends_with_ignore_ascii_case, extension, path_extension};

verus! {

/// Extracts `.txt` files.
pub struct SimpleExtractor;

/// A path names a text file: its extension is `txt`, in any ASCII case.
pub open spec fn is_text_path(path: Seq<char>) -> bool {
    path_extension(path) matches Some(ext) && ends_with_ci(
        vstd::utf8::encode_utf8(ext),
        vstd::utf8::encode_utf8("txt"@),
    )
}

/// The content extracted from a file's bytes: the text decoded with the
/// detected encoding (after its byte order mark), or with the fallback.
pub open spec fn content_spec(bytes: Seq<u8>, fallback: Seq<char>) -> (Seq<char>, Seq<char>, bool) {
    let (encoding, bom_len) = detected(bytes);
    let (text, used) = decoded(encoding, bytes.skip(bom_len as int), fallback);
    (text, used, bom_len > 0)
}

impl Default for SimpleExtractor {
    fn default() -> (r: Self)
        ensures
            r == SimpleExtractor,
    {
        SimpleExtractor
    }
}

impl SimpleExtractor {
    pub fn new() -> (r: Self)
        ensures
            r == SimpleExtractor,
    {
        SimpleExtractor
    }

    /// Whether the extractor handles the file: a `.txt` file, in any case.
    pub fn accept(&self, path: &str) -> (r: bool)
        ensures
            r == is_text_path(path@),
    {
        match extension(path) {
            Some(ext) => ends_with_ignore_ascii_case(ext.as_str(), "txt"),
            None => false,
        }
    }

    /// The content of a file from its bytes: encoding detected, byte order
    /// mark skipped, text decoded (with `fallback`, the system encoding, when
    /// the detected one fails), and the path kept as the source.
    pub fn content_from_bytes(&self, bytes: &[u8], path: &str, fallback: TextEncoding) -> (r: ParsedContent)
        requires
            bytes@.len() <= usize::MAX / 4,
        ensures
            (r.text(), r.encoding.name@, r.encoding.bom) == content_spec(bytes@, fallback@),
            r.source_path matches Some(p) && p@ == path@,
    {
        let (detected_encoding, bom_len) = detect_encoding(bytes);
        let body = &bytes[bom_len..bytes.len()];
        proof {
            assert(body@ =~= bytes@.skip(bom_len as int));
        }
        let (text, actual) = decode_body(detected_encoding, body, fallback);
        ParsedContent {
            encoding: Encoding { name: actual.name(), bom: bom_len > 0 },
            content: Content::Text(text),
            source_path: Some(path.to_owned()),
        }
    }

    /// The rest of processing once the file's bytes are read: stop with
    /// `Shutdown` when the token has been cancelled meanwhile, else extract
    /// the content from the bytes (see `content_from_bytes`).
    pub fn process_bytes(&self, ct: &CancellationToken, bytes: &[u8], path: &str, fallback: TextEncoding) -> (r:
        Result<ParsedContent, ExtractorError>)
        requires
            bytes@.len() <= usize::MAX / 4,
        ensures
            r matches Err(e) ==> e is Shutdown,
            r matches Ok(c) ==> (c.text(), c.encoding.name@, c.encoding.bom) == content_spec(
                bytes@,
                fallback@,
            ) && (c.source_path matches Some(p) && p@ == path@),
    {
        if is_cancelled(ct) {
            return Err(ExtractorError::Shutdown);
        }
        Ok(self.content_from_bytes(bytes, path, fallback))
    }
}

} // verus!

verus! {

/// The encoding and length of a UTF-8 (`EF BB BF`), UTF-16BE (`FE FF`) or
/// UTF-16LE (`FF FE`, not followed by `00 00`) byte order mark at the start
/// of the bytes.
pub open spec fn unicode_bom(b: Seq<u8>) -> Option<(Seq<char>, nat)> {
    if b.len() >= 3 && b[0] == 0xef && b[1] == 0xbb && b[2] == 0xbf {
        Some(("UTF-8"@, 3))
    } else if b.len() >= 2 && b[0] == 0xfe && b[1] == 0xff {
        Some(("UTF-16BE"@, 2))
    } else if b.len() >= 2 && b[0] == 0xff && b[1] == 0xfe && !(b.len() >= 4 && b[2] == 0x00 && b[3]
        == 0x00) {
        Some(("UTF-16LE"@, 2))
    } else {
        None
    }
}

/// A UTF-8, UTF-16BE or UTF-16LE byte order mark decides the encoding: the
/// content is flagged as having a mark and, where the bytes after the mark
/// decode without replacement in that encoding, it is that text, named by
/// that encoding.
pub proof fn lemma_bom_decides(bytes: Seq<u8>, fallback: Seq<char>)
    requires
        unicode_bom(bytes) is Some,
    ensures
        ({
            let (name, len) = unicode_bom(bytes)->0;
            let (text, used, bom) = content_spec(bytes, fallback);
            &&& detected(bytes) == (name, len)
            &&& bom
            &&& strict_decoding(name, bytes.skip(len as int)) matches Some(t) ==> text == t && used == name
        }),
{
}

} // verus!
