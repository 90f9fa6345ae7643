//! Encoding detection and decoding, through unicode-bom, chardetng and
//! encoding_rs.
use vstd::prelude::*;

use chardetng::{EncodingDetector, Iso2022JpDetection, Utf8Detection};
use encoding_rs::Encoding as WhatwgEncoding;
use unicode_bom::Bom;

use crate::toc::opt_str_view;

verus! {

#[verifier::external_type_specification]
#[verifier::external_body]
pub struct ExWhatwgEncoding(WhatwgEncoding);

/// The number of leading bytes fed to the encoding detector.
pub const DETECTION_WINDOW: usize = 8192;

/// A byte order mark, as unicode-bom tells them apart.
#[derive(Debug, Clone, Copy, PartialEq, Eq, Structural)]
pub enum BomKind {
    Null,
    Bocu1,
    Gb18030,
    Scsu,
    UtfEbcdic,
    Utf1,
    Utf7,
    Utf8,
    Utf16Be,
    Utf16Le,
    Utf32Be,
    Utf32Le,
}

/// The length of a byte order mark, as `Bom::len` gives it.
pub open spec fn bom_length(b: BomKind) -> nat {
    match b {
        BomKind::Null => 0,
        BomKind::Bocu1 => 3,
        BomKind::Gb18030 => 4,
        BomKind::Scsu => 3,
        BomKind::UtfEbcdic => 4,
        BomKind::Utf1 => 3,
        BomKind::Utf7 => 4,
        BomKind::Utf8 => 3,
        BomKind::Utf16Be => 2,
        BomKind::Utf16Le => 2,
        BomKind::Utf32Be => 4,
        BomKind::Utf32Le => 4,
    }
}

/// The byte order mark at the start of the bytes, by the table that
/// `Bom::from` of unicode-bom goes by: the first byte selects a mark, whose
/// remaining bytes must follow (UTF-32LE's `FF FE 00 00` wins over UTF-16LE's
/// `FF FE`); anything else, and fewer than two bytes, is no mark.
pub open spec fn bom_of(b: Seq<u8>) -> BomKind {
    if b.len() < 2 {
        BomKind::Null
    } else if b[0] == 0x00 && b.len() >= 4 && b[1] == 0x00 && b[2] == 0xfe && b[3] == 0xff {
        BomKind::Utf32Be
    } else if b[0] == 0x0e && b.len() >= 3 && b[1] == 0xfe && b[2] == 0xff {
        BomKind::Scsu
    } else if b[0] == 0x2b && b.len() >= 4 && b[1] == 0x2f && b[2] == 0x76 && (b[3] == 0x38 || b[3]
        == 0x39 || b[3] == 0x2b || b[3] == 0x2f) {
        BomKind::Utf7
    } else if b[0] == 0x84 && b.len() >= 4 && b[1] == 0x31 && b[2] == 0x95 && b[3] == 0x33 {
        BomKind::Gb18030
    } else if b[0] == 0xdd && b.len() >= 4 && b[1] == 0x73 && b[2] == 0x66 && b[3] == 0x73 {
        BomKind::UtfEbcdic
    } else if b[0] == 0xef && b.len() >= 3 && b[1] == 0xbb && b[2] == 0xbf {
        BomKind::Utf8
    } else if b[0] == 0xf7 && b.len() >= 3 && b[1] == 0x64 && b[2] == 0x4c {
        BomKind::Utf1
    } else if b[0] == 0xfb && b.len() >= 3 && b[1] == 0xee && b[2] == 0x28 {
        BomKind::Bocu1
    } else if b[0] == 0xfe && b[1] == 0xff {
        BomKind::Utf16Be
    } else if b[0] == 0xff && b[1] == 0xfe {
        if b.len() >= 4 && b[2] == 0x00 && b[3] == 0x00 {
            BomKind::Utf32Le
        } else {
            BomKind::Utf16Le
        }
    } else {
        BomKind::Null
    }
}

/// The name of the encoding that chardetng guesses from the bytes (with
/// ISO-2022-JP and UTF-8 allowed, and no top-level domain).
pub uninterp spec fn guessed_encoding(window: Seq<u8>) -> Seq<char>;

/// The name of the encoding that `Encoding::for_label` finds for a label.
pub uninterp spec fn encoding_for_label(label: Seq<u8>) -> Option<Seq<char>>;

/// `Encoding::decode_without_bom_handling_and_without_replacement`: the
/// text, or `None` when a malformed sequence is met.
pub uninterp spec fn strict_decoding(encoding: Seq<char>, body: Seq<u8>) -> Option<Seq<char>>;

/// `Encoding::decode_without_bom_handling`: the text, with malformed
/// sequences replaced.
pub uninterp spec fn lossy_decoding(encoding: Seq<char>, body: Seq<u8>) -> Seq<char>;

/// An encoding of encoding_rs, known by its name.
#[derive(Clone, Copy)]
pub struct TextEncoding {
    handle: &'static WhatwgEncoding,
    name: Ghost<Seq<char>>,
}

impl View for TextEncoding {
    type V = Seq<char>;

    closed spec fn view(&self) -> Seq<char> {
        self.name@
    }
}

/// Encodings that the extractor names directly.
#[derive(Debug, Clone, Copy, PartialEq, Eq)]
pub enum KnownEncoding {
    Utf8,
    Utf16Le,
    Utf16Be,
    Gbk,
    Big5,
    ShiftJis,
    EucKr,
}

/// The WHATWG name of a known encoding.
pub open spec fn known_name(k: KnownEncoding) -> Seq<char> {
    match k {
        KnownEncoding::Utf8 => "UTF-8"@,
        KnownEncoding::Utf16Le => "UTF-16LE"@,
        KnownEncoding::Utf16Be => "UTF-16BE"@,
        KnownEncoding::Gbk => "GBK"@,
        KnownEncoding::Big5 => "Big5"@,
        KnownEncoding::ShiftJis => "Shift_JIS"@,
        KnownEncoding::EucKr => "EUC-KR"@,
    }
}

/// The static `encoding_rs::UTF_8`, named `UTF-8`.
#[verifier::external_body]
fn utf_8() -> (r: TextEncoding)
    ensures
        r@ == "UTF-8"@,
{
    TextEncoding { handle: encoding_rs::UTF_8, name: Ghost("UTF-8"@) }
}

/// The static `encoding_rs::UTF_16LE`, named `UTF-16LE`.
#[verifier::external_body]
fn utf_16le() -> (r: TextEncoding)
    ensures
        r@ == "UTF-16LE"@,
{
    TextEncoding { handle: encoding_rs::UTF_16LE, name: Ghost("UTF-16LE"@) }
}

/// The static `encoding_rs::UTF_16BE`, named `UTF-16BE`.
#[verifier::external_body]
fn utf_16be() -> (r: TextEncoding)
    ensures
        r@ == "UTF-16BE"@,
{
    TextEncoding { handle: encoding_rs::UTF_16BE, name: Ghost("UTF-16BE"@) }
}

/// The static `encoding_rs::GBK`, named `GBK`.
#[verifier::external_body]
fn gbk() -> (r: TextEncoding)
    ensures
        r@ == "GBK"@,
{
    TextEncoding { handle: encoding_rs::GBK, name: Ghost("GBK"@) }
}

/// The static `encoding_rs::BIG5`, named `Big5`.
#[verifier::external_body]
fn big5() -> (r: TextEncoding)
    ensures
        r@ == "Big5"@,
{
    TextEncoding { handle: encoding_rs::BIG5, name: Ghost("Big5"@) }
}

/// The static `encoding_rs::SHIFT_JIS`, named `Shift_JIS`.
#[verifier::external_body]
fn shift_jis() -> (r: TextEncoding)
    ensures
        r@ == "Shift_JIS"@,
{
    TextEncoding { handle: encoding_rs::SHIFT_JIS, name: Ghost("Shift_JIS"@) }
}

/// The static `encoding_rs::EUC_KR`, named `EUC-KR`.
#[verifier::external_body]
fn euc_kr() -> (r: TextEncoding)
    ensures
        r@ == "EUC-KR"@,
{
    TextEncoding { handle: encoding_rs::EUC_KR, name: Ghost("EUC-KR"@) }
}

/// The encoding of encoding_rs that `k` names.
pub fn known(k: KnownEncoding) -> (r: TextEncoding)
    ensures
        r@ == known_name(k),
{
    match k {
        KnownEncoding::Utf8 => utf_8(),
        KnownEncoding::Utf16Le => utf_16le(),
        KnownEncoding::Utf16Be => utf_16be(),
        KnownEncoding::Gbk => gbk(),
        KnownEncoding::Big5 => big5(),
        KnownEncoding::ShiftJis => shift_jis(),
        KnownEncoding::EucKr => euc_kr(),
    }
}

/// `Encoding::name`: the encoding's name.
#[verifier::external_body]
fn name_of(e: &TextEncoding) -> (r: String)
    ensures
        r@ == e@,
{
    e.handle.name().to_string()
}

impl TextEncoding {
    /// The encoding's name.
    pub fn name(&self) -> (r: String)
        ensures
            r@ == self@,
    {
        name_of(self)
    }
}

/// `Encoding::for_label`: the encoding a label names, if any.
#[verifier::external_body]
fn for_label(label: &[u8]) -> (r: Option<TextEncoding>)
    ensures
        match r {
            Some(e) => encoding_for_label(label@) == Some(e@),
            None => encoding_for_label(label@) is None,
        },
{
    match WhatwgEncoding::for_label(label) {
        Some(handle) => Some(TextEncoding { handle, name: Ghost(encoding_for_label(label@)->0) }),
        None => None,
    }
}

/// `Bom::from`: the byte order mark at the start of the bytes, by the table
/// of `bom_of`.
#[verifier::external_body]
fn detect_bom(bytes: &[u8]) -> (r: BomKind)
    ensures
        r == bom_of(bytes@),
{
    match Bom::from(bytes) {
        Bom::Null => BomKind::Null, Bom::Bocu1 => BomKind::Bocu1, Bom::Gb18030 => BomKind::Gb18030,
        Bom::Scsu => BomKind::Scsu, Bom::UtfEbcdic => BomKind::UtfEbcdic, Bom::Utf1 => BomKind::Utf1,
        Bom::Utf7 => BomKind::Utf7, Bom::Utf8 => BomKind::Utf8, Bom::Utf16Be => BomKind::Utf16Be,
        Bom::Utf16Le => BomKind::Utf16Le, Bom::Utf32Be => BomKind::Utf32Be,
        Bom::Utf32Le => BomKind::Utf32Le,
    }
}

/// The length of a byte order mark.
pub fn bom_len(b: BomKind) -> (r: usize)
    ensures
        r == bom_length(b),
{
    match b {
        BomKind::Null => 0,
        BomKind::Bocu1 => 3,
        BomKind::Gb18030 => 4,
        BomKind::Scsu => 3,
        BomKind::UtfEbcdic => 4,
        BomKind::Utf1 => 3,
        BomKind::Utf7 => 4,
        BomKind::Utf8 => 3,
        BomKind::Utf16Be => 2,
        BomKind::Utf16Le => 2,
        BomKind::Utf32Be => 4,
        BomKind::Utf32Le => 4,
    }
}

/// chardetng's `EncodingDetector`: a new detector with ISO-2022-JP allowed,
/// fed the bytes as the whole input, guessing with UTF-8 allowed and no
/// top-level domain.
#[verifier::external_body]
fn guess_encoding(window: &[u8]) -> (r: TextEncoding)
    ensures
        r@ == guessed_encoding(window@),
{
    let mut detector = EncodingDetector::new(Iso2022JpDetection::Allow);
    detector.feed(window, true);
    let handle = detector.guess(None, Utf8Detection::Allow);
    TextEncoding { handle, name: Ghost(guessed_encoding(window@)) }
}

/// `Encoding::decode_without_bom_handling_and_without_replacement`: the
/// text, or `None` at a malformed sequence. For UTF-8 that is exactly when
/// the bytes are not valid UTF-8, and the text is their decoding.
#[verifier::external_body]
fn decode_strict(e: &TextEncoding, body: &[u8]) -> (r: Option<String>)
    requires
        body@.len() <= usize::MAX / 4,
    ensures
        opt_str_view(r) == strict_decoding(e@, body@),
        e@ == "UTF-8"@ ==> (r is Some <==> vstd::utf8::valid_utf8(body@)),
        e@ == "UTF-8"@ && r is Some ==> r->0@ == vstd::utf8::decode_utf8(body@),
{
    e.handle.decode_without_bom_handling_and_without_replacement(body).map(|text| text.into_owned())
}

/// `Encoding::decode_without_bom_handling`: the text, malformed sequences
/// replaced.
#[verifier::external_body]
fn decode_lossy(e: &TextEncoding, body: &[u8]) -> (r: String)
    requires
        body@.len() <= usize::MAX / 4,
    ensures
        r@ == lossy_decoding(e@, body@),
{
    e.handle.decode_without_bom_handling(body).0.into_owned()
}

} // verus!

verus! {

/// The encoding a byte order mark selects, when encoding_rs supports it.
/// The WHATWG standard routes the GBK and gb18030 labels to one decoder.
pub open spec fn bom_encoding(b: BomKind) -> Option<Seq<char>> {
    match b {
        BomKind::Utf8 => Some("UTF-8"@),
        BomKind::Utf16Le => Some("UTF-16LE"@),
        BomKind::Utf16Be => Some("UTF-16BE"@),
        BomKind::Gb18030 => Some("GBK"@),
        _ => None,
    }
}

/// The encoding a byte order mark selects, when encoding_rs supports it.
pub fn encoding_from_bom(bom: BomKind) -> (r: Option<TextEncoding>)
    ensures
        match r {
            Some(e) => bom_encoding(bom) == Some(e@),
            None => bom_encoding(bom) is None,
        },
{
    match bom {
        BomKind::Utf8 => Some(known(KnownEncoding::Utf8)),
        BomKind::Utf16Le => Some(known(KnownEncoding::Utf16Le)),
        BomKind::Utf16Be => Some(known(KnownEncoding::Utf16Be)),
        BomKind::Gb18030 => Some(known(KnownEncoding::Gbk)),
        _ => None,
    }
}

/// The bytes the detector looks at: the first `DETECTION_WINDOW`.
pub open spec fn window_of(bytes: Seq<u8>) -> Seq<u8> {
    if bytes.len() <= DETECTION_WINDOW {
        bytes
    } else {
        bytes.take(DETECTION_WINDOW as int)
    }
}

/// The detected encoding and the length of its byte order mark: a
/// supported byte order mark always wins; otherwise chardetng guesses from
/// the first bytes, and the mark length is 0. chardetng never guesses
/// UTF-16, so a byte order mark is the only way to detect it.
pub open spec fn detected(bytes: Seq<u8>) -> (Seq<char>, nat) {
    match bom_encoding(bom_of(bytes)) {
        Some(name) => (name, bom_length(bom_of(bytes))),
        None => (guessed_encoding(window_of(bytes)), 0),
    }
}

/// Detects the encoding of the bytes (see `detected`).
pub fn detect_encoding(bytes: &[u8]) -> (r: (TextEncoding, usize))
    ensures
        (r.0@, r.1 as nat) == detected(bytes@),
        r.1 <= bytes@.len(),
{
    let bom = detect_bom(bytes);
    let len = bom_len(bom);
    match encoding_from_bom(bom) {
        Some(e) => (e, len),
        None => {
            let end = if bytes.len() <= DETECTION_WINDOW {
                bytes.len()
            } else {
                DETECTION_WINDOW
            };
            let window = &bytes[0..end];
            proof {
                if bytes@.len() <= DETECTION_WINDOW {
                    assert(bytes@.subrange(0, end as int) =~= bytes@);
                } else {
                    assert(bytes@.subrange(0, end as int) =~= bytes@.take(DETECTION_WINDOW as int));
                }
            }
            (guess_encoding(window), 0)
        },
    }
}

/// The decoded text and the encoding used: the detected encoding when the
/// body decodes without error, else the fallback with replacements.
pub open spec fn decoded(encoding: Seq<char>, body: Seq<u8>, fallback: Seq<char>) -> (Seq<char>, Seq<char>) {
    match strict_decoding(encoding, body) {
        Some(text) => (text, encoding),
        None => (lossy_decoding(fallback, body), fallback),
    }
}

/// Decodes the body with the encoding, falling back to `fallback` (the
/// system encoding) when it cannot be decoded without replacement.
pub fn decode_body(encoding: TextEncoding, body: &[u8], fallback: TextEncoding) -> (r: (String, TextEncoding))
    requires
        body@.len() <= usize::MAX / 4,
    ensures
        (r.0@, r.1@) == decoded(encoding@, body@, fallback@),
{
    match decode_strict(&encoding, body) {
        Some(text) => (text, encoding),
        None => (decode_lossy(&fallback, body), fallback),
    }
}

/// The label `windows-{codepage}`, as bytes.
pub open spec fn codepage_label(codepage: u32) -> Seq<u8> {
    vstd::utf8::encode_utf8("windows-"@ + crate::text::decimal(codepage as nat))
}

/// The encoding of a Windows code page: the CJK code pages and UTF-8 by
/// number, any other through its `windows-` label.
pub open spec fn codepage_encoding(codepage: u32) -> Option<Seq<char>> {
    if codepage == 936 {
        Some("GBK"@)
    } else if codepage == 950 {
        Some("Big5"@)
    } else if codepage == 932 {
        Some("Shift_JIS"@)
    } else if codepage == 949 {
        Some("EUC-KR"@)
    } else if codepage == 65001 {
        Some("UTF-8"@)
    } else {
        encoding_for_label(codepage_label(codepage))
    }
}

/// Maps a Windows code page identifier to a WHATWG encoding.
pub fn codepage_to_encoding(codepage: u32) -> (r: Option<TextEncoding>)
    ensures
        match r {
            Some(e) => codepage_encoding(codepage) == Some(e@),
            None => codepage_encoding(codepage) is None,
        },
{
    if codepage == 936 {
        return Some(known(KnownEncoding::Gbk));
    } else if codepage == 950 {
        return Some(known(KnownEncoding::Big5));
    } else if codepage == 932 {
        return Some(known(KnownEncoding::ShiftJis));
    } else if codepage == 949 {
        return Some(known(KnownEncoding::EucKr));
    } else if codepage == 65001 {
        return Some(known(KnownEncoding::Utf8));
    }
    let mut label = "windows-".to_owned();
    crate::text::push_decimal_u64(&mut label, codepage as u64);
    for_label(label.as_str().as_bytes())
}

} // verus!
