use wbook_core::extractor::encoding::{
    codepage_to_encoding, decode_body, detect_encoding, known, KnownEncoding,
};
use wbook_core::extractor::{ExtractorError, ParsedContent, SimpleExtractor};
use tokio_util::sync::CancellationToken;

#[test]
fn test_accept() {
    let extractor = SimpleExtractor::new();
    assert!(extractor.accept("a.txt"));
    assert!(extractor.accept("a.TXT"));
    assert!(extractor.accept("a.Txt"));
    assert!(extractor.accept("dir/a.tXt"));
    assert!(!extractor.accept("a.md"));
    assert!(!extractor.accept("a.txt.md"));
    assert!(!extractor.accept("a"));
}

#[test]
fn test_decode_body_falls_back_to_system_encoding() {
    // \xFF is never valid UTF-8, so the lossless decode fails and the
    // fallback encoding (the system encoding, UTF-8 here) takes over.
    let system = known(KnownEncoding::Utf8);
    let (_, encoding) = decode_body(known(KnownEncoding::Utf8), b"abc\xFFdef", system);
    assert_eq!(encoding.name(), system.name());
}

#[test]
fn test_decode_body_lossless() {
    let (text, encoding) =
        decode_body(known(KnownEncoding::Utf8), "你好".as_bytes(), known(KnownEncoding::Gbk));
    assert_eq!(encoding.name(), "UTF-8");
    assert_eq!(text, "你好");
}

#[test]
fn test_codepage_to_encoding() {
    let name = |cp: u32| codepage_to_encoding(cp).map(|e| e.name());
    assert_eq!(name(936).as_deref(), Some("GBK"));
    assert_eq!(name(950).as_deref(), Some("Big5"));
    assert_eq!(name(932).as_deref(), Some("Shift_JIS"));
    assert_eq!(name(949).as_deref(), Some("EUC-KR"));
    assert_eq!(name(65001).as_deref(), Some("UTF-8"));
    assert_eq!(name(1252).as_deref(), Some("windows-1252"));
    assert_eq!(name(u32::MAX), None);
}

#[test]
fn utf8_bom_is_detected_and_skipped() {
    let bytes = b"\xEF\xBB\xBFhello, world";
    let (encoding, bom_len) = detect_encoding(bytes);
    assert_eq!(encoding.name(), "UTF-8");
    assert_eq!(bom_len, 3);
    let content = SimpleExtractor::new().content_from_bytes(bytes, "a.txt", known(KnownEncoding::Utf8));
    assert!(content.encoding.bom);
    assert_eq!(content.text_str(), "hello, world");
    assert_eq!(content.source_path.as_deref(), Some("a.txt"));
}

#[test]
fn utf16le_bom_selects_utf16() {
    let mut bytes = vec![0xFF, 0xFE];
    for unit in "hi".encode_utf16() {
        bytes.extend_from_slice(&unit.to_le_bytes());
    }
    let content = SimpleExtractor::new().content_from_bytes(&bytes, "b.txt", known(KnownEncoding::Utf8));
    assert_eq!(content.encoding.name, "UTF-16LE");
    assert_eq!(content.text_str(), "hi");
}

#[test]
fn gb18030_bom_selects_gbk() {
    let (encoding, bom_len) = detect_encoding(b"\x84\x31\x95\x33abc");
    assert_eq!(encoding.name(), "GBK");
    assert_eq!(bom_len, 4);
}

fn process(bytes: &[u8]) -> ParsedContent {
    SimpleExtractor::new()
        .process_bytes(&CancellationToken::new(), bytes, "book.txt", known(KnownEncoding::Utf8))
        .unwrap()
}

#[test]
fn test_process_utf8_with_bom() {
    let bytes = b"\xEF\xBB\xBFhello, world";
    let parsed = process(bytes);
    assert_eq!(parsed.encoding.name, "UTF-8");
    assert!(parsed.encoding.bom);
    assert_eq!(parsed.text_str(), "hello, world");
}

#[test]
fn test_process_utf8_without_bom() {
    let bytes = "hello, 世界".repeat(100);
    let parsed = process(bytes.as_bytes());
    assert_eq!(parsed.encoding.name, "UTF-8");
    assert!(!parsed.encoding.bom);
    assert_eq!(parsed.text_str(), bytes);
}

#[test]
fn test_process_utf16le_with_bom() {
    let text = "你好，hello world";
    let mut bytes = vec![0xFF, 0xFE];
    for unit in text.encode_utf16() {
        bytes.extend_from_slice(&unit.to_le_bytes());
    }
    let parsed = process(&bytes);
    assert_eq!(parsed.encoding.name, "UTF-16LE");
    assert!(parsed.encoding.bom);
    assert_eq!(parsed.text_str(), text);
}

#[test]
fn test_process_utf16be_with_bom() {
    let text = "你好，hello world";
    let mut bytes = vec![0xFE, 0xFF];
    for unit in text.encode_utf16() {
        bytes.extend_from_slice(&unit.to_be_bytes());
    }
    let parsed = process(&bytes);
    assert_eq!(parsed.encoding.name, "UTF-16BE");
    assert!(parsed.encoding.bom);
    assert_eq!(parsed.text_str(), text);
}

#[test]
fn test_process_gbk() {
    let text = "这是一段中文文本，用于测试编码检测功能。".repeat(50);
    let (bytes, _, had_unmappable) = encoding_rs::GBK.encode(&text);
    assert!(!had_unmappable);
    let parsed = process(&bytes);
    assert_eq!(parsed.encoding.name, "GBK");
    assert!(!parsed.encoding.bom);
    assert_eq!(parsed.text_str(), text);
}

#[test]
fn test_process_empty_file() {
    let parsed = process(b"");
    assert_eq!(parsed.text_str(), "");
}

#[test]
fn test_process_cancelled() {
    let ct = CancellationToken::new();
    ct.cancel();
    let err = SimpleExtractor::new()
        .process_bytes(&ct, b"hello", "book.txt", known(KnownEncoding::Utf8))
        .unwrap_err();
    assert!(matches!(err, ExtractorError::Shutdown));
}
