//! What an extractor makes of a file: its decoded text and encoding.
use vstd::prelude::*;

use crate::text::utf8_len;

pub mod encoding;
pub mod simple;

pub use simple::SimpleExtractor;

verus! {

/// Why extracting a file failed.
#[derive(Debug)]
pub enum ExtractorError {
    /// The task is shutting down.
    Shutdown,
    /// Reading the file failed; the message of the I/O error.
    Io(String),
    Other(String),
}

/// The encoding a text was decoded with.
#[derive(Debug, Clone, PartialEq, Eq, Hash)]
pub struct Encoding {
    pub name: String,
    pub bom: bool,
}

/// The decoded content of a file.
#[derive(Debug, Clone, PartialEq, Eq, Hash)]
pub enum Content {
    Text(String),
}

/// The intermediate representation that parsers consume.
#[derive(Debug, Clone, PartialEq, Eq, Hash)]
pub struct ParsedContent {
    pub encoding: Encoding,
    pub content: Content,
    /// Path of the file this content was extracted from, when known
    /// (metadata parsers use it as a title fallback).
    pub source_path: Option<String>,
}

/// Options of an extraction run.
#[derive(Debug, Clone)]
pub struct ProcessOptions {}

impl ParsedContent {
    /// The characters of the text.
    pub open spec fn text(&self) -> Seq<char> {
        match self.content {
            Content::Text(t) => t@,
        }
    }

    /// The text's byte offsets fit the `u64` positions of ranges.
    pub open spec fn fits(&self) -> bool {
        utf8_len(self.text()) <= u64::MAX
    }

    /// The text.
    pub fn text_str(&self) -> (r: &str)
        ensures
            r@ == self.text(),
    {
        match &self.content {
            Content::Text(t) => t.as_str(),
        }
    }
}

} // verus!
