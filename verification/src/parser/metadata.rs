//! Heuristic metadata extraction from the head of the text.
use vstd::prelude::*;

use tokio_util::sync::CancellationToken;

use super::{check_cancelled, MatchConfidence, MetadataParser, ParserError};
use crate::extractor::ParsedContent;
use crate::paths::{file_stem, path_file_stem};
use crate::pattern::{captures, compile, regex_captures, regex_valid, CompiledRegex};
use crate::text::{chars_of, string_of, trim, trim_bounds};
use crate::toc::opt_str_view;

verus! {

/// Only the head of the text is scanned for metadata: this many characters.
pub const HEAD_CHARS: usize = 1000;

/// A title in book brackets: `《title》`.
pub const BOOK_TITLE_PATTERN: &'static str = r"《([^》]+)》";

/// An author label line: `作者：name`.
pub const AUTHOR_PATTERN: &'static str = r"(?m)^\s*作者\s*[:：]\s*(.+?)\s*$";

/// A title label line: `书名：title`.
pub const TITLE_PATTERN: &'static str = r"(?m)^\s*书名\s*[:：]\s*(.+?)\s*$";

/// The metadata of a document.
#[derive(Debug, Clone, Default, PartialEq, Eq)]
pub struct Metadata {
    pub title: Option<String>,
    pub author: Option<String>,
}

/// Metadata as values.
pub struct MetadataView {
    pub title: Option<Seq<char>>,
    pub author: Option<Seq<char>>,
}

impl View for Metadata {
    type V = MetadataView;

    open spec fn view(&self) -> MetadataView {
        MetadataView { title: opt_str_view(self.title), author: opt_str_view(self.author) }
    }
}

/// The head of the text: its first `HEAD_CHARS` characters.
pub open spec fn head_of(text: Seq<char>) -> Seq<char> {
    if text.len() <= HEAD_CHARS {
        text
    } else {
        text.take(HEAD_CHARS as int)
    }
}

/// The first group of the pattern's first match in the head, trimmed.
pub open spec fn first_group(pattern: Seq<char>, head: Seq<char>) -> Option<Seq<char>> {
    match regex_captures(pattern, head) {
        Some(groups) => if groups.len() > 1 {
            match groups[1] {
                Some(t) => Some(trim(t)),
                None => None,
            }
        } else {
            None
        },
        None => None,
    }
}

/// The metadata of a text: the title in book brackets, else on a `书名`
/// line, else the source file's stem; the author on a `作者` line.
pub open spec fn metadata_spec(text: Seq<char>, source: Option<Seq<char>>) -> MetadataView {
    let head = head_of(text);
    let bracketed = first_group(BOOK_TITLE_PATTERN@, head);
    let labelled = first_group(TITLE_PATTERN@, head);
    MetadataView {
        title: if bracketed is Some {
            bracketed
        } else if labelled is Some {
            labelled
        } else {
            match source {
                Some(p) => path_file_stem(p),
                None => None,
            }
        },
        author: first_group(AUTHOR_PATTERN@, head),
    }
}

/// The title comes from the first source that has one: a bracketed title
/// in the head, else a `书名` label line in the head, and only when neither
/// is there the source file's stem. So a title found in the text does not
/// depend on the source path; the author comes from a `作者` line and never
/// from the path.
pub proof fn lemma_metadata_precedence(text: Seq<char>, source: Option<Seq<char>>, other: Option<Seq<char>>)
    ensures
        ({
            let head = head_of(text);
            let bracketed = first_group(BOOK_TITLE_PATTERN@, head);
            let labelled = first_group(TITLE_PATTERN@, head);
            let m = metadata_spec(text, source);
            &&& bracketed is Some ==> m.title == bracketed
            &&& bracketed is None && labelled is Some ==> m.title == labelled
            &&& bracketed is None && labelled is None ==> m.title == match source {
                Some(p) => path_file_stem(p),
                None => None::<Seq<char>>,
            }
            &&& (bracketed is Some || labelled is Some) ==> m.title == metadata_spec(text, other).title
            &&& m.author == first_group(AUTHOR_PATTERN@, head)
            &&& m.author == metadata_spec(text, other).author
        }),
{
}

/// The three patterns compile.
pub open spec fn patterns_valid() -> bool {
    regex_valid(BOOK_TITLE_PATTERN@) && regex_valid(AUTHOR_PATTERN@) && regex_valid(TITLE_PATTERN@)
}

/// Reads `《title》` brackets first, then `书名:`/`作者:` label lines, and
/// finally the source file name as the title fallback.
pub struct SimpleMetadataParser;

impl Default for SimpleMetadataParser {
    fn default() -> (r: Self)
        ensures
            r == SimpleMetadataParser,
    {
        SimpleMetadataParser
    }
}

impl SimpleMetadataParser {
    pub fn new() -> (r: Self)
        ensures
            r == SimpleMetadataParser,
    {
        SimpleMetadataParser
    }

    /// The first group of the regex's first match in the head, trimmed.
    fn group_in(re: &CompiledRegex, head: &str) -> (r: Option<String>)
        ensures
            opt_str_view(r) == first_group(re@, head@),
    {
        let groups = match captures(re, head) {
            Some(g) => g,
            None => return None,
        };
        if groups.len() <= 1 {
            return None;
        }
        match &groups[1] {
            Some(t) => {
                let c = chars_of(t.as_str());
                proof {
                    assert(c@.subrange(0, c@.len() as int) =~= c@);
                }
                let (x, y) = trim_bounds(&c, 0, c.len());
                Some(string_of(&c, x, y))
            },
            None => None,
        }
    }
}

impl MetadataParser for SimpleMetadataParser {
    fn name(&self) -> (r: &'static str)
        ensures
            r@ == "simple-metadata"@,
    {
        "simple-metadata"
    }

    /// Any plain text may carry metadata, so it always accepts, at low
    /// confidence.
    fn accept(&self, content: &ParsedContent) -> (r: MatchConfidence)
        ensures
            r.0 == 10,
    {
        MatchConfidence(10)
    }

    fn parse(&self, ct: &CancellationToken, content: &ParsedContent) -> (r: Result<Metadata, ParserError>)
        ensures
            r matches Ok(m) ==> patterns_valid() && m@ == metadata_spec(
                content.text(),
                opt_str_view(content.source_path),
            ),
            r matches Err(e) ==> e is Cancelled || (e is Other && !patterns_valid()),
    {
        match check_cancelled(ct) {
            Ok(()) => {},
            Err(e) => return Err(e),
        }
        let book = compile(BOOK_TITLE_PATTERN);
        let author_re = compile(AUTHOR_PATTERN);
        let title_re = compile(TITLE_PATTERN);
        let (book, author_re, title_re) = match (book, author_re, title_re) {
            (Ok(a), Ok(b), Ok(c)) => (a, b, c),
            _ => return Err(ParserError::Other("a metadata pattern does not compile".to_owned())),
        };
        let s = chars_of(content.text_str());
        let end = if s.len() <= HEAD_CHARS {
            s.len()
        } else {
            HEAD_CHARS
        };
        let head = string_of(&s, 0, end);
        proof {
            if s@.len() <= HEAD_CHARS {
                assert(s@.subrange(0, end as int) =~= s@);
            } else {
                assert(s@.subrange(0, end as int) =~= s@.take(HEAD_CHARS as int));
            }
        }
        let mut title = Self::group_in(&book, head.as_str());
        let author = Self::group_in(&author_re, head.as_str());
        if title.is_none() {
            title = Self::group_in(&title_re, head.as_str());
        }
        if title.is_none() {
            title = match &content.source_path {
                Some(path) => file_stem(path.as_str()),
                None => None,
            };
        }
        match check_cancelled(ct) {
            Ok(()) => {},
            Err(e) => return Err(e),
        }
        Ok(Metadata { title, author })
    }
}

} // verus!
