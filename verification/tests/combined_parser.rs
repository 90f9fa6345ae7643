use tokio_util::sync::CancellationToken;

use wbook_core::extractor::{Content, Encoding, ParsedContent};
use wbook_core::parser::{
    settle_attempt, CombineStrategy, CombinedParser, MatchConfidence, ParserError, TocParser,
};
use wbook_core::toc::TocRoot;

fn content() -> ParsedContent {
    ParsedContent {
        encoding: Encoding {
            name: "utf-8".to_string(),
            bom: false,
        },
        content: Content::Text("第一章 ……".to_string()),
        source_path: None,
    }
}

struct StubParser {
    name: &'static str,
    confidence: MatchConfidence,
    fail: bool,
}

impl TocParser for StubParser {
    fn name(&self) -> &'static str {
        self.name
    }

    fn accept(&self, _content: &ParsedContent) -> MatchConfidence {
        self.confidence
    }

    fn parse(&self, _ct: &CancellationToken, _content: &ParsedContent) -> Result<TocRoot, ParserError> {
        if self.fail {
            return Err(ParserError::Other(format!("{} failed", self.name)));
        }
        let mut toc = TocRoot::new();
        toc.add_with_meta(self.name, None, None).unwrap();
        Ok(toc)
    }
}

fn first_title(toc: &TocRoot) -> String {
    toc.snapshot()[0].title.clone()
}

#[test]
fn best_match_selects_highest_confidence() {
    let mut combined = CombinedParser::new(CombineStrategy::BestMatch);
    combined.add(StubParser {
        name: "low",
        confidence: MatchConfidence(10),
        fail: false,
    });
    combined.add(StubParser {
        name: "high",
        confidence: MatchConfidence(50),
        fail: false,
    });
    let toc = combined.parse(&CancellationToken::new(), &content()).unwrap();
    assert_eq!(first_title(&toc), "high");
}

#[test]
fn best_match_falls_back_on_error() {
    let mut combined = CombinedParser::new(CombineStrategy::BestMatch);
    combined.add(StubParser {
        name: "high",
        confidence: MatchConfidence(50),
        fail: true,
    });
    combined.add(StubParser {
        name: "low",
        confidence: MatchConfidence(10),
        fail: false,
    });
    let toc = combined.parse(&CancellationToken::new(), &content()).unwrap();
    assert_eq!(first_title(&toc), "low");
}

#[test]
fn no_match_when_nobody_accepts() {
    let mut combined = CombinedParser::new(CombineStrategy::BestMatch);
    combined.add(StubParser {
        name: "picky",
        confidence: MatchConfidence(0),
        fail: false,
    });
    let result = combined.parse(&CancellationToken::new(), &content());
    assert!(matches!(result, Err(ParserError::NoMatch(_))));
}

#[test]
fn no_match_collects_error_summaries() {
    let mut combined = CombinedParser::new(CombineStrategy::BestMatch);
    combined.add(StubParser {
        name: "first",
        confidence: MatchConfidence(50),
        fail: true,
    });
    combined.add(StubParser {
        name: "second",
        confidence: MatchConfidence(10),
        fail: true,
    });
    let result = combined.parse(&CancellationToken::new(), &content());
    match result {
        Err(ParserError::NoMatch(summary)) => {
            assert!(summary.contains("first"));
            assert!(summary.contains("second"));
        }
        Err(other) => panic!("expected NoMatch, got {other:?}"),
        Ok(_) => panic!("expected NoMatch, got a tree"),
    }
}

#[test]
fn merge_strategy_is_reserved() {
    let combined = CombinedParser::new(CombineStrategy::Merge);
    let result = combined.parse(&CancellationToken::new(), &content());
    assert!(matches!(result, Err(ParserError::Other(_))));
}

struct CancellingParser {
    set_token: bool,
}

impl TocParser for CancellingParser {
    fn name(&self) -> &'static str {
        "cancel"
    }

    fn accept(&self, _: &ParsedContent) -> MatchConfidence {
        MatchConfidence(100)
    }

    fn parse(&self, ct: &CancellationToken, _: &ParsedContent) -> Result<TocRoot, ParserError> {
        if self.set_token {
            ct.cancel();
            Ok(TocRoot::new())
        } else {
            Err(ParserError::Cancelled)
        }
    }
}

#[test]
fn cancellation_never_falls_back_or_becomes_success() {
    for set_token in [false, true] {
        let mut combined = CombinedParser::new(CombineStrategy::BestMatch);
        combined.add(CancellingParser { set_token });
        combined.add(StubParser {
            name: "fallback",
            confidence: MatchConfidence(10),
            fail: false,
        });
        assert!(matches!(
            combined.parse(&CancellationToken::new(), &content()),
            Err(ParserError::Cancelled)
        ));
    }
}

#[test]
fn cancelled_combined_parser_without_candidates_is_not_no_match() {
    let ct = CancellationToken::new();
    ct.cancel();
    let combined = CombinedParser::new(CombineStrategy::BestMatch);
    assert!(matches!(
        combined.parse(&ct, &content()),
        Err(ParserError::Cancelled)
    ));
}

#[test]
fn no_match_summary_lists_failures_best_first() {
    let mut combined = CombinedParser::new(CombineStrategy::BestMatch);
    combined.add(StubParser {
        name: "b",
        confidence: MatchConfidence(5),
        fail: true,
    });
    combined.add(StubParser {
        name: "a",
        confidence: MatchConfidence(9),
        fail: true,
    });
    match combined.parse(&CancellationToken::new(), &content()) {
        Err(ParserError::NoMatch(summary)) => assert_eq!(summary, "a: a failed; b: b failed"),
        _ => panic!("expected NoMatch"),
    }
}

#[test]
fn combined_accept_is_the_best_confidence() {
    let mut combined = CombinedParser::new(CombineStrategy::BestMatch);
    assert_eq!(combined.accept(&content()), MatchConfidence(0));
    combined.add(StubParser {
        name: "a",
        confidence: MatchConfidence(7),
        fail: false,
    });
    combined.add(StubParser {
        name: "b",
        confidence: MatchConfidence(3),
        fail: false,
    });
    assert_eq!(combined.accept(&content()), MatchConfidence(7));
}

#[test]
fn ranking_orders_by_confidence_then_position() {
    let order = wbook_core::parser::rank_candidates(&vec![3, 0, 7, 3, 7]);
    assert_eq!(order, vec![2, 4, 0, 3]);
}

#[test]
fn settle_attempt_notes_failures_and_stops_on_tree_or_cancel() {
    let mut failures: Vec<String> = vec!["a: earlier".to_string()];
    let r = settle_attempt("b", Err(ParserError::Other("broken".to_string())), &mut failures);
    assert!(r.is_none());
    assert_eq!(failures, vec!["a: earlier".to_string(), "b: broken".to_string()]);

    let r = settle_attempt("c", Err(ParserError::Cancelled), &mut failures);
    assert!(matches!(r, Some(Err(ParserError::Cancelled))));
    assert_eq!(failures.len(), 2);

    let mut toc = TocRoot::new();
    toc.add_with_meta("kept", None, None).unwrap();
    let r = settle_attempt("d", Ok(toc), &mut failures);
    match r {
        Some(Ok(t)) => assert_eq!(first_title(&t), "kept"),
        _ => panic!("expected the tree"),
    }
    assert_eq!(failures.len(), 2);
}
