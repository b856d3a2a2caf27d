use harper_bridge::lint::Span;
use harper_core::{Document, FstDictionary};
use harper_bridge::tokens::is_tiling;

fn sp(start: usize, end: usize) -> Span {
    Span { start, end }
}

fn token_spans(text: &str) -> Option<Vec<Span>> {
    let dictionary = FstDictionary::curated();
    let document = Document::new_plain_english(text, dictionary.as_ref());
    let spans: Vec<Span> = document
        .get_tokens()
        .iter()
        .map(|t| Span { start: t.span.start, end: t.span.end })
        .collect();
    let len = text.chars().count();
    if is_tiling(&spans, len) {
        Some(spans)
    } else {
        None
    }
}

fn rejoin(text: &str, spans: &[Span]) -> String {
    let chars: Vec<char> = text.chars().collect();
    spans.iter().flat_map(|s| chars[s.start..s.end].iter()).collect()
}

#[test]
fn tokens_reproduce_the_text() {
    for text in [
        "",
        "Teh cat sat.",
        "Dr. smith arrived.  Then\tleft!\n\nNew paragraph?",
        "naïve café — 3.5 km, 😀 ok",
    ] {
        let spans = token_spans(text).expect("tokens tile the text");
        assert_eq!(rejoin(text, &spans), text);
    }
}

#[test]
fn empty_text_has_no_tokens() {
    assert_eq!(token_spans("").map(|v| v.len()), Some(0));
}

#[test]
fn tiling_check() {
    assert!(is_tiling(&vec![], 0));
    assert!(!is_tiling(&vec![], 1));
    assert!(is_tiling(&vec![sp(0, 2), sp(2, 3), sp(3, 7)], 7));
    assert!(!is_tiling(&vec![sp(0, 2), sp(3, 7)], 7));
    assert!(!is_tiling(&vec![sp(0, 3), sp(2, 7)], 7));
    assert!(!is_tiling(&vec![sp(0, 2), sp(2, 2), sp(2, 7)], 7));
    assert!(!is_tiling(&vec![sp(1, 7)], 7));
    assert!(!is_tiling(&vec![sp(0, 6)], 7));
}
