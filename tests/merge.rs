use harper_bridge::lint::{Category, Finding, LintKind, Span, Suggestion};
use harper_bridge::report::{byte_offset_of, report, total_bytes, LintResult};
use harper_bridge::resolve::resolve;

fn finding(start: usize, end: usize, replace: Option<&str>) -> Finding {
    let suggestions = match replace {
        Some(t) => vec![Suggestion::ReplaceWith(t.chars().collect())],
        None => vec![Suggestion::Remove],
    };
    Finding {
        span: Span { start, end },
        lint_kind: LintKind::Style,
        message: format!("{}..{}", start, end),
        suggestions,
    }
}

fn spans(v: &[Finding]) -> Vec<(usize, usize)> {
    v.iter().map(|f| (f.span.start, f.span.end)).collect()
}

#[test]
fn degenerate_spans_are_dropped() {
    let input = vec![
        finding(3, 3, None),
        finding(5, 2, None),
        finding(8, 11, None),
        finding(0, 2, None),
        finding(9, 10, None),
    ];
    assert_eq!(spans(&resolve(&input, 10)), vec![(0, 2), (9, 10)]);
}

#[test]
fn output_is_ordered_by_start_then_end() {
    let input = vec![
        finding(4, 9, None),
        finding(1, 3, None),
        finding(4, 6, None),
        finding(0, 8, None),
    ];
    assert_eq!(spans(&resolve(&input, 9)), vec![(0, 8), (1, 3), (4, 6), (4, 9)]);
}

#[test]
fn overlapping_replacements_keep_the_earlier() {
    let input = vec![
        finding(2, 6, Some("b")),
        finding(0, 3, Some("a")),
        finding(6, 8, Some("c")),
    ];
    let out = resolve(&input, 8);
    assert_eq!(spans(&out), vec![(0, 3), (6, 8)]);
    assert_eq!(out[0].message, "0..3");
}

#[test]
fn equal_start_prefers_shorter_replacement() {
    let input = vec![finding(1, 5, Some("long")), finding(1, 2, Some("short"))];
    assert_eq!(spans(&resolve(&input, 5)), vec![(1, 2)]);
}

#[test]
fn overlap_without_replacement_is_kept() {
    let input = vec![finding(0, 4, Some("x")), finding(2, 6, None), finding(3, 5, Some("y"))];
    assert_eq!(spans(&resolve(&input, 6)), vec![(0, 4), (2, 6)]);
}

#[test]
fn bad_findings_do_not_hide_good_ones() {
    let input = vec![finding(0, 0, Some("z")), finding(7, 99, Some("z")), finding(1, 4, Some("ok"))];
    let out = resolve(&input, 10);
    assert_eq!(spans(&out), vec![(1, 4)]);
    assert_eq!(out[0].message, "1..4");
}

#[test]
fn merge_of_nothing_is_empty() {
    assert!(resolve(&Vec::new(), 0).is_empty());
    assert!(resolve(&vec![finding(0, 1, None)], 0).is_empty());
}

#[test]
fn byte_offsets_count_utf8_widths() {
    let source: Vec<char> = "aé€😀b".chars().collect();
    assert_eq!(byte_offset_of(&source, 0), 0);
    assert_eq!(byte_offset_of(&source, 1), 1);
    assert_eq!(byte_offset_of(&source, 2), 3);
    assert_eq!(byte_offset_of(&source, 3), 6);
    assert_eq!(byte_offset_of(&source, 4), 10);
    assert_eq!(byte_offset_of(&source, 5), 11);
    assert_eq!(total_bytes(&source), Some("aé€😀b".len()));
}

#[test]
fn record_carries_word_category_and_replacements() {
    let source: Vec<char> = "naïve teh".chars().collect();
    let f = Finding {
        span: Span { start: 6, end: 9 },
        lint_kind: LintKind::Spelling,
        message: String::from("Did you mean \u{201c}the\u{201d}?"),
        suggestions: vec![
            Suggestion::InsertAfter(vec!['!']),
            Suggestion::ReplaceWith("the".chars().collect()),
            Suggestion::Remove,
            Suggestion::ReplaceWith("ten".chars().collect()),
        ],
    };
    let r = LintResult::new(&source, &f);
    assert_eq!(r.word, vec!['t', 'e', 'h']);
    assert_eq!((r.start, r.end), (7, 10));
    assert_eq!(r.kind, Category::Spelling);
    assert_eq!(r.message, "Did you mean \u{201c}the\u{201d}?");
    assert_eq!(r.suggestions, vec![vec!['t', 'h', 'e'], vec!['t', 'e', 'n']]);
}

#[test]
fn kinds_map_to_categories() {
    assert_eq!(LintKind::Spelling.category(), Category::Spelling);
    assert_eq!(LintKind::Capitalization.category(), Category::Grammar);
    for k in [
        LintKind::Style,
        LintKind::Formatting,
        LintKind::Repetition,
        LintKind::Enhancement,
        LintKind::Readability,
        LintKind::WordChoice,
        LintKind::Miscellaneous,
        LintKind::Punctuation,
    ] {
        assert_eq!(k.category(), Category::Style);
    }
    assert_eq!(Category::Spelling.label(), "spelling");
    assert_eq!(Category::Grammar.label(), "grammar");
    assert_eq!(Category::Style.label(), "style");
}

#[test]
fn report_keeps_order() {
    let source: Vec<char> = "ab cd".chars().collect();
    let input = vec![finding(0, 2, Some("x")), finding(3, 5, None)];
    let out = report(&source, &input);
    assert_eq!(out.len(), 2);
    assert_eq!(out[0].word, vec!['a', 'b']);
    assert_eq!(out[0].suggestions, vec![vec!['x']]);
    assert_eq!(out[1].word, vec!['c', 'd']);
    assert!(out[1].suggestions.is_empty());
}

#[test]
fn equal_spans_keep_input_order_once_each() {
    let input = vec![finding(2, 4, None), finding(0, 1, None), finding(2, 4, None)];
    let mut tagged = input;
    tagged[0].message = String::from("first");
    tagged[2].message = String::from("second");
    let out = resolve(&tagged, 5);
    let messages: Vec<&str> = out.iter().map(|f| f.message.as_str()).collect();
    assert_eq!(messages, vec!["0..1", "first", "second"]);
}

#[test]
fn equal_span_replacements_keep_the_first_given() {
    let mut a = finding(1, 3, Some("a"));
    a.message = String::from("a");
    let mut b = finding(1, 3, Some("b"));
    b.message = String::from("b");
    let out = resolve(&vec![b, a], 3);
    assert_eq!(out.len(), 1);
    assert_eq!(out[0].message, "b");
}
