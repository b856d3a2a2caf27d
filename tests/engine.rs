use harper_bridge::engine::{gather, lint_findings, lint_rule_results};
use harper_bridge::lint::{Category, Finding, LintKind, Span, Suggestion};
use harper_bridge::report::LintResult;
use harper_core::linting::LintKind as K;
use harper_core::linting::{LintGroup, Linter, Suggestion as HarperSuggestion};
use harper_core::{Dialect, Document, FstDictionary};

fn text_of(v: &[char]) -> String {
    v.iter().collect()
}

fn kind_of(k: harper_core::linting::LintKind) -> LintKind {
    match k {
        K::Spelling => LintKind::Spelling,
        K::Capitalization => LintKind::Capitalization,
        K::Style => LintKind::Style,
        K::Formatting => LintKind::Formatting,
        K::Repetition => LintKind::Repetition,
        K::Enhancement => LintKind::Enhancement,
        K::Readability => LintKind::Readability,
        K::WordChoice => LintKind::WordChoice,
        K::Miscellaneous => LintKind::Miscellaneous,
        K::Punctuation => LintKind::Punctuation,
    }
}

fn harper_findings(text: &str, dialect: Dialect) -> Vec<Finding> {
    let dictionary = FstDictionary::curated();
    let document = Document::new_plain_english(text, dictionary.as_ref());
    let mut group = LintGroup::new_curated(dictionary, dialect);
    group
        .lint(&document)
        .iter()
        .map(|l| Finding {
            span: Span { start: l.span.start, end: l.span.end },
            lint_kind: kind_of(l.lint_kind),
            message: l.message.clone(),
            suggestions: l
                .suggestions
                .iter()
                .map(|s| match s {
                    HarperSuggestion::ReplaceWith(t) => Suggestion::ReplaceWith(t.clone()),
                    HarperSuggestion::InsertAfter(t) => Suggestion::InsertAfter(t.clone()),
                    HarperSuggestion::Remove => Suggestion::Remove,
                })
                .collect(),
        })
        .collect()
}

fn lint(text: &str) -> Vec<LintResult> {
    lint_findings(text, &harper_findings(text, Dialect::American))
}

fn finding(start: usize, end: usize, replace: &str) -> Finding {
    Finding {
        span: Span { start, end },
        lint_kind: LintKind::Repetition,
        message: format!("{}..{}", start, end),
        suggestions: vec![Suggestion::ReplaceWith(replace.chars().collect())],
    }
}

#[test]
fn misspelling_is_reported_with_fix() {
    let out = lint("Teh cat sat.");
    let hit = out
        .iter()
        .find(|r| r.kind == Category::Spelling && text_of(&r.word) == "Teh")
        .expect("a spelling lint on Teh");
    assert_eq!((hit.start, hit.end), (0, 3));
    assert!(!hit.suggestions.is_empty());
    assert!(hit.suggestions.iter().all(|s| s.first().is_some_and(|c| c.is_uppercase())));
}

#[test]
fn empty_text_gives_nothing() {
    assert!(lint("").is_empty());
    assert!(lint_rule_results("", &vec![Some(vec![finding(0, 1, "x")]), None]).is_empty());
}

#[test]
fn lowercase_sentence_start_is_flagged() {
    let out = lint("i like cats.");
    let hit = out
        .iter()
        .find(|r| r.start == 0 && r.end == 1)
        .expect("a lint on the leading i");
    assert!(hit.kind == Category::Grammar || hit.kind == Category::Style);
    assert!(hit.suggestions.iter().any(|s| text_of(s) == "I"));
}

#[test]
fn abbreviation_does_not_end_a_sentence() {
    let out = lint("Dr. smith arrived.");
    assert!(!out
        .iter()
        .any(|r| text_of(&r.word) == "smith" && r.suggestions.iter().any(|s| text_of(s) == "Smith")));
}

#[test]
fn records_are_ordered_in_bounds_and_repeatable() {
    let text = "Teh  cat sat on teh the mat. i said naïve thngs , and and left";
    let first = lint_findings(text, &harper_findings(text, Dialect::British));
    let second = lint_findings(text, &harper_findings(text, Dialect::British));
    assert!(!first.is_empty());
    assert_eq!(first.len(), second.len());
    for (a, b) in first.iter().zip(second.iter()) {
        assert_eq!((a.start, a.end, &a.word, &a.message), (b.start, b.end, &b.word, &b.message));
        assert_eq!(a.suggestions, b.suggestions);
    }
    for r in &first {
        assert!(r.start < r.end && r.end <= text.len());
        assert_eq!(&text[r.start..r.end], text_of(&r.word));
    }
    for w in first.windows(2) {
        assert!(w[0].start < w[1].start || (w[0].start == w[1].start && w[0].end <= w[1].end));
        let both = !w[0].suggestions.is_empty() && !w[1].suggestions.is_empty();
        assert!(!(both && w[1].start < w[0].end));
    }
}

#[test]
fn failed_rule_leaves_the_others() {
    let runs = vec![
        Some(vec![finding(4, 7, "cat")]),
        None,
        Some(vec![finding(0, 3, "The"), finding(8, 11, "sat")]),
    ];
    let out = lint_rule_results("Teh cta sta.", &runs);
    let spans: Vec<(usize, usize)> = out.iter().map(|r| (r.start, r.end)).collect();
    assert_eq!(spans, vec![(0, 3), (4, 7), (8, 11)]);
    assert_eq!(out[0].suggestions, vec!["The".chars().collect::<Vec<char>>()]);
}

#[test]
fn every_rule_failing_gives_nothing() {
    assert!(lint_rule_results("Teh cat sat.", &vec![None, None]).is_empty());
}

#[test]
fn gather_keeps_rule_order() {
    let runs = vec![
        Some(vec![finding(5, 6, "a")]),
        None,
        Some(vec![]),
        Some(vec![finding(0, 1, "b"), finding(2, 3, "c")]),
    ];
    let all = gather(&runs);
    let starts: Vec<usize> = all.iter().map(|f| f.span.start).collect();
    assert_eq!(starts, vec![5, 0, 2]);
}

#[test]
fn multibyte_text_gets_byte_offsets() {
    let out = lint_findings("né teh", &vec![finding(3, 6, "the")]);
    assert_eq!(out.len(), 1);
    assert_eq!((out[0].start, out[0].end), (4, 7));
    assert_eq!(out[0].word, vec!['t', 'e', 'h']);
}
