use harper_py::dict::{WordList, WordMeta};
use harper_py::engine::{parse_dialect, Dialect, HarperLinter};
use harper_py::diag::LintError;
use harper_py::group::concat_outputs;

fn w(s: &str) -> Vec<char> {
    s.chars().collect()
}

fn d(start: usize, end: usize, message: &str) -> LintError {
    LintError { start, end, message: message.to_string() }
}

fn curated() -> WordList {
    let mut c = WordList::new();
    c.add_word(w("color"), WordMeta { noun: true, verb: false, adjective: false });
    c.add_word(w("check"), WordMeta { noun: true, verb: true, adjective: false });
    c
}

#[test]
fn dialect_strings_parse_with_fallback() {
    assert_eq!(parse_dialect("American"), Dialect::American);
    assert_eq!(parse_dialect("British"), Dialect::British);
    assert_eq!(parse_dialect("Martian"), Dialect::American);
    assert_eq!(parse_dialect(""), Dialect::American);
}

#[test]
fn new_without_user_dictionary() {
    let engine = HarperLinter::new(curated(), None, "American");
    assert_eq!(engine.dialect, Dialect::American);
    assert!(engine.dictionary.contains(&w("color")));
    assert!(!engine.dictionary.contains(&w("colour")));
}

#[test]
fn new_with_user_dictionary_adds_words_only() {
    let engine = HarperLinter::new(
        curated(),
        Some(vec!["colour".to_string(), "color".to_string()]),
        "British",
    );
    assert_eq!(engine.dialect, Dialect::British);
    assert!(engine.dictionary.contains(&w("colour")));
    assert_eq!(engine.dictionary.metadata(&w("colour")), Some(WordMeta::default()));
    // The curated layer was added first, so its metadata masks the user
    // entry for a word known to both.
    assert_eq!(
        engine.dictionary.metadata(&w("color")),
        Some(WordMeta { noun: true, verb: false, adjective: false })
    );
}

#[test]
fn unrecognized_dialect_never_fails_construction() {
    let engine = HarperLinter::new(curated(), None, "NotADialect");
    assert_eq!(engine.dialect, Dialect::American);
}

#[test]
fn empty_text_yields_nothing() {
    let engine = HarperLinter::new(curated(), None, "American");
    let outputs = vec![vec![d(0, 0, "stray")]];
    assert_eq!(engine.lint("", outputs.clone()), Ok(Vec::new()));
    assert_eq!(engine.count_errors("", outputs.clone()), 0);
    assert!(!engine.has_errors("", &outputs));
}

#[test]
fn count_and_has_errors_agree() {
    let engine = HarperLinter::new(curated(), None, "American");
    let text = "some text with problems";
    let outputs = vec![vec![d(0, 4, "a")], vec![d(2, 6, "b")]];
    let count = engine.count_errors(text, outputs.clone());
    let has = engine.has_errors(text, &outputs);
    assert_eq!(count, 2);
    assert_eq!(has, count > 0);

    let none: Vec<Vec<LintError>> = vec![Vec::new(), Vec::new()];
    assert_eq!(engine.count_errors(text, none.clone()), 0);
    assert!(!engine.has_errors(text, &none));
}

#[test]
fn count_reports_raw_set_lint_reports_resolved() {
    let engine = HarperLinter::new(curated(), None, "American");
    let text = "a text long enough here";
    let outputs = vec![vec![d(0, 5, "a"), d(3, 8, "b"), d(10, 12, "c")]];
    assert_eq!(engine.count_errors(text, outputs.clone()), 3);
    let resolved = engine.lint(text, outputs).unwrap();
    assert_eq!(resolved.len(), 2);
    assert_eq!(resolved[0], d(0, 5, "a"));
    assert_eq!(resolved[1], d(10, 12, "c"));
}

#[test]
fn lint_concatenates_rules_in_registration_order() {
    let flat = concat_outputs(vec![
        vec![d(4, 6, "rule one")],
        vec![],
        vec![d(0, 2, "rule three"), d(8, 9, "rule three again")],
    ]);
    assert_eq!(
        flat,
        vec![d(4, 6, "rule one"), d(0, 2, "rule three"), d(8, 9, "rule three again")]
    );
}

#[test]
fn lint_is_deterministic_across_calls() {
    let engine = HarperLinter::new(curated(), None, "American");
    let text = "the same text both times";
    let outputs = || vec![vec![d(0, 3, "x"), d(1, 2, "y")], vec![d(5, 9, "z")]];
    let first = engine.lint(text, outputs()).unwrap();
    let second = engine.lint(text, outputs()).unwrap();
    assert_eq!(first, second);
}

#[test]
fn backwards_span_is_a_hard_failure() {
    let engine = HarperLinter::new(curated(), None, "American");
    let text = "0123456789";
    let err = engine.lint(text, vec![vec![d(5, 3, "bad")]]).unwrap_err();
    assert_eq!(err.start, 5);
    assert_eq!(err.end, 3);
    assert_eq!(err.text_len, 10);
}

#[test]
fn out_of_bounds_span_is_a_hard_failure() {
    let engine = HarperLinter::new(curated(), None, "American");
    let text = "short";
    let err = engine.lint(text, vec![vec![d(0, 2, "ok"), d(3, 9, "past the end")]]).unwrap_err();
    assert_eq!(err.start, 3);
    assert_eq!(err.end, 9);
    assert_eq!(err.text_len, 5);
}

#[test]
fn spans_count_characters_not_bytes() {
    let engine = HarperLinter::new(curated(), None, "American");
    // Five characters, six bytes.
    let text = "naïf!";
    let out = engine.lint(text, vec![vec![d(0, 5, "whole text")]]).unwrap();
    assert_eq!(out.len(), 1);
    let err = engine.lint(text, vec![vec![d(0, 6, "past the end")]]).unwrap_err();
    assert_eq!(err.text_len, 5);
}
