use harper_py::diag::LintError;
use harper_py::resolve::resolve_overlaps;

fn d(start: usize, end: usize, message: &str) -> LintError {
    LintError { start, end, message: message.to_string() }
}

fn spans(out: &[LintError]) -> Vec<(usize, usize, String)> {
    out.iter().map(|e| (e.start, e.end, e.message.clone())).collect()
}

#[test]
fn overlap_resolution_example() {
    let raw = vec![d(0, 5, "a"), d(3, 8, "b"), d(10, 12, "c")];
    let out = resolve_overlaps(raw);
    assert_eq!(
        spans(&out),
        vec![(0, 5, "a".to_string()), (10, 12, "c".to_string())]
    );
}

#[test]
fn unordered_input_is_sorted_by_start() {
    let raw = vec![d(10, 12, "c"), d(0, 5, "a")];
    let out = resolve_overlaps(raw);
    assert_eq!(
        spans(&out),
        vec![(0, 5, "a".to_string()), (10, 12, "c".to_string())]
    );
}

#[test]
fn shorter_span_wins_on_equal_starts() {
    let raw = vec![d(2, 9, "long"), d(2, 4, "short")];
    let out = resolve_overlaps(raw);
    assert_eq!(spans(&out), vec![(2, 4, "short".to_string())]);
}

#[test]
fn identical_spans_keep_first_emitted() {
    let raw = vec![d(2, 4, "first"), d(2, 4, "second")];
    let out = resolve_overlaps(raw);
    assert_eq!(spans(&out), vec![(2, 4, "first".to_string())]);
}

#[test]
fn zero_length_span_blocks_nothing_after_it() {
    let raw = vec![d(0, 0, "marker"), d(0, 3, "word")];
    let out = resolve_overlaps(raw);
    assert_eq!(
        spans(&out),
        vec![(0, 0, "marker".to_string()), (0, 3, "word".to_string())]
    );
}

#[test]
fn touching_spans_both_survive() {
    let raw = vec![d(0, 5, "a"), d(5, 8, "b")];
    let out = resolve_overlaps(raw);
    assert_eq!(
        spans(&out),
        vec![(0, 5, "a".to_string()), (5, 8, "b".to_string())]
    );
}

#[test]
fn nested_span_is_dropped() {
    let raw = vec![d(0, 10, "outer"), d(2, 4, "inner")];
    let out = resolve_overlaps(raw);
    assert_eq!(spans(&out), vec![(0, 10, "outer".to_string())]);
}

#[test]
fn empty_input_resolves_to_empty() {
    let out = resolve_overlaps(Vec::new());
    assert!(out.is_empty());
}

#[test]
fn output_never_overlaps() {
    let raw = vec![
        d(0, 4, "a"),
        d(1, 2, "b"),
        d(3, 9, "c"),
        d(4, 6, "d"),
        d(6, 6, "e"),
        d(6, 7, "f"),
    ];
    let out = resolve_overlaps(raw);
    for i in 0..out.len() {
        for j in (i + 1)..out.len() {
            assert!(out[i].end <= out[j].start || out[j].end <= out[i].start);
        }
    }
}
