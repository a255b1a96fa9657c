use code_overlay::position::Position;
use code_overlay::ranges::{map_diagnostic_ranges, range_to_offsets, Diagnostic, Range};

fn pos(line: usize, character: usize) -> Position {
    Position { line, character }
}

fn range(sl: usize, sc: usize, el: usize, ec: usize) -> Range {
    Range { start: pos(sl, sc), end: pos(el, ec) }
}

fn diag(r: Range, message: &str) -> Diagnostic {
    Diagnostic { range: r, message: message.to_string() }
}

#[test]
fn range_maps_both_ends() {
    assert_eq!(range_to_offsets("ab\ncd", &range(0, 1, 1, 1)), Some((1, 4)));
}

#[test]
fn inverted_range_is_swapped() {
    assert_eq!(range_to_offsets("ab\ncd", &range(1, 1, 0, 1)), Some((1, 4)));
}

#[test]
fn range_with_bad_end_fails_whole() {
    assert_eq!(range_to_offsets("ab\ncd", &range(0, 0, 5, 0)), None);
    assert_eq!(range_to_offsets("ab\ncd", &range(5, 0, 0, 0)), None);
}

#[test]
fn mapped_diagnostics_are_sorted_by_start() {
    let text = "abcdef\nghij";
    let diagnostics = vec![
        diag(range(1, 0, 1, 2), "third"),
        diag(range(0, 4, 0, 5), "second"),
        diag(range(0, 0, 0, 2), "first"),
    ];
    let mapped = map_diagnostic_ranges(text, &diagnostics);
    let starts: Vec<usize> = mapped.iter().map(|m| m.start).collect();
    let texts: Vec<String> = mapped.iter().map(|m| m.text.clone()).collect();
    assert_eq!(starts, vec![0, 4, 7]);
    assert_eq!(
        texts,
        vec!["first".to_string(), "second".to_string(), "third".to_string()]
    );
}

#[test]
fn entries_sharing_a_start_keep_input_order() {
    let text = "abcdef";
    let diagnostics = vec![
        diag(range(0, 2, 0, 6), "a"),
        diag(range(0, 2, 0, 3), "b"),
        diag(range(0, 0, 0, 1), "c"),
    ];
    let mapped = map_diagnostic_ranges(text, &diagnostics);
    let texts: Vec<String> = mapped.iter().map(|m| m.text.clone()).collect();
    assert_eq!(texts, vec!["c".to_string(), "a".to_string(), "b".to_string()]);
}

#[test]
fn failing_entries_are_dropped() {
    let text = "ab";
    let diagnostics = vec![
        diag(range(0, 0, 0, 1), "keep"),
        diag(range(4, 0, 4, 1), "drop"),
    ];
    let mapped = map_diagnostic_ranges(text, &diagnostics);
    assert_eq!(mapped.len(), 1);
    assert_eq!(mapped[0].text, "keep");
}
