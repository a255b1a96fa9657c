use code_overlay::hover::{HoverEntry, HoverFacts, ShapeFacts};
use code_overlay::position::Position;
use code_overlay::ranges::{Diagnostic, Range};
use code_overlay::segmenting::{split_lines_with_metadata, LineRender};

fn pos(line: usize, character: usize) -> Position {
    Position { line, character }
}

fn range(sl: usize, sc: usize, el: usize, ec: usize) -> Range {
    Range { start: pos(sl, sc), end: pos(el, ec) }
}

fn diag(sl: usize, sc: usize, el: usize, ec: usize, message: &str) -> Diagnostic {
    Diagnostic { range: range(sl, sc, el, ec), message: message.to_string() }
}

fn segments_of(line: &LineRender) -> Vec<(String, bool)> {
    line.segments.iter().map(|s| (s.text.clone(), s.has_diag)).collect()
}

#[test]
fn line_counts_follow_terminators() {
    let out = split_lines_with_metadata("ab\ncd", &vec![], &vec![]);
    assert_eq!(out.len(), 2);
    assert_eq!(segments_of(&out[0]), vec![("ab".to_string(), false)]);
    assert_eq!(segments_of(&out[1]), vec![("cd".to_string(), false)]);

    let out = split_lines_with_metadata("ab\ncd\n", &vec![], &vec![]);
    assert_eq!(out.len(), 3);
    assert_eq!(segments_of(&out[2]), vec![(String::new(), false)]);
    assert!(out[2].virtual_texts.is_empty());
}

#[test]
fn diagnostic_splits_line_into_tagged_prefix() {
    let diagnostics = vec![diag(0, 0, 0, 1, "bad")];
    let out = split_lines_with_metadata("abc", &diagnostics, &vec![]);
    assert_eq!(out.len(), 1);
    assert_eq!(
        segments_of(&out[0]),
        vec![("a".to_string(), true), ("bc".to_string(), false)]
    );
    assert_eq!(out[0].virtual_texts, vec!["bad".to_string()]);
}

#[test]
fn diagnostic_and_hover_boundaries_merge() {
    let diagnostics = vec![diag(0, 0, 0, 2, "m")];
    let hovers = vec![HoverEntry {
        range: range(0, 1, 0, 3),
        info: HoverFacts {
            shape: Some(ShapeFacts { rendered: "[B]".to_string(), dtype: None }),
        },
    }];
    let out = split_lines_with_metadata("abcd", &diagnostics, &hovers);
    assert_eq!(out.len(), 1);
    // boundaries 0,1,2,3,4: hover containment is not a segment tag
    assert_eq!(
        segments_of(&out[0]),
        vec![
            ("a".to_string(), true),
            ("b".to_string(), true),
            ("c".to_string(), false),
            ("d".to_string(), false),
        ]
    );
}

#[test]
fn overlapping_diagnostic_message_appears_once_per_line() {
    // the diagnostic spans three segments of the line (cut by two hovers),
    // yet its message is listed once
    let diagnostics = vec![diag(0, 0, 0, 6, "dup")];
    let hovers = vec![
        HoverEntry { range: range(0, 1, 0, 2), info: HoverFacts { shape: None } },
        HoverEntry { range: range(0, 3, 0, 4), info: HoverFacts { shape: None } },
    ];
    let out = split_lines_with_metadata("abcdef", &diagnostics, &hovers);
    assert!(out[0].segments.len() > 1);
    assert_eq!(out[0].virtual_texts, vec!["dup".to_string()]);
}

#[test]
fn message_repeats_across_lines_but_not_within() {
    let diagnostics = vec![diag(0, 0, 1, 2, "spans")];
    let out = split_lines_with_metadata("ab\ncd", &diagnostics, &vec![]);
    assert_eq!(out[0].virtual_texts, vec!["spans".to_string()]);
    assert_eq!(out[1].virtual_texts, vec!["spans".to_string()]);
}

#[test]
fn unmappable_entries_are_dropped_silently() {
    let diagnostics = vec![diag(9, 0, 9, 1, "stale"), diag(0, 0, 0, 1, "live")];
    let out = split_lines_with_metadata("ab", &diagnostics, &vec![]);
    assert_eq!(out[0].virtual_texts, vec!["live".to_string()]);
    assert_eq!(
        segments_of(&out[0]),
        vec![("a".to_string(), true), ("b".to_string(), false)]
    );
}

#[test]
fn inverted_range_is_normalized() {
    let diagnostics = vec![diag(0, 1, 0, 0, "rev")];
    let out = split_lines_with_metadata("abc", &diagnostics, &vec![]);
    assert_eq!(
        segments_of(&out[0]),
        vec![("a".to_string(), true), ("bc".to_string(), false)]
    );
}

#[test]
fn partition_reassembles_every_line() {
    let text = "import torch\n\ndef f(x):\n    return x\n";
    let diagnostics = vec![diag(0, 2, 2, 5, "one"), diag(3, 4, 3, 10, "two")];
    let out = split_lines_with_metadata(text, &diagnostics, &vec![]);
    let mut rebuilt = Vec::new();
    for line in &out {
        let mut s = String::new();
        for seg in &line.segments {
            s.push_str(&seg.text);
        }
        rebuilt.push(s);
    }
    // the final entry is the phantom line of the trailing terminator
    let expected: Vec<String> = text.split('\n').map(|l| l.to_string()).collect();
    assert_eq!(rebuilt, expected);
}

#[test]
fn segmentation_is_pure() {
    let text = "ab\ncd";
    let diagnostics = vec![diag(0, 0, 1, 1, "x"), diag(0, 1, 0, 2, "y")];
    let a = split_lines_with_metadata(text, &diagnostics, &vec![]);
    let b = split_lines_with_metadata(text, &diagnostics, &vec![]);
    assert_eq!(a.len(), b.len());
    for (la, lb) in a.iter().zip(b.iter()) {
        assert_eq!(segments_of(la), segments_of(lb));
        assert_eq!(la.virtual_texts, lb.virtual_texts);
    }
}

#[test]
fn zero_width_range_adds_no_boundary() {
    // the collapsed range cuts nothing, so the line stays one segment; the
    // strict overlap test still tags that segment and keeps the message
    let diagnostics = vec![diag(0, 1, 0, 1, "empty")];
    let out = split_lines_with_metadata("abc", &diagnostics, &vec![]);
    assert_eq!(segments_of(&out[0]), vec![("abc".to_string(), true)]);
    assert_eq!(out[0].virtual_texts, vec!["empty".to_string()]);
}

#[test]
fn empty_text_renders_one_empty_line() {
    let out = split_lines_with_metadata("", &vec![], &vec![]);
    assert_eq!(out.len(), 1);
    assert_eq!(segments_of(&out[0]), vec![(String::new(), false)]);
}
