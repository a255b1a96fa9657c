use code_overlay::hover::{render_hover_text, HoverEntry, HoverFacts, ShapeFacts};
use code_overlay::position::Position;
use code_overlay::ranges::{map_hover_ranges, Diagnostic, Range};
use code_overlay::segmenting::split_lines_with_metadata;

fn to_position(p: &lsp_types::Position) -> Position {
    Position { line: p.line as usize, character: p.character as usize }
}

fn to_range(r: &lsp_types::Range) -> Range {
    Range { start: to_position(&r.start), end: to_position(&r.end) }
}

fn to_diagnostic(d: &lsp_types::Diagnostic) -> Diagnostic {
    Diagnostic { range: to_range(&d.range), message: d.message.clone() }
}

fn to_hover_entry(r: &lsp_types::Range, info: &shapels::HoverInfo) -> HoverEntry {
    HoverEntry {
        range: to_range(r),
        info: HoverFacts {
            shape: info.shape.as_ref().map(|s| ShapeFacts {
                rendered: s.render(),
                dtype: s.dtype.clone(),
            }),
        },
    }
}

const SNIPPET: &str = "import torch

def matmul(x, y):
    B, X, Y, Z = 32, 12, 8, 2
    x = torch.Tensor(B, X, Y)
    y = torch.Tensor(Y, Z)
    z = x @ y
    return z
";

#[test]
fn analyzer_output_overlays_cleanly() {
    let analysis = shapels::analyze_source(SNIPPET);
    let diagnostics: Vec<Diagnostic> =
        analysis.diagnostics.iter().map(to_diagnostic).collect();
    let hovers: Vec<HoverEntry> = analysis
        .hover_entries
        .iter()
        .map(|(r, info)| to_hover_entry(r, info))
        .collect();

    let out = split_lines_with_metadata(SNIPPET, &diagnostics, &hovers);

    // one render per line, plus the phantom line of the trailing newline
    let expected_lines: Vec<&str> = SNIPPET.split('\n').collect();
    assert_eq!(out.len(), expected_lines.len());

    for (line, expected) in out.iter().zip(expected_lines.iter()) {
        // the segments partition the line exactly
        let rebuilt: String = line.segments.iter().map(|s| s.text.as_str()).collect();
        assert_eq!(&rebuilt, expected);
        // virtual texts are distinct
        for (i, a) in line.virtual_texts.iter().enumerate() {
            for b in line.virtual_texts.iter().skip(i + 1) {
                assert_ne!(a, b);
            }
        }
    }
}

#[test]
fn analyzer_hover_payloads_render() {
    let analysis = shapels::analyze_source(SNIPPET);
    let hovers: Vec<HoverEntry> = analysis
        .hover_entries
        .iter()
        .map(|(r, info)| to_hover_entry(r, info))
        .collect();
    let mapped = map_hover_ranges(SNIPPET, &hovers);
    // every mapped interval is clipped into the text, ordered, and sorted
    let mut last_start = 0usize;
    for m in &mapped {
        assert!(m.start <= m.end && m.end <= SNIPPET.len());
        assert!(last_start <= m.start);
        last_start = m.start;
    }
    // a shaped hover payload renders between backticks
    for entry in &hovers {
        let text = render_hover_text(&entry.info);
        match &entry.info.shape {
            Some(_) => assert!(text.starts_with('`')),
            None => assert_eq!(text, "hover unavailable"),
        }
    }
}
