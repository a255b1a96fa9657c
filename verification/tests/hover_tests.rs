use code_overlay::hover::{
    locate_hover, locate_position, place_popup, render_hover_text, resolve_hover, HoverEntry,
    HoverFacts, ShapeFacts,
};
use code_overlay::position::Position;
use code_overlay::ranges::{map_hover_ranges, Range};

fn pos(line: usize, character: usize) -> Position {
    Position { line, character }
}

fn range(sl: usize, sc: usize, el: usize, ec: usize) -> Range {
    Range { start: pos(sl, sc), end: pos(el, ec) }
}

fn shape_entry(r: Range, rendered: &str, dtype: Option<&str>) -> HoverEntry {
    HoverEntry {
        range: r,
        info: HoverFacts {
            shape: Some(ShapeFacts {
                rendered: rendered.to_string(),
                dtype: dtype.map(|d| d.to_string()),
            }),
        },
    }
}

#[test]
fn hover_text_renders_shape_and_dtype() {
    let info = HoverFacts {
        shape: Some(ShapeFacts {
            rendered: "[B X Y]".to_string(),
            dtype: Some("float32".to_string()),
        }),
    };
    assert_eq!(render_hover_text(&info), "`[B X Y]`: float32");
}

#[test]
fn hover_text_without_dtype_keeps_separator() {
    let info = HoverFacts {
        shape: Some(ShapeFacts { rendered: "[2 3]".to_string(), dtype: None }),
    };
    assert_eq!(render_hover_text(&info), "`[2 3]`: ");
}

#[test]
fn hover_text_without_shape_is_unavailable() {
    let info = HoverFacts { shape: None };
    assert_eq!(render_hover_text(&info), "hover unavailable");
}

#[test]
fn pointer_resolves_by_monospace_metrics() {
    assert_eq!(locate_position(20, 5, 8, 16), Some(pos(0, 2)));
    assert_eq!(locate_position(0, 0, 8, 16), Some(pos(0, 0)));
    assert_eq!(locate_position(16, 33, 8, 16), Some(pos(2, 2)));
}

#[test]
fn missing_metrics_locate_nothing() {
    assert_eq!(locate_position(20, 5, 0, 16), None);
    assert_eq!(locate_position(20, 5, 8, 0), None);
    assert_eq!(locate_position(-1, 5, 8, 16), None);
    assert_eq!(locate_position(20, -3, 8, 16), None);
}

#[test]
fn hover_lookup_uses_offset_containment() {
    let text = "ab\ncd";
    let entries = vec![shape_entry(range(1, 0, 1, 2), "[B]", None)];
    let mapped = map_hover_ranges(text, &entries);
    // offsets 3 and 4 fall inside the entry, 2 and 5 do not
    assert_eq!(resolve_hover(text, &mapped, pos(1, 0)), Some("`[B]`: ".to_string()));
    assert_eq!(resolve_hover(text, &mapped, pos(1, 1)), Some("`[B]`: ".to_string()));
    assert_eq!(resolve_hover(text, &mapped, pos(0, 2)), None);
    assert_eq!(resolve_hover(text, &mapped, pos(1, 2)), None);
    // an unmappable position resolves to nothing
    assert_eq!(resolve_hover(text, &mapped, pos(7, 7)), None);
}

#[test]
fn no_containing_range_means_no_hover() {
    // the pointer example: (20, 5) with 8x16 metrics lands on line 0,
    // character 2; no hover range contains that offset
    let text = "ab\ncd";
    let located = locate_position(20, 5, 8, 16).unwrap();
    assert_eq!(located, pos(0, 2));
    let mapped = map_hover_ranges(text, &vec![]);
    assert_eq!(resolve_hover(text, &mapped, located), None);
}

#[test]
fn zero_width_hover_range_never_matches() {
    let text = "abcd";
    let entries = vec![shape_entry(range(0, 1, 0, 1), "[Z]", None)];
    let mapped = map_hover_ranges(text, &entries);
    assert_eq!(resolve_hover(text, &mapped, pos(0, 1)), None);
}

#[test]
fn first_containing_entry_wins() {
    let text = "abcdef";
    let entries = vec![
        shape_entry(range(0, 2, 0, 6), "[later]", None),
        shape_entry(range(0, 0, 0, 4), "[earlier]", None),
    ];
    let mapped = map_hover_ranges(text, &entries);
    // after sorting by start offset the [earlier] entry comes first
    assert_eq!(resolve_hover(text, &mapped, pos(0, 3)), Some("`[earlier]`: ".to_string()));
    assert_eq!(resolve_hover(text, &mapped, pos(0, 5)), Some("`[later]`: ".to_string()));
}

#[test]
fn whole_hover_query_locates_and_resolves() {
    let text = "ab\ncd";
    let entries = vec![shape_entry(range(1, 0, 1, 2), "[B X]", Some("int64"))];
    let mapped = map_hover_ranges(text, &entries);
    // (9, 20) with 8x16 metrics is line 1, character 1: inside the entry
    let (pos, payload) = locate_hover(text, &mapped, 9, 20, 8, 16).unwrap();
    assert_eq!((pos.line, pos.character), (1, 1));
    assert_eq!(payload, "`[B X]`: int64");
    // (20, 5) is line 0, character 2: outside every entry
    assert_eq!(locate_hover(text, &mapped, 20, 5, 8, 16), None);
    // missing metrics locate nothing
    assert_eq!(locate_hover(text, &mapped, 9, 20, 0, 16), None);
}

#[test]
fn popup_anchor_follows_metrics() {
    // top = 2*16 - 10 + 0, left = 100 - 4 + 8/2 + 8
    assert_eq!(place_popup(2, 100, 10, 4, 8, 16, 0, 8), (22, 108));
    assert_eq!(place_popup(0, 0, 0, 0, 8, 16, 0, 8), (0, 12));
}
