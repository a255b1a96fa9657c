use code_overlay::position::{offset_to_position, position_to_offset, Position};

fn pos(line: usize, character: usize) -> Position {
    Position { line, character }
}

#[test]
fn offsets_of_simple_text() {
    let text = "ab\ncd";
    assert_eq!(position_to_offset(text, pos(0, 0)), Some(0));
    assert_eq!(position_to_offset(text, pos(0, 1)), Some(1));
    assert_eq!(position_to_offset(text, pos(0, 2)), Some(2));
    assert_eq!(position_to_offset(text, pos(1, 0)), Some(3));
    assert_eq!(position_to_offset(text, pos(1, 2)), Some(5));
}

#[test]
fn character_into_terminator_is_addressable() {
    // the newline of the first line counts as its character 2, and the
    // slot one past it is reachable as character 3 of the same line
    let text = "ab\ncd";
    assert_eq!(position_to_offset(text, pos(0, 3)), Some(3));
}

#[test]
fn eof_sentinel_maps_to_text_length() {
    assert_eq!(position_to_offset("ab\ncd", pos(2, 0)), Some(5));
    assert_eq!(position_to_offset("ab\n", pos(1, 0)), Some(3));
    assert_eq!(position_to_offset("", pos(0, 0)), Some(0));
}

#[test]
fn out_of_bounds_positions_map_to_nothing() {
    let text = "ab\ncd";
    assert_eq!(position_to_offset(text, pos(0, 4)), None);
    assert_eq!(position_to_offset(text, pos(1, 3)), None);
    assert_eq!(position_to_offset(text, pos(2, 1)), None);
    assert_eq!(position_to_offset(text, pos(3, 0)), None);
    assert_eq!(position_to_offset("", pos(1, 0)), None);
}

#[test]
fn round_trip_over_all_in_bounds_positions() {
    let text = "ab\ncd\n\nxyz";
    let lines = ["ab", "cd", "", "xyz"];
    for (l, line) in lines.iter().enumerate() {
        for c in 0..=line.len() {
            let p = pos(l, c);
            let off = position_to_offset(text, p).expect("in-bounds position must map");
            assert_eq!(offset_to_position(text, off), p);
        }
    }
}

#[test]
fn round_trip_from_every_offset() {
    let text = "ab\ncd\n";
    for off in 0..=text.len() {
        let p = offset_to_position(text, off);
        assert_eq!(position_to_offset(text, p), Some(off));
    }
}

#[test]
fn character_counts_scalar_values() {
    // one multi-byte character counts as a single unit
    let text = "é\nz";
    assert_eq!(position_to_offset(text, pos(0, 1)), Some(1));
    assert_eq!(position_to_offset(text, pos(1, 0)), Some(2));
    assert_eq!(offset_to_position(text, 2), pos(1, 0));
}
