//! Hover payload rendering, pointer-to-position location, hover resolution
//! and popup placement.

use vstd::prelude::*;
use vstd::string::StrSliceExecFns;
use vstd::string::StringExecFns;
use crate::position::Position;
use crate::position::spec_position_to_offset;
use crate::position::position_to_offset;
use crate::ranges::MappedRange;
use crate::ranges::mapped_view;

verus! {

/// What a hover fact exposes of an inferred tensor shape: its rendered
/// dimension list and an optional element type.
#[derive(Clone, Debug)]
pub struct ShapeFacts {
    pub rendered: String,
    pub dtype: Option<String>,
}

/// The payload of one hover fact; the shape is absent where inference gave
/// no answer.
#[derive(Clone, Debug)]
pub struct HoverFacts {
    pub shape: Option<ShapeFacts>,
}

/// A hover fact attached to the range it annotates.
#[derive(Clone, Debug)]
pub struct HoverEntry {
    pub range: crate::ranges::Range,
    pub info: HoverFacts,
}

/// The text shown for a hover payload: the rendered shape between
/// backticks, a separator, and the element type where one is known.
pub open spec fn spec_hover_text(info: HoverFacts) -> Seq<char> {
    match info.shape {
        Some(sf) => "`"@ + sf.rendered@ + "`: "@ + match sf.dtype {
            Some(d) => d@,
            None => Seq::<char>::empty(),
        },
        None => "hover unavailable"@,
    }
}

/// Renders the popup text of one hover payload.
pub fn render_hover_text(info: &HoverFacts) -> (r: String)
    ensures
        r@ == spec_hover_text(*info),
{
    match &info.shape {
        Some(sf) => {
            let mut out = String::from_str("`");
            out.append(sf.rendered.as_str());
            out.append("`: ");
            match &sf.dtype {
                Some(d) => {
                    out.append(d.as_str());
                },
                None => {},
            }
            proof {
                assert(out@ =~= spec_hover_text(*info));
            }
            out
        },
        None => String::from_str("hover unavailable"),
    }
}

/// The position under a pointer coordinate, by monospace metrics; nothing
/// when a metric is missing or a coordinate negative.
pub open spec fn spec_locate_position(x: int, y: int, char_width: int, line_height: int) -> Option<
    Position,
> {
    if char_width <= 0 || line_height <= 0 || x < 0 || y < 0 {
        None
    } else {
        Some(
            Position {
                line: (y / line_height) as usize,
                character: (x / char_width) as usize,
            },
        )
    }
}

/// Converts a pointer pixel coordinate into a text position using monospace
/// metrics. Zero or negative metrics, or negative coordinates, locate
/// nothing rather than dividing by zero.
pub fn locate_position(x: i32, y: i32, char_width: i32, line_height: i32) -> (r: Option<
    Position,
>)
    ensures
        r == spec_locate_position(x as int, y as int, char_width as int, line_height as int),
{
    if char_width <= 0 || line_height <= 0 || x < 0 || y < 0 {
        None
    } else {
        Some(Position { line: (y / line_height) as usize, character: (x / char_width) as usize })
    }
}

/// The payload of the first mapped hover range containing the offset,
/// scanning in list order; half-open containment, so a zero-width range
/// never matches.
pub open spec fn spec_first_containing(hovers: Seq<(int, int, Seq<char>)>, o: int) -> Option<
    Seq<char>,
>
    decreases hovers.len(),
{
    if hovers.len() == 0 {
        None
    } else if hovers.first().0 <= o < hovers.first().1 {
        Some(hovers.first().2)
    } else {
        spec_first_containing(hovers.drop_first(), o)
    }
}

/// What a hover query yields for a position: the first mapped hover range
/// containing the position's offset, or nothing when the position maps to
/// no offset.
pub open spec fn spec_resolve_hover(
    s: Seq<char>,
    hovers: Seq<(int, int, Seq<char>)>,
    line: int,
    character: int,
) -> Option<Seq<char>> {
    match spec_position_to_offset(s, line, character) {
        Some(o) => spec_first_containing(hovers, o),
        None => None,
    }
}

/// Resolves a text position against the mapped hover ranges: the payload of
/// the first entry whose half-open offset interval contains the position's
/// offset.
pub fn resolve_hover(text: &str, hovers: &Vec<MappedRange>, pos: Position) -> (r: Option<
    String,
>)
    ensures
        r is Some <==> spec_resolve_hover(
            text@,
            mapped_view(hovers@),
            pos.line as int,
            pos.character as int,
        ) is Some,
        r is Some ==> r->0@ == spec_resolve_hover(
            text@,
            mapped_view(hovers@),
            pos.line as int,
            pos.character as int,
        )->0,
{
    let ghost hv = mapped_view(hovers@);
    let offset = match position_to_offset(text, pos) {
        Some(o) => o,
        None => {
            return None;
        },
    };
    let mut i: usize = 0;
    proof {
        assert(hv.skip(0) =~= hv);
    }
    while i < hovers.len()
        invariant
            hv == mapped_view(hovers@),
            i <= hovers.len(),
            Some(offset as int) == spec_position_to_offset(
                text@,
                pos.line as int,
                pos.character as int,
            ),
            spec_first_containing(hv, offset as int) == spec_first_containing(
                hv.skip(i as int),
                offset as int,
            ),
        decreases hovers.len() - i,
    {
        let entry = &hovers[i];
        proof {
            assert(hv.skip(i as int).first() == hv[i as int]);
            assert(hv.skip(i as int).drop_first() =~= hv.skip(i as int + 1));
        }
        if entry.start <= offset && offset < entry.end {
            return Some(entry.text.clone());
        }
        i = i + 1;
    }
    proof {
        assert(hv.skip(hovers@.len() as int) =~= Seq::<(int, int, Seq<char>)>::empty());
    }
    None
}

/// What the whole hover query yields for a pointer coordinate: the located
/// position together with the resolved payload, where both steps succeed.
pub open spec fn spec_locate_hover(
    s: Seq<char>,
    hovers: Seq<(int, int, Seq<char>)>,
    x: int,
    y: int,
    char_width: int,
    line_height: int,
) -> Option<(Position, Seq<char>)> {
    match spec_locate_position(x, y, char_width, line_height) {
        Some(p) => match spec_resolve_hover(s, hovers, p.line as int, p.character as int) {
            Some(t) => Some((p, t)),
            None => None,
        },
        None => None,
    }
}

/// The whole hover query: locates the pointer in the text by monospace
/// metrics, then resolves the position against the mapped hover ranges.
pub fn locate_hover(
    text: &str,
    hovers: &Vec<MappedRange>,
    x: i32,
    y: i32,
    char_width: i32,
    line_height: i32,
) -> (r: Option<(Position, String)>)
    ensures
        ({
            let model = spec_locate_hover(
                text@,
                mapped_view(hovers@),
                x as int,
                y as int,
                char_width as int,
                line_height as int,
            );
            &&& r is Some <==> model is Some
            &&& r is Some ==> (r->0).0 == (model->0).0 && ((r->0).1)@ == (model->0).1
        }),
{
    let pos = match locate_position(x, y, char_width, line_height) {
        Some(p) => p,
        None => {
            return None;
        },
    };
    match resolve_hover(text, hovers, pos) {
        Some(t) => Some((pos, t)),
        None => None,
    }
}

/// The pixel anchor of the hover popup: the line's top edge adjusted by
/// scroll and a vertical offset, and the pointer abscissa adjusted by
/// scroll, half a character cell and a fixed gap.
pub open spec fn spec_place_popup(
    line: int,
    pointer_x: int,
    scroll_top: int,
    scroll_left: int,
    char_width: int,
    line_height: int,
    vertical_offset: int,
    gap: int,
) -> (int, int) {
    (
        line * line_height - scroll_top + vertical_offset,
        pointer_x - scroll_left + char_width / 2 + gap,
    )
}

/// Converts a located line and the pointer abscissa back into the absolute
/// pixel anchor of the floating annotation panel. No viewport clamping is
/// performed.
pub fn place_popup(
    line: usize,
    pointer_x: i32,
    scroll_top: i32,
    scroll_left: i32,
    char_width: i32,
    line_height: i32,
    vertical_offset: i32,
    gap: i32,
) -> (r: (i64, i64))
    requires
        line <= i32::MAX as usize,
        char_width >= 0,
    ensures
        (r.0 as int, r.1 as int) == spec_place_popup(
            line as int,
            pointer_x as int,
            scroll_top as int,
            scroll_left as int,
            char_width as int,
            line_height as int,
            vertical_offset as int,
            gap as int,
        ),
{
    let li: i64 = line as i64;
    let lh: i64 = line_height as i64;
    proof {
        assert(-0x4000_0000_0000_0000 <= li as int * lh as int <= 0x4000_0000_0000_0000)
            by (nonlinear_arith)
            requires
                0 <= li as int <= 0x7fff_ffff,
                -0x8000_0000 <= lh as int <= 0x7fff_ffff,
        ;
    }
    let top: i64 = li * lh - scroll_top as i64 + vertical_offset as i64;
    let left: i64 = pointer_x as i64 - scroll_left as i64 + char_width as i64 / 2 + gap as i64;
    (top, left)
}

} // verus!
