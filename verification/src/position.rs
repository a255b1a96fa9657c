//! Bidirectional conversion between text offsets and line/character
//! positions.
//!
//! A position addresses a character of a line, where the line is an
//! inclusive-terminator unit: the terminator itself and the slot just past
//! it are addressable. The position `(piece count, 0)` is the end-of-file
//! sentinel and maps to the text length.

use vstd::prelude::*;
use vstd::string::StrSliceExecFns;
use crate::lines::count_nl;
use crate::lines::line_end;
use crate::lines::line_len;
use crate::lines::line_start;
use crate::lines::num_lines;
use crate::lines::num_pieces;
use crate::lines::piece_len;
use crate::lines::lemma_count_nl_le_len;
use crate::lines::lemma_count_nl_nonneg;
use crate::lines::lemma_count_nl_take_step;
use crate::lines::lemma_count_nl_take_mono;
use crate::lines::lemma_count_nl_flat;
use crate::lines::lemma_line_start;
use crate::lines::lemma_last_line_end;
use crate::lines::lemma_trailing_nl_last_line;
use crate::lines::lemma_offset_line;
use crate::lines::lemma_piece_iff;

verus! {

/// A 0-based line/character coordinate. `character` counts scalar values
/// (code points) from the start of the line.
#[derive(Clone, Copy, Debug, PartialEq, Eq, Structural)]
pub struct Position {
    pub line: usize,
    pub character: usize,
}

/// The offset a position maps to: within a piece, its start plus the
/// character count, as long as that stays inside the piece (terminator
/// included, one-past-the-terminator allowed); besides that, only the
/// end-of-file sentinel maps, to the text length.
pub open spec fn spec_position_to_offset(s: Seq<char>, line: int, character: int) -> Option<
    int,
> {
    if 0 <= line < num_pieces(s) && 0 <= character <= piece_len(s, line) {
        Some(line_start(s, line) + character)
    } else if line == num_pieces(s) && character == 0 {
        Some(s.len() as int)
    } else {
        None
    }
}

/// The position of an offset: the line is the newline count of the prefix,
/// the character the distance from that line's start.
pub open spec fn spec_offset_to_position(s: Seq<char>, o: int) -> (int, int) {
    let l = count_nl(s.take(o));
    (l, o - line_start(s, l))
}

/// The positions that address a character of their line or its end,
/// terminator excluded: exactly the image of `spec_offset_to_position`.
pub open spec fn position_in_bounds(s: Seq<char>, line: int, character: int) -> bool {
    0 <= line <= count_nl(s) && 0 <= character <= line_len(s, line)
}

/// Any mapped offset lies inside the text.
pub proof fn lemma_pto_in_text(s: Seq<char>, line: int, character: int)
    requires
        spec_position_to_offset(s, line, character) is Some,
    ensures
        0 <= spec_position_to_offset(s, line, character)->0 <= s.len(),
{
    lemma_count_nl_nonneg(s);
    if 0 <= line < num_pieces(s) && 0 <= character <= piece_len(s, line) {
        assert(line < num_lines(s));
        lemma_piece_iff(s, line);
        lemma_line_start(s, line);
    }
}

/// Round trip starting from an offset: every offset of the text maps to an
/// in-bounds position that maps back to it.
pub proof fn lemma_offset_round_trip(s: Seq<char>, o: int)
    requires
        0 <= o <= s.len(),
    ensures
        position_in_bounds(s, spec_offset_to_position(s, o).0, spec_offset_to_position(s, o).1),
        spec_position_to_offset(
            s,
            spec_offset_to_position(s, o).0,
            spec_offset_to_position(s, o).1,
        ) == Some(o),
{
    let l = count_nl(s.take(o));
    let c = o - line_start(s, l);
    lemma_offset_line(s, o);
    lemma_line_start(s, l);
    assert(c <= line_len(s, l));
    lemma_piece_iff(s, l);
    if line_start(s, l) < s.len() {
        assert(l < num_pieces(s));
        assert(c <= piece_len(s, l));
    } else {
        // only the final empty line of a newline-terminated (or empty) text
        // starts at the very end; there the sentinel clause applies.
        assert(line_end(s, l) == line_start(s, l));
        assert(c == 0 && o == s.len());
        assert(l >= num_pieces(s));
        if s.len() == 0 {
            assert(l == 0 && num_pieces(s) == 0);
        } else if s.last() == '\n' {
            assert(s.take(s.len() as int) =~= s);
            lemma_count_nl_take_mono(s, o, s.len() as int);
            assert(l == num_pieces(s));
        } else {
            // every line would then be a piece, contradicting l >= num_pieces
            assert(l <= count_nl(s) < num_pieces(s));
            assert(false);
        }
    }
}

/// Round trip starting from a position: every in-bounds position maps to an
/// offset that maps back to it.
pub proof fn lemma_position_round_trip(s: Seq<char>, line: int, character: int)
    requires
        position_in_bounds(s, line, character),
    ensures
        spec_position_to_offset(s, line, character) == Some(
            line_start(s, line) + character,
        ),
        spec_offset_to_position(s, line_start(s, line) + character) == (line, character),
{
    lemma_line_start(s, line);
    let ls = line_start(s, line);
    let o = ls + character;
    lemma_count_nl_flat(s, ls, o);
    assert(count_nl(s.take(o)) == line);
    lemma_piece_iff(s, line);
    if ls < s.len() {
        assert(line < num_pieces(s));
        assert(character <= piece_len(s, line));
    } else {
        assert(line_end(s, line) == ls);
        assert(character == 0);
        lemma_count_nl_nonneg(s);
        if s.len() == 0 {
            assert(line == 0 && num_pieces(s) == 0);
        } else if s.last() == '\n' {
            assert(line >= num_pieces(s) && line <= count_nl(s));
            assert(line == num_pieces(s));
        } else {
            assert(line <= count_nl(s) < num_pieces(s));
            assert(false);
        }
    }
}

/// A newline at `i` makes the slot one past it addressable from its own
/// line as well, as character `piece_len`.
pub proof fn lemma_newline_one_past(s: Seq<char>, i: int)
    requires
        0 <= i < s.len(),
        s[i] == '\n',
    ensures
        spec_position_to_offset(
            s,
            count_nl(s.take(i)),
            i + 1 - line_start(s, count_nl(s.take(i))),
        ) == Some(i + 1),
{
    let l = count_nl(s.take(i));
    lemma_offset_line(s, i);
    lemma_line_start(s, l);
    // i sits at or before the line's end, and no newline precedes the end
    // within the line, so the newline at i is the end itself.
    assert(i == line_end(s, l));
    lemma_piece_iff(s, l);
    assert(l < num_pieces(s));
    assert(piece_len(s, l) == line_end(s, l) + 1 - line_start(s, l));
}

/// What a mapped offset can look like: it addresses a character of its own
/// line (or the slot at its content end), or the slot one past a newline, or
/// it is the end-of-file sentinel.
pub proof fn lemma_pto_inverse(s: Seq<char>, line: int, character: int)
    requires
        spec_position_to_offset(s, line, character) is Some,
    ensures
        ({
            let o = spec_position_to_offset(s, line, character)->0;
            &&& 0 <= o <= s.len()
            &&& {
                ||| (line == count_nl(s.take(o)) && character == o - line_start(s, line))
                ||| (o >= 1 && s[o - 1] == '\n' && line == count_nl(s.take(o)) - 1 && character
                    == o - line_start(s, line))
                ||| (line == num_pieces(s) && character == 0 && o == s.len())
            }
        }),
{
    lemma_pto_in_text(s, line, character);
    let o = spec_position_to_offset(s, line, character)->0;
    if 0 <= line < num_pieces(s) && 0 <= character <= piece_len(s, line) {
        lemma_count_nl_nonneg(s);
        assert(line < num_lines(s));
        lemma_line_start(s, line);
        lemma_piece_iff(s, line);
        let ls = line_start(s, line);
        let le = line_end(s, line);
        if character <= line_len(s, line) {
            lemma_count_nl_flat(s, ls, o);
            assert(count_nl(s.take(o)) == line);
        } else {
            // character == piece_len with a terminator present: one past it
            assert(le < s.len() && character == le + 1 - ls && o == le + 1);
            lemma_count_nl_flat(s, ls, le);
            lemma_count_nl_take_step(s, le);
            assert(count_nl(s.take(o)) == line + 1);
        }
    }
}

/// Maps a position to the offset of the addressed character, scanning the
/// text line by line. Positions past the addressable slots of their line,
/// or past the end-of-file sentinel, map to nothing.
pub fn position_to_offset(text: &str, pos: Position) -> (r: Option<usize>)
    ensures
        r is Some <==> spec_position_to_offset(
            text@,
            pos.line as int,
            pos.character as int,
        ) is Some,
        r is Some ==> r->0 as int == spec_position_to_offset(
            text@,
            pos.line as int,
            pos.character as int,
        )->0,
{
    let ghost s = text@;
    let ghost target = spec_position_to_offset(s, pos.line as int, pos.character as int);
    let len = text.unicode_len();
    let mut i: usize = 0;
    let mut cur_line: usize = 0;
    let mut cur_char: usize = 0;
    proof {
        assert(s.take(0) =~= Seq::<char>::empty());
        lemma_count_nl_nonneg(s);
        if target is Some {
            lemma_pto_in_text(s, pos.line as int, pos.character as int);
            if target->0 == 0 {
                lemma_pto_inverse(s, pos.line as int, pos.character as int);
            }
        }
    }
    while i < len
        invariant
            len == s.len(),
            s == text@,
            i <= len,
            target == spec_position_to_offset(s, pos.line as int, pos.character as int),
            cur_line as int == count_nl(s.take(i as int)),
            cur_line <= i,
            cur_char as int == i - line_start(s, cur_line as int),
            cur_char <= i,
            target is Some ==> target->0 > i || (target->0 == i && ((pos.line == cur_line
                && pos.character == cur_char) || (pos.line as int == num_pieces(s)
                && pos.character == 0 && i == len))),
        decreases len - i,
    {
        proof {
            lemma_offset_line(s, i as int);
            lemma_line_start(s, cur_line as int);
        }
        if pos.line == cur_line && pos.character == cur_char {
            proof {
                lemma_offset_round_trip(s, i as int);
            }
            return Some(i);
        }
        let ch = text.get_char(i);
        let ghost old_i = i as int;
        let ghost old_line = cur_line as int;
        let ghost old_char = cur_char as int;
        if ch == '\n' {
            if pos.line == cur_line && pos.character == cur_char + 1 {
                proof {
                    lemma_newline_one_past(s, i as int);
                }
                return Some(i + 1);
            }
            cur_line = cur_line + 1;
            cur_char = 0;
        } else {
            cur_char = cur_char + 1;
        }
        i = i + 1;
        proof {
            lemma_count_nl_take_step(s, old_i);
            lemma_count_nl_le_len(s.take(i as int));
            if s[old_i] == '\n' {
                // the newline at old_i closes line old_line, so the next
                // line starts right after it.
                assert(old_i == line_end(s, old_line));
                assert(line_start(s, old_line + 1) == old_i + 1);
            }
            if target is Some && target->0 == i {
                lemma_pto_inverse(s, pos.line as int, pos.character as int);
                if pos.line as int == count_nl(s.take(i as int)) - 1 && i as int >= 1 && s[i
                    - 1] == '\n' && pos.character as int == i - line_start(
                    s,
                    pos.line as int,
                ) {
                    // the one-past form was tested and rejected just above
                    assert(pos.line as int == old_line);
                    assert(pos.character as int == old_char + 1);
                    assert(false);
                }
            }
        }
    }
    proof {
        assert(s.take(len as int) =~= s);
    }
    if pos.line == cur_line && pos.character == cur_char {
        proof {
            lemma_offset_round_trip(s, len as int);
        }
        return Some(len);
    }
    if len > 0 && text.get_char(len - 1) != '\n' {
        proof {
            lemma_count_nl_le_len(s.drop_last());
            assert(count_nl(s) == count_nl(s.drop_last()));
        }
        if pos.line == cur_line + 1 && pos.character == 0 {
            proof {
                assert(s.last() != '\n');
                assert(num_pieces(s) == count_nl(s) + 1);
            }
            return Some(len);
        }
    }
    proof {
        if target is Some {
            lemma_pto_in_text(s, pos.line as int, pos.character as int);
            lemma_pto_inverse(s, pos.line as int, pos.character as int);
            assert(target->0 == len as int);
            lemma_line_start(s, cur_line as int);
            if pos.line as int == num_pieces(s) && pos.character == 0 {
                if s.len() == 0 {
                    assert(pos.line == cur_line && pos.character == cur_char);
                } else if s.last() == '\n' {
                    lemma_trailing_nl_last_line(s);
                    assert(cur_char == 0);
                    assert(pos.line == cur_line && pos.character == cur_char);
                } else {
                    assert(pos.line == cur_line + 1);
                }
                assert(false);
            }
            if i as int >= 1 && s[i - 1] == '\n' && pos.line as int == count_nl(s.take(i as int))
                - 1 {
                // the one-past form of the final newline was rejected inside
                // the loop, which the invariant already rules out here
                assert(false);
            }
            assert(pos.line == cur_line && pos.character == cur_char);
            assert(false);
        }
    }
    None
}

/// Maps an offset inside the text to the position addressing it: the line
/// is the number of newlines before the offset, the character the distance
/// from that line's start.
pub fn offset_to_position(text: &str, offset: usize) -> (r: Position)
    requires
        offset <= text@.len(),
    ensures
        r.line as int == spec_offset_to_position(text@, offset as int).0,
        r.character as int == spec_offset_to_position(text@, offset as int).1,
{
    let ghost s = text@;
    let mut line: usize = 0;
    let mut start: usize = 0;
    let mut i: usize = 0;
    proof {
        assert(s.take(0) =~= Seq::<char>::empty());
    }
    while i < offset
        invariant
            offset <= s.len(),
            s == text@,
            i <= offset,
            line as int == count_nl(s.take(i as int)),
            line <= i,
            start as int == line_start(s, line as int),
            start <= i,
        decreases offset - i,
    {
        proof {
            lemma_offset_line(s, i as int);
            lemma_line_start(s, line as int);
        }
        let ch = text.get_char(i);
        let ghost old_i = i as int;
        let ghost old_line = line as int;
        if ch == '\n' {
            line = line + 1;
            start = i + 1;
        }
        i = i + 1;
        proof {
            lemma_count_nl_take_step(s, old_i);
            lemma_count_nl_le_len(s.take(i as int));
            if s[old_i] == '\n' {
                assert(old_i == line_end(s, old_line));
                assert(line_start(s, old_line + 1) == old_i + 1);
            }
        }
    }
    Position { line, character: offset - start }
}

} // verus!
