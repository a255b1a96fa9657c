//! Mathematical model of a text as a sequence of lines.
//!
//! A text is a `Seq<char>`; lines are separated by `'\n'`. A text with `n`
//! newline characters has `n + 1` lines, the last of which is empty whenever
//! the text ends with a newline. A "piece" is a line together with its
//! terminator; the final empty line implied by a trailing terminator owns no
//! character and is not a piece.

use vstd::prelude::*;

verus! {

/// Number of newline characters in `s`.
pub open spec fn count_nl(s: Seq<char>) -> int
    decreases s.len(),
{
    if s.len() == 0 {
        0
    } else {
        count_nl(s.drop_last()) + if s.last() == '\n' {
            1int
        } else {
            0int
        }
    }
}

/// The rendered line count of `s`: one more than the number of terminators.
pub open spec fn num_lines(s: Seq<char>) -> int {
    count_nl(s) + 1
}

/// Index of the first newline at or after `i`, or `s.len()` if there is none.
pub open spec fn line_end_from(s: Seq<char>, i: int) -> int
    decreases s.len() - i when 0 <= i <= s.len()
{
    if i >= s.len() {
        s.len() as int
    } else if s[i] == '\n' {
        i
    } else {
        line_end_from(s, i + 1)
    }
}

/// Offset at which line `l` begins.
pub open spec fn line_start(s: Seq<char>, l: int) -> int
    decreases l when l >= 0
{
    if l <= 0 {
        0
    } else {
        line_end_from(s, line_start(s, l - 1)) + 1
    }
}

/// Offset just past the content of line `l`, excluding its terminator.
pub open spec fn line_end(s: Seq<char>, l: int) -> int {
    line_end_from(s, line_start(s, l))
}

/// Content length of line `l`, excluding its terminator.
pub open spec fn line_len(s: Seq<char>, l: int) -> int {
    line_end(s, l) - line_start(s, l)
}

/// Number of units of an inclusive-terminator split of `s`: the lines that
/// own at least one character of the text.
pub open spec fn num_pieces(s: Seq<char>) -> int {
    if s.len() == 0 {
        0
    } else if s.last() == '\n' {
        count_nl(s)
    } else {
        count_nl(s) + 1
    }
}

/// Length of line `l` including its terminator, if it has one.
pub open spec fn piece_len(s: Seq<char>, l: int) -> int {
    line_len(s, l) + if line_end(s, l) < s.len() {
        1int
    } else {
        0int
    }
}

pub proof fn lemma_count_nl_nonneg(s: Seq<char>)
    ensures
        count_nl(s) >= 0,
    decreases s.len(),
{
    if s.len() > 0 {
        lemma_count_nl_nonneg(s.drop_last());
    }
}

pub proof fn lemma_count_nl_le_len(s: Seq<char>)
    ensures
        count_nl(s) <= s.len(),
    decreases s.len(),
{
    if s.len() > 0 {
        lemma_count_nl_le_len(s.drop_last());
    }
}

/// One scanning step: extending a prefix by one character adds its newline.
pub proof fn lemma_count_nl_take_step(s: Seq<char>, i: int)
    requires
        0 <= i < s.len(),
    ensures
        count_nl(s.take(i + 1)) == count_nl(s.take(i)) + if s[i] == '\n' {
            1int
        } else {
            0int
        },
{
    assert(s.take(i + 1).drop_last() =~= s.take(i));
    assert(s.take(i + 1).last() == s[i]);
}

pub proof fn lemma_count_nl_take_mono(s: Seq<char>, i: int, j: int)
    requires
        0 <= i <= j <= s.len(),
    ensures
        count_nl(s.take(i)) <= count_nl(s.take(j)),
    decreases j - i,
{
    if i < j {
        lemma_count_nl_take_mono(s, i, j - 1);
        lemma_count_nl_take_step(s, j - 1);
    }
}

/// A stretch without newlines does not change the prefix count.
pub proof fn lemma_count_nl_flat(s: Seq<char>, i: int, j: int)
    requires
        0 <= i <= j <= s.len(),
        forall|k: int| i <= k < j ==> s[k] != '\n',
    ensures
        count_nl(s.take(j)) == count_nl(s.take(i)),
    decreases j - i,
{
    if i < j {
        lemma_count_nl_flat(s, i, j - 1);
        lemma_count_nl_take_step(s, j - 1);
    }
}

pub proof fn lemma_line_end_from(s: Seq<char>, i: int)
    requires
        0 <= i <= s.len(),
    ensures
        i <= line_end_from(s, i) <= s.len(),
        line_end_from(s, i) < s.len() ==> s[line_end_from(s, i)] == '\n',
        forall|k: int| i <= k < line_end_from(s, i) ==> s[k] != '\n',
    decreases s.len() - i,
{
    if i < s.len() && s[i] != '\n' {
        lemma_line_end_from(s, i + 1);
    }
}

/// If the prefix before `i` misses some newline of `s`, one follows at or
/// after `i`.
pub proof fn lemma_nl_ahead(s: Seq<char>, i: int)
    requires
        0 <= i <= s.len(),
        count_nl(s.take(i)) < count_nl(s),
    ensures
        line_end_from(s, i) < s.len(),
{
    lemma_line_end_from(s, i);
    if line_end_from(s, i) == s.len() {
        lemma_count_nl_flat(s, i, s.len() as int);
        assert(s.take(s.len() as int) =~= s);
    }
}

/// Placement of the start of each line: it sits right after the `l`-th
/// newline, and exactly `l` newlines precede it.
pub proof fn lemma_line_start(s: Seq<char>, l: int)
    requires
        0 <= l < num_lines(s),
    ensures
        0 <= line_start(s, l) <= s.len(),
        count_nl(s.take(line_start(s, l))) == l,
        l > 0 ==> line_start(s, l) >= 1 && s[line_start(s, l) - 1] == '\n',
        line_start(s, l) <= line_end(s, l) <= s.len(),
        line_end(s, l) < s.len() ==> s[line_end(s, l)] == '\n',
        forall|k: int| line_start(s, l) <= k < line_end(s, l) ==> s[k] != '\n',
    decreases l,
{
    lemma_count_nl_nonneg(s);
    if l == 0 {
        assert(s.take(0) =~= Seq::<char>::empty());
        assert(count_nl(s.take(0)) == 0);
    } else {
        lemma_line_start(s, l - 1);
        let prev = line_start(s, l - 1);
        let e = line_end_from(s, prev);
        assert(s.take(s.len() as int) =~= s);
        lemma_count_nl_take_mono(s, prev, s.len() as int);
        lemma_nl_ahead(s, prev);
        lemma_line_end_from(s, prev);
        lemma_count_nl_flat(s, prev, e);
        lemma_count_nl_take_step(s, e);
        assert(count_nl(s.take(e + 1)) == l);
    }
    lemma_line_end_from(s, line_start(s, l));
}

/// Every offset lies on the line whose index is the newline count of its
/// prefix.
pub proof fn lemma_offset_line(s: Seq<char>, o: int)
    requires
        0 <= o <= s.len(),
    ensures
        0 <= count_nl(s.take(o)) < num_lines(s),
        line_start(s, count_nl(s.take(o))) <= o <= line_end(s, count_nl(s.take(o))),
{
    let l = count_nl(s.take(o));
    assert(s.take(0) =~= Seq::<char>::empty());
    lemma_count_nl_take_mono(s, 0, o);
    lemma_count_nl_take_mono(s, o, s.len() as int);
    assert(s.take(s.len() as int) =~= s);
    lemma_line_start(s, l);
    let ls = line_start(s, l);
    let le = line_end(s, l);
    if o < ls {
        // o would then sit before the l-th newline, leaving fewer than l
        // newlines in its prefix.
        assert(l > 0);
        lemma_count_nl_take_step(s, ls - 1);
        lemma_count_nl_take_mono(s, o, ls - 1);
        assert(false);
    }
    if o > le {
        lemma_count_nl_flat(s, ls, le);
        lemma_count_nl_take_step(s, le);
        lemma_count_nl_take_mono(s, le + 1, o);
        assert(false);
    }
}

/// The last line always runs to the end of the text.
pub proof fn lemma_last_line_end(s: Seq<char>)
    ensures
        line_end(s, count_nl(s)) == s.len(),
{
    lemma_count_nl_nonneg(s);
    let l = count_nl(s);
    lemma_line_start(s, l);
    let le = line_end(s, l);
    if le < s.len() {
        lemma_count_nl_flat(s, line_start(s, l), le);
        lemma_count_nl_take_step(s, le);
        lemma_count_nl_take_mono(s, le + 1, s.len() as int);
        assert(s.take(s.len() as int) =~= s);
        assert(false);
    }
}

/// A text ending in a newline starts its final, empty line at the very end.
pub proof fn lemma_trailing_nl_last_line(s: Seq<char>)
    requires
        s.len() > 0,
        s.last() == '\n',
    ensures
        line_start(s, count_nl(s)) == s.len(),
{
    lemma_count_nl_nonneg(s);
    let l = count_nl(s);
    lemma_line_start(s, l);
    lemma_last_line_end(s);
    let ls = line_start(s, l);
    if ls < s.len() {
        assert(s[s.len() - 1] == '\n');
        assert(line_end(s, l) == s.len());
        assert(s[s.len() - 1] != '\n');
    }
}

/// Pieces are exactly the lines that begin before the end of the text, and
/// each piece fits inside it.
pub proof fn lemma_piece_iff(s: Seq<char>, l: int)
    requires
        0 <= l < num_lines(s),
    ensures
        (l < num_pieces(s)) <==> (line_start(s, l) < s.len()),
        line_start(s, l) + piece_len(s, l) <= s.len(),
{
    lemma_count_nl_nonneg(s);
    lemma_line_start(s, l);
    if s.len() == 0 {
        assert(num_pieces(s) == 0);
        assert(line_start(s, 0) == 0);
    } else if s.last() == '\n' {
        lemma_trailing_nl_last_line(s);
        if l < count_nl(s) {
            // line l is followed by line l + 1, so it starts strictly before
            // the start of the last line, which is s.len().
            lemma_line_start(s, l + 1);
            assert(line_start(s, l + 1) == line_end(s, l) + 1);
            lemma_line_start_mono(s, l + 1, count_nl(s));
            assert(line_start(s, l) < s.len());
        } else {
            assert(l == count_nl(s));
            assert(line_start(s, l) == s.len());
        }
    } else {
        // the text does not end in a newline: every line is a piece
        if l == count_nl(s) {
            lemma_last_line_end(s);
            assert(line_end(s, l) == s.len());
            if line_start(s, l) == s.len() {
                // the last line would be empty, yet the text does not end
                // with a newline; l > 0 forces one at line_start - 1.
                if l > 0 {
                    assert(s[line_start(s, l) - 1] == '\n');
                    assert(false);
                } else {
                    assert(s.len() == 0);
                    assert(false);
                }
            }
        } else {
            lemma_line_start(s, l + 1);
            lemma_line_start_mono(s, l + 1, count_nl(s));
            lemma_line_start(s, count_nl(s));
            assert(line_start(s, l) < line_start(s, l + 1) <= s.len());
        }
    }
}

/// Line starts are monotone in the line index.
pub proof fn lemma_line_start_mono(s: Seq<char>, l1: int, l2: int)
    requires
        0 <= l1 <= l2 < num_lines(s),
    ensures
        line_start(s, l1) <= line_start(s, l2),
    decreases l2 - l1,
{
    if l1 < l2 {
        lemma_line_start_mono(s, l1, l2 - 1);
        lemma_line_start(s, l2 - 1);
        assert(line_start(s, l2) == line_end(s, l2 - 1) + 1);
    }
}

} // verus!
