//! Per-line segmentation: merges the mapped range boundaries of every line
//! into a minimal ordered partition of the line, tags each segment that a
//! diagnostic overlaps, and collects the distinct diagnostic messages
//! overlapping the line.

use vstd::prelude::*;
use vstd::string::StrSliceExecFns;
use vstd::string::StringExecFns;
use crate::lines::count_nl;
use crate::lines::line_end;
use crate::lines::line_end_from;
use crate::lines::line_start;
use crate::lines::num_lines;
use crate::lines::lemma_count_nl_le_len;
use crate::lines::lemma_count_nl_nonneg;
use crate::lines::lemma_count_nl_take_step;
use crate::lines::lemma_count_nl_flat;
use crate::lines::lemma_line_start;
use crate::ranges::Diagnostic;
use crate::ranges::MappedRange;
use crate::ranges::mapped_view;
use crate::ranges::spec_map_diagnostics;
use crate::ranges::spec_map_hovers;
use crate::ranges::spec_sort_by_start;
use crate::ranges::map_diagnostic_ranges;
use crate::ranges::map_hover_ranges;
use crate::hover::HoverEntry;

verus! {

/// A maximal substring of a line whose characters share one tag set.
#[derive(Clone, Debug)]
pub struct RenderSegment {
    pub text: String,
    pub has_diag: bool,
}

/// The render model of one line: its segments in order, and the distinct
/// diagnostic messages overlapping the line.
#[derive(Clone, Debug)]
pub struct LineRender {
    pub segments: Vec<RenderSegment>,
    pub virtual_texts: Vec<String>,
}

/// `v` clamped into `[lo, hi]`.
pub open spec fn clip(v: int, lo: int, hi: int) -> int {
    if v < lo {
        lo
    } else if v > hi {
        hi
    } else {
        v
    }
}

/// Whether the range contributes a cut at `b` on the line `[ls, le]`: its
/// ends are clipped to the line, and count only when the clipped span is
/// not empty.
pub open spec fn range_cuts_at(r: (int, int, Seq<char>), ls: int, le: int, b: int) -> bool {
    let a = clip(r.0, ls, le);
    let c = clip(r.1, ls, le);
    a < c && (b == a || b == c)
}

pub open spec fn any_cut(rs: Seq<(int, int, Seq<char>)>, ls: int, le: int, b: int) -> bool {
    exists|k: int| 0 <= k < rs.len() && range_cuts_at(rs[k], ls, le, b)
}

/// The boundary set of a line: its two ends, and every clipped end of a
/// mapped diagnostic or hover range that still spans part of the line.
pub open spec fn is_boundary(
    dr: Seq<(int, int, Seq<char>)>,
    hr: Seq<(int, int, Seq<char>)>,
    ls: int,
    le: int,
    b: int,
) -> bool {
    b == ls || b == le || any_cut(dr, ls, le, b) || any_cut(hr, ls, le, b)
}

/// The sorted boundary offsets among the first `n` slots of the line, by a
/// left-to-right scan.
pub open spec fn spec_boundaries_upto(
    dr: Seq<(int, int, Seq<char>)>,
    hr: Seq<(int, int, Seq<char>)>,
    ls: int,
    le: int,
    n: int,
) -> Seq<int>
    decreases n,
{
    if n <= 0 {
        Seq::empty()
    } else {
        let prev = spec_boundaries_upto(dr, hr, ls, le, n - 1);
        if is_boundary(dr, hr, ls, le, ls + n - 1) {
            prev.push(ls + n - 1)
        } else {
            prev
        }
    }
}

/// The sorted, deduplicated boundary offsets of the line `[ls, le]`.
pub open spec fn spec_boundaries(
    dr: Seq<(int, int, Seq<char>)>,
    hr: Seq<(int, int, Seq<char>)>,
    ls: int,
    le: int,
) -> Seq<int> {
    spec_boundaries_upto(dr, hr, ls, le, le - ls + 1)
}

/// Strict overlap of a mapped range with the span `[a, b)`.
pub open spec fn spec_overlaps(r: (int, int, Seq<char>), a: int, b: int) -> bool {
    r.0 < b && r.1 > a
}

pub open spec fn any_overlap(rs: Seq<(int, int, Seq<char>)>, a: int, b: int) -> bool {
    exists|k: int| 0 <= k < rs.len() && spec_overlaps(rs[k], a, b)
}

/// The segments of line `l`: one per adjacent boundary pair, tagged where
/// some diagnostic strictly overlaps it; an empty line renders as a single
/// empty untagged segment.
pub open spec fn spec_line_segments(
    s: Seq<char>,
    dr: Seq<(int, int, Seq<char>)>,
    hr: Seq<(int, int, Seq<char>)>,
    l: int,
) -> Seq<(Seq<char>, bool)> {
    let ls = line_start(s, l);
    let le = line_end(s, l);
    let bs = spec_boundaries(dr, hr, ls, le);
    if bs.len() <= 1 {
        seq![(Seq::<char>::empty(), false)]
    } else {
        Seq::new(
            (bs.len() - 1) as nat,
            |i: int| (s.subrange(bs[i], bs[i + 1]), any_overlap(dr, bs[i], bs[i + 1])),
        )
    }
}

/// The messages of the mapped diagnostics that strictly overlap the line,
/// in list order, duplicates included.
pub open spec fn spec_overlapping_messages(
    dr: Seq<(int, int, Seq<char>)>,
    ls: int,
    le: int,
) -> Seq<Seq<char>>
    decreases dr.len(),
{
    if dr.len() == 0 {
        Seq::empty()
    } else {
        let prev = spec_overlapping_messages(dr.drop_last(), ls, le);
        if spec_overlaps(dr.last(), ls, le) {
            prev.push(dr.last().2)
        } else {
            prev
        }
    }
}

/// First occurrences only, in order.
pub open spec fn spec_dedup(msgs: Seq<Seq<char>>) -> Seq<Seq<char>>
    decreases msgs.len(),
{
    if msgs.len() == 0 {
        Seq::empty()
    } else {
        let prev = spec_dedup(msgs.drop_last());
        if prev.contains(msgs.last()) {
            prev
        } else {
            prev.push(msgs.last())
        }
    }
}

/// The virtual texts of line `l`: the distinct overlapping diagnostic
/// messages, each once, in first-overlap order.
pub open spec fn spec_line_virtuals(
    s: Seq<char>,
    dr: Seq<(int, int, Seq<char>)>,
    l: int,
) -> Seq<Seq<char>> {
    spec_dedup(spec_overlapping_messages(dr, line_start(s, l), line_end(s, l)))
}

/// The full render model of line `l`.
pub open spec fn spec_line_render(
    s: Seq<char>,
    dr: Seq<(int, int, Seq<char>)>,
    hr: Seq<(int, int, Seq<char>)>,
    l: int,
) -> (Seq<(Seq<char>, bool)>, Seq<Seq<char>>) {
    (spec_line_segments(s, dr, hr, l), spec_line_virtuals(s, dr, l))
}

/// What a rendered line observably is: segment texts with their tags, and
/// the virtual texts.
pub open spec fn line_view(lr: LineRender) -> (Seq<(Seq<char>, bool)>, Seq<Seq<char>>) {
    (
        Seq::new(lr.segments@.len(), |i: int| (lr.segments@[i].text@, lr.segments@[i].has_diag)),
        Seq::new(lr.virtual_texts@.len(), |i: int| lr.virtual_texts@[i]@),
    )
}

/// The offsets of a boundary vector, as integers.
pub open spec fn bounds_view(v: Seq<usize>) -> Seq<int> {
    Seq::new(v.len(), |i: int| v[i] as int)
}

/// The contents of a string vector, as character sequences.
pub open spec fn texts_view(v: Seq<String>) -> Seq<Seq<char>> {
    Seq::new(v.len(), |i: int| v[i]@)
}

/// Shape of the scanned boundary list: each entry lies in the scanned
/// window, entries ascend strictly, and an offset of the window is listed
/// exactly when it is a boundary.
pub proof fn lemma_boundaries_upto_props(
    dr: Seq<(int, int, Seq<char>)>,
    hr: Seq<(int, int, Seq<char>)>,
    ls: int,
    le: int,
    n: int,
)
    requires
        ls <= le,
        0 <= n <= le - ls + 1,
    ensures
        ({
            let bs = spec_boundaries_upto(dr, hr, ls, le, n);
            &&& forall|i: int| 0 <= i < bs.len() ==> ls <= #[trigger] bs[i] < ls + n
            &&& forall|i: int, j: int| 0 <= i < j < bs.len() ==> bs[i] < bs[j]
            &&& forall|b: int|
                ls <= b < ls + n ==> (bs.contains(b) <==> is_boundary(dr, hr, ls, le, b))
        }),
    decreases n,
{
    if n > 0 {
        lemma_boundaries_upto_props(dr, hr, ls, le, n - 1);
        let prev = spec_boundaries_upto(dr, hr, ls, le, n - 1);
        let bs = spec_boundaries_upto(dr, hr, ls, le, n);
        let b0 = ls + n - 1;
        assert forall|b: int| ls <= b < ls + n implies (bs.contains(b) <==> is_boundary(
            dr,
            hr,
            ls,
            le,
            b,
        )) by {
            if b < b0 {
                assert(prev.contains(b) <==> is_boundary(dr, hr, ls, le, b));
                if prev.contains(b) {
                    let i = choose|i: int| 0 <= i < prev.len() && prev[i] == b;
                    assert(bs[i] == b);
                }
                if bs.contains(b) {
                    let i = choose|i: int| 0 <= i < bs.len() && bs[i] == b;
                    assert(i < prev.len() && prev[i] == b);
                }
            } else {
                if is_boundary(dr, hr, ls, le, b0) {
                    assert(bs.last() == b0);
                }
                if bs.contains(b0) {
                    assert(is_boundary(dr, hr, ls, le, b0));
                }
            }
        }
    }
}

/// The boundary list of a line always starts with the line start and, for
/// a non-empty line, ends with the line end.
pub proof fn lemma_boundaries_ends(
    dr: Seq<(int, int, Seq<char>)>,
    hr: Seq<(int, int, Seq<char>)>,
    ls: int,
    le: int,
)
    requires
        ls <= le,
    ensures
        ({
            let bs = spec_boundaries(dr, hr, ls, le);
            &&& bs.len() >= 1
            &&& bs[0] == ls
            &&& bs.last() == le
            &&& (bs.len() <= 1 <==> ls == le)
        }),
{
    let bs = spec_boundaries(dr, hr, ls, le);
    lemma_boundaries_upto_props(dr, hr, ls, le, le - ls + 1);
    assert(is_boundary(dr, hr, ls, le, ls));
    assert(bs.contains(ls));
    assert(is_boundary(dr, hr, ls, le, le));
    assert(bs.contains(le));
    let i = choose|i: int| 0 <= i < bs.len() && bs[i] == ls;
    let j = choose|j: int| 0 <= j < bs.len() && bs[j] == le;
    assert(bs[0] >= ls);
    if bs[0] > ls {
        if i > 0 {
            assert(bs[0] < bs[i]);
        }
        assert(false);
    }
    assert(bs.last() <= le);
    if bs.last() < le {
        if j < bs.len() - 1 {
            assert(bs[j] < bs[bs.len() - 1]);
        }
        assert(false);
    }
    if ls == le && bs.len() >= 2 {
        assert(bs[0] < bs[1]);
        assert(ls <= bs[0] && bs[1] < ls + 1);
        assert(false);
    }
}

/// The segment texts of a line, concatenated in order.
pub open spec fn concat_texts(segs: Seq<(Seq<char>, bool)>) -> Seq<char>
    decreases segs.len(),
{
    if segs.len() == 0 {
        Seq::empty()
    } else {
        concat_texts(segs.drop_last()) + segs.last().0
    }
}

proof fn lemma_concat_take(
    s: Seq<char>,
    dr: Seq<(int, int, Seq<char>)>,
    bs: Seq<int>,
    m: int,
)
    requires
        bs.len() >= 2,
        1 <= m <= bs.len() - 1,
        forall|p: int| 0 <= p < bs.len() ==> 0 <= #[trigger] bs[p] <= s.len(),
        forall|p: int, q: int| 0 <= p < q < bs.len() ==> bs[p] < bs[q],
    ensures
        concat_texts(
            Seq::new(
                (bs.len() - 1) as nat,
                |i: int| (s.subrange(bs[i], bs[i + 1]), any_overlap(dr, bs[i], bs[i + 1])),
            ).take(m),
        ) == s.subrange(bs[0], bs[m]),
    decreases m,
{
    let segs = Seq::new(
        (bs.len() - 1) as nat,
        |i: int| (s.subrange(bs[i], bs[i + 1]), any_overlap(dr, bs[i], bs[i + 1])),
    );
    if m == 1 {
        assert(segs[0] == (s.subrange(bs[0], bs[1]), any_overlap(dr, bs[0], bs[1])));
        assert(segs.take(1).drop_last() =~= Seq::<(Seq<char>, bool)>::empty());
        assert(segs.take(1).last() == segs[0]);
        assert(concat_texts(segs.take(1)) == concat_texts(Seq::<(Seq<char>, bool)>::empty())
            + segs[0].0);
        assert(concat_texts(segs.take(1)) =~= s.subrange(bs[0], bs[1]));
    } else {
        lemma_concat_take(s, dr, bs, m - 1);
        assert(segs.take(m).drop_last() =~= segs.take(m - 1));
        assert(segs.take(m).last() == segs[m - 1]);
        assert(concat_texts(segs.take(m)) == s.subrange(bs[0], bs[m - 1]) + s.subrange(
            bs[m - 1],
            bs[m],
        ));
        assert(s.subrange(bs[0], bs[m - 1]) + s.subrange(bs[m - 1], bs[m]) =~= s.subrange(
            bs[0],
            bs[m],
        ));
    }
}

/// Partition law: concatenating a line's segment texts in order yields the
/// line's text exactly, whatever the mapped annotation ranges are.
pub proof fn lemma_partition(
    s: Seq<char>,
    dr: Seq<(int, int, Seq<char>)>,
    hr: Seq<(int, int, Seq<char>)>,
    l: int,
)
    requires
        0 <= l < num_lines(s),
    ensures
        concat_texts(spec_line_segments(s, dr, hr, l)) == s.subrange(
            line_start(s, l),
            line_end(s, l),
        ),
{
    lemma_line_start(s, l);
    let ls = line_start(s, l);
    let le = line_end(s, l);
    lemma_boundaries_ends(dr, hr, ls, le);
    lemma_boundaries_upto_props(dr, hr, ls, le, le - ls + 1);
    let bs = spec_boundaries(dr, hr, ls, le);
    let segs = spec_line_segments(s, dr, hr, l);
    if bs.len() <= 1 {
        assert(ls == le);
        assert(segs =~= seq![(Seq::<char>::empty(), false)]);
        assert(segs.last() == (Seq::<char>::empty(), false));
        assert(segs.drop_last() =~= Seq::<(Seq<char>, bool)>::empty());
        assert(concat_texts(segs) == concat_texts(segs.drop_last()) + segs.last().0);
        assert(concat_texts(segs) =~= s.subrange(ls, le));
    } else {
        lemma_concat_take(s, dr, bs, bs.len() - 1);
        assert(segs.take(bs.len() - 1) =~= segs);
        assert(bs[0] == ls && bs[bs.len() - 1] == le);
    }
}

/// Deduplication keeps exactly the members, each once.
proof fn lemma_dedup_props(msgs: Seq<Seq<char>>)
    ensures
        spec_dedup(msgs).no_duplicates(),
        forall|m: Seq<char>| #[trigger] spec_dedup(msgs).contains(m) <==> msgs.contains(m),
    decreases msgs.len(),
{
    if msgs.len() > 0 {
        lemma_dedup_props(msgs.drop_last());
        let prev = spec_dedup(msgs.drop_last());
        let d = spec_dedup(msgs);
        let x = msgs.last();
        assert forall|m: Seq<char>| #[trigger] d.contains(m) implies msgs.contains(m) by {
            let i = choose|i: int| 0 <= i < d.len() && d[i] == m;
            if i < prev.len() && prev[i] == m {
                assert(prev.contains(m));
                let j = choose|j: int| 0 <= j < msgs.drop_last().len() && msgs.drop_last()[j]
                    == m;
                assert(msgs[j] == m);
            } else {
                assert(m == x);
                assert(msgs[msgs.len() - 1] == m);
            }
        }
        assert forall|m: Seq<char>| msgs.contains(m) implies #[trigger] d.contains(m) by {
            let j = choose|j: int| 0 <= j < msgs.len() && msgs[j] == m;
            if j < msgs.len() - 1 {
                assert(msgs.drop_last()[j] == m);
                assert(prev.contains(m));
                let i = choose|i: int| 0 <= i < prev.len() && prev[i] == m;
                assert(d[i] == m);
            } else {
                if prev.contains(x) {
                    let i = choose|i: int| 0 <= i < prev.len() && prev[i] == x;
                    assert(d[i] == m);
                } else {
                    assert(d.last() == m);
                }
            }
        }
        if !prev.contains(x) {
            assert forall|i: int, j: int| 0 <= i < j < d.len() implies d[i] != d[j] by {
                if j < d.len() - 1 {
                    assert(prev[i] == d[i] && prev[j] == d[j]);
                } else {
                    if prev[i] == x {
                        assert(prev.contains(x));
                    }
                }
            }
        }
    }
}

/// Membership of the overlap scan: a message is collected exactly when
/// some listed range strictly overlapping the line carries it.
proof fn lemma_overlapping_messages_contains(
    dr: Seq<(int, int, Seq<char>)>,
    ls: int,
    le: int,
)
    ensures
        forall|m: Seq<char>|
            #[trigger] spec_overlapping_messages(dr, ls, le).contains(m) <==> exists|k: int|
                0 <= k < dr.len() && spec_overlaps(#[trigger] dr[k], ls, le) && dr[k].2 == m,
    decreases dr.len(),
{
    if dr.len() > 0 {
        lemma_overlapping_messages_contains(dr.drop_last(), ls, le);
        let prev = spec_overlapping_messages(dr.drop_last(), ls, le);
        let w = spec_overlapping_messages(dr, ls, le);
        assert forall|m: Seq<char>| #[trigger] w.contains(m) implies exists|k: int|
            0 <= k < dr.len() && spec_overlaps(#[trigger] dr[k], ls, le) && dr[k].2 == m by {
            let i = choose|i: int| 0 <= i < w.len() && w[i] == m;
            if i < prev.len() && prev[i] == m {
                assert(prev.contains(m));
                let k = choose|k: int|
                    0 <= k < dr.drop_last().len() && spec_overlaps(dr.drop_last()[k], ls, le)
                        && dr.drop_last()[k].2 == m;
                assert(spec_overlaps(dr[k], ls, le) && dr[k].2 == m);
            } else {
                assert(spec_overlaps(dr[dr.len() - 1], ls, le) && dr[dr.len() - 1].2 == m);
            }
        }
        assert forall|m: Seq<char>|
            (exists|k: int|
                0 <= k < dr.len() && spec_overlaps(#[trigger] dr[k], ls, le) && dr[k].2
                    == m) implies #[trigger] w.contains(m) by {
            let k = choose|k: int|
                0 <= k < dr.len() && spec_overlaps(dr[k], ls, le) && dr[k].2 == m;
            if k < dr.len() - 1 {
                assert(dr.drop_last()[k] == dr[k]);
                assert(prev.contains(m));
                let i = choose|i: int| 0 <= i < prev.len() && prev[i] == m;
                if spec_overlaps(dr.last(), ls, le) {
                    assert(w[i] == m);
                } else {
                    assert(w[i] == m);
                }
            } else {
                assert(w.last() == m);
            }
        }
    }
}

/// Deduplication law: a diagnostic overlapping a line contributes its
/// message exactly once to that line's virtual texts, however many
/// segments its range spans; and only overlapping diagnostics contribute.
pub proof fn lemma_virtuals_dedup(s: Seq<char>, dr: Seq<(int, int, Seq<char>)>, l: int)
    ensures
        spec_line_virtuals(s, dr, l).no_duplicates(),
        forall|m: Seq<char>|
            #[trigger] spec_line_virtuals(s, dr, l).contains(m) <==> exists|k: int|
                0 <= k < dr.len() && spec_overlaps(
                    #[trigger] dr[k],
                    line_start(s, l),
                    line_end(s, l),
                ) && dr[k].2 == m,
{
    lemma_dedup_props(spec_overlapping_messages(dr, line_start(s, l), line_end(s, l)));
    lemma_overlapping_messages_contains(dr, line_start(s, l), line_end(s, l));
}

/// Purity law: the render model is a function of the text and the mapped
/// annotations alone, so two passes over identical inputs agree on every
/// line, segment by segment and virtual text by virtual text.
pub proof fn lemma_render_deterministic(
    s: Seq<char>,
    dr: Seq<(int, int, Seq<char>)>,
    hr: Seq<(int, int, Seq<char>)>,
    a: Seq<LineRender>,
    b: Seq<LineRender>,
)
    requires
        a.len() == num_lines(s),
        forall|l: int| 0 <= l < a.len() ==> line_view(#[trigger] a[l]) == spec_line_render(s, dr, hr, l),
        b.len() == num_lines(s),
        forall|l: int| 0 <= l < b.len() ==> line_view(#[trigger] b[l]) == spec_line_render(s, dr, hr, l),
    ensures
        a.len() == b.len(),
        forall|l: int| 0 <= l < a.len() ==> line_view(#[trigger] a[l]) == line_view(b[l]),
{
}

/// Clamps an offset into the line span.
fn clip_to(v: usize, lo: usize, hi: usize) -> (r: usize)
    requires
        lo <= hi,
    ensures
        r as int == clip(v as int, lo as int, hi as int),
{
    if v < lo {
        lo
    } else if v > hi {
        hi
    } else {
        v
    }
}

/// Whether any mapped range of the list cuts the line at `b`.
fn any_cut_at(rs: &Vec<MappedRange>, ls: usize, le: usize, b: usize) -> (r: bool)
    requires
        ls <= le,
    ensures
        r == any_cut(mapped_view(rs@), ls as int, le as int, b as int),
{
    let ghost rv = mapped_view(rs@);
    let mut k: usize = 0;
    while k < rs.len()
        invariant
            rv == mapped_view(rs@),
            ls <= le,
            k <= rs.len(),
            forall|t: int|
                0 <= t < k ==> !range_cuts_at(rv[t], ls as int, le as int, b as int),
        decreases rs.len() - k,
    {
        let a = clip_to(rs[k].start, ls, le);
        let c = clip_to(rs[k].end, ls, le);
        proof {
            assert(rv[k as int] == (rs@[k as int].start as int, rs@[k as int].end as int,
                rs@[k as int].text@));
        }
        if a < c && (b == a || b == c) {
            proof {
                assert(range_cuts_at(rv[k as int], ls as int, le as int, b as int));
            }
            return true;
        }
        k = k + 1;
    }
    false
}

/// Whether `b` is a boundary of the line `[ls, le]`.
fn is_boundary_at(
    diag: &Vec<MappedRange>,
    hov: &Vec<MappedRange>,
    ls: usize,
    le: usize,
    b: usize,
) -> (r: bool)
    requires
        ls <= le,
    ensures
        r == is_boundary(mapped_view(diag@), mapped_view(hov@), ls as int, le as int, b as int),
{
    if b == ls || b == le {
        true
    } else if any_cut_at(diag, ls, le, b) {
        true
    } else {
        any_cut_at(hov, ls, le, b)
    }
}

/// Scans the line span once and collects its boundary offsets in order.
fn collect_boundaries(
    diag: &Vec<MappedRange>,
    hov: &Vec<MappedRange>,
    ls: usize,
    le: usize,
) -> (r: Vec<usize>)
    requires
        ls <= le,
    ensures
        bounds_view(r@) == spec_boundaries(
            mapped_view(diag@),
            mapped_view(hov@),
            ls as int,
            le as int,
        ),
{
    let ghost dr = mapped_view(diag@);
    let ghost hr = mapped_view(hov@);
    let mut out: Vec<usize> = Vec::new();
    let mut b: usize = ls;
    proof {
        assert(bounds_view(out@) =~= spec_boundaries_upto(dr, hr, ls as int, le as int, 0));
    }
    loop
        invariant_except_break
            dr == mapped_view(diag@),
            hr == mapped_view(hov@),
            ls <= b <= le,
            bounds_view(out@) == spec_boundaries_upto(
                dr,
                hr,
                ls as int,
                le as int,
                b as int - ls as int,
            ),
        ensures
            bounds_view(out@) == spec_boundaries(dr, hr, ls as int, le as int),
        decreases le - b,
    {
        let ghost old_view = bounds_view(out@);
        if is_boundary_at(diag, hov, ls, le, b) {
            out.push(b);
            proof {
                assert(bounds_view(out@) =~= old_view.push(b as int));
            }
        }
        proof {
            assert(bounds_view(out@) == spec_boundaries_upto(
                dr,
                hr,
                ls as int,
                le as int,
                b as int - ls as int + 1,
            ));
        }
        if b == le {
            break;
        }
        b = b + 1;
    }
    out
}

/// Whether any mapped range of the list strictly overlaps the span
/// `[a, c)`.
fn any_overlap_at(rs: &Vec<MappedRange>, a: usize, c: usize) -> (r: bool)
    ensures
        r == any_overlap(mapped_view(rs@), a as int, c as int),
{
    let ghost rv = mapped_view(rs@);
    let mut k: usize = 0;
    while k < rs.len()
        invariant
            rv == mapped_view(rs@),
            k <= rs.len(),
            forall|t: int| 0 <= t < k ==> !spec_overlaps(rv[t], a as int, c as int),
        decreases rs.len() - k,
    {
        proof {
            assert(rv[k as int] == (rs@[k as int].start as int, rs@[k as int].end as int,
                rs@[k as int].text@));
        }
        if rs[k].start < c && rs[k].end > a {
            proof {
                assert(spec_overlaps(rv[k as int], a as int, c as int));
            }
            return true;
        }
        k = k + 1;
    }
    false
}

/// Whether the vector already holds this text.
fn contains_text(v: &Vec<String>, m: &String) -> (r: bool)
    ensures
        r == texts_view(v@).contains(m@),
{
    let mut k: usize = 0;
    while k < v.len()
        invariant
            k <= v.len(),
            forall|t: int| 0 <= t < k ==> texts_view(v@)[t] != m@,
        decreases v.len() - k,
    {
        if v[k] == *m {
            proof {
                assert(texts_view(v@)[k as int] == m@);
            }
            return true;
        }
        k = k + 1;
    }
    proof {
        if texts_view(v@).contains(m@) {
            let t = choose|t: int| 0 <= t < texts_view(v@).len() && texts_view(v@)[t] == m@;
            assert(false);
        }
    }
    false
}

/// Counts the newline characters of the text.
fn count_newlines(text: &str) -> (r: usize)
    ensures
        r as int == count_nl(text@),
{
    let ghost s = text@;
    let len = text.unicode_len();
    let mut n: usize = 0;
    let mut i: usize = 0;
    proof {
        assert(s.take(0) =~= Seq::<char>::empty());
    }
    while i < len
        invariant
            s == text@,
            len == s.len(),
            i <= len,
            n as int == count_nl(s.take(i as int)),
            n <= i,
        decreases len - i,
    {
        let c = text.get_char(i);
        proof {
            lemma_count_nl_take_step(s, i as int);
        }
        if c == '\n' {
            n = n + 1;
        }
        i = i + 1;
    }
    proof {
        assert(s.take(len as int) =~= s);
    }
    n
}

/// Finds the offset of the next newline at or after `from`, or the text
/// length if no newline follows.
fn find_line_end(text: &str, from: usize) -> (r: usize)
    requires
        from as int <= text@.len(),
    ensures
        r as int == line_end_from(text@, from as int),
        from <= r,
        r as int <= text@.len(),
{
    let ghost s = text@;
    let len = text.unicode_len();
    let mut i = from;
    while i < len
        invariant
            s == text@,
            len == s.len(),
            from <= i <= len,
            line_end_from(s, from as int) == line_end_from(s, i as int),
        decreases len - i,
    {
        if text.get_char(i) == '\n' {
            return i;
        }
        i = i + 1;
    }
    i
}

/// Splits the text into its rendered lines. Every line is partitioned at
/// the clipped ends of the mapped diagnostic and hover ranges; a segment
/// is tagged when a mapped diagnostic strictly overlaps it; the line's
/// virtual texts are the distinct messages of the diagnostics overlapping
/// it. An empty line renders as one empty untagged segment, including the
/// final line implied by a trailing newline.
pub fn split_lines_with_metadata(
    code: &str,
    diagnostics: &Vec<Diagnostic>,
    hover_entries: &Vec<HoverEntry>,
) -> (r: Vec<LineRender>)
    ensures
        ({
            let dr = spec_sort_by_start(spec_map_diagnostics(code@, diagnostics@));
            let hr = spec_sort_by_start(spec_map_hovers(code@, hover_entries@));
            &&& r@.len() == num_lines(code@)
            &&& forall|l: int|
                0 <= l < r@.len() ==> line_view(#[trigger] r@[l]) == spec_line_render(
                    code@,
                    dr,
                    hr,
                    l,
                )
        }),
{
    let ghost s = code@;
    let diag_ranges = map_diagnostic_ranges(code, diagnostics);
    let hover_ranges = map_hover_ranges(code, hover_entries);
    let ghost dr = mapped_view(diag_ranges@);
    let ghost hr = mapped_view(hover_ranges@);
    let len = code.unicode_len();
    let count = count_newlines(code);
    let mut out: Vec<LineRender> = Vec::new();
    let mut l: usize = 0;
    let mut ls: usize = 0;
    proof {
        lemma_count_nl_nonneg(s);
        lemma_count_nl_le_len(s);
    }
    loop
        invariant_except_break
            s == code@,
            len == s.len(),
            count as int == count_nl(s),
            dr == mapped_view(diag_ranges@),
            hr == mapped_view(hover_ranges@),
            dr == spec_sort_by_start(spec_map_diagnostics(s, diagnostics@)),
            hr == spec_sort_by_start(spec_map_hovers(s, hover_entries@)),
            l <= count,
            ls as int == line_start(s, l as int),
            out@.len() == l as int,
            forall|j: int|
                0 <= j < l ==> line_view(#[trigger] out@[j]) == spec_line_render(s, dr, hr, j),
        ensures
            out@.len() == num_lines(s),
            forall|j: int|
                0 <= j < out@.len() ==> line_view(#[trigger] out@[j]) == spec_line_render(
                    s,
                    dr,
                    hr,
                    j,
                ),
        decreases count - l,
    {
        proof {
            lemma_line_start(s, l as int);
        }
        let le = find_line_end(code, ls);
        let bs = collect_boundaries(&diag_ranges, &hover_ranges, ls, le);
        let ghost bsv = bounds_view(bs@);
        proof {
            lemma_boundaries_upto_props(dr, hr, ls as int, le as int, le as int - ls as int + 1);
            lemma_boundaries_ends(dr, hr, ls as int, le as int);
        }
        let mut segments: Vec<RenderSegment> = Vec::new();
        let mut i: usize = 0;
        while i < bs.len() - 1
            invariant
                s == code@,
                dr == mapped_view(diag_ranges@),
                bsv == bounds_view(bs@),
                bs@.len() >= 1,
                i <= bs@.len() - 1,
                le as int <= s.len(),
                forall|p: int| 0 <= p < bsv.len() ==> ls as int <= #[trigger] bsv[p] <= le as int,
                forall|p: int, q: int| 0 <= p < q < bsv.len() ==> bsv[p] < bsv[q],
                segments@.len() == i as int,
                forall|j: int|
                    0 <= j < i ==> (#[trigger] segments@[j].text@, segments@[j].has_diag) == (
                        s.subrange(bsv[j], bsv[j + 1]),
                        any_overlap(dr, bsv[j], bsv[j + 1]),
                    ),
            decreases bs@.len() - i,
        {
            let a = bs[i];
            let c = bs[i + 1];
            proof {
                assert(bsv[i as int] == a as int && bsv[i as int + 1] == c as int);
                assert(bsv[i as int] < bsv[i as int + 1]);
            }
            let piece = code.substring_char(a, c);
            let seg_text = String::from_str(piece);
            let tag = any_overlap_at(&diag_ranges, a, c);
            segments.push(RenderSegment { text: seg_text, has_diag: tag });
            i = i + 1;
        }
        if segments.len() == 0 {
            segments.push(RenderSegment { text: String::new(), has_diag: false });
        }
        let mut virtuals: Vec<String> = Vec::new();
        let mut k: usize = 0;
        proof {
            assert(dr.take(0) =~= Seq::<(int, int, Seq<char>)>::empty());
            assert(texts_view(virtuals@) =~= spec_dedup(
                spec_overlapping_messages(dr.take(0), ls as int, le as int),
            ));
        }
        while k < diag_ranges.len()
            invariant
                s == code@,
                dr == mapped_view(diag_ranges@),
                k <= diag_ranges@.len(),
                ls <= le,
                texts_view(virtuals@) == spec_dedup(
                    spec_overlapping_messages(dr.take(k as int), ls as int, le as int),
                ),
            decreases diag_ranges@.len() - k,
        {
            let d = &diag_ranges[k];
            proof {
                assert(dr.take(k as int + 1).drop_last() =~= dr.take(k as int));
                assert(dr[k as int] == (d.start as int, d.end as int, d.text@));
                assert(dr.take(k as int + 1).last() == dr[k as int]);
            }
            let ghost msgs = spec_overlapping_messages(dr.take(k as int), ls as int, le as int);
            if d.start < le && d.end > ls {
                proof {
                    assert(spec_overlapping_messages(dr.take(k as int + 1), ls as int, le as int)
                        == msgs.push(d.text@));
                    assert(msgs.push(d.text@).drop_last() =~= msgs);
                }
                if !contains_text(&virtuals, &d.text) {
                    let ghost old_texts = texts_view(virtuals@);
                    virtuals.push(d.text.clone());
                    proof {
                        assert(texts_view(virtuals@) =~= old_texts.push(d.text@));
                    }
                }
            }
            k = k + 1;
        }
        proof {
            assert(dr.take(diag_ranges@.len() as int) =~= dr);
        }
        let lr = LineRender { segments, virtual_texts: virtuals };
        proof {
            if bsv.len() <= 1 {
                assert(ls == le);
                assert(line_view(lr).0 =~= spec_line_segments(s, dr, hr, l as int));
            } else {
                assert(line_view(lr).0 =~= spec_line_segments(s, dr, hr, l as int));
            }
            assert(line_view(lr).1 =~= spec_line_virtuals(s, dr, l as int));
        }
        out.push(lr);
        if l == count {
            break;
        }
        proof {
            lemma_count_nl_flat(s, ls as int, le as int);
            assert(s.take(s.len() as int) =~= s);
            if le as int == s.len() {
                assert(l as int == count_nl(s));
                assert(false);
            }
            assert(line_start(s, l as int + 1) == le as int + 1);
        }
        ls = le + 1;
        l = l + 1;
    }
    out
}

} // verus!

