//! Normalization of analyzer position ranges into clipped, ordered
//! byte-offset ranges.

use vstd::prelude::*;
use crate::position::Position;
use crate::position::spec_position_to_offset;
use crate::position::position_to_offset;
use crate::position::lemma_pto_in_text;
use crate::hover::HoverEntry;
use crate::hover::spec_hover_text;
use crate::hover::render_hover_text;

verus! {

/// A pair of positions delimiting a half-open span; not guaranteed ordered
/// as received.
#[derive(Clone, Copy, Debug, PartialEq, Eq, Structural)]
pub struct Range {
    pub start: Position,
    pub end: Position,
}

/// An analyzer message attached to a range.
#[derive(Clone, Debug)]
pub struct Diagnostic {
    pub range: Range,
    pub message: String,
}

/// A successfully mapped annotation: an ordered offset interval and the
/// text it carries (a diagnostic message, or a rendered hover payload).
#[derive(Clone, Debug)]
pub struct MappedRange {
    pub start: usize,
    pub end: usize,
    pub text: String,
}

/// The mathematical shape of a mapped annotation list: offset interval and
/// carried text.
pub open spec fn mapped_view(v: Seq<MappedRange>) -> Seq<(int, int, Seq<char>)> {
    Seq::new(v.len(), |i: int| (v[i].start as int, v[i].end as int, v[i].text@))
}

/// The offset interval of a range: both ends mapped independently, ordered
/// by min/max to absorb inverted ranges; nothing if either end fails.
pub open spec fn spec_range_to_offsets(s: Seq<char>, r: Range) -> Option<(int, int)> {
    let a = spec_position_to_offset(s, r.start.line as int, r.start.character as int);
    let b = spec_position_to_offset(s, r.end.line as int, r.end.character as int);
    if a is Some && b is Some {
        if a->0 <= b->0 {
            Some((a->0, b->0))
        } else {
            Some((b->0, a->0))
        }
    } else {
        None
    }
}

/// Maps both ends of a range to offsets; an inverted range is normalized,
/// a range with an unmappable end maps to nothing.
pub fn range_to_offsets(text: &str, range: &Range) -> (r: Option<(usize, usize)>)
    ensures
        r is Some <==> spec_range_to_offsets(text@, *range) is Some,
        r is Some ==> ({
            let p = r->0;
            Some((p.0 as int, p.1 as int)) == spec_range_to_offsets(text@, *range)
        }),
{
    let a = match position_to_offset(text, range.start) {
        Some(a) => a,
        None => {
            return None;
        },
    };
    let b = match position_to_offset(text, range.end) {
        Some(b) => b,
        None => {
            return None;
        },
    };
    if a <= b {
        Some((a, b))
    } else {
        Some((b, a))
    }
}

/// Insertion of one mapped entry behind every earlier entry whose start is
/// not greater: the step of a stable insertion sort.
pub open spec fn spec_insert_sorted(
    v: Seq<(int, int, Seq<char>)>,
    x: (int, int, Seq<char>),
) -> Seq<(int, int, Seq<char>)>
    decreases v.len(),
{
    if v.len() == 0 {
        seq![x]
    } else if v.last().0 <= x.0 {
        v.push(x)
    } else {
        spec_insert_sorted(v.drop_last(), x).push(v.last())
    }
}

/// Stable sort of mapped entries by ascending start offset.
pub open spec fn spec_sort_by_start(v: Seq<(int, int, Seq<char>)>) -> Seq<(int, int, Seq<char>)>
    decreases v.len(),
{
    if v.len() == 0 {
        Seq::empty()
    } else {
        spec_insert_sorted(spec_sort_by_start(v.drop_last()), v.last())
    }
}

/// Ascending by start offset.
pub open spec fn sorted_by_start(v: Seq<(int, int, Seq<char>)>) -> bool {
    forall|i: int, j: int| 0 <= i <= j < v.len() ==> v[i].0 <= v[j].0
}

/// Where the insertion point is known, the insertion is a splice there.
pub proof fn lemma_insert_at(
    v: Seq<(int, int, Seq<char>)>,
    x: (int, int, Seq<char>),
    j: int,
)
    requires
        0 <= j <= v.len(),
        forall|k: int| j <= k < v.len() ==> v[k].0 > x.0,
        j > 0 ==> v[j - 1].0 <= x.0,
    ensures
        spec_insert_sorted(v, x) == v.take(j).push(x) + v.skip(j),
    decreases v.len(),
{
    if v.len() == 0 {
        assert(spec_insert_sorted(v, x) =~= v.take(j).push(x) + v.skip(j));
    } else if j == v.len() {
        assert(v.take(j) =~= v);
        assert(spec_insert_sorted(v, x) =~= v.take(j).push(x) + v.skip(j));
    } else {
        lemma_insert_at(v.drop_last(), x, j);
        assert(v.drop_last().take(j) =~= v.take(j));
        let spliced = v.drop_last().take(j).push(x) + v.drop_last().skip(j);
        assert(spliced.push(v.last()) =~= v.take(j).push(x) + v.skip(j));
    }
}

/// Inserting into a sorted list keeps it sorted.
pub proof fn lemma_insert_sorted_stays_sorted(
    v: Seq<(int, int, Seq<char>)>,
    x: (int, int, Seq<char>),
)
    requires
        sorted_by_start(v),
    ensures
        sorted_by_start(spec_insert_sorted(v, x)),
        spec_insert_sorted(v, x).len() == v.len() + 1,
    decreases v.len(),
{
    if v.len() == 0 {
    } else if v.last().0 <= x.0 {
    } else {
        assert(sorted_by_start(v.drop_last()));
        lemma_insert_sorted_stays_sorted(v.drop_last(), x);
        let w = spec_insert_sorted(v.drop_last(), x);
        // every entry of the inserted prefix stays at or below the old last
        assert forall|i: int| 0 <= i < w.len() implies w[i].0 <= v.last().0 by {
            lemma_insert_members(v.drop_last(), x, i);
        }
    }
}

/// Every entry of an insertion result is the inserted one or one of the
/// old entries.
pub proof fn lemma_insert_members(
    v: Seq<(int, int, Seq<char>)>,
    x: (int, int, Seq<char>),
    i: int,
)
    requires
        0 <= i < spec_insert_sorted(v, x).len(),
    ensures
        spec_insert_sorted(v, x)[i] == x || exists|k: int|
            0 <= k < v.len() && spec_insert_sorted(v, x)[i] == v[k],
    decreases v.len(),
{
    if v.len() == 0 {
    } else if v.last().0 <= x.0 {
        if i < v.len() {
            assert(spec_insert_sorted(v, x)[i] == v[i]);
        }
    } else {
        if i < spec_insert_sorted(v, x).len() - 1 {
            lemma_insert_members(v.drop_last(), x, i);
            if spec_insert_sorted(v, x)[i] != x {
                let k = choose|k: int|
                    0 <= k < v.drop_last().len() && spec_insert_sorted(v.drop_last(), x)[i]
                        == v.drop_last()[k];
                assert(spec_insert_sorted(v, x)[i] == v[k]);
            }
        } else {
            assert(spec_insert_sorted(v, x)[i] == v[v.len() - 1]);
        }
    }
}

/// The sorted mapped list is ascending by start offset.
pub proof fn lemma_sort_sorted(v: Seq<(int, int, Seq<char>)>)
    ensures
        sorted_by_start(spec_sort_by_start(v)),
        spec_sort_by_start(v).len() == v.len(),
    decreases v.len(),
{
    if v.len() > 0 {
        lemma_sort_sorted(v.drop_last());
        lemma_insert_sorted_stays_sorted(spec_sort_by_start(v.drop_last()), v.last());
    }
}

/// Every entry of the sorted list is one of the unsorted entries.
pub proof fn lemma_sort_members(v: Seq<(int, int, Seq<char>)>)
    ensures
        spec_sort_by_start(v).len() == v.len(),
        forall|i: int|
            0 <= i < spec_sort_by_start(v).len() ==> exists|k: int|
                0 <= k < v.len() && #[trigger] spec_sort_by_start(v)[i] == v[k],
    decreases v.len(),
{
    lemma_sort_sorted(v);
    if v.len() > 0 {
        lemma_sort_members(v.drop_last());
        lemma_sort_sorted(v.drop_last());
        let prev = spec_sort_by_start(v.drop_last());
        lemma_insert_sorted_stays_sorted(prev, v.last());
        let w = spec_sort_by_start(v);
        assert forall|i: int| 0 <= i < w.len() implies exists|k: int|
            0 <= k < v.len() && #[trigger] w[i] == v[k] by {
            lemma_insert_members(prev, v.last(), i);
            if w[i] == v.last() {
                assert(w[i] == v[v.len() - 1]);
            } else {
                let t = choose|t: int| 0 <= t < prev.len() && w[i] == prev[t];
                let k = choose|k: int|
                    0 <= k < v.drop_last().len() && prev[t] == v.drop_last()[k];
                assert(w[i] == v[k]);
            }
        }
    }
}

/// The mapped offset list of the diagnostics: each range whose ends both
/// map is normalized and keeps its message; the rest are dropped.
pub open spec fn spec_map_diagnostics(s: Seq<char>, ds: Seq<Diagnostic>) -> Seq<
    (int, int, Seq<char>),
>
    decreases ds.len(),
{
    if ds.len() == 0 {
        Seq::empty()
    } else {
        let prefix = spec_map_diagnostics(s, ds.drop_last());
        match spec_range_to_offsets(s, ds.last().range) {
            Some(p) => prefix.push((p.0, p.1, ds.last().message@)),
            None => prefix,
        }
    }
}

/// The mapped offset list of the hover entries: as for diagnostics, with
/// the rendered hover text as payload.
pub open spec fn spec_map_hovers(s: Seq<char>, es: Seq<HoverEntry>) -> Seq<(int, int, Seq<char>)>
    decreases es.len(),
{
    if es.len() == 0 {
        Seq::empty()
    } else {
        let prefix = spec_map_hovers(s, es.drop_last());
        match spec_range_to_offsets(s, es.last().range) {
            Some(p) => prefix.push((p.0, p.1, spec_hover_text(es.last().info))),
            None => prefix,
        }
    }
}

proof fn lemma_insert_multiset(v: Seq<(int, int, Seq<char>)>, x: (int, int, Seq<char>))
    ensures
        spec_insert_sorted(v, x).to_multiset() == v.push(x).to_multiset(),
    decreases v.len(),
{
    broadcast use vstd::seq_lib::group_to_multiset_ensures;

    if v.len() == 0 {
        assert(spec_insert_sorted(v, x) =~= v.push(x));
    } else if v.last().0 <= x.0 {
    } else {
        lemma_insert_multiset(v.drop_last(), x);
        let d = v.drop_last();
        assert(d.to_multiset().insert(x).insert(v.last()) =~= d.to_multiset().insert(
            v.last(),
        ).insert(x));
        assert(d.push(v.last()) =~= v);
        assert(v.push(x).to_multiset() == d.to_multiset().insert(v.last()).insert(x));
    }
}

/// Reordering law: sorting keeps exactly the mapped entries, so the sorted
/// list holds the successfully mapped annotations and nothing else.
pub proof fn lemma_sort_preserves_entries(v: Seq<(int, int, Seq<char>)>)
    ensures
        spec_sort_by_start(v).to_multiset() == v.to_multiset(),
    decreases v.len(),
{
    broadcast use vstd::seq_lib::group_to_multiset_ensures;

    if v.len() > 0 {
        lemma_sort_preserves_entries(v.drop_last());
        lemma_insert_multiset(spec_sort_by_start(v.drop_last()), v.last());
        assert(v.drop_last().push(v.last()) =~= v);
    }
}

/// Each interval is ordered and lies inside a text of length `len`.
pub open spec fn intervals_in_text(v: Seq<(int, int, Seq<char>)>, len: int) -> bool {
    forall|k: int| 0 <= k < v.len() ==> 0 <= #[trigger] v[k].0 <= v[k].1 <= len
}

proof fn lemma_map_diagnostics_in_text(s: Seq<char>, ds: Seq<Diagnostic>)
    ensures
        intervals_in_text(spec_map_diagnostics(s, ds), s.len() as int),
    decreases ds.len(),
{
    if ds.len() > 0 {
        lemma_map_diagnostics_in_text(s, ds.drop_last());
        let r = ds.last().range;
        if spec_range_to_offsets(s, r) is Some {
            lemma_pto_in_text(s, r.start.line as int, r.start.character as int);
            lemma_pto_in_text(s, r.end.line as int, r.end.character as int);
        }
    }
}

proof fn lemma_map_hovers_in_text(s: Seq<char>, es: Seq<HoverEntry>)
    ensures
        intervals_in_text(spec_map_hovers(s, es), s.len() as int),
    decreases es.len(),
{
    if es.len() > 0 {
        lemma_map_hovers_in_text(s, es.drop_last());
        let r = es.last().range;
        if spec_range_to_offsets(s, r) is Some {
            lemma_pto_in_text(s, r.start.line as int, r.start.character as int);
            lemma_pto_in_text(s, r.end.line as int, r.end.character as int);
        }
    }
}

/// Clipping and ordering law: every interval of the mapped, sorted
/// annotation lists lies inside the text with its start at or before its
/// end, and the list ascends by start offset — for the diagnostics and the
/// hover entries alike.
pub proof fn lemma_mapped_lists_valid(s: Seq<char>, ds: Seq<Diagnostic>, es: Seq<HoverEntry>)
    ensures
        intervals_in_text(spec_sort_by_start(spec_map_diagnostics(s, ds)), s.len() as int),
        sorted_by_start(spec_sort_by_start(spec_map_diagnostics(s, ds))),
        intervals_in_text(spec_sort_by_start(spec_map_hovers(s, es)), s.len() as int),
        sorted_by_start(spec_sort_by_start(spec_map_hovers(s, es))),
{
    lemma_map_diagnostics_in_text(s, ds);
    lemma_sort_members(spec_map_diagnostics(s, ds));
    lemma_sort_sorted(spec_map_diagnostics(s, ds));
    lemma_map_hovers_in_text(s, es);
    lemma_sort_members(spec_map_hovers(s, es));
    lemma_sort_sorted(spec_map_hovers(s, es));
}

/// Inserts a mapped entry into a vector at its stable sorted slot.
fn insert_mapped(out: &mut Vec<MappedRange>, item: MappedRange)
    ensures
        mapped_view(final(out)@) == spec_insert_sorted(
            mapped_view(old(out)@),
            (item.start as int, item.end as int, item.text@),
        ),
{
    let ghost v = mapped_view(out@);
    let ghost x = (item.start as int, item.end as int, item.text@);
    let mut j: usize = out.len();
    while j > 0 && out[j - 1].start > item.start
        invariant
            j <= out.len(),
            v == mapped_view(out@),
            x.0 == item.start as int,
            forall|k: int| j <= k < v.len() ==> v[k].0 > x.0,
        decreases j,
    {
        proof {
            assert(v[j as int - 1].0 == out@[j as int - 1].start as int);
        }
        j = j - 1;
    }
    proof {
        lemma_insert_at(v, x, j as int);
    }
    out.insert(j, item);
    proof {
        assert(mapped_view(out@) =~= v.take(j as int).push(x) + v.skip(j as int));
    }
}

/// Maps every diagnostic range to an ordered offset interval, dropping the
/// entries whose mapping fails, and sorts the result by start offset,
/// keeping the input order of entries that share one.
pub fn map_diagnostic_ranges(text: &str, diagnostics: &Vec<Diagnostic>) -> (r: Vec<MappedRange>)
    ensures
        mapped_view(r@) == spec_sort_by_start(spec_map_diagnostics(text@, diagnostics@)),
{
    let ghost s = text@;
    let mut out: Vec<MappedRange> = Vec::new();
    let mut i: usize = 0;
    proof {
        assert(diagnostics@.take(0) =~= Seq::<Diagnostic>::empty());
        assert(mapped_view(out@) =~= Seq::<(int, int, Seq<char>)>::empty());
    }
    while i < diagnostics.len()
        invariant
            s == text@,
            i <= diagnostics.len(),
            mapped_view(out@) == spec_sort_by_start(
                spec_map_diagnostics(s, diagnostics@.take(i as int)),
            ),
        decreases diagnostics.len() - i,
    {
        let d = &diagnostics[i];
        proof {
            assert(diagnostics@.take(i + 1).drop_last() =~= diagnostics@.take(i as int));
            assert(diagnostics@.take(i + 1).last() == diagnostics@[i as int]);
        }
        match range_to_offsets(text, &d.range) {
            Some(p) => {
                let item = MappedRange { start: p.0, end: p.1, text: d.message.clone() };
                proof {
                    let m = spec_map_diagnostics(s, diagnostics@.take(i as int));
                    let xv = (item.start as int, item.end as int, item.text@);
                    assert(spec_map_diagnostics(s, diagnostics@.take(i + 1)) == m.push(xv));
                    assert(m.push(xv).drop_last() =~= m);
                    assert(spec_sort_by_start(m.push(xv)) == spec_insert_sorted(
                        spec_sort_by_start(m),
                        xv,
                    ));
                }
                insert_mapped(&mut out, item);
            },
            None => {},
        }
        i = i + 1;
    }
    proof {
        assert(diagnostics@.take(diagnostics@.len() as int) =~= diagnostics@);
    }
    out
}

/// Maps every hover entry to an ordered offset interval carrying its
/// rendered popup text, dropping the entries whose mapping fails, and
/// sorts the result by start offset, keeping the input order of entries
/// that share one.
pub fn map_hover_ranges(text: &str, entries: &Vec<HoverEntry>) -> (r: Vec<MappedRange>)
    ensures
        mapped_view(r@) == spec_sort_by_start(spec_map_hovers(text@, entries@)),
{
    let ghost s = text@;
    let mut out: Vec<MappedRange> = Vec::new();
    let mut i: usize = 0;
    proof {
        assert(entries@.take(0) =~= Seq::<HoverEntry>::empty());
        assert(mapped_view(out@) =~= Seq::<(int, int, Seq<char>)>::empty());
    }
    while i < entries.len()
        invariant
            s == text@,
            i <= entries.len(),
            mapped_view(out@) == spec_sort_by_start(spec_map_hovers(s, entries@.take(i as int))),
        decreases entries.len() - i,
    {
        let e = &entries[i];
        proof {
            assert(entries@.take(i + 1).drop_last() =~= entries@.take(i as int));
            assert(entries@.take(i + 1).last() == entries@[i as int]);
        }
        match range_to_offsets(text, &e.range) {
            Some(p) => {
                let label = render_hover_text(&e.info);
                let item = MappedRange { start: p.0, end: p.1, text: label };
                proof {
                    let m = spec_map_hovers(s, entries@.take(i as int));
                    let xv = (item.start as int, item.end as int, item.text@);
                    assert(spec_map_hovers(s, entries@.take(i + 1)) == m.push(xv));
                    assert(m.push(xv).drop_last() =~= m);
                    assert(spec_sort_by_start(m.push(xv)) == spec_insert_sorted(
                        spec_sort_by_start(m),
                        xv,
                    ));
                }
                insert_mapped(&mut out, item);
            },
            None => {},
        }
        i = i + 1;
    }
    proof {
        assert(entries@.take(entries@.len() as int) =~= entries@);
    }
    out
}

} // verus!
