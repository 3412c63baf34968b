//! The capability picker for the format axis: filters the device's
//! enumerated formats against the caller's preferences and orders them so
//! that the most preferred candidate sorts greatest (and is yielded
//! first).

use vstd::prelude::*;
use crate::constraints::{Fmt, Pref};

verus! {

/// One enumerated capability of the capture device: its four-byte format
/// code and whether the format is emulated or compressed.
#[derive(Clone, Copy, Debug)]
pub struct FormatDesc {
    pub format: [u8; 4],
    pub emulated: bool,
    pub compressed: bool,
}

/// The mathematical model of a format constraint: as `Fmt`, with the
/// priority list abstracted to the sequence of its codes' byte sequences.
/// Contracts speak of this view, so two constraint values that list the
/// same codes mean the same thing.
#[verifier::ext_equal]
pub ghost struct FmtView {
    pub emulate: Pref,
    pub compress: Pref,
    pub priorities: Option<Seq<Seq<u8>>>,
}

/// The bytes of each code of a priority list.
pub open spec fn codes_view(p: Seq<[u8; 4]>) -> Seq<Seq<u8>> {
    p.map_values(|c: [u8; 4]| c@)
}

/// The model of a format constraint.
pub open spec fn fmt_view(f: Fmt) -> FmtView {
    FmtView {
        emulate: f.emulate,
        compress: f.compress,
        priorities: match f.priorities {
            Some(p) => Some(codes_view(p@)),
            None => None,
        },
    }
}

/// The model of an optional format constraint.
pub open spec fn opt_fmt_view(f: Option<Fmt>) -> Option<FmtView> {
    match f {
        Some(c) => Some(fmt_view(c)),
        None => None,
    }
}

/// Two format codes stand for the same format when their bytes agree.
pub open spec fn code_matches(a: [u8; 4], b: [u8; 4]) -> bool {
    a@ == b@
}

/// Whether `code` occurs anywhere in the priority list `p`.
pub open spec fn listed(p: Seq<Seq<u8>>, code: Seq<u8>) -> bool {
    exists|i: int| 0 <= i < p.len() && p[i] == code
}

/// The index of the last occurrence of `code` in `p`, or -1 when absent.
/// The last occurrence governs because a later duplicate entry overwrites
/// an earlier one when the list is turned into a ranking.
pub open spec fn prio_index(p: Seq<Seq<u8>>, code: Seq<u8>) -> int
    decreases p.len(),
{
    if p.len() == 0 {
        -1
    } else if p.last() == code {
        p.len() - 1
    } else {
        prio_index(p.drop_last(), code)
    }
}

/// Whether `f` survives the emulation filter: `Only` keeps emulated
/// formats, `Never` keeps non-emulated ones, anything else keeps all.
pub open spec fn emulate_ok(c: FmtView, f: FormatDesc) -> bool {
    match c.emulate {
        Pref::Only => f.emulated,
        Pref::Never => !f.emulated,
        _ => true,
    }
}

/// Whether `f` survives the compression filter, as `emulate_ok` does.
pub open spec fn compress_ok(c: FmtView, f: FormatDesc) -> bool {
    match c.compress {
        Pref::Only => f.compressed,
        Pref::Never => !f.compressed,
        _ => true,
    }
}

/// Whether `f` survives the priority filter: with a priority list present
/// its code must occur in the list; without one everything passes.
pub open spec fn priority_ok(c: FmtView, f: FormatDesc) -> bool {
    match c.priorities {
        Some(p) => listed(p, f.format@),
        None => true,
    }
}

/// Whether `f` survives all three filters of the format constraints.
pub open spec fn keep_format(c: FmtView, f: FormatDesc) -> bool {
    emulate_ok(c, f) && compress_ok(c, f) && priority_ok(c, f)
}

/// The priority rank used by the sort: the last index of the candidate's
/// code in the priority list, or 0 for everyone when no list is given.
pub open spec fn prio_of(c: FmtView, f: FormatDesc) -> int {
    match c.priorities {
        Some(p) => prio_index(p, f.format@),
        None => 0,
    }
}

/// The emulation tie-break rank: under `Prefer` an emulated format ranks
/// above a plain one, under `DoNotPrefer` below; the other preferences
/// contribute no ordering (filtering already resolved them).
pub open spec fn emu_rank(c: FmtView, f: FormatDesc) -> int {
    match c.emulate {
        Pref::Prefer => if f.emulated { 1int } else { 0int },
        Pref::DoNotPrefer => if f.emulated { 0int } else { 1int },
        _ => 0,
    }
}

/// The compression tie-break rank, as `emu_rank`.
pub open spec fn comp_rank(c: FmtView, f: FormatDesc) -> int {
    match c.compress {
        Pref::Prefer => if f.compressed { 1int } else { 0int },
        Pref::DoNotPrefer => if f.compressed { 0int } else { 1int },
        _ => 0,
    }
}

/// The composite sort order of the capability picker: `a` sorts no later
/// than `b`. A lower priority-list index sorts greater (preferred formats
/// go to the tail, where the picker pops); ties fall to the emulation
/// rank, then to the compression rank; full ties compare equal either
/// way.
pub open spec fn fmt_le(c: FmtView, a: FormatDesc, b: FormatDesc) -> bool {
    if prio_of(c, a) != prio_of(c, b) {
        prio_of(c, a) > prio_of(c, b)
    } else if emu_rank(c, a) != emu_rank(c, b) {
        emu_rank(c, a) < emu_rank(c, b)
    } else {
        comp_rank(c, a) <= comp_rank(c, b)
    }
}

/// `fmt_le` is total: any two candidates are ordered one way or the other.
pub proof fn lemma_fmt_le_total(c: FmtView, a: FormatDesc, b: FormatDesc)
    ensures
        fmt_le(c, a, b) || fmt_le(c, b, a),
{
}

/// `fmt_le` is transitive.
pub proof fn lemma_fmt_le_trans(c: FmtView, a: FormatDesc, b: FormatDesc, x: FormatDesc)
    requires
        fmt_le(c, a, b),
        fmt_le(c, b, x),
    ensures
        fmt_le(c, a, x),
{
}

/// The subsequence of `s` that survives the three filters, in order.
pub open spec fn filtered_formats(c: FmtView, s: Seq<FormatDesc>) -> Seq<FormatDesc>
    decreases s.len(),
{
    if s.len() == 0 {
        Seq::empty()
    } else {
        let rest = filtered_formats(c, s.drop_last());
        if keep_format(c, s.last()) {
            rest.push(s.last())
        } else {
            rest
        }
    }
}

/// Stable insertion of `x` into `s`: `x` goes after every element that
/// sorts no later than it, so equals keep their arrival order.
pub open spec fn fmt_insert(c: FmtView, s: Seq<FormatDesc>, x: FormatDesc) -> Seq<FormatDesc>
    decreases s.len(),
{
    if s.len() == 0 {
        seq![x]
    } else if fmt_le(c, s.last(), x) {
        s.push(x)
    } else {
        fmt_insert(c, s.drop_last(), x).push(s.last())
    }
}

/// Stable sort of `s` under `fmt_le`, by repeated insertion. Any stable
/// sort under a total preorder gives this same sequence.
pub open spec fn fmt_sort(c: FmtView, s: Seq<FormatDesc>) -> Seq<FormatDesc>
    decreases s.len(),
{
    if s.len() == 0 {
        Seq::empty()
    } else {
        fmt_insert(c, fmt_sort(c, s.drop_last()), s.last())
    }
}

/// Ascending order under `fmt_le`.
pub open spec fn fmt_sorted(c: FmtView, s: Seq<FormatDesc>) -> bool {
    forall|i: int, j: int| 0 <= i <= j < s.len() ==> #[trigger] fmt_le(c, s[i], s[j])
}

/// The order in which the picker yields candidates is the tail of this
/// sequence first: filtered and sorted when constraints are given, the
/// raw enumeration otherwise.
pub open spec fn format_pick_order(c: Option<FmtView>, s: Seq<FormatDesc>) -> Seq<FormatDesc> {
    match c {
        Some(f) => fmt_sort(f, filtered_formats(f, s)),
        None => s,
    }
}

proof fn lemma_filtered_formats_elems(c: FmtView, s: Seq<FormatDesc>)
    ensures
        forall|k: int| 0 <= k < filtered_formats(c, s).len()
            ==> keep_format(c, #[trigger] filtered_formats(c, s)[k]) && s.contains(filtered_formats(c, s)[k]),
    decreases s.len(),
{
    if s.len() > 0 {
        lemma_filtered_formats_elems(c, s.drop_last());
        assert forall|k: int| 0 <= k < filtered_formats(c, s).len()
            implies keep_format(c, #[trigger] filtered_formats(c, s)[k]) && s.contains(filtered_formats(c, s)[k]) by {
            let rest = filtered_formats(c, s.drop_last());
            if k < rest.len() {
                let y = rest[k];
                let i = choose|i: int| 0 <= i < s.drop_last().len() && s.drop_last()[i] == y;
                assert(s[i] == y);
            } else {
                assert(s[s.len() - 1] == s.last());
            }
        }
    }
}

proof fn lemma_fmt_insert_elems_aux(c: FmtView, s: Seq<FormatDesc>, x: FormatDesc)
    ensures
        forall|y: FormatDesc| s.contains(y) ==> fmt_insert(c, s, x).contains(y),
    decreases s.len(),
{
    let res = fmt_insert(c, s, x);
    if s.len() == 0 {
    } else if fmt_le(c, s.last(), x) {
        assert forall|y: FormatDesc| s.contains(y) implies res.contains(y) by {
            let i = choose|i: int| 0 <= i < s.len() && s[i] == y;
            assert(res[i] == y);
        }
    } else {
        lemma_fmt_insert_elems_aux(c, s.drop_last(), x);
        let inner = fmt_insert(c, s.drop_last(), x);
        assert forall|y: FormatDesc| s.contains(y) implies res.contains(y) by {
            let i = choose|i: int| 0 <= i < s.len() && s[i] == y;
            if i < s.len() - 1 {
                assert(s.drop_last()[i] == y);
                assert(s.drop_last().contains(y));
                let j = choose|j: int| 0 <= j < inner.len() && inner[j] == y;
                assert(res[j] == y);
            } else {
                assert(res[res.len() - 1] == s.last());
            }
        }
    }
}

proof fn lemma_fmt_insert_elems(c: FmtView, s: Seq<FormatDesc>, x: FormatDesc)
    ensures
        fmt_insert(c, s, x).len() == s.len() + 1,
        forall|k: int| 0 <= k < fmt_insert(c, s, x).len()
            ==> #[trigger] fmt_insert(c, s, x)[k] == x || s.contains(fmt_insert(c, s, x)[k]),
        fmt_insert(c, s, x).contains(x),
        forall|y: FormatDesc| s.contains(y) ==> fmt_insert(c, s, x).contains(y),
    decreases s.len(),
{
    lemma_fmt_insert_elems_aux(c, s, x);
    let res = fmt_insert(c, s, x);
    if s.len() == 0 {
        assert(res[0] == x);
    } else if fmt_le(c, s.last(), x) {
        assert(res[s.len() as int] == x);
        assert forall|k: int| 0 <= k < res.len()
            implies #[trigger] res[k] == x || s.contains(res[k]) by {
            if k < s.len() {
                assert(s[k] == res[k]);
            }
        }
    } else {
        lemma_fmt_insert_elems(c, s.drop_last(), x);
        let inner = fmt_insert(c, s.drop_last(), x);
        assert forall|k: int| 0 <= k < res.len()
            implies #[trigger] res[k] == x || s.contains(res[k]) by {
            if k < inner.len() {
                assert(res[k] == inner[k]);
                if inner[k] != x {
                    let i = choose|i: int| 0 <= i < s.drop_last().len() && s.drop_last()[i] == inner[k];
                    assert(s[i] == inner[k]);
                }
            } else {
                assert(res[k] == s.last());
                assert(s[s.len() - 1] == s.last());
            }
        }
        let i = choose|i: int| 0 <= i < inner.len() && inner[i] == x;
        assert(res[i] == x);
    }
}

proof fn lemma_fmt_insert_sorted(c: FmtView, s: Seq<FormatDesc>, x: FormatDesc)
    requires
        fmt_sorted(c, s),
    ensures
        fmt_sorted(c, fmt_insert(c, s, x)),
    decreases s.len(),
{
    let res = fmt_insert(c, s, x);
    if s.len() == 0 {
    } else if fmt_le(c, s.last(), x) {
        assert forall|i: int, j: int| 0 <= i <= j < res.len() implies #[trigger] fmt_le(c, res[i], res[j]) by {
            if j < s.len() {
                assert(fmt_le(c, s[i], s[j]));
            } else if i < s.len() {
                assert(fmt_le(c, s[i], s[s.len() - 1]));
                lemma_fmt_le_trans(c, s[i], s.last(), x);
            } else {
                lemma_fmt_le_total(c, x, x);
            }
        }
    } else {
        lemma_fmt_le_total(c, s.last(), x);
        lemma_fmt_insert_sorted(c, s.drop_last(), x);
        lemma_fmt_insert_elems(c, s.drop_last(), x);
        let inner = fmt_insert(c, s.drop_last(), x);
        assert forall|i: int, j: int| 0 <= i <= j < res.len() implies #[trigger] fmt_le(c, res[i], res[j]) by {
            if j < inner.len() {
                assert(fmt_le(c, inner[i], inner[j]));
            } else {
                assert(res[j] == s.last());
                if i < inner.len() {
                    if inner[i] == x {
                        assert(fmt_le(c, x, s.last()));
                    } else {
                        let k = choose|k: int| 0 <= k < s.drop_last().len() && s.drop_last()[k] == inner[i];
                        assert(s[k] == inner[i]);
                        assert(fmt_le(c, s[k], s[s.len() - 1]));
                    }
                } else {
                    assert(fmt_le(c, s[s.len() - 1], s[s.len() - 1]));
                }
            }
        }
    }
}

/// Everything the sorted sequence holds comes from `s`, it holds as many
/// elements as `s`, and nothing of `s` is lost: sorting permutes.
pub proof fn lemma_fmt_sort_elems(c: FmtView, s: Seq<FormatDesc>)
    ensures
        fmt_sort(c, s).len() == s.len(),
        forall|k: int| 0 <= k < fmt_sort(c, s).len() ==> s.contains(#[trigger] fmt_sort(c, s)[k]),
        forall|k: int| 0 <= k < s.len() ==> fmt_sort(c, s).contains(#[trigger] s[k]),
    decreases s.len(),
{
    if s.len() > 0 {
        lemma_fmt_sort_elems(c, s.drop_last());
        let sorted_rest = fmt_sort(c, s.drop_last());
        lemma_fmt_insert_elems(c, sorted_rest, s.last());
        assert forall|k: int| 0 <= k < fmt_sort(c, s).len()
            implies s.contains(#[trigger] fmt_sort(c, s)[k]) by {
            let y = fmt_sort(c, s)[k];
            if y == s.last() {
                assert(s[s.len() - 1] == s.last());
            } else {
                assert(sorted_rest.contains(y));
                let i = choose|i: int| 0 <= i < sorted_rest.len() && sorted_rest[i] == y;
                let j = choose|j: int| 0 <= j < s.drop_last().len() && s.drop_last()[j] == y;
                assert(s[j] == y);
            }
        }
        assert forall|k: int| 0 <= k < s.len() implies fmt_sort(c, s).contains(
            #[trigger] s[k],
        ) by {
            if k < s.len() - 1 {
                assert(s.drop_last()[k] == s[k]);
                assert(sorted_rest.contains(s.drop_last()[k]));
            } else {
                assert(s[k] == s.last());
            }
        }
    }
}

/// Every candidate the filter keeps survives into the filtered sequence.
proof fn lemma_filtered_formats_complete(c: FmtView, s: Seq<FormatDesc>, i: int)
    requires
        0 <= i < s.len(),
        keep_format(c, s[i]),
    ensures
        filtered_formats(c, s).contains(s[i]),
    decreases s.len(),
{
    if i == s.len() - 1 {
        let res = filtered_formats(c, s);
        assert(res[res.len() - 1] == s.last());
    } else {
        lemma_filtered_formats_complete(c, s.drop_last(), i);
        let rest = filtered_formats(c, s.drop_last());
        let k = choose|k: int| 0 <= k < rest.len() && rest[k] == s.drop_last()[i];
        if keep_format(c, s.last()) {
            assert(rest.push(s.last())[k] == rest[k]);
        }
    }
}

/// LAW. With constraints given, the capability picker's selection is the
/// most preferred surviving candidate: the first candidate it yields
/// survives the filters, and every candidate of the snapshot that
/// survives them sorts no later than it.
pub proof fn lemma_format_pick_best(c: FmtView, s: Seq<FormatDesc>, k: int)
    requires
        0 <= k < s.len(),
        keep_format(c, s[k]),
    ensures
        format_pick_order(Some(c), s).len() > 0,
        keep_format(c, format_pick_order(Some(c), s).last()),
        fmt_le(c, s[k], format_pick_order(Some(c), s).last()),
{
    let kept = filtered_formats(c, s);
    let order = format_pick_order(Some(c), s);
    lemma_filtered_formats_complete(c, s, k);
    lemma_filtered_formats_elems(c, s);
    lemma_fmt_sort_elems(c, kept);
    lemma_fmt_sort_sorted(c, kept);
    let i = choose|i: int| 0 <= i < kept.len() && kept[i] == s[k];
    assert(order.contains(kept[i]));
    let j = choose|j: int| 0 <= j < order.len() && order[j] == s[k];
    assert(fmt_le(c, order[j], order[order.len() - 1]));
    assert(kept.contains(order[order.len() - 1]));
}

/// The sort really sorts: its result is ascending under `fmt_le`.
pub proof fn lemma_fmt_sort_sorted(c: FmtView, s: Seq<FormatDesc>)
    ensures
        fmt_sorted(c, fmt_sort(c, s)),
    decreases s.len(),
{
    if s.len() > 0 {
        lemma_fmt_sort_sorted(c, s.drop_last());
        lemma_fmt_insert_sorted(c, fmt_sort(c, s.drop_last()), s.last());
    }
}

proof fn lemma_fmt_insert_at(c: FmtView, s: Seq<FormatDesc>, x: FormatDesc, j: int)
    requires
        0 <= j <= s.len(),
        forall|k: int| j <= k < s.len() ==> !fmt_le(c, #[trigger] s[k], x),
        j > 0 ==> fmt_le(c, s[j - 1], x),
    ensures
        fmt_insert(c, s, x) == s.insert(j, x),
    decreases s.len(),
{
    if s.len() == 0 {
        assert(fmt_insert(c, s, x) =~= s.insert(0, x));
    } else if j == s.len() {
        assert(fmt_le(c, s[j - 1], x));
        assert(fmt_insert(c, s, x) =~= s.insert(j, x));
    } else {
        assert(!fmt_le(c, s[s.len() - 1], x));
        lemma_fmt_insert_at(c, s.drop_last(), x, j);
        assert(fmt_insert(c, s.drop_last(), x).push(s.last()) =~= s.insert(j, x));
    }
}

proof fn lemma_prio_index_bounds(p: Seq<Seq<u8>>, code: Seq<u8>)
    ensures
        -1 <= prio_index(p, code) < p.len(),
        prio_index(p, code) >= 0 ==> p[prio_index(p, code)] == code,
        prio_index(p, code) >= 0 <==> listed(p, code),
    decreases p.len(),
{
    if p.len() > 0 {
        lemma_prio_index_bounds(p.drop_last(), code);
        if p.last() == code {
            assert(p[p.len() - 1] == p.last());
        } else if prio_index(p.drop_last(), code) >= 0 {
            let i = prio_index(p.drop_last(), code);
            assert(p[i] == p.drop_last()[i]);
        } else {
            if listed(p, code) {
                let i = choose|i: int| 0 <= i < p.len() && p[i] == code;
                if i < p.len() - 1 {
                    assert(p.drop_last()[i] == code);
                    assert(listed(p.drop_last(), code));
                }
            }
        }
    }
}

/// No two entries of the priority list name the same format code.
pub open spec fn distinct_codes(p: Seq<Seq<u8>>) -> bool {
    forall|i: int, j: int| 0 <= i < j < p.len() ==> p[i] != p[j]
}

proof fn lemma_prio_index_unique(p: Seq<Seq<u8>>, i: int, code: Seq<u8>)
    requires
        distinct_codes(p),
        0 <= i < p.len(),
        p[i] == code,
    ensures
        prio_index(p, code) == i,
    decreases p.len(),
{
    if p.last() == code {
        if i < p.len() - 1 {
            assert(p[i] == p[p.len() - 1]);
            assert(false);
        }
    } else {
        assert(i < p.len() - 1) by {
            if i == p.len() - 1 {
                assert(p.last() == code);
            }
        }
        assert(distinct_codes(p.drop_last())) by {
            assert forall|a: int, b: int| 0 <= a < b < p.drop_last().len()
                implies p.drop_last()[a] != p.drop_last()[b] by {
                assert(p.drop_last()[a] == p[a] && p.drop_last()[b] == p[b]);
            }
        }
        assert(p.drop_last()[i] == code);
        lemma_prio_index_unique(p.drop_last(), i, code);
    }
}

/// LAW. With a priority list present, the capability picker never yields
/// a candidate whose code is absent from the list: every element of the
/// pick order is listed.
pub proof fn lemma_priority_filters(c: FmtView, p: Seq<Seq<u8>>, s: Seq<FormatDesc>, k: int)
    requires
        c.priorities == Some(p),
        0 <= k < format_pick_order(Some(c), s).len(),
    ensures
        listed(p, format_pick_order(Some(c), s)[k].format@),
{
    let kept = filtered_formats(c, s);
    lemma_fmt_sort_elems(c, kept);
    lemma_filtered_formats_elems(c, s);
    let y = format_pick_order(Some(c), s)[k];
    assert(kept.contains(y));
    let i = choose|i: int| 0 <= i < kept.len() && kept[i] == y;
    assert(keep_format(c, kept[i]));
}

/// LAW. The priority list dominates every other preference: when two
/// distinct codes both stand in the list, every candidate carrying the
/// earlier-listed code ranks at least as preferred as one carrying the
/// later-listed code (`fmt_le` puts the latter below), and it stands
/// strictly later in the pick order, whatever the emulation and
/// compression preferences say.
pub proof fn lemma_priority_dominates(
    c: FmtView,
    p: Seq<Seq<u8>>,
    s: Seq<FormatDesc>,
    i: int,
    j: int,
    ka: int,
    kb: int,
)
    requires
        c.priorities == Some(p),
        distinct_codes(p),
        0 <= i < j < p.len(),
        0 <= ka < format_pick_order(Some(c), s).len(),
        0 <= kb < format_pick_order(Some(c), s).len(),
        format_pick_order(Some(c), s)[ka].format@ == p[i],
        format_pick_order(Some(c), s)[kb].format@ == p[j],
    ensures
        fmt_le(c, format_pick_order(Some(c), s)[kb], format_pick_order(Some(c), s)[ka]),
        !fmt_le(c, format_pick_order(Some(c), s)[ka], format_pick_order(Some(c), s)[kb]),
        kb < ka,
{
    let order = format_pick_order(Some(c), s);
    let a = order[ka];
    let b = order[kb];
    lemma_prio_index_unique(p, i, a.format@);
    lemma_prio_index_unique(p, j, b.format@);
    assert(prio_of(c, a) == i && prio_of(c, b) == j);
    lemma_fmt_sort_sorted(c, filtered_formats(c, s));
    if ka <= kb {
        assert(fmt_le(c, order[ka], order[kb]));
        assert(false);
    }
}

/// Byte-wise comparison of two format codes.
pub fn code_eq(a: &[u8; 4], b: &[u8; 4]) -> (r: bool)
    ensures
        r == code_matches(*a, *b),
{
    let r = a[0] == b[0] && a[1] == b[1] && a[2] == b[2] && a[3] == b[3];
    proof {
        if r {
            assert(a@ =~= b@);
        }
    }
    r
}

/// The index of the last occurrence of `code` in `p`, if any.
fn prio_lookup(p: &Vec<[u8; 4]>, code: &[u8; 4]) -> (r: Option<usize>)
    ensures
        match r {
            Some(i) => prio_index(codes_view(p@), code@) == i,
            None => prio_index(codes_view(p@), code@) == -1,
        },
{
    let ghost cv = codes_view(p@);
    let mut j: usize = p.len();
    proof {
        assert(cv.take(cv.len() as int) =~= cv);
    }
    while j > 0
        invariant
            j <= p@.len(),
            cv == codes_view(p@),
            cv.len() == p@.len(),
            prio_index(cv, code@) == prio_index(cv.take(j as int), code@),
        decreases j,
    {
        if code_eq(&p[j - 1], code) {
            proof {
                assert(cv.take(j as int).last() == cv[j - 1]);
            }
            return Some(j - 1);
        }
        proof {
            assert(cv.take(j as int).last() == cv[j - 1]);
            assert(cv.take(j as int).drop_last() =~= cv.take(j - 1));
        }
        j = j - 1;
    }
    proof {
        assert(cv.take(0) =~= Seq::<Seq<u8>>::empty());
    }
    None
}

/// Whether the code occurs in the priority list.
fn listed_exec(p: &Vec<[u8; 4]>, code: &[u8; 4]) -> (r: bool)
    ensures
        r == listed(codes_view(p@), code@),
{
    proof {
        lemma_prio_index_bounds(codes_view(p@), code@);
    }
    match prio_lookup(p, code) {
        Some(_) => true,
        None => false,
    }
}

/// Whether `f` survives all three filters.
fn keep_format_exec(c: &Fmt, f: &FormatDesc) -> (r: bool)
    ensures
        r == keep_format(fmt_view(*c), *f),
{
    let emu = match c.emulate {
        Pref::Only => f.emulated,
        Pref::Never => !f.emulated,
        _ => true,
    };
    let comp = match c.compress {
        Pref::Only => f.compressed,
        Pref::Never => !f.compressed,
        _ => true,
    };
    let prio = match &c.priorities {
        Some(p) => listed_exec(p, &f.format),
        None => true,
    };
    emu && comp && prio
}

/// Decides `fmt_le` on two candidates.
fn fmt_le_exec(c: &Fmt, a: &FormatDesc, b: &FormatDesc) -> (r: bool)
    ensures
        r == fmt_le(fmt_view(*c), *a, *b),
{
    let (pa, pb) = match &c.priorities {
        Some(p) => (prio_lookup(p, &a.format), prio_lookup(p, &b.format)),
        None => (None, None),
    };
    let prio_tie: bool;
    let prio_le: bool;
    match (pa, pb) {
        (Some(i), Some(j)) => {
            prio_tie = i == j;
            prio_le = i > j;
        },
        (Some(_), None) => {
            prio_tie = false;
            prio_le = true;
        },
        (None, Some(_)) => {
            prio_tie = false;
            prio_le = false;
        },
        (None, None) => {
            prio_tie = true;
            prio_le = false;
        },
    }
    if !prio_tie {
        return prio_le;
    }
    let ea: u8 = match c.emulate {
        Pref::Prefer => if a.emulated { 1 } else { 0 },
        Pref::DoNotPrefer => if a.emulated { 0 } else { 1 },
        _ => 0,
    };
    let eb: u8 = match c.emulate {
        Pref::Prefer => if b.emulated { 1 } else { 0 },
        Pref::DoNotPrefer => if b.emulated { 0 } else { 1 },
        _ => 0,
    };
    if ea != eb {
        return ea < eb;
    }
    let ca: u8 = match c.compress {
        Pref::Prefer => if a.compressed { 1 } else { 0 },
        Pref::DoNotPrefer => if a.compressed { 0 } else { 1 },
        _ => 0,
    };
    let cb: u8 = match c.compress {
        Pref::Prefer => if b.compressed { 1 } else { 0 },
        Pref::DoNotPrefer => if b.compressed { 0 } else { 1 },
        _ => 0,
    };
    ca <= cb
}

/// Inserts `x` into the already sorted `v` at the position the stable
/// insertion sort assigns it.
fn insert_format(c: &Fmt, v: &mut Vec<FormatDesc>, x: FormatDesc)
    ensures
        final(v)@ == fmt_insert(fmt_view(*c), old(v)@, x),
{
    let ghost cv = fmt_view(*c);
    let mut j: usize = v.len();
    loop
        invariant
            j <= v@.len(),
            v@ == old(v)@,
            cv == fmt_view(*c),
            forall|k: int| j <= k < v@.len() ==> !fmt_le(cv, #[trigger] v@[k], x),
        ensures
            j <= v@.len(),
            v@ == old(v)@,
            forall|k: int| j <= k < v@.len() ==> !fmt_le(cv, #[trigger] v@[k], x),
            j > 0 ==> fmt_le(cv, v@[j - 1], x),
        decreases j,
    {
        if j == 0 {
            break;
        }
        if fmt_le_exec(c, &v[j - 1], &x) {
            break;
        }
        j = j - 1;
    }
    proof {
        lemma_fmt_insert_at(cv, v@, x, j as int);
    }
    v.insert(j, x);
}

/// Enumerates format candidates in preference order. With constraints
/// given, the first call filters and sorts the snapshot once; candidates
/// then come from the tail, most preferred first.
pub struct FormatPicker {
    formats: Vec<FormatDesc>,
    constraints: Option<Fmt>,
    sorted: bool,
}

impl FormatPicker {
    /// The candidates this picker will still yield, in sequence order;
    /// the next one to come is the last.
    pub closed spec fn remaining(self) -> Seq<FormatDesc> {
        if self.sorted {
            self.formats@
        } else {
            format_pick_order(opt_fmt_view(self.constraints), self.formats@)
        }
    }

    /// A fresh picker over a snapshot of the device's enumerated formats.
    pub fn new(formats: Vec<FormatDesc>, constraints: Option<Fmt>) -> (p: FormatPicker)
        ensures
            p.remaining() == format_pick_order(opt_fmt_view(constraints), formats@),
    {
        FormatPicker { formats, constraints, sorted: false }
    }

    /// Filters `formats` by the constraints and sorts what is left so the
    /// most preferred candidate ends up last.
    pub fn sort(constraints: &Fmt, formats: &mut Vec<FormatDesc>)
        ensures
            final(formats)@ == fmt_sort(
                fmt_view(*constraints),
                filtered_formats(fmt_view(*constraints), old(formats)@),
            ),
    {
        let c = constraints;
        let ghost cv = fmt_view(*constraints);
        let mut kept: Vec<FormatDesc> = Vec::new();
        let mut i: usize = 0;
        while i < formats.len()
            invariant
                i <= formats@.len(),
                formats@ == old(formats)@,
                cv == fmt_view(*c),
                kept@ == filtered_formats(cv, formats@.take(i as int)),
            decreases formats@.len() - i,
        {
            proof {
                assert(formats@.take(i + 1).drop_last() =~= formats@.take(i as int));
                assert(formats@.take(i + 1).last() == formats@[i as int]);
            }
            if keep_format_exec(c, &formats[i]) {
                kept.push(formats[i]);
            }
            i = i + 1;
        }
        proof {
            assert(formats@.take(formats@.len() as int) =~= formats@);
        }
        let mut sorted_out: Vec<FormatDesc> = Vec::new();
        let mut k: usize = 0;
        while k < kept.len()
            invariant
                k <= kept@.len(),
                cv == fmt_view(*c),
                kept@ == filtered_formats(cv, old(formats)@),
                sorted_out@ == fmt_sort(cv, kept@.take(k as int)),
            decreases kept@.len() - k,
        {
            proof {
                assert(kept@.take(k + 1).drop_last() =~= kept@.take(k as int));
                assert(kept@.take(k + 1).last() == kept@[k as int]);
            }
            insert_format(c, &mut sorted_out, kept[k]);
            k = k + 1;
        }
        proof {
            assert(kept@.take(kept@.len() as int) =~= kept@);
        }
        *formats = sorted_out;
    }

    /// Yields the most preferred candidate not yet returned, or nothing
    /// when the (filtered) space is exhausted.
    pub fn next(&mut self) -> (r: Option<FormatDesc>)
        ensures
            old(self).remaining().len() == 0 ==> r is None && final(self).remaining() == old(self).remaining(),
            old(self).remaining().len() > 0 ==> r == Some(old(self).remaining().last())
                && final(self).remaining() == old(self).remaining().drop_last(),
    {
        if !self.sorted {
            match &self.constraints {
                Some(c) => {
                    FormatPicker::sort(c, &mut self.formats);
                },
                None => {},
            }
            self.sorted = true;
        }
        proof {
            if self.formats@.len() > 0 {
                assert(self.formats@.subrange(0, self.formats@.len() - 1) =~= self.formats@.drop_last());
            }
        }
        self.formats.pop()
    }
}

} // verus!
