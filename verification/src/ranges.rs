//! The range picker for the resolution and frame-interval axes: filters a
//! discrete candidate space against an optional bound and orders it so
//! that the extreme value satisfying the bound is yielded first.
//!
//! The two axes compare differently. A resolution `(width, height)`
//! carries the lexicographic order of the pair. A frame interval
//! `(numerator, denominator)` is the fraction `n/d` in seconds per frame
//! and compares by that ratio value, not by lexical pair order: `(1, 30)`
//! is a shorter interval than `(1, 15)`, whatever the pairs say
//! lexically.

use vstd::prelude::*;
use crate::constraints::{Dir, DisStepConstraint};

verus! {

/// A capability space for one axis: either an explicit finite list of
/// `(x, y)` pairs or a `{min, max, step}` range. Resolutions use the pair
/// as width and height, frame intervals as numerator and denominator of
/// seconds per frame.
#[derive(Debug)]
pub enum DisStepInfo {
    Discretes(Vec<(u32, u32)>),
    Stepwise { min: (u32, u32), max: (u32, u32), step: (u32, u32) },
}

/// Which axis a picker serves, and with it how its pairs compare.
#[derive(Clone, Copy, Debug, PartialEq, Eq)]
pub enum Axis {
    Resolution,
    Interval,
}

/// Lexicographic order on pairs, the order resolutions carry.
pub open spec fn lex_le(a: (u32, u32), b: (u32, u32)) -> bool {
    a.0 < b.0 || (a.0 == b.0 && a.1 <= b.1)
}

/// Ratio order on pairs read as fractions: `a.0/a.1 <= b.0/b.1`, decided
/// by cross-multiplication. The order frame intervals carry.
pub open spec fn ratio_le(a: (u32, u32), b: (u32, u32)) -> bool {
    (a.0 as int) * (b.1 as int) <= (b.0 as int) * (a.1 as int)
}

/// The comparison of one axis.
pub open spec fn axis_le(axis: Axis, a: (u32, u32), b: (u32, u32)) -> bool {
    match axis {
        Axis::Resolution => lex_le(a, b),
        Axis::Interval => ratio_le(a, b),
    }
}

/// What a well-formed pair of one axis is: an interval needs a positive
/// denominator for its ratio to mean anything (cross-multiplication is
/// not transitive across zero denominators); a resolution is
/// unconstrained.
pub open spec fn axis_wf(axis: Axis, p: (u32, u32)) -> bool {
    match axis {
        Axis::Resolution => true,
        Axis::Interval => p.1 > 0,
    }
}

/// Every pair of the sequence is well-formed for the axis.
pub open spec fn pairs_wf(axis: Axis, s: Seq<(u32, u32)>) -> bool {
    forall|i: int| 0 <= i < s.len() ==> axis_wf(axis, #[trigger] s[i])
}

/// `axis_le` is total: any two pairs are ordered one way or the other.
pub proof fn lemma_axis_le_total(axis: Axis, a: (u32, u32), b: (u32, u32))
    ensures
        axis_le(axis, a, b) || axis_le(axis, b, a),
{
}

/// `axis_le` is transitive on well-formed pairs.
pub proof fn lemma_axis_le_trans(axis: Axis, a: (u32, u32), b: (u32, u32), x: (u32, u32))
    requires
        axis_wf(axis, a),
        axis_wf(axis, b),
        axis_wf(axis, x),
        axis_le(axis, a, b),
        axis_le(axis, b, x),
    ensures
        axis_le(axis, a, x),
{
    match axis {
        Axis::Resolution => {},
        Axis::Interval => {
            let a0 = a.0 as int;
            let a1 = a.1 as int;
            let b0 = b.0 as int;
            let b1 = b.1 as int;
            let x0 = x.0 as int;
            let x1 = x.1 as int;
            assert(a0 * x1 <= x0 * a1) by (nonlinear_arith)
                requires
                    a0 * b1 <= b0 * a1,
                    b0 * x1 <= x0 * b1,
                    a1 >= 0,
                    b1 > 0,
                    x1 >= 0,
                    a0 >= 0,
                    b0 >= 0,
                    x0 >= 0,
            ;
        },
    }
}

/// The sort order of the range picker: ascending when the highest value
/// is wanted, descending when the lowest is, so the best candidate sorts
/// last either way.
pub open spec fn dir_le(axis: Axis, d: Dir, a: (u32, u32), b: (u32, u32)) -> bool {
    match d {
        Dir::Highest => axis_le(axis, a, b),
        Dir::Lowest => axis_le(axis, b, a),
    }
}

/// `dir_le` is total.
pub proof fn lemma_dir_le_total(axis: Axis, d: Dir, a: (u32, u32), b: (u32, u32))
    ensures
        dir_le(axis, d, a, b) || dir_le(axis, d, b, a),
{
    lemma_axis_le_total(axis, a, b);
}

/// `dir_le` is transitive on well-formed pairs.
pub proof fn lemma_dir_le_trans(axis: Axis, d: Dir, a: (u32, u32), b: (u32, u32), x: (u32, u32))
    requires
        axis_wf(axis, a),
        axis_wf(axis, b),
        axis_wf(axis, x),
        dir_le(axis, d, a, b),
        dir_le(axis, d, b, x),
    ensures
        dir_le(axis, d, a, x),
{
    match d {
        Dir::Highest => lemma_axis_le_trans(axis, a, b, x),
        Dir::Lowest => lemma_axis_le_trans(axis, x, b, a),
    }
}

/// Whether `r` survives the bound: with `Highest` the limit caps the
/// ceiling (`r <= limit`), with `Lowest` it sets the floor
/// (`r >= limit`), each in the axis's own order; no limit keeps
/// everything.
pub open spec fn within_limit(axis: Axis, c: DisStepConstraint, r: (u32, u32)) -> bool {
    match c.limit {
        Some(l) => match c.dir {
            Dir::Highest => axis_le(axis, r, l),
            Dir::Lowest => axis_le(axis, l, r),
        },
        None => true,
    }
}

/// The subsequence of `s` that survives the bound, in order.
pub open spec fn filtered_pairs(axis: Axis, c: DisStepConstraint, s: Seq<(u32, u32)>) -> Seq<
    (u32, u32),
>
    decreases s.len(),
{
    if s.len() == 0 {
        Seq::empty()
    } else {
        let rest = filtered_pairs(axis, c, s.drop_last());
        if within_limit(axis, c, s.last()) {
            rest.push(s.last())
        } else {
            rest
        }
    }
}

/// Stable insertion of `x` into `s` under the directed order.
pub open spec fn pair_insert(axis: Axis, d: Dir, s: Seq<(u32, u32)>, x: (u32, u32)) -> Seq<
    (u32, u32),
>
    decreases s.len(),
{
    if s.len() == 0 {
        seq![x]
    } else if dir_le(axis, d, s.last(), x) {
        s.push(x)
    } else {
        pair_insert(axis, d, s.drop_last(), x).push(s.last())
    }
}

/// Stable sort of `s` under the directed order, by repeated insertion.
pub open spec fn pair_sort(axis: Axis, d: Dir, s: Seq<(u32, u32)>) -> Seq<(u32, u32)>
    decreases s.len(),
{
    if s.len() == 0 {
        Seq::empty()
    } else {
        pair_insert(axis, d, pair_sort(axis, d, s.drop_last()), s.last())
    }
}

/// Ascending order under `dir_le`.
pub open spec fn pair_sorted(axis: Axis, d: Dir, s: Seq<(u32, u32)>) -> bool {
    forall|i: int, j: int| 0 <= i <= j < s.len() ==> #[trigger] dir_le(axis, d, s[i], s[j])
}

/// The order in which the picker yields candidates is the tail of this
/// sequence first: filtered and sorted when a constraint is given, the
/// raw enumeration otherwise.
pub open spec fn pair_pick_order(
    axis: Axis,
    c: Option<DisStepConstraint>,
    s: Seq<(u32, u32)>,
) -> Seq<(u32, u32)> {
    match c {
        Some(cc) => pair_sort(axis, cc.dir, filtered_pairs(axis, cc, s)),
        None => s,
    }
}

/// The discrete candidates of a capability space; a stepwise space
/// contributes none here (see `DisStepPicker::next`).
pub open spec fn discretes_of(info: DisStepInfo) -> Seq<(u32, u32)> {
    match info {
        DisStepInfo::Discretes(d) => d@,
        DisStepInfo::Stepwise { .. } => Seq::empty(),
    }
}

proof fn lemma_pair_insert_elems_aux(axis: Axis, d: Dir, s: Seq<(u32, u32)>, x: (u32, u32))
    ensures
        forall|y: (u32, u32)| s.contains(y) ==> pair_insert(axis, d, s, x).contains(y),
    decreases s.len(),
{
    let res = pair_insert(axis, d, s, x);
    if s.len() == 0 {
    } else if dir_le(axis, d, s.last(), x) {
        assert forall|y: (u32, u32)| s.contains(y) implies res.contains(y) by {
            let i = choose|i: int| 0 <= i < s.len() && s[i] == y;
            assert(res[i] == y);
        }
    } else {
        lemma_pair_insert_elems_aux(axis, d, s.drop_last(), x);
        let inner = pair_insert(axis, d, s.drop_last(), x);
        assert forall|y: (u32, u32)| s.contains(y) implies res.contains(y) by {
            let i = choose|i: int| 0 <= i < s.len() && s[i] == y;
            if i < s.len() - 1 {
                assert(s.drop_last()[i] == y);
                assert(s.drop_last().contains(y));
                let j = choose|j: int| 0 <= j < inner.len() && inner[j] == y;
                assert(res[j] == y);
            } else {
                assert(res[res.len() - 1] == s.last());
            }
        }
    }
}

proof fn lemma_pair_insert_elems(axis: Axis, d: Dir, s: Seq<(u32, u32)>, x: (u32, u32))
    ensures
        pair_insert(axis, d, s, x).len() == s.len() + 1,
        forall|k: int| 0 <= k < pair_insert(axis, d, s, x).len()
            ==> #[trigger] pair_insert(axis, d, s, x)[k] == x || s.contains(
            pair_insert(axis, d, s, x)[k],
        ),
        pair_insert(axis, d, s, x).contains(x),
        forall|y: (u32, u32)| s.contains(y) ==> pair_insert(axis, d, s, x).contains(y),
    decreases s.len(),
{
    lemma_pair_insert_elems_aux(axis, d, s, x);
    let res = pair_insert(axis, d, s, x);
    if s.len() == 0 {
        assert(res[0] == x);
    } else if dir_le(axis, d, s.last(), x) {
        assert(res[s.len() as int] == x);
        assert forall|k: int| 0 <= k < res.len()
            implies #[trigger] res[k] == x || s.contains(res[k]) by {
            if k < s.len() {
                assert(s[k] == res[k]);
            }
        }
    } else {
        lemma_pair_insert_elems(axis, d, s.drop_last(), x);
        let inner = pair_insert(axis, d, s.drop_last(), x);
        assert forall|k: int| 0 <= k < res.len()
            implies #[trigger] res[k] == x || s.contains(res[k]) by {
            if k < inner.len() {
                assert(res[k] == inner[k]);
                if inner[k] != x {
                    let i = choose|i: int| 0 <= i < s.drop_last().len() && s.drop_last()[i]
                        == inner[k];
                    assert(s[i] == inner[k]);
                }
            } else {
                assert(res[k] == s.last());
                assert(s[s.len() - 1] == s.last());
            }
        }
        let i = choose|i: int| 0 <= i < inner.len() && inner[i] == x;
        assert(res[i] == x);
    }
}

proof fn lemma_pair_insert_sorted(axis: Axis, d: Dir, s: Seq<(u32, u32)>, x: (u32, u32))
    requires
        pair_sorted(axis, d, s),
        pairs_wf(axis, s),
        axis_wf(axis, x),
    ensures
        pair_sorted(axis, d, pair_insert(axis, d, s, x)),
    decreases s.len(),
{
    let res = pair_insert(axis, d, s, x);
    if s.len() == 0 {
    } else if dir_le(axis, d, s.last(), x) {
        assert forall|i: int, j: int| 0 <= i <= j < res.len() implies #[trigger] dir_le(
            axis,
            d,
            res[i],
            res[j],
        ) by {
            if j < s.len() {
                assert(dir_le(axis, d, s[i], s[j]));
            } else if i < s.len() {
                assert(dir_le(axis, d, s[i], s[s.len() - 1]));
                lemma_dir_le_trans(axis, d, s[i], s.last(), x);
            } else {
                lemma_dir_le_total(axis, d, x, x);
            }
        }
    } else {
        lemma_dir_le_total(axis, d, s.last(), x);
        assert(pairs_wf(axis, s.drop_last())) by {
            assert forall|i: int| 0 <= i < s.drop_last().len() implies axis_wf(
                axis,
                #[trigger] s.drop_last()[i],
            ) by {
                assert(s.drop_last()[i] == s[i]);
            }
        }
        lemma_pair_insert_sorted(axis, d, s.drop_last(), x);
        lemma_pair_insert_elems(axis, d, s.drop_last(), x);
        let inner = pair_insert(axis, d, s.drop_last(), x);
        assert forall|i: int, j: int| 0 <= i <= j < res.len() implies #[trigger] dir_le(
            axis,
            d,
            res[i],
            res[j],
        ) by {
            if j < inner.len() {
                assert(dir_le(axis, d, inner[i], inner[j]));
            } else {
                assert(res[j] == s.last());
                if i < inner.len() {
                    if inner[i] == x {
                        assert(dir_le(axis, d, x, s.last()));
                    } else {
                        let k = choose|k: int| 0 <= k < s.drop_last().len() && s.drop_last()[k]
                            == inner[i];
                        assert(s[k] == inner[i]);
                        assert(dir_le(axis, d, s[k], s[s.len() - 1]));
                    }
                } else {
                    assert(dir_le(axis, d, s[s.len() - 1], s[s.len() - 1]));
                }
            }
        }
    }
}

/// Everything the sorted sequence holds comes from `s`, it holds as many
/// elements as `s`, and nothing of `s` is lost: sorting permutes.
pub proof fn lemma_pair_sort_elems(axis: Axis, d: Dir, s: Seq<(u32, u32)>)
    ensures
        pair_sort(axis, d, s).len() == s.len(),
        forall|k: int| 0 <= k < pair_sort(axis, d, s).len() ==> s.contains(
            #[trigger] pair_sort(axis, d, s)[k],
        ),
        forall|k: int| 0 <= k < s.len() ==> pair_sort(axis, d, s).contains(#[trigger] s[k]),
    decreases s.len(),
{
    if s.len() > 0 {
        lemma_pair_sort_elems(axis, d, s.drop_last());
        let sorted_rest = pair_sort(axis, d, s.drop_last());
        lemma_pair_insert_elems(axis, d, sorted_rest, s.last());
        assert forall|k: int| 0 <= k < pair_sort(axis, d, s).len()
            implies s.contains(#[trigger] pair_sort(axis, d, s)[k]) by {
            let y = pair_sort(axis, d, s)[k];
            if y == s.last() {
                assert(s[s.len() - 1] == s.last());
            } else {
                assert(sorted_rest.contains(y));
                let i = choose|i: int| 0 <= i < sorted_rest.len() && sorted_rest[i] == y;
                let j = choose|j: int| 0 <= j < s.drop_last().len() && s.drop_last()[j] == y;
                assert(s[j] == y);
            }
        }
        assert forall|k: int| 0 <= k < s.len() implies pair_sort(axis, d, s).contains(
            #[trigger] s[k],
        ) by {
            if k < s.len() - 1 {
                assert(s.drop_last()[k] == s[k]);
                assert(sorted_rest.contains(s.drop_last()[k]));
            } else {
                assert(s[k] == s.last());
            }
        }
    }
}

/// The sort really sorts: on well-formed pairs its result is ascending
/// under `dir_le`.
pub proof fn lemma_pair_sort_sorted(axis: Axis, d: Dir, s: Seq<(u32, u32)>)
    requires
        pairs_wf(axis, s),
    ensures
        pair_sorted(axis, d, pair_sort(axis, d, s)),
    decreases s.len(),
{
    if s.len() > 0 {
        assert(pairs_wf(axis, s.drop_last())) by {
            assert forall|i: int| 0 <= i < s.drop_last().len() implies axis_wf(
                axis,
                #[trigger] s.drop_last()[i],
            ) by {
                assert(s.drop_last()[i] == s[i]);
            }
        }
        lemma_pair_sort_sorted(axis, d, s.drop_last());
        let sorted_rest = pair_sort(axis, d, s.drop_last());
        assert(pairs_wf(axis, sorted_rest)) by {
            lemma_pair_sort_elems(axis, d, s.drop_last());
            assert forall|i: int| 0 <= i < sorted_rest.len() implies axis_wf(
                axis,
                #[trigger] sorted_rest[i],
            ) by {
                let y = sorted_rest[i];
                let j = choose|j: int| 0 <= j < s.drop_last().len() && s.drop_last()[j] == y;
                assert(s[j] == y);
            }
        }
        assert(axis_wf(axis, s.last())) by {
            assert(s[s.len() - 1] == s.last());
        }
        lemma_pair_insert_sorted(axis, d, sorted_rest, s.last());
    }
}

/// Every element the filter keeps satisfies the bound and comes from `s`.
pub proof fn lemma_filtered_pairs_elems(axis: Axis, c: DisStepConstraint, s: Seq<(u32, u32)>)
    ensures
        forall|k: int| 0 <= k < filtered_pairs(axis, c, s).len()
            ==> within_limit(axis, c, #[trigger] filtered_pairs(axis, c, s)[k]) && s.contains(
            filtered_pairs(axis, c, s)[k],
        ),
    decreases s.len(),
{
    if s.len() > 0 {
        lemma_filtered_pairs_elems(axis, c, s.drop_last());
        assert forall|k: int| 0 <= k < filtered_pairs(axis, c, s).len()
            implies within_limit(axis, c, #[trigger] filtered_pairs(axis, c, s)[k]) && s.contains(
            filtered_pairs(axis, c, s)[k],
        ) by {
            let rest = filtered_pairs(axis, c, s.drop_last());
            if k < rest.len() {
                let y = rest[k];
                let i = choose|i: int| 0 <= i < s.drop_last().len() && s.drop_last()[i] == y;
                assert(s[i] == y);
            } else {
                assert(s[s.len() - 1] == s.last());
            }
        }
    }
}

/// Every candidate that satisfies the bound survives the filter.
pub proof fn lemma_filtered_pairs_complete(
    axis: Axis,
    c: DisStepConstraint,
    s: Seq<(u32, u32)>,
    i: int,
)
    requires
        0 <= i < s.len(),
        within_limit(axis, c, s[i]),
    ensures
        filtered_pairs(axis, c, s).contains(s[i]),
    decreases s.len(),
{
    if i == s.len() - 1 {
        let res = filtered_pairs(axis, c, s);
        assert(res[res.len() - 1] == s.last());
    } else {
        lemma_filtered_pairs_complete(axis, c, s.drop_last(), i);
        let rest = filtered_pairs(axis, c, s.drop_last());
        let k = choose|k: int| 0 <= k < rest.len() && rest[k] == s.drop_last()[i];
        if within_limit(axis, c, s.last()) {
            assert(rest.push(s.last())[k] == rest[k]);
        }
    }
}

/// LAW. With a constraint present, the range picker's selection is the
/// extreme value satisfying the limit: the first candidate it yields
/// satisfies the limit, and every candidate of the space that satisfies
/// the limit ranks no higher in the wanted direction of the axis's
/// order.
pub proof fn lemma_pick_order_best(axis: Axis, c: DisStepConstraint, s: Seq<(u32, u32)>, k: int)
    requires
        0 <= k < s.len(),
        pairs_wf(axis, s),
        within_limit(axis, c, s[k]),
    ensures
        pair_pick_order(axis, Some(c), s).len() > 0,
        within_limit(axis, c, pair_pick_order(axis, Some(c), s).last()),
        dir_le(axis, c.dir, s[k], pair_pick_order(axis, Some(c), s).last()),
{
    let kept = filtered_pairs(axis, c, s);
    let order = pair_pick_order(axis, Some(c), s);
    lemma_filtered_pairs_complete(axis, c, s, k);
    lemma_filtered_pairs_elems(axis, c, s);
    lemma_pair_sort_elems(axis, c.dir, kept);
    assert(pairs_wf(axis, kept)) by {
        assert forall|i: int| 0 <= i < kept.len() implies axis_wf(axis, #[trigger] kept[i]) by {
            let y = kept[i];
            let j = choose|j: int| 0 <= j < s.len() && s[j] == y;
        }
    }
    lemma_pair_sort_sorted(axis, c.dir, kept);
    let i = choose|i: int| 0 <= i < kept.len() && kept[i] == s[k];
    assert(order.contains(kept[i]));
    let j = choose|j: int| 0 <= j < order.len() && order[j] == s[k];
    assert(dir_le(axis, c.dir, order[j], order[order.len() - 1]));
    assert(kept.contains(order[order.len() - 1]));
}

fn lex_le_exec(a: &(u32, u32), b: &(u32, u32)) -> (r: bool)
    ensures
        r == lex_le(*a, *b),
{
    a.0 < b.0 || (a.0 == b.0 && a.1 <= b.1)
}

fn ratio_le_exec(a: &(u32, u32), b: &(u32, u32)) -> (r: bool)
    ensures
        r == ratio_le(*a, *b),
{
    proof {
        assert((a.0 as int) * (b.1 as int) <= (0xffff_ffffu32 as int) * (0xffff_ffffu32 as int))
            by (nonlinear_arith)
            requires
                a.0 <= 0xffff_ffffu32,
                b.1 <= 0xffff_ffffu32,
        ;
        assert((b.0 as int) * (a.1 as int) <= (0xffff_ffffu32 as int) * (0xffff_ffffu32 as int))
            by (nonlinear_arith)
            requires
                b.0 <= 0xffff_ffffu32,
                a.1 <= 0xffff_ffffu32,
        ;
    }
    (a.0 as u64) * (b.1 as u64) <= (b.0 as u64) * (a.1 as u64)
}

fn axis_le_exec(axis: &Axis, a: &(u32, u32), b: &(u32, u32)) -> (r: bool)
    ensures
        r == axis_le(*axis, *a, *b),
{
    match axis {
        Axis::Resolution => lex_le_exec(a, b),
        Axis::Interval => ratio_le_exec(a, b),
    }
}

fn dir_le_exec(axis: &Axis, d: &Dir, a: &(u32, u32), b: &(u32, u32)) -> (r: bool)
    ensures
        r == dir_le(*axis, *d, *a, *b),
{
    match d {
        Dir::Highest => axis_le_exec(axis, a, b),
        Dir::Lowest => axis_le_exec(axis, b, a),
    }
}

fn within_limit_exec(axis: &Axis, c: &DisStepConstraint, r: &(u32, u32)) -> (res: bool)
    ensures
        res == within_limit(*axis, *c, *r),
{
    match &c.limit {
        Some(l) => match c.dir {
            Dir::Highest => axis_le_exec(axis, r, l),
            Dir::Lowest => axis_le_exec(axis, l, r),
        },
        None => true,
    }
}

proof fn lemma_pair_insert_at(axis: Axis, d: Dir, s: Seq<(u32, u32)>, x: (u32, u32), j: int)
    requires
        0 <= j <= s.len(),
        forall|k: int| j <= k < s.len() ==> !dir_le(axis, d, #[trigger] s[k], x),
        j > 0 ==> dir_le(axis, d, s[j - 1], x),
    ensures
        pair_insert(axis, d, s, x) == s.insert(j, x),
    decreases s.len(),
{
    if s.len() == 0 {
        assert(pair_insert(axis, d, s, x) =~= s.insert(0, x));
    } else if j == s.len() {
        assert(dir_le(axis, d, s[j - 1], x));
        assert(pair_insert(axis, d, s, x) =~= s.insert(j, x));
    } else {
        assert(!dir_le(axis, d, s[s.len() - 1], x));
        lemma_pair_insert_at(axis, d, s.drop_last(), x, j);
        assert(pair_insert(axis, d, s.drop_last(), x).push(s.last()) =~= s.insert(j, x));
    }
}

fn insert_pair(axis: &Axis, d: &Dir, v: &mut Vec<(u32, u32)>, x: (u32, u32))
    ensures
        final(v)@ == pair_insert(*axis, *d, old(v)@, x),
{
    let mut j: usize = v.len();
    loop
        invariant
            j <= v@.len(),
            v@ == old(v)@,
            forall|k: int| j <= k < v@.len() ==> !dir_le(*axis, *d, #[trigger] v@[k], x),
        ensures
            j <= v@.len(),
            v@ == old(v)@,
            forall|k: int| j <= k < v@.len() ==> !dir_le(*axis, *d, #[trigger] v@[k], x),
            j > 0 ==> dir_le(*axis, *d, v@[j - 1], x),
        decreases j,
    {
        if j == 0 {
            break;
        }
        if dir_le_exec(axis, d, &v[j - 1], &x) {
            break;
        }
        j = j - 1;
    }
    proof {
        lemma_pair_insert_at(*axis, *d, v@, x, j as int);
    }
    v.insert(j, x);
}

/// Enumerates one axis's candidates in preference order. Only discrete
/// spaces are resolvable; direction-aware stepwise selection is
/// deliberately unresolved, and that explicit failure stands as a
/// precondition instead of a panic.
pub struct DisStepPicker {
    info: DisStepInfo,
    constraints: Option<DisStepConstraint>,
    axis: Axis,
    sorted: bool,
}

impl DisStepPicker {
    /// Whether the underlying space is discrete.
    pub closed spec fn is_discrete(self) -> bool {
        self.info is Discretes
    }

    /// Which axis this picker compares by.
    pub closed spec fn axis(self) -> Axis {
        self.axis
    }

    /// The candidates this picker will still yield, in sequence order;
    /// the next one to come is the last.
    pub closed spec fn remaining(self) -> Seq<(u32, u32)> {
        match self.info {
            DisStepInfo::Discretes(dd) => {
                if self.sorted {
                    dd@
                } else {
                    pair_pick_order(self.axis, self.constraints, dd@)
                }
            },
            DisStepInfo::Stepwise { .. } => Seq::empty(),
        }
    }

    /// A fresh picker over one axis's capability space.
    pub fn new(info: DisStepInfo, constraints: Option<DisStepConstraint>, axis: Axis) -> (p:
        DisStepPicker)
        ensures
            p.is_discrete() == (info is Discretes),
            p.axis() == axis,
            info is Discretes ==> p.remaining() == pair_pick_order(
                axis,
                constraints,
                discretes_of(info),
            ),
    {
        DisStepPicker { info, constraints, axis, sorted: false }
    }

    /// Filters `discretes` by the bound and sorts what is left so the
    /// extreme value in the wanted direction of the axis's order ends up
    /// last.
    pub fn sort_discretes(
        discretes: &mut Vec<(u32, u32)>,
        constraints: &DisStepConstraint,
        axis: Axis,
    )
        ensures
            final(discretes)@ == pair_sort(
                axis,
                constraints.dir,
                filtered_pairs(axis, *constraints, old(discretes)@),
            ),
    {
        let c = constraints;
        let mut kept: Vec<(u32, u32)> = Vec::new();
        let mut i: usize = 0;
        while i < discretes.len()
            invariant
                i <= discretes@.len(),
                discretes@ == old(discretes)@,
                kept@ == filtered_pairs(axis, *c, discretes@.take(i as int)),
            decreases discretes@.len() - i,
        {
            proof {
                assert(discretes@.take(i + 1).drop_last() =~= discretes@.take(i as int));
                assert(discretes@.take(i + 1).last() == discretes@[i as int]);
            }
            if within_limit_exec(&axis, c, &discretes[i]) {
                kept.push(discretes[i]);
            }
            i = i + 1;
        }
        proof {
            assert(discretes@.take(discretes@.len() as int) =~= discretes@);
        }
        let mut sorted_out: Vec<(u32, u32)> = Vec::new();
        let mut k: usize = 0;
        while k < kept.len()
            invariant
                k <= kept@.len(),
                kept@ == filtered_pairs(axis, *c, old(discretes)@),
                sorted_out@ == pair_sort(axis, c.dir, kept@.take(k as int)),
            decreases kept@.len() - k,
        {
            proof {
                assert(kept@.take(k + 1).drop_last() =~= kept@.take(k as int));
                assert(kept@.take(k + 1).last() == kept@[k as int]);
            }
            insert_pair(&axis, &c.dir, &mut sorted_out, kept[k]);
            k = k + 1;
        }
        proof {
            assert(kept@.take(kept@.len() as int) =~= kept@);
        }
        *discretes = sorted_out;
    }

    /// Yields the best candidate not yet returned, or nothing when the
    /// (filtered) space is exhausted.
    pub fn next(&mut self) -> (r: Option<(u32, u32)>)
        requires
            old(self).is_discrete(),
        ensures
            final(self).is_discrete(),
            final(self).axis() == old(self).axis(),
            old(self).remaining().len() == 0 ==> r is None && final(self).remaining() == old(
                self,
            ).remaining(),
            old(self).remaining().len() > 0 ==> r == Some(old(self).remaining().last())
                && final(self).remaining() == old(self).remaining().drop_last(),
    {
        if !self.sorted {
            let axis = self.axis;
            match (&mut self.info, &self.constraints) {
                (DisStepInfo::Discretes(dd), Some(c)) => {
                    DisStepPicker::sort_discretes(dd, c, axis);
                },
                _ => {},
            }
            self.sorted = true;
        }
        match &mut self.info {
            DisStepInfo::Discretes(dd) => {
                proof {
                    if dd@.len() > 0 {
                        assert(dd@.subrange(0, dd@.len() - 1) =~= dd@.drop_last());
                    }
                }
                dd.pop()
            },
            DisStepInfo::Stepwise { .. } => None,
        }
    }
}

} // verus!
