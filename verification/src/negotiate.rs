//! The negotiation engine: composes the capability picker and the range
//! picker into a greedy depth-first first-fit over format, resolution and
//! frame interval. The first format whose resolution space yields a
//! candidate, and the first such resolution whose interval space yields a
//! candidate, settle the configuration; the search is deliberately not a
//! globally optimal one.

use vstd::prelude::*;
use crate::constraints::{Constraints, DisStepConstraint};
use crate::formats::{
    code_eq, code_matches, format_pick_order, opt_fmt_view, FmtView, FormatDesc, FormatPicker,
};
use crate::ranges::{discretes_of, pair_pick_order, Axis, DisStepInfo, DisStepPicker};

verus! {

/// The mathematical model of a full preference set: as `Constraints`,
/// with the format axis abstracted to its view. Contracts speak of this
/// view.
#[verifier::ext_equal]
pub ghost struct ConstraintsView {
    pub formats: Option<FmtView>,
    pub resolutions: Option<DisStepConstraint>,
    pub speeds: Option<DisStepConstraint>,
    pub field: u32,
    pub nbuffers: u32,
}

/// The model of a preference set.
pub open spec fn constraints_view(c: Constraints) -> ConstraintsView {
    ConstraintsView {
        formats: opt_fmt_view(c.formats),
        resolutions: c.resolutions,
        speeds: c.speeds,
        field: c.field,
        nbuffers: c.nbuffers,
    }
}

/// A fully resolved, device-ready capture mode: the negotiation engine's
/// sole output, immutable once produced.
#[derive(Clone, Copy, Debug, PartialEq, Eq)]
pub struct ConfigSummary {
    pub interval: (u32, u32),
    pub resolution: (u32, u32),
    pub format: [u8; 4],
    pub field: u32,
    pub nbuffers: u32,
}

/// The frame-interval space one resolution of one format offers.
#[derive(Debug)]
pub struct IntervalCaps {
    pub resolution: (u32, u32),
    pub info: DisStepInfo,
}

/// One advertised format together with its resolution space and, per
/// resolution, its frame-interval space.
#[derive(Debug)]
pub struct FormatCaps {
    pub desc: FormatDesc,
    pub resolutions: DisStepInfo,
    pub intervals: Vec<IntervalCaps>,
}

/// A snapshot of everything the capture device advertises, enumerated
/// fresh for each negotiation.
#[derive(Debug)]
pub struct DeviceCaps {
    pub formats: Vec<FormatCaps>,
}

/// Whether one format's capability spaces are all discrete.
pub open spec fn format_caps_discrete(fc: FormatCaps) -> bool {
    &&& fc.resolutions is Discretes
    &&& forall|j: int| 0 <= j < fc.intervals@.len() ==> (#[trigger] fc.intervals@[j]).info is Discretes
}

/// Whether every capability space of the snapshot is discrete. Stepwise
/// selection is an unresolved gap of the design (see
/// `DisStepPicker::next`), so negotiation asks for discrete spaces.
pub open spec fn caps_discrete(d: DeviceCaps) -> bool {
    forall|i: int| 0 <= i < d.formats@.len() ==> format_caps_discrete(#[trigger] d.formats@[i])
}

/// The bare format descriptors of a snapshot, in enumeration order.
pub open spec fn descs(fs: Seq<FormatCaps>) -> Seq<FormatDesc> {
    fs.map_values(|fc: FormatCaps| fc.desc)
}

/// The index of the first snapshot entry carrying `code`, or -1.
pub open spec fn find_format_idx(fs: Seq<FormatCaps>, code: [u8; 4]) -> int
    decreases fs.len(),
{
    if fs.len() == 0 {
        -1
    } else if code_matches(fs.first().desc.format, code) {
        0
    } else {
        let r = find_format_idx(fs.drop_first(), code);
        if r < 0 {
            -1
        } else {
            r + 1
        }
    }
}

proof fn lemma_find_format_idx_char(fs: Seq<FormatCaps>, code: [u8; 4])
    ensures
        -1 <= find_format_idx(fs, code) < fs.len(),
        find_format_idx(fs, code) >= 0 ==> code_matches(
            fs[find_format_idx(fs, code)].desc.format,
            code,
        ) && forall|k: int| 0 <= k < find_format_idx(fs, code)
            ==> !code_matches((#[trigger] fs[k]).desc.format, code),
        find_format_idx(fs, code) == -1 ==> forall|k: int| 0 <= k < fs.len()
            ==> !code_matches((#[trigger] fs[k]).desc.format, code),
    decreases fs.len(),
{
    if fs.len() > 0 {
        assert(fs[0] == fs.first());
        if !code_matches(fs.first().desc.format, code) {
            lemma_find_format_idx_char(fs.drop_first(), code);
            let rest = fs.drop_first();
            assert forall|k: int| 1 <= k < fs.len() implies fs[k] == rest[k - 1] by {}
            let r = find_format_idx(rest, code);
            if r >= 0 {
                assert(fs[r + 1] == rest[r]);
                assert forall|k: int| 0 <= k < r + 1
                    implies !code_matches((#[trigger] fs[k]).desc.format, code) by {
                    if k >= 1 {
                        assert(rest[k - 1] == fs[k]);
                    }
                }
            } else {
                assert forall|k: int| 0 <= k < fs.len()
                    implies !code_matches((#[trigger] fs[k]).desc.format, code) by {
                    if k >= 1 {
                        assert(rest[k - 1] == fs[k]);
                    }
                }
            }
        }
    }
}

/// The index of the first interval entry for resolution `r`, or -1.
pub open spec fn find_interval_idx(is: Seq<IntervalCaps>, r: (u32, u32)) -> int
    decreases is.len(),
{
    if is.len() == 0 {
        -1
    } else if is.first().resolution == r {
        0
    } else {
        let k = find_interval_idx(is.drop_first(), r);
        if k < 0 {
            -1
        } else {
            k + 1
        }
    }
}

proof fn lemma_find_interval_idx_char(is: Seq<IntervalCaps>, r: (u32, u32))
    ensures
        -1 <= find_interval_idx(is, r) < is.len(),
        find_interval_idx(is, r) >= 0 ==> is[find_interval_idx(is, r)].resolution == r
            && forall|k: int| 0 <= k < find_interval_idx(is, r) ==> (#[trigger] is[k]).resolution != r,
        find_interval_idx(is, r) == -1 ==> forall|k: int| 0 <= k < is.len()
            ==> (#[trigger] is[k]).resolution != r,
    decreases is.len(),
{
    if is.len() > 0 {
        assert(is[0] == is.first());
        if is.first().resolution != r {
            lemma_find_interval_idx_char(is.drop_first(), r);
            let rest = is.drop_first();
            let f = find_interval_idx(rest, r);
            if f >= 0 {
                assert(is[f + 1] == rest[f]);
                assert forall|k: int| 0 <= k < f + 1 implies (#[trigger] is[k]).resolution != r by {
                    if k >= 1 {
                        assert(rest[k - 1] == is[k]);
                    }
                }
            } else {
                assert forall|k: int| 0 <= k < is.len() implies (#[trigger] is[k]).resolution != r by {
                    if k >= 1 {
                        assert(rest[k - 1] == is[k]);
                    }
                }
            }
        }
    }
}

/// The interval the engine settles on for one resolution of one format:
/// the best candidate of that resolution's interval space under the speed
/// constraint, or nothing when the space is missing or empty.
pub open spec fn interval_for(
    fc: FormatCaps,
    speeds: Option<DisStepConstraint>,
    r: (u32, u32),
) -> Option<(u32, u32)> {
    let idx = find_interval_idx(fc.intervals@, r);
    if idx < 0 {
        None
    } else {
        let ord = pair_pick_order(Axis::Interval, speeds, discretes_of(fc.intervals@[idx].info));
        if ord.len() == 0 {
            None
        } else {
            Some(ord.last())
        }
    }
}

/// The first resolution of `res_order` (taken from the tail, best first)
/// whose interval space yields a candidate, with that candidate.
pub open spec fn resolution_for(
    fc: FormatCaps,
    speeds: Option<DisStepConstraint>,
    res_order: Seq<(u32, u32)>,
) -> Option<((u32, u32), (u32, u32))>
    decreases res_order.len(),
{
    if res_order.len() == 0 {
        None
    } else {
        let r = res_order.last();
        match interval_for(fc, speeds, r) {
            Some(iv) => Some((r, iv)),
            None => resolution_for(fc, speeds, res_order.drop_last()),
        }
    }
}

/// The configuration the engine settles on for one format, or nothing
/// when the format's resolution and interval spaces yield no candidate.
pub open spec fn config_for_format(d: DeviceCaps, reqs: ConstraintsView, f: FormatDesc) -> Option<
    ConfigSummary,
> {
    let idx = find_format_idx(d.formats@, f.format);
    if idx < 0 {
        None
    } else {
        let fc = d.formats@[idx];
        let res_order = pair_pick_order(Axis::Resolution, reqs.resolutions, discretes_of(fc.resolutions));
        match resolution_for(fc, reqs.speeds, res_order) {
            Some(pair) => Some(
                ConfigSummary {
                    interval: pair.1,
                    resolution: pair.0,
                    format: f.format,
                    field: reqs.field,
                    nbuffers: reqs.nbuffers,
                },
            ),
            None => None,
        }
    }
}

/// Greedy first-fit over the formats of `order`, taken from the tail
/// (most preferred first).
pub open spec fn negotiate(d: DeviceCaps, reqs: ConstraintsView, order: Seq<FormatDesc>) -> Option<
    ConfigSummary,
>
    decreases order.len(),
{
    if order.len() == 0 {
        None
    } else {
        match config_for_format(d, reqs, order.last()) {
            Some(cfg) => Some(cfg),
            None => negotiate(d, reqs, order.drop_last()),
        }
    }
}

/// What `get_config` returns: the greedy first-fit over the preference
/// order of the snapshot's formats.
pub open spec fn spec_get_config(d: DeviceCaps, reqs: ConstraintsView) -> Option<ConfigSummary> {
    negotiate(d, reqs, format_pick_order(reqs.formats, descs(d.formats@)))
}

/// LAW. Negotiation is idempotent for a fixed device-capability snapshot
/// and fixed constraints: any two results that `get_config`'s contract
/// allows on the same inputs are the same configuration, so repeated
/// calls yield an identical summary.
pub proof fn lemma_negotiation_idempotent(
    d: DeviceCaps,
    reqs: ConstraintsView,
    r1: Option<ConfigSummary>,
    r2: Option<ConfigSummary>,
)
    requires
        r1 == spec_get_config(d, reqs),
        r2 == spec_get_config(d, reqs),
    ensures
        r1 == r2,
{
}

proof fn lemma_negotiate_exhausts(d: DeviceCaps, reqs: ConstraintsView, order: Seq<FormatDesc>)
    ensures
        (negotiate(d, reqs, order) is Some) <==> exists|k: int| 0 <= k < order.len() && (
        #[trigger] config_for_format(d, reqs, order[k])) is Some,
    decreases order.len(),
{
    if order.len() > 0 {
        lemma_negotiate_exhausts(d, reqs, order.drop_last());
        if config_for_format(d, reqs, order.last()) is Some {
            assert(config_for_format(d, reqs, order[order.len() - 1]) is Some);
        } else {
            if negotiate(d, reqs, order) is Some {
                let k = choose|k: int| 0 <= k < order.drop_last().len() && config_for_format(
                    d,
                    reqs,
                    order.drop_last()[k],
                ) is Some;
                assert(order[k] == order.drop_last()[k]);
                assert(config_for_format(d, reqs, order[k]) is Some);
            } else {
                if exists|k: int| 0 <= k < order.len() && (#[trigger] config_for_format(
                    d,
                    reqs,
                    order[k],
                )) is Some {
                    let k = choose|k: int| 0 <= k < order.len() && (#[trigger] config_for_format(
                        d,
                        reqs,
                        order[k],
                    )) is Some;
                    assert(k < order.len() - 1);
                    assert(order.drop_last()[k] == order[k]);
                    assert(config_for_format(d, reqs, order.drop_last()[k]) is Some);
                    assert(false);
                }
            }
        }
    }
}

/// LAW. Negotiation succeeds exactly when some format of the preference
/// order yields a configuration, and fails exactly when every format's
/// resolution and interval spaces come up empty under the constraints.
pub proof fn lemma_get_config_success(d: DeviceCaps, reqs: ConstraintsView)
    ensures
        (spec_get_config(d, reqs) is Some) <==> exists|k: int|
            0 <= k < format_pick_order(reqs.formats, descs(d.formats@)).len() && (
            #[trigger] config_for_format(
                d,
                reqs,
                format_pick_order(reqs.formats, descs(d.formats@))[k],
            )) is Some,
{
    lemma_negotiate_exhausts(d, reqs, format_pick_order(reqs.formats, descs(d.formats@)));
}

fn collect_descs(fs: &Vec<FormatCaps>) -> (r: Vec<FormatDesc>)
    ensures
        r@ == descs(fs@),
{
    let mut out: Vec<FormatDesc> = Vec::new();
    let mut i: usize = 0;
    while i < fs.len()
        invariant
            i <= fs@.len(),
            out@ == descs(fs@.take(i as int)),
        decreases fs@.len() - i,
    {
        out.push(fs[i].desc);
        proof {
            assert(out@ =~= descs(fs@.take(i + 1)));
        }
        i = i + 1;
    }
    proof {
        assert(fs@.take(fs@.len() as int) =~= fs@);
    }
    out
}

fn duplicate_info(info: &DisStepInfo) -> (r: DisStepInfo)
    ensures
        (r is Discretes) == (*info is Discretes),
        discretes_of(r) == discretes_of(*info),
{
    match info {
        DisStepInfo::Discretes(d) => {
            let mut out: Vec<(u32, u32)> = Vec::new();
            let mut i: usize = 0;
            while i < d.len()
                invariant
                    i <= d@.len(),
                    out@ == d@.take(i as int),
                decreases d@.len() - i,
            {
                out.push(d[i]);
                proof {
                    assert(out@ =~= d@.take(i + 1));
                }
                i = i + 1;
            }
            proof {
                assert(d@.take(d@.len() as int) =~= d@);
            }
            DisStepInfo::Discretes(out)
        },
        DisStepInfo::Stepwise { min, max, step } => DisStepInfo::Stepwise {
            min: *min,
            max: *max,
            step: *step,
        },
    }
}

fn find_format(fs: &Vec<FormatCaps>, code: &[u8; 4]) -> (r: Option<usize>)
    ensures
        match r {
            Some(i) => find_format_idx(fs@, *code) == i,
            None => find_format_idx(fs@, *code) == -1,
        },
{
    proof {
        lemma_find_format_idx_char(fs@, *code);
    }
    let mut i: usize = 0;
    while i < fs.len()
        invariant
            i <= fs@.len(),
            forall|k: int| 0 <= k < i ==> !code_matches((#[trigger] fs@[k]).desc.format, *code),
        decreases fs@.len() - i,
    {
        if code_eq(&fs[i].desc.format, code) {
            proof {
                lemma_find_format_idx_char(fs@, *code);
            }
            return Some(i);
        }
        i = i + 1;
    }
    None
}

fn find_interval(is: &Vec<IntervalCaps>, r: &(u32, u32)) -> (res: Option<usize>)
    ensures
        match res {
            Some(i) => find_interval_idx(is@, *r) == i,
            None => find_interval_idx(is@, *r) == -1,
        },
{
    proof {
        lemma_find_interval_idx_char(is@, *r);
    }
    let mut i: usize = 0;
    while i < is.len()
        invariant
            i <= is@.len(),
            forall|k: int| 0 <= k < i ==> (#[trigger] is@[k]).resolution != *r,
        decreases is@.len() - i,
    {
        if is[i].resolution.0 == r.0 && is[i].resolution.1 == r.1 {
            proof {
                lemma_find_interval_idx_char(is@, *r);
            }
            return Some(i);
        }
        i = i + 1;
    }
    None
}

/// Walks one format's resolution space best-first and returns the first
/// resolution whose interval space yields a candidate, with that
/// candidate.
fn best_for_format(
    fc: &FormatCaps,
    res_c: Option<DisStepConstraint>,
    spd_c: Option<DisStepConstraint>,
) -> (r: Option<((u32, u32), (u32, u32))>)
    requires
        format_caps_discrete(*fc),
    ensures
        r == resolution_for(*fc, spd_c, pair_pick_order(Axis::Resolution, res_c, discretes_of(fc.resolutions))),
{
    let ghost res_target = resolution_for(
        *fc,
        spd_c,
        pair_pick_order(Axis::Resolution, res_c, discretes_of(fc.resolutions)),
    );
    let res_info = duplicate_info(&fc.resolutions);
    let mut res_picker = DisStepPicker::new(res_info, res_c, Axis::Resolution);
    loop
        invariant
            format_caps_discrete(*fc),
            res_picker.is_discrete(),
            resolution_for(*fc, spd_c, res_picker.remaining()) == res_target,
            res_target == resolution_for(
                *fc,
                spd_c,
                pair_pick_order(Axis::Resolution, res_c, discretes_of(fc.resolutions)),
            ),
        ensures
            res_target is None,
            res_target == resolution_for(
                *fc,
                spd_c,
                pair_pick_order(Axis::Resolution, res_c, discretes_of(fc.resolutions)),
            ),
        decreases res_picker.remaining().len(),
    {
        let ghost rs_before = res_picker.remaining();
        match res_picker.next() {
            None => {
                break;
            },
            Some(rsel) => {
                proof {
                    assert(rs_before.len() > 0 && rsel == rs_before.last());
                }
                match find_interval(&fc.intervals, &rsel) {
                    None => {
                        proof {
                            assert(interval_for(*fc, spd_c, rsel) is None);
                        }
                    },
                    Some(j) => {
                        proof {
                            lemma_find_interval_idx_char(fc.intervals@, rsel);
                            assert((#[trigger] fc.intervals@[j as int]).info is Discretes);
                        }
                        let iv_info = duplicate_info(&fc.intervals[j].info);
                        let mut iv_picker = DisStepPicker::new(iv_info, spd_c, Axis::Interval);
                        match iv_picker.next() {
                            Some(ivsel) => {
                                proof {
                                    assert(interval_for(*fc, spd_c, rsel) == Some(ivsel));
                                    assert(resolution_for(*fc, spd_c, rs_before) == Some(
                                        (rsel, ivsel),
                                    ));
                                }
                                return Some((rsel, ivsel));
                            },
                            None => {
                                proof {
                                    assert(interval_for(*fc, spd_c, rsel) is None);
                                }
                            },
                        }
                    },
                }
            },
        }
    }
    None
}

/// Resolves the preferences against a snapshot of the device's
/// capabilities: the greedy depth-first first-fit over format, then
/// resolution, then frame interval. Returns nothing exactly when every
/// format's resolution and interval spaces are empty under the
/// constraints.
#[verifier::loop_isolation(false)]
pub fn get_config(device: &DeviceCaps, reqs: Constraints) -> (r: Option<ConfigSummary>)
    requires
        caps_discrete(*device),
    ensures
        r == spec_get_config(*device, constraints_view(reqs)),
{
    let ghost greqs = constraints_view(reqs);
    let Constraints { formats: fmt_c, resolutions: res_c, speeds: spd_c, field, nbuffers } = reqs;
    let descs_v = collect_descs(&device.formats);
    let mut picker = FormatPicker::new(descs_v, fmt_c);
    loop
        invariant
            negotiate(*device, greqs, picker.remaining()) == spec_get_config(*device, greqs),
        decreases picker.remaining().len(),
    {
        let ghost order_before = picker.remaining();
        match picker.next() {
            None => {
                return None;
            },
            Some(f) => {
                match find_format(&device.formats, &f.format) {
                    None => {},
                    Some(idx) => {
                        proof {
                            lemma_find_format_idx_char(device.formats@, f.format);
                            assert(format_caps_discrete(device.formats@[idx as int]));
                        }
                        let fc = &device.formats[idx];
                        match best_for_format(fc, res_c, spd_c) {
                            Some(pair) => {
                                return Some(
                                    ConfigSummary {
                                        interval: pair.1,
                                        resolution: pair.0,
                                        format: f.format,
                                        field,
                                        nbuffers,
                                    },
                                );
                            },
                            None => {},
                        }
                    },
                }
            },
        }
    }
}

} // verus!
