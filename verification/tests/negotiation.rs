use v4l2_quick::constraints::{Constraints, Dir, Fmt, Pref, Res, Speed, FIELD_NONE};
use v4l2_quick::formats::{FormatDesc, FormatPicker};
use v4l2_quick::negotiate::{get_config, DeviceCaps, FormatCaps, IntervalCaps};
use v4l2_quick::ranges::{Axis, DisStepInfo, DisStepPicker};

/// A capability snapshot resembling a small webcam: an uncompressed
/// native format and a compressed MJPG format, each with the same
/// discrete resolution and interval spaces.
fn demo_device() -> DeviceCaps {
    let resolutions = vec![(320, 240), (640, 480), (800, 600), (1280, 720)];
    let spaces = |rs: &Vec<(u32, u32)>| -> Vec<IntervalCaps> {
        rs.iter()
            .map(|r| IntervalCaps {
                resolution: *r,
                info: DisStepInfo::Discretes(vec![(1, 15), (1, 30)]),
            })
            .collect()
    };
    DeviceCaps {
        formats: vec![
            FormatCaps {
                desc: FormatDesc { format: *b"YUYV", emulated: false, compressed: false },
                resolutions: DisStepInfo::Discretes(resolutions.clone()),
                intervals: spaces(&resolutions),
            },
            FormatCaps {
                desc: FormatDesc { format: *b"MJPG", emulated: false, compressed: true },
                resolutions: DisStepInfo::Discretes(resolutions.clone()),
                intervals: spaces(&resolutions),
            },
        ],
    }
}

#[test]
fn optomize_framerate() {
    let constraints = Constraints {
        formats: Some(Fmt {
            emulate: Pref::DoNotPrefer,
            compress: Pref::Prefer,
            priorities: Some(vec![*b"MJPG"]),
        }),
        resolutions: Some(Res { dir: Dir::Lowest, limit: Some((640, 480)) }),
        speeds: Some(Speed { dir: Dir::Highest, limit: None }),
        ..Default::default()
    };

    let device = demo_device();
    let possible_config = get_config(&device, constraints);
    let config = possible_config.expect("Could not find a configuration!");
    println!("Camera Configuration for Framerate: {:?}", &config);
    assert_eq!(config.format, *b"MJPG");
    assert_eq!(config.resolution, (640, 480));
    // The interval axis orders by ratio (seconds per frame), so Highest
    // selects the longest interval of {1/15, 1/30}.
    assert_eq!(config.interval, (1, 15));
    assert_eq!(config.field, FIELD_NONE);
    assert_eq!(config.nbuffers, 2);
}

#[test]
fn optomize_quality() {
    let constraints = Constraints {
        formats: Some(Fmt {
            emulate: Pref::NoPreference,
            compress: Pref::DoNotPrefer,
            priorities: Some(vec![*b"MJPG"]),
        }),
        resolutions: Some(Res { dir: Dir::Highest, limit: None }),
        speeds: None,
        ..Default::default()
    };

    let device = demo_device();
    let possible_config = get_config(&device, constraints);
    let config = possible_config.expect("Could not find a configuration!");
    println!("Camera Configuration for Quality: {:?}", &config);
    assert_eq!(config.format, *b"MJPG");
    assert_eq!(config.resolution, (1280, 720));
}

#[test]
fn range_picker_highest_with_ceiling() {
    let discretes = vec![(320, 240), (640, 480), (800, 600), (1280, 720)];
    let mut picker = DisStepPicker::new(
        DisStepInfo::Discretes(discretes),
        Some(Res { dir: Dir::Highest, limit: Some((640, 480)) }),
        Axis::Resolution,
    );
    assert_eq!(picker.next(), Some((640, 480)));
    assert_eq!(picker.next(), Some((320, 240)));
    assert_eq!(picker.next(), None);
}

#[test]
fn range_picker_lowest_with_floor() {
    let discretes = vec![(320, 240), (640, 480), (800, 600), (1280, 720)];
    let mut picker = DisStepPicker::new(
        DisStepInfo::Discretes(discretes),
        Some(Res { dir: Dir::Lowest, limit: Some((640, 480)) }),
        Axis::Resolution,
    );
    // The floor keeps 640x480 itself: the smallest candidate not below
    // the limit is the limit.
    assert_eq!(picker.next(), Some((640, 480)));
    assert_eq!(picker.next(), Some((800, 600)));
    assert_eq!(picker.next(), Some((1280, 720)));
    assert_eq!(picker.next(), None);
}

#[test]
fn range_picker_unconstrained_pops_raw_order() {
    let mut picker = DisStepPicker::new(
        DisStepInfo::Discretes(vec![(640, 480), (320, 240)]),
        None,
        Axis::Resolution,
    );
    assert_eq!(picker.next(), Some((320, 240)));
    assert_eq!(picker.next(), Some((640, 480)));
    assert_eq!(picker.next(), None);
}

#[test]
fn interval_picker_compares_by_ratio_not_pair_order() {
    // 1/2 s is a longer interval than 2/6 s although (1,2) is the lesser
    // pair lexically.
    let mut highest = DisStepPicker::new(
        DisStepInfo::Discretes(vec![(1, 2), (2, 6)]),
        Some(Speed { dir: Dir::Highest, limit: None }),
        Axis::Interval,
    );
    assert_eq!(highest.next(), Some((1, 2)));
    assert_eq!(highest.next(), Some((2, 6)));
    assert_eq!(highest.next(), None);
    let mut lowest = DisStepPicker::new(
        DisStepInfo::Discretes(vec![(1, 2), (2, 6)]),
        Some(Speed { dir: Dir::Lowest, limit: None }),
        Axis::Interval,
    );
    assert_eq!(lowest.next(), Some((2, 6)));
}

#[test]
fn interval_limit_filters_by_ratio() {
    // A ceiling of 1/10 s keeps 1/30 s (a shorter interval) and drops
    // 1/5 s, whatever the pairs say lexically.
    let mut picker = DisStepPicker::new(
        DisStepInfo::Discretes(vec![(1, 30), (1, 5)]),
        Some(Speed { dir: Dir::Highest, limit: Some((1, 10)) }),
        Axis::Interval,
    );
    assert_eq!(picker.next(), Some((1, 30)));
    assert_eq!(picker.next(), None);
}

#[test]
fn sort_discretes_orders_best_last() {
    let mut v = vec![(800, 600), (320, 240), (640, 480)];
    DisStepPicker::sort_discretes(&mut v, &Res { dir: Dir::Highest, limit: None }, Axis::Resolution);
    assert_eq!(v, vec![(320, 240), (640, 480), (800, 600)]);
    let mut w = vec![(800, 600), (320, 240), (640, 480)];
    DisStepPicker::sort_discretes(&mut w, &Res { dir: Dir::Lowest, limit: None }, Axis::Resolution);
    assert_eq!(w, vec![(800, 600), (640, 480), (320, 240)]);
    // Intervals sort by ratio: ascending seconds per frame.
    let mut s = vec![(1, 2), (2, 6), (1, 10)];
    DisStepPicker::sort_discretes(&mut s, &Speed { dir: Dir::Highest, limit: None }, Axis::Interval);
    assert_eq!(s, vec![(1, 10), (2, 6), (1, 2)]);
}

#[test]
fn format_picker_priority_list_excludes_and_orders() {
    let yuyv = FormatDesc { format: *b"YUYV", emulated: false, compressed: false };
    let mjpg = FormatDesc { format: *b"MJPG", emulated: false, compressed: true };
    let h264 = FormatDesc { format: *b"H264", emulated: false, compressed: true };
    // YUYV is listed first, so it outranks MJPG; H264 is absent from the
    // list and must never be yielded.
    let mut picker = FormatPicker::new(
        vec![mjpg, h264, yuyv],
        Some(Fmt {
            emulate: Pref::NoPreference,
            compress: Pref::Prefer,
            priorities: Some(vec![*b"YUYV", *b"MJPG"]),
        }),
    );
    assert_eq!(picker.next().map(|f| f.format), Some(*b"YUYV"));
    assert_eq!(picker.next().map(|f| f.format), Some(*b"MJPG"));
    assert!(picker.next().is_none());
}

#[test]
fn format_picker_filters_emulated() {
    let real = FormatDesc { format: *b"YUYV", emulated: false, compressed: false };
    let emu = FormatDesc { format: *b"RGB3", emulated: true, compressed: false };
    let mut only = FormatPicker::new(
        vec![real, emu],
        Some(Fmt { emulate: Pref::Only, compress: Pref::NoPreference, priorities: None }),
    );
    assert_eq!(only.next().map(|f| f.format), Some(*b"RGB3"));
    assert!(only.next().is_none());
    let mut never = FormatPicker::new(
        vec![real, emu],
        Some(Fmt { emulate: Pref::Never, compress: Pref::NoPreference, priorities: None }),
    );
    assert_eq!(never.next().map(|f| f.format), Some(*b"YUYV"));
    assert!(never.next().is_none());
}

#[test]
fn format_picker_prefers_compressed_when_asked() {
    let raw = FormatDesc { format: *b"YUYV", emulated: false, compressed: false };
    let jpeg = FormatDesc { format: *b"MJPG", emulated: false, compressed: true };
    let mut picker = FormatPicker::new(
        vec![raw, jpeg],
        Some(Fmt { emulate: Pref::NoPreference, compress: Pref::Prefer, priorities: None }),
    );
    assert_eq!(picker.next().map(|f| f.format), Some(*b"MJPG"));
    let mut picker2 = FormatPicker::new(
        vec![raw, jpeg],
        Some(Fmt { emulate: Pref::NoPreference, compress: Pref::DoNotPrefer, priorities: None }),
    );
    assert_eq!(picker2.next().map(|f| f.format), Some(*b"YUYV"));
}

#[test]
fn negotiation_is_idempotent_on_a_snapshot() {
    let build = || Constraints {
        formats: Some(Fmt {
            emulate: Pref::DoNotPrefer,
            compress: Pref::Prefer,
            priorities: Some(vec![*b"MJPG"]),
        }),
        resolutions: Some(Res { dir: Dir::Lowest, limit: Some((640, 480)) }),
        speeds: Some(Speed { dir: Dir::Highest, limit: None }),
        ..Default::default()
    };
    let device = demo_device();
    let first = get_config(&device, build());
    let second = get_config(&device, build());
    assert_eq!(first, second);
    assert!(first.is_some());
}

#[test]
fn negotiation_fails_when_no_format_is_listed() {
    let constraints = Constraints {
        formats: Some(Fmt {
            emulate: Pref::NoPreference,
            compress: Pref::NoPreference,
            priorities: Some(vec![*b"H264"]),
        }),
        resolutions: None,
        speeds: None,
        ..Default::default()
    };
    assert_eq!(get_config(&demo_device(), constraints), None);
}

#[test]
fn negotiation_fails_when_no_resolution_satisfies_the_floor() {
    let constraints = Constraints {
        formats: None,
        resolutions: Some(Res { dir: Dir::Lowest, limit: Some((1920, 1080)) }),
        speeds: None,
        ..Default::default()
    };
    assert_eq!(get_config(&demo_device(), constraints), None);
}

#[test]
fn negotiation_on_empty_snapshot_finds_nothing() {
    let device = DeviceCaps { formats: vec![] };
    assert_eq!(get_config(&device, Constraints::default()), None);
}
