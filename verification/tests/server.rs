use v4l2_quick::constraints::{Constraints, Dir, Fmt, Pref, Res, Speed};
use v4l2_quick::formats::FormatDesc;
use v4l2_quick::negotiate::{get_config, DeviceCaps, FormatCaps, IntervalCaps};
use v4l2_quick::ranges::DisStepInfo;
use v4l2_quick::server::{
    framerate_constraints, mark_still_frame, next_delay, parse_command, quality_constraints,
    refresh_ms, CamServer, Command, ServerAction, TimerDecision, STILL_IMAGE_MARKER,
};

fn demo_device() -> DeviceCaps {
    let resolutions = vec![(320, 240), (640, 480), (800, 600), (1280, 720)];
    let spaces = |rs: &Vec<(u32, u32)>| -> Vec<IntervalCaps> {
        rs.iter()
            .map(|r| IntervalCaps {
                resolution: *r,
                info: DisStepInfo::Discretes(vec![(1, 15), (1, 30)]),
            })
            .collect()
    };
    DeviceCaps {
        formats: vec![
            FormatCaps {
                desc: FormatDesc { format: *b"YUYV", emulated: false, compressed: false },
                resolutions: DisStepInfo::Discretes(resolutions.clone()),
                intervals: spaces(&resolutions),
            },
            FormatCaps {
                desc: FormatDesc { format: *b"MJPG", emulated: false, compressed: true },
                resolutions: DisStepInfo::Discretes(resolutions.clone()),
                intervals: spaces(&resolutions),
            },
        ],
    }
}

#[test]
fn commands_parse_with_trailing_whitespace_trimmed() {
    assert_eq!(parse_command(b"capture"), Command::Capture);
    assert_eq!(parse_command(b"pause\n"), Command::Pause);
    assert_eq!(parse_command(b"resume \r\n"), Command::Resume);
    assert_eq!(parse_command(b"shutdown\t"), Command::Shutdown);
    // Vertical tab and form feed are ASCII whitespace too.
    assert_eq!(parse_command(b"pause\x0b\x0c"), Command::Pause);
}

#[test]
fn unknown_commands_are_ignored() {
    assert_eq!(parse_command(b""), Command::Unknown);
    assert_eq!(parse_command(b"restart"), Command::Unknown);
    assert_eq!(parse_command(b"capture now"), Command::Unknown);
    assert_eq!(parse_command(b" capture"), Command::Unknown);
    assert_eq!(parse_command(b"CAPTURE"), Command::Unknown);
}

#[test]
fn still_frames_carry_the_marker() {
    let framed = mark_still_frame(vec![10, 20, 30]);
    assert_eq!(framed, vec![10, 20, 30, STILL_IMAGE_MARKER]);
    assert_eq!(framed[framed.len() - 1], 0x55);
}

#[test]
fn cadence_delay_is_never_negative_and_never_over_interval() {
    assert_eq!(next_delay(33, 10), 23);
    assert_eq!(next_delay(33, 33), 0);
    assert_eq!(next_delay(33, 40), 0);
    assert_eq!(next_delay(0, 0), 0);
}

#[test]
fn refresh_rounds_to_whole_milliseconds() {
    assert_eq!(refresh_ms((1, 30)), 33);
    assert_eq!(refresh_ms((1, 15)), 67);
    assert_eq!(refresh_ms((1, 3)), 333);
    assert_eq!(refresh_ms((2, 1)), 2000);
}

#[test]
fn server_negotiates_both_profiles() {
    let device = demo_device();
    let srv = CamServer::new(&device).expect("no configuration for a profile");
    assert_eq!(srv.fastest.format, *b"MJPG");
    assert_eq!(srv.fastest.resolution, (640, 480));
    // The fast profile wants the lowest interval by ratio: 1/30 s.
    assert_eq!(srv.fastest.interval, (1, 30));
    assert_eq!(srv.best.resolution, (1280, 720));
    assert_eq!(srv.interval, 33);
    assert!(!srv.has_client && !srv.can_write && !srv.timer_armed);
    // The profiles match what the profile constraint builders negotiate
    // one by one.
    assert_eq!(Some(srv.best), get_config(&device, quality_constraints()));
    assert_eq!(Some(srv.fastest), get_config(&device, framerate_constraints()));
}

#[test]
fn server_construction_fails_without_a_listed_format() {
    let device = DeviceCaps {
        formats: vec![FormatCaps {
            desc: FormatDesc { format: *b"YUYV", emulated: false, compressed: false },
            resolutions: DisStepInfo::Discretes(vec![(640, 480)]),
            intervals: vec![IntervalCaps {
                resolution: (640, 480),
                info: DisStepInfo::Discretes(vec![(1, 30)]),
            }],
        }],
    };
    // Both profiles insist on MJPG, which this device lacks.
    assert!(CamServer::new(&device).is_err());
}

#[test]
fn admission_takes_exactly_one_client() {
    let mut srv = CamServer::new(&demo_device()).unwrap();
    assert!(srv.accept_client());
    assert!(srv.has_client);
    // The second near-simultaneous attempt is refused and changes
    // nothing; its socket never carries a frame.
    assert!(!srv.accept_client());
    assert!(srv.has_client);
    srv.client_gone();
    assert!(!srv.has_client);
    assert!(srv.accept_client());
}

#[test]
fn pause_resume_controls_the_timer() {
    let mut srv = CamServer::new(&demo_device()).unwrap();
    assert!(srv.accept_client());
    assert_eq!(srv.on_command(b"resume"), ServerAction::ArmTimer(0));
    assert!(srv.timer_armed);
    assert_eq!(srv.on_command(b"pause"), ServerAction::CancelTimer);
    assert!(!srv.timer_armed);
    // Pausing again has no timer left to cancel.
    assert_eq!(srv.on_command(b"pause"), ServerAction::Ignore);
    // The first frame after resume comes with zero additional delay.
    assert_eq!(srv.on_command(b"resume"), ServerAction::ArmTimer(0));
}

#[test]
fn capture_and_shutdown_commands_map_to_actions() {
    let mut srv = CamServer::new(&demo_device()).unwrap();
    assert!(srv.accept_client());
    assert_eq!(srv.on_command(b"capture"), ServerAction::CaptureStill);
    assert_eq!(srv.on_command(b"nonsense"), ServerAction::Ignore);
    assert_eq!(srv.on_command(b"shutdown"), ServerAction::Shutdown);
}

#[test]
fn timer_cycle_holds_the_cadence() {
    let mut srv = CamServer::new(&demo_device()).unwrap();
    assert!(srv.accept_client());
    assert_eq!(srv.on_command(b"resume"), ServerAction::ArmTimer(0));
    // Not writable yet: defer for the full interval, stay armed.
    assert_eq!(srv.on_timer(), TimerDecision::Defer(33));
    assert!(srv.timer_armed);
    srv.client_writable();
    assert_eq!(srv.on_timer(), TimerDecision::CaptureFrame);
    assert!(!srv.timer_armed);
    // Capture and write took 10 ms: re-arm for the remainder.
    assert_eq!(srv.frame_sent(true, 10), Some(23));
    assert!(srv.timer_armed);
    // A slow frame never yields a negative wait.
    assert_eq!(srv.on_timer(), TimerDecision::CaptureFrame);
    assert_eq!(srv.frame_sent(true, 50), Some(0));
}

#[test]
fn write_failure_stops_the_cycle() {
    let mut srv = CamServer::new(&demo_device()).unwrap();
    assert!(srv.accept_client());
    srv.client_writable();
    assert_eq!(srv.on_command(b"resume"), ServerAction::ArmTimer(0));
    assert_eq!(srv.on_timer(), TimerDecision::CaptureFrame);
    assert_eq!(srv.frame_sent(false, 5), None);
    assert!(!srv.timer_armed);
    // The hangup event then cleans the connection up.
    srv.client_gone();
    assert!(!srv.has_client);
}

#[test]
fn timer_into_empty_state_halts() {
    let mut srv = CamServer::new(&demo_device()).unwrap();
    assert!(srv.accept_client());
    assert_eq!(srv.on_command(b"resume"), ServerAction::ArmTimer(0));
    srv.client_gone();
    assert_eq!(srv.on_timer(), TimerDecision::Halt);
    assert!(!srv.timer_armed);
}

#[test]
fn profile_builders_negotiate_like_hand_built_constraints() {
    let device = demo_device();
    let by_hand = Constraints {
        formats: Some(Fmt {
            emulate: Pref::DoNotPrefer,
            compress: Pref::Prefer,
            priorities: Some(vec![*b"MJPG"]),
        }),
        resolutions: Some(Res { dir: Dir::Lowest, limit: Some((640, 480)) }),
        speeds: Some(Speed { dir: Dir::Lowest, limit: None }),
        ..Default::default()
    };
    assert_eq!(get_config(&device, by_hand), get_config(&device, framerate_constraints()));
}
