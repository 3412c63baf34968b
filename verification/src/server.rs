//! The admission/stream server's decision core: an explicit state machine
//! over the readiness events of one listening socket, at most one client
//! socket and one frame-cadence timer. The embedding event loop performs
//! the I/O, feeds each event in as a plain value and carries the returned
//! action out; every decision in between is made, and verified, here.
//!
//! States: `Idle` (no client), `Connected`/`Paused` (client admitted,
//! timer disarmed), `Streaming` (timer armed). A hangup returns to
//! `Idle`; the capture device stays open throughout.

use vstd::prelude::*;
use crate::constraints::{Constraints, Dir, DisStepConstraint, Fmt, Pref, FIELD_NONE};
use crate::formats::FmtView;
use crate::negotiate::{
    caps_discrete, constraints_view, get_config, spec_get_config, ConfigSummary, ConstraintsView,
    DeviceCaps,
};

verus! {

/// The marker byte written after a frame produced by the one-off
/// high-resolution capture path, so the client can tell it from the
/// cadence stream.
pub const STILL_IMAGE_MARKER: u8 = 0x55;

/// An in-band command of the wire protocol. Anything unrecognized is
/// ignored without a reply.
#[derive(Clone, Copy, Debug, PartialEq, Eq)]
pub enum Command {
    Capture,
    Pause,
    Resume,
    Shutdown,
    Unknown,
}

/// What the embedding event loop must do after a command transition.
#[derive(Clone, Copy, Debug, PartialEq, Eq)]
pub enum ServerAction {
    /// Nothing.
    Ignore,
    /// Switch the device to the quality profile, capture one frame, send
    /// it with the still-image marker appended, switch back to the fast
    /// profile. A failed switch is fatal to the server and is the
    /// caller's to surface.
    CaptureStill,
    /// Cancel the pending frame timer.
    CancelTimer,
    /// Arm the frame timer to fire after the given delay in
    /// milliseconds.
    ArmTimer(u64),
    /// Leave the event loop.
    Shutdown,
}

/// What the embedding event loop must do when the frame timer fires.
#[derive(Clone, Copy, Debug, PartialEq, Eq)]
pub enum TimerDecision {
    /// No client is connected: capture nothing, do not re-arm.
    Halt,
    /// The client was not yet writable: re-arm for the given delay
    /// without capturing.
    Defer(u64),
    /// Capture one frame and send it, then report back through
    /// `frame_sent`.
    CaptureFrame,
}

/// ASCII whitespace trimmed from the end of a command line: space, tab,
/// line feed, vertical tab, form feed, carriage return. The protocol's
/// command lines are ASCII, so trimming works on bytes.
pub open spec fn is_ws(b: u8) -> bool {
    b == 32 || b == 9 || b == 10 || b == 11 || b == 12 || b == 13
}

/// `s` without its trailing whitespace.
pub open spec fn trimmed(s: Seq<u8>) -> Seq<u8>
    decreases s.len(),
{
    if s.len() > 0 && is_ws(s.last()) {
        trimmed(s.drop_last())
    } else {
        s
    }
}

/// The bytes of the `capture` keyword.
pub open spec fn capture_keyword() -> Seq<u8> {
    seq![99u8, 97u8, 112u8, 116u8, 117u8, 114u8, 101u8]
}

/// The bytes of the `pause` keyword.
pub open spec fn pause_keyword() -> Seq<u8> {
    seq![112u8, 97u8, 117u8, 115u8, 101u8]
}

/// The bytes of the `resume` keyword.
pub open spec fn resume_keyword() -> Seq<u8> {
    seq![114u8, 101u8, 115u8, 117u8, 109u8, 101u8]
}

/// The bytes of the `shutdown` keyword.
pub open spec fn shutdown_keyword() -> Seq<u8> {
    seq![115u8, 104u8, 117u8, 116u8, 100u8, 111u8, 119u8, 110u8]
}

/// What a received line means: its trailing whitespace is trimmed, then
/// it must match one of the four keywords exactly; anything else is
/// unknown.
pub open spec fn spec_parse_command(s: Seq<u8>) -> Command {
    let t = trimmed(s);
    if t == capture_keyword() {
        Command::Capture
    } else if t == pause_keyword() {
        Command::Pause
    } else if t == resume_keyword() {
        Command::Resume
    } else if t == shutdown_keyword() {
        Command::Shutdown
    } else {
        Command::Unknown
    }
}

/// Whether the first `end` bytes of `line` are exactly `kw`.
fn matches_keyword(line: &[u8], end: usize, kw: &[u8]) -> (r: bool)
    requires
        end <= line@.len(),
    ensures
        r == (line@.take(end as int) == kw@),
{
    if end != kw.len() {
        proof {
            assert(line@.take(end as int).len() != kw@.len());
        }
        return false;
    }
    let mut i: usize = 0;
    while i < end
        invariant
            i <= end,
            end <= line@.len(),
            end == kw@.len(),
            forall|k: int| 0 <= k < i ==> line@[k] == kw@[k],
        decreases end - i,
    {
        if line[i] != kw[i] {
            proof {
                assert(line@.take(end as int)[i as int] != kw@[i as int]);
            }
            return false;
        }
        i = i + 1;
    }
    proof {
        assert(line@.take(end as int) =~= kw@);
    }
    true
}

/// Parses one received line into a command: trailing whitespace is
/// trimmed, the rest must match a keyword exactly.
pub fn parse_command(line: &[u8]) -> (c: Command)
    ensures
        c == spec_parse_command(line@),
{
    let mut end: usize = line.len();
    proof {
        assert(line@.take(line@.len() as int) =~= line@);
    }
    loop
        invariant
            end <= line@.len(),
            trimmed(line@) == trimmed(line@.take(end as int)),
        ensures
            end <= line@.len(),
            trimmed(line@) == line@.take(end as int),
        decreases end,
    {
        if end == 0 {
            break;
        }
        let b = line[end - 1];
        if !(b == 32 || (b >= 9 && b <= 13)) {
            proof {
                assert(line@.take(end as int).last() == line@[end - 1]);
            }
            break;
        }
        proof {
            assert(line@.take(end as int).last() == line@[end - 1]);
            assert(line@.take(end as int).drop_last() =~= line@.take(end - 1));
        }
        end = end - 1;
    }
    let capture_kw: [u8; 7] = [99, 97, 112, 116, 117, 114, 101];
    let pause_kw: [u8; 5] = [112, 97, 117, 115, 101];
    let resume_kw: [u8; 6] = [114, 101, 115, 117, 109, 101];
    let shutdown_kw: [u8; 8] = [115, 104, 117, 116, 100, 111, 119, 110];
    proof {
        assert(capture_kw@ =~= capture_keyword());
        assert(pause_kw@ =~= pause_keyword());
        assert(resume_kw@ =~= resume_keyword());
        assert(shutdown_kw@ =~= shutdown_keyword());
    }
    if matches_keyword(line, end, capture_kw.as_slice()) {
        Command::Capture
    } else if matches_keyword(line, end, pause_kw.as_slice()) {
        Command::Pause
    } else if matches_keyword(line, end, resume_kw.as_slice()) {
        Command::Resume
    } else if matches_keyword(line, end, shutdown_kw.as_slice()) {
        Command::Shutdown
    } else {
        Command::Unknown
    }
}

/// Appends the still-image marker to a frame captured by the one-off
/// high-resolution path, framing it for the wire.
pub fn mark_still_frame(frame: Vec<u8>) -> (r: Vec<u8>)
    ensures
        r@ == frame@.push(STILL_IMAGE_MARKER),
{
    let mut f = frame;
    f.push(STILL_IMAGE_MARKER);
    f
}

/// The wait before the next frame that holds the target cadence: the
/// interval minus the time capture and send already used, and never less
/// than zero.
pub open spec fn spec_next_delay(interval_ms: u64, used_ms: u64) -> u64 {
    if used_ms > interval_ms {
        0
    } else {
        (interval_ms - used_ms) as u64
    }
}

/// Computes the re-arm delay after a frame was sent.
pub fn next_delay(interval_ms: u64, used_ms: u64) -> (d: u64)
    ensures
        d == spec_next_delay(interval_ms, used_ms),
{
    if used_ms > interval_ms {
        0
    } else {
        interval_ms - used_ms
    }
}

/// LAW. The cadence never asks for a negative wait and never waits
/// longer than the negotiated interval: with an interval of `i`
/// milliseconds, successive frame sends are re-armed between 0 and `i`
/// milliseconds apart, whatever capture and send used.
pub proof fn lemma_cadence_bounds(interval_ms: u64, used_ms: u64)
    ensures
        0 <= spec_next_delay(interval_ms, used_ms) <= interval_ms,
{
}

/// One frame interval `(numerator, denominator)` in seconds per frame,
/// rounded to whole milliseconds (half up). A zero denominator saturates.
pub open spec fn spec_refresh_ms(interval: (u32, u32)) -> u64 {
    if interval.1 == 0 {
        u64::MAX
    } else {
        ((1000 * (interval.0 as int) + (interval.1 as int) / 2) / (interval.1 as int)) as u64
    }
}

/// Computes the cadence interval in milliseconds from the negotiated
/// frame interval.
pub fn refresh_ms(interval: (u32, u32)) -> (ms: u64)
    ensures
        ms == spec_refresh_ms(interval),
{
    if interval.1 == 0 {
        u64::MAX
    } else {
        let n = interval.0 as u64;
        let d = interval.1 as u64;
        (1000 * n + d / 2) / d
    }
}

/// The format code `MJPG`, the preferred pixel format of both profiles.
pub open spec fn mjpg_code() -> Seq<u8> {
    seq![77u8, 74u8, 80u8, 71u8]
}

/// The preference set of the quality profile: prefer uncompressed MJPG
/// at the highest available resolution, any frame rate.
pub open spec fn spec_quality_constraints() -> ConstraintsView {
    ConstraintsView {
        formats: Some(
            FmtView {
                emulate: Pref::NoPreference,
                compress: Pref::DoNotPrefer,
                priorities: Some(seq![mjpg_code()]),
            },
        ),
        resolutions: Some(DisStepConstraint { dir: Dir::Highest, limit: None }),
        speeds: None,
        field: FIELD_NONE,
        nbuffers: 2,
    }
}

/// The preference set of the fast profile: prefer compressed,
/// non-emulated MJPG at the lowest resolution not below 640x480, at the
/// lowest available frame interval — the fewest seconds per frame, so
/// the fastest rate.
pub open spec fn spec_framerate_constraints() -> ConstraintsView {
    ConstraintsView {
        formats: Some(
            FmtView {
                emulate: Pref::DoNotPrefer,
                compress: Pref::Prefer,
                priorities: Some(seq![mjpg_code()]),
            },
        ),
        resolutions: Some(DisStepConstraint { dir: Dir::Lowest, limit: Some((640, 480)) }),
        speeds: Some(DisStepConstraint { dir: Dir::Lowest, limit: None }),
        field: FIELD_NONE,
        nbuffers: 2,
    }
}

fn mjpg_priorities() -> (p: Vec<[u8; 4]>)
    ensures
        crate::formats::codes_view(p@) =~= seq![mjpg_code()],
{
    let mut p: Vec<[u8; 4]> = Vec::new();
    let code: [u8; 4] = [77, 74, 80, 71];
    p.push(code);
    proof {
        assert(code@ =~= mjpg_code());
        assert(crate::formats::codes_view(p@) =~= seq![mjpg_code()]);
    }
    p
}

/// Builds the quality profile's preference set.
pub fn quality_constraints() -> (c: Constraints)
    ensures
        constraints_view(c) == spec_quality_constraints(),
{
    let c = Constraints {
        formats: Some(
            Fmt {
                emulate: Pref::NoPreference,
                compress: Pref::DoNotPrefer,
                priorities: Some(mjpg_priorities()),
            },
        ),
        resolutions: Some(DisStepConstraint { dir: Dir::Highest, limit: None }),
        speeds: None,
        field: FIELD_NONE,
        nbuffers: 2,
    };
    proof {
        assert(constraints_view(c) =~~= spec_quality_constraints());
    }
    c
}

/// Builds the fast profile's preference set.
pub fn framerate_constraints() -> (c: Constraints)
    ensures
        constraints_view(c) == spec_framerate_constraints(),
{
    let c = Constraints {
        formats: Some(
            Fmt {
                emulate: Pref::DoNotPrefer,
                compress: Pref::Prefer,
                priorities: Some(mjpg_priorities()),
            },
        ),
        resolutions: Some(DisStepConstraint { dir: Dir::Lowest, limit: Some((640, 480)) }),
        speeds: Some(DisStepConstraint { dir: Dir::Lowest, limit: None }),
        field: FIELD_NONE,
        nbuffers: 2,
    };
    proof {
        assert(constraints_view(c) =~~= spec_framerate_constraints());
    }
    c
}

/// The decision state of the stream server: the two cached profiles, the
/// cadence interval, and the connection and timer state the transitions
/// read and write.
#[derive(Clone, Copy, Debug, PartialEq, Eq)]
pub struct CamServer {
    /// The cached fast-profile configuration the cadence stream uses.
    pub fastest: ConfigSummary,
    /// The cached quality-profile configuration the one-off capture path
    /// uses.
    pub best: ConfigSummary,
    /// Milliseconds between cadence frames.
    pub interval: u64,
    /// Whether a client is admitted (`Connected`, `Streaming` or
    /// `Paused` as opposed to `Idle`).
    pub has_client: bool,
    /// The admitted client's last known writability.
    pub can_write: bool,
    /// Whether a frame timer is pending (`Streaming`).
    pub timer_armed: bool,
}

/// The transition on a readable listener: admit the connection only when
/// no client is admitted; a second concurrent connection is dropped with
/// nothing sent on it.
pub open spec fn spec_accept(s: CamServer) -> (CamServer, bool) {
    if s.has_client {
        (s, false)
    } else {
        (CamServer { has_client: true, can_write: false, ..s }, true)
    }
}

/// The transition on client writability: remember it, so the next timer
/// tick may send.
pub open spec fn spec_client_writable(s: CamServer) -> CamServer {
    if s.has_client {
        CamServer { can_write: true, ..s }
    } else {
        s
    }
}

/// The transition on client hangup or error: drop the connection and
/// nothing else; the device stays open, and a still-pending timer stops
/// the cycle on its own when it fires into the empty state.
pub open spec fn spec_client_gone(s: CamServer) -> CamServer {
    CamServer { has_client: false, can_write: false, ..s }
}

/// The transition on a parsed command.
pub open spec fn spec_on_command(s: CamServer, c: Command) -> (CamServer, ServerAction) {
    match c {
        Command::Capture => (s, ServerAction::CaptureStill),
        Command::Pause => (
            CamServer { timer_armed: false, ..s },
            if s.timer_armed {
                ServerAction::CancelTimer
            } else {
                ServerAction::Ignore
            },
        ),
        Command::Resume => (CamServer { timer_armed: true, ..s }, ServerAction::ArmTimer(0)),
        Command::Shutdown => (s, ServerAction::Shutdown),
        Command::Unknown => (s, ServerAction::Ignore),
    }
}

/// The transition on a timer expiry.
pub open spec fn spec_on_timer(s: CamServer) -> (CamServer, TimerDecision) {
    if !s.has_client {
        (CamServer { timer_armed: false, ..s }, TimerDecision::Halt)
    } else if !s.can_write {
        (s, TimerDecision::Defer(s.interval))
    } else {
        (CamServer { timer_armed: false, ..s }, TimerDecision::CaptureFrame)
    }
}

/// The transition after a cadence frame was captured and sent (or
/// failed): on success re-arm to hold the cadence, on failure leave the
/// timer unarmed and rely on the hangup event for cleanup.
pub open spec fn spec_frame_sent(s: CamServer, ok: bool, used_ms: u64) -> (CamServer, Option<u64>) {
    if ok {
        (CamServer { timer_armed: true, ..s }, Some(spec_next_delay(s.interval, used_ms)))
    } else {
        (s, None)
    }
}

impl CamServer {
    /// Negotiates both profiles against the device snapshot and starts
    /// `Idle` with the fast profile's cadence. Fails exactly when either
    /// profile finds no configuration; negotiation failure at startup is
    /// fatal and left to the caller.
    pub fn new(device: &DeviceCaps) -> (r: Result<CamServer, ()>)
        requires
            caps_discrete(*device),
        ensures
            match r {
                Ok(s) => Some(s.best) == spec_get_config(*device, spec_quality_constraints())
                    && Some(s.fastest) == spec_get_config(*device, spec_framerate_constraints())
                    && s.interval == spec_refresh_ms(s.fastest.interval)
                    && !s.has_client && !s.can_write && !s.timer_armed,
                Err(_) => spec_get_config(*device, spec_quality_constraints()) is None
                    || spec_get_config(*device, spec_framerate_constraints()) is None,
            },
    {
        let quality = match get_config(device, quality_constraints()) {
            Some(cfg) => cfg,
            None => {
                return Err(());
            },
        };
        let fast = match get_config(device, framerate_constraints()) {
            Some(cfg) => cfg,
            None => {
                return Err(());
            },
        };
        let interval = refresh_ms(fast.interval);
        Ok(
            CamServer {
                fastest: fast,
                best: quality,
                interval,
                has_client: false,
                can_write: false,
                timer_armed: false,
            },
        )
    }

    /// A connection is ready on the listener: admit it only when no
    /// client is admitted. When this returns false the caller drops the
    /// new socket without sending anything on it.
    pub fn accept_client(&mut self) -> (admitted: bool)
        ensures
            *final(self) == spec_accept(*old(self)).0,
            admitted == spec_accept(*old(self)).1,
            admitted == !old(self).has_client,
    {
        if self.has_client {
            false
        } else {
            self.has_client = true;
            self.can_write = false;
            true
        }
    }

    /// The client socket reported writable.
    pub fn client_writable(&mut self)
        ensures
            *final(self) == spec_client_writable(*old(self)),
    {
        if self.has_client {
            self.can_write = true;
        }
    }

    /// The client hung up or erred.
    pub fn client_gone(&mut self)
        ensures
            *final(self) == spec_client_gone(*old(self)),
    {
        self.has_client = false;
        self.can_write = false;
    }

    /// Executes the state change of one received command line and says
    /// what the event loop must do for it.
    pub fn on_command(&mut self, line: &[u8]) -> (a: ServerAction)
        ensures
            *final(self) == spec_on_command(*old(self), spec_parse_command(line@)).0,
            a == spec_on_command(*old(self), spec_parse_command(line@)).1,
    {
        match parse_command(line) {
            Command::Capture => ServerAction::CaptureStill,
            Command::Pause => {
                let was_armed = self.timer_armed;
                self.timer_armed = false;
                if was_armed {
                    ServerAction::CancelTimer
                } else {
                    ServerAction::Ignore
                }
            },
            Command::Resume => {
                self.timer_armed = true;
                ServerAction::ArmTimer(0)
            },
            Command::Shutdown => ServerAction::Shutdown,
            Command::Unknown => ServerAction::Ignore,
        }
    }

    /// The frame timer fired: decide whether to halt the cycle, defer,
    /// or capture and send one frame.
    pub fn on_timer(&mut self) -> (d: TimerDecision)
        requires
            old(self).timer_armed,
        ensures
            *final(self) == spec_on_timer(*old(self)).0,
            d == spec_on_timer(*old(self)).1,
    {
        if !self.has_client {
            self.timer_armed = false;
            TimerDecision::Halt
        } else if !self.can_write {
            TimerDecision::Defer(self.interval)
        } else {
            self.timer_armed = false;
            TimerDecision::CaptureFrame
        }
    }

    /// A cadence frame was captured and written (or not): on success,
    /// re-arm the timer for the remainder of the interval; on failure,
    /// leave it unarmed.
    pub fn frame_sent(&mut self, ok: bool, used_ms: u64) -> (rearm: Option<u64>)
        requires
            !old(self).timer_armed,
        ensures
            *final(self) == spec_frame_sent(*old(self), ok, used_ms).0,
            rearm == spec_frame_sent(*old(self), ok, used_ms).1,
            rearm matches Some(d) ==> d <= old(self).interval,
    {
        if ok {
            self.timer_armed = true;
            Some(next_delay(self.interval, used_ms))
        } else {
            None
        }
    }
}

/// LAW. Admission control: from a state with no client, the first
/// connection attempt is admitted and the second is refused, leaving the
/// state exactly as the first admission left it. Two near-simultaneous
/// attempts therefore yield exactly one connected client, and the
/// refused socket never carries a frame.
pub proof fn lemma_single_admission(s: CamServer)
    requires
        !s.has_client,
    ensures
        spec_accept(s).1,
        spec_accept(s).0.has_client,
        !spec_accept(spec_accept(s).0).1,
        spec_accept(spec_accept(s).0).0 == spec_accept(s).0,
{
}

/// LAW. `pause` then `resume`: pause leaves the timer unarmed, and while
/// it stays unarmed no timer event exists, so no frame is captured or
/// sent between the two commands; `resume` re-arms the timer with zero
/// delay, so the first frame after it comes with no additional wait.
pub proof fn lemma_pause_resume(s: CamServer)
    ensures
        !spec_on_command(s, Command::Pause).0.timer_armed,
        spec_on_command(spec_on_command(s, Command::Pause).0, Command::Resume).1
            == ServerAction::ArmTimer(0),
        spec_on_command(spec_on_command(s, Command::Pause).0, Command::Resume).0.timer_armed,
        spec_on_command(spec_on_command(s, Command::Pause).0, Command::Resume).0.has_client
            == s.has_client,
{
}

} // verus!
