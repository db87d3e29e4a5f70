//! The per-device session state machine and its orchestration data.
//!
//! A session is `Absent` until a presence probe finds its device and a
//! transport handle opens, `Connected` while bounded-timeout reads serve
//! it, and `Stopped` once the shared stop flag is observed. Open failure
//! and communication failure both lead back to `Absent`: a device that
//! disappears is an ordinary, indefinitely recoverable condition, never
//! fatal. The worker that owns a session performs the commands this module
//! decides: probing, backing off, reading, halting.

use crate::config::{Config, DeviceConfiguration, OneOfMacros};
use crate::keyboard::{decoded_events, next_held, report_slots, Key, KeyEvent, KeyEventType, Keyboard};
use crate::macros::{binding_map, spec_first_uninjectable, MacroBinding};
use vstd::prelude::*;

verus! {

/// Fixed backoff, in seconds, between presence probes while absent.
pub const BACKOFF_SECONDS: u64 = 5;

/// Bounded read timeout, in milliseconds: the cancellation checkpoint.
pub const READ_TIMEOUT_MILLIS: u64 = 2500;

/// Delay, in milliseconds, between two synthesized input events.
pub const INJECTION_DELAY_MILLIS: u64 = 20;

/// Lifecycle state of one device session.
#[derive(Debug, Clone, Copy, PartialEq, Eq, Structural)]
pub enum SessionState {
    Absent,
    Connected,
    Stopped,
}

/// What a session observes at one checkpoint of its loop.
#[derive(Debug, Clone, Copy, PartialEq, Eq, Structural)]
pub enum SessionEvent {
    /// The shared stop flag was observed true.
    StopRequested,
    /// The presence probe did not find the device.
    ProbeFailed,
    /// The probe found the device but opening a handle failed.
    OpenFailed,
    /// A transport handle was opened.
    Opened,
    /// A bounded-timeout read elapsed with no data.
    ReadTimedOut,
    /// A bounded-timeout read returned a report.
    ReportRead,
    /// The read failed with a communication error.
    ReadFailed,
}

/// What the worker that drives a session must do next.
#[derive(Debug, Clone, Copy, PartialEq, Eq, Structural)]
pub enum SessionCommand {
    /// Probe for the device under the shared lock and try to open it.
    Probe,
    /// Sleep the fixed backoff, checking the stop flag before and after,
    /// then probe.
    Backoff,
    /// Issue a bounded-timeout read on the open handle.
    Read,
    /// Leave the loop and release resources.
    Halt,
}

/// The transition function of the session lifecycle. The stop flag wins in
/// every state; a probe and open success connects; a communication error
/// abandons the handle and returns to probing; everything else stays put.
pub open spec fn spec_step(s: SessionState, e: SessionEvent) -> SessionState {
    match (s, e) {
        (_, SessionEvent::StopRequested) => SessionState::Stopped,
        (SessionState::Stopped, _) => SessionState::Stopped,
        (SessionState::Absent, SessionEvent::Opened) => SessionState::Connected,
        (SessionState::Absent, _) => SessionState::Absent,
        (SessionState::Connected, SessionEvent::ReadFailed) => SessionState::Absent,
        (SessionState::Connected, _) => SessionState::Connected,
    }
}

/// The command that follows a transition: halt once stopped, read while
/// connected, probe again at once after a communication error, and back
/// off before re-probing after a failed probe or open.
pub open spec fn spec_command(s: SessionState, e: SessionEvent) -> SessionCommand {
    match spec_step(s, e) {
        SessionState::Stopped => SessionCommand::Halt,
        SessionState::Connected => SessionCommand::Read,
        SessionState::Absent => if e == SessionEvent::ReadFailed {
            SessionCommand::Probe
        } else {
            SessionCommand::Backoff
        },
    }
}

/// Only the stop flag stops a session: `Stopped` is reached exactly on
/// `StopRequested` or from `Stopped` itself. In particular a communication
/// error during a read does not terminate the session: it returns it to
/// `Absent` with an immediate re-probe, and a later successful open
/// resumes normal operation.
pub proof fn lemma_read_error_is_recoverable()
    ensures
        spec_step(SessionState::Connected, SessionEvent::ReadFailed) == SessionState::Absent,
        spec_command(SessionState::Connected, SessionEvent::ReadFailed) == SessionCommand::Probe,
        spec_step(SessionState::Absent, SessionEvent::Opened) == SessionState::Connected,
        spec_command(SessionState::Absent, SessionEvent::Opened) == SessionCommand::Read,
        forall|s: SessionState, e: SessionEvent|
            spec_step(s, e) == SessionState::Stopped <==> (e == SessionEvent::StopRequested || s
                == SessionState::Stopped),
{
}

/// One device session: identity, binding table, lifecycle state and the
/// device's own report decoder. The transport handle itself is owned by
/// the worker outside this crate.
pub struct DeviceSession {
    vid: u16,
    pid: u16,
    binding: MacroBinding,
    keyboard: Keyboard,
    state: SessionState,
}

impl DeviceSession {
    /// The configured vendor id.
    pub closed spec fn vid(&self) -> u16 {
        self.vid
    }

    /// The configured product id.
    pub closed spec fn pid(&self) -> u16 {
        self.pid
    }

    /// The lifecycle state.
    pub closed spec fn state(&self) -> SessionState {
        self.state
    }

    /// The binding table, as the mapping it denotes.
    pub closed spec fn binding(&self) -> Map<Key, OneOfMacros> {
        self.binding@
    }

    /// The decoder state: the keys held as of the previous report.
    pub closed spec fn held(&self) -> Seq<Key> {
        self.keyboard@
    }

    /// The session's invariant: its decoder is well formed.
    pub closed spec fn wf(&self) -> bool {
        self.keyboard.wf()
    }

    /// Builds one session from its configuration: validates the bindings
    /// (returning the first key no key sequence could synthesize), builds
    /// the immutable table, and starts absent with a fresh decoder.
    pub fn new(conf: DeviceConfiguration) -> (r: Result<DeviceSession, Key>)
        ensures
            r is Ok <==> spec_first_uninjectable(conf.macros@) is None,
            r matches Ok(s) ==> {
                &&& s.vid() == conf.vid
                &&& s.pid() == conf.pid
                &&& s.binding() == binding_map(conf.macros@)
                &&& s.state() == SessionState::Absent
                &&& s.held() == Seq::<Key>::empty()
                &&& s.wf()
            },
            r matches Err(k) ==> spec_first_uninjectable(conf.macros@) == Some(k),
    {
        let binding = match MacroBinding::new(conf.macros) {
            Ok(b) => b,
            Err(k) => {
                return Err(k);
            },
        };
        Ok(
            DeviceSession {
                vid: conf.vid,
                pid: conf.pid,
                binding,
                keyboard: Keyboard::new(),
                state: SessionState::Absent,
            },
        )
    }

    /// Whether an enumerated device's identity is this session's device.
    pub fn matches_identity(&self, vid: u16, pid: u16) -> (b: bool)
        ensures
            b == (vid == self.vid() && pid == self.pid()),
    {
        vid == self.vid && pid == self.pid
    }

    /// Applies one observed event: moves to the next lifecycle state and
    /// says what the worker must do next. Connecting resets the decoder,
    /// so a reconnected device starts from a clean held-key state; nothing
    /// else changes the decoder, the binding or the identity.
    pub fn advance(&mut self, e: SessionEvent) -> (c: SessionCommand)
        requires
            old(self).wf(),
        ensures
            final(self).state() == spec_step(old(self).state(), e),
            c == spec_command(old(self).state(), e),
            final(self).vid() == old(self).vid(),
            final(self).pid() == old(self).pid(),
            final(self).binding() == old(self).binding(),
            e == SessionEvent::Opened ==> final(self).held() == Seq::<Key>::empty(),
            e != SessionEvent::Opened ==> final(self).held() == old(self).held(),
            final(self).wf(),
    {
        if matches!(e, SessionEvent::Opened) {
            self.keyboard = Keyboard::new();
        }
        let next = match (self.state, e) {
            (_, SessionEvent::StopRequested) => SessionState::Stopped,
            (SessionState::Stopped, _) => SessionState::Stopped,
            (SessionState::Absent, SessionEvent::Opened) => SessionState::Connected,
            (SessionState::Absent, _) => SessionState::Absent,
            (SessionState::Connected, SessionEvent::ReadFailed) => SessionState::Absent,
            (SessionState::Connected, _) => SessionState::Connected,
        };
        self.state = next;
        match next {
            SessionState::Stopped => SessionCommand::Halt,
            SessionState::Connected => SessionCommand::Read,
            SessionState::Absent => if matches!(e, SessionEvent::ReadFailed) {
                SessionCommand::Probe
            } else {
                SessionCommand::Backoff
            },
        }
    }

    /// Decodes one report read while connected. A zero-length read is a
    /// session-level no-op and must not reach this function.
    pub fn handle_report(&mut self, buf: &[u8; 8], length: usize) -> (evs: Vec<KeyEvent>)
        requires
            old(self).wf(),
            old(self).state() == SessionState::Connected,
            1 <= length <= 8,
        ensures
            evs@ == decoded_events(old(self).held(), report_slots(buf@, length as int)),
            final(self).held() == next_held(old(self).held(), report_slots(buf@, length as int)),
            final(self).state() == old(self).state(),
            final(self).vid() == old(self).vid(),
            final(self).pid() == old(self).pid(),
            final(self).binding() == old(self).binding(),
            final(self).wf(),
    {
        match self.keyboard.events(buf, length) {
            Ok(evs) => evs,
            Err(_) => {
                // the decoder never fails; its contract says so
                proof {
                    assert(false);
                }
                Vec::new()
            },
        }
    }

    /// Dispatch decision for one decoded event: a `RELEASED` event looks
    /// its binding up, a `PRESSED` event never dispatches, and an unbound
    /// key is a silent no-op. The returned action is performed outside
    /// this crate without waiting for it to finish.
    pub fn action_for(&self, ev: &KeyEvent) -> (r: Option<&OneOfMacros>)
        ensures
            match r {
                Some(a) => ev.event_type == KeyEventType::RELEASED && self.binding().dom().contains(
                    ev.key,
                ) && self.binding()[ev.key] == *a,
                None => ev.event_type == KeyEventType::PRESSED || !self.binding().dom().contains(
                    ev.key,
                ),
            },
    {
        self.binding.action_for(ev)
    }
}

/// The first key anywhere in a configuration that no key sequence could
/// synthesize, if any: the first offending key of the first offending
/// device.
pub open spec fn config_first_uninjectable(devices: Seq<DeviceConfiguration>) -> Option<Key>
    decreases devices.len(),
{
    if devices.len() == 0 {
        None
    } else if spec_first_uninjectable(devices[0].macros@) is Some {
        spec_first_uninjectable(devices[0].macros@)
    } else {
        config_first_uninjectable(devices.skip(1))
    }
}

/// Builds one session per configured device, in order. Fails with the
/// first unmappable key, before any session exists: a configuration error
/// halts the whole process before any session runs.
pub fn build_sessions(config: Config) -> (r: Result<Vec<DeviceSession>, Key>)
    ensures
        r is Ok <==> config_first_uninjectable(config.devices@) is None,
        r matches Ok(v) ==> {
            &&& v@.len() == config.devices@.len()
            &&& forall|i: int|
                0 <= i < v@.len() ==> {
                    &&& (#[trigger] v@[i]).vid() == config.devices@[i].vid
                    &&& v@[i].pid() == config.devices@[i].pid
                    &&& v@[i].binding() == binding_map(config.devices@[i].macros@)
                    &&& v@[i].state() == SessionState::Absent
                    &&& v@[i].held() == Seq::<Key>::empty()
                    &&& v@[i].wf()
                }
        },
        r matches Err(k) ==> config_first_uninjectable(config.devices@) == Some(k),
{
    let ghost all = config.devices@;
    let mut sessions: Vec<DeviceSession> = Vec::new();
    let mut devices = config.devices;
    let n: usize = devices.len();
    let mut i: usize = 0;
    proof {
        assert(all.skip(0) =~= all);
    }
    while i < n
        invariant
            i <= n,
            n == all.len(),
            all == config.devices@,
            devices@ == all.skip(i as int),
            sessions@.len() == i,
            config_first_uninjectable(all) == config_first_uninjectable(all.skip(i as int)),
            forall|m: int|
                0 <= m < i ==> {
                    &&& (#[trigger] sessions@[m]).vid() == all[m].vid
                    &&& sessions@[m].pid() == all[m].pid
                    &&& sessions@[m].binding() == binding_map(all[m].macros@)
                    &&& sessions@[m].state() == SessionState::Absent
                    &&& sessions@[m].held() == Seq::<Key>::empty()
                    &&& sessions@[m].wf()
                },
        decreases n - i,
    {
        proof {
            assert(all.skip(i as int)[0] == all[i as int]);
            assert(all.skip(i as int).remove(0) =~= all.skip(i as int + 1));
        }
        let conf = devices.remove(0);
        proof {
            assert(conf == all[i as int]);
        }
        match DeviceSession::new(conf) {
            Ok(s) => {
                sessions.push(s);
            },
            Err(k) => {
                proof {
                    assert(config_first_uninjectable(all) == Some(k));
                }
                return Err(k);
            },
        }
        i += 1;
    }
    proof {
        assert(all.skip(n as int) =~= Seq::<DeviceConfiguration>::empty());
    }
    Ok(sessions)
}

} // verus!
