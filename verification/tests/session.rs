use keypad_macros::config::{Config, DeviceConfiguration, Macro, OneOfMacros, Shortcut};
use keypad_macros::keyboard::{Key, KeyEvent, KeyEventType};
use keypad_macros::macros::ShellMacro;
use keypad_macros::session::{
    DeviceSession, SessionCommand, SessionEvent, BACKOFF_SECONDS, INJECTION_DELAY_MILLIS,
    READ_TIMEOUT_MILLIS,
};

fn device(vid: u16, pid: u16, macros: Vec<Macro>) -> DeviceConfiguration {
    DeviceConfiguration { vid, pid, macros }
}

fn shell_binding(key: Key, command: &str) -> Macro {
    Macro {
        key,
        oneof_macro: OneOfMacros::Shell(ShellMacro {
            command: String::from(command),
            args: Vec::new(),
            envs: None,
            uid: None,
        }),
    }
}

fn shortcut_binding(key: Key, keys: Vec<Key>) -> Macro {
    Macro { key, oneof_macro: OneOfMacros::Shortcut(Shortcut { keys }) }
}

fn session(vid: u16, pid: u16, macros: Vec<Macro>) -> DeviceSession {
    DeviceSession::new(device(vid, pid, macros)).expect("valid configuration")
}

#[test]
fn timing_constants() {
    assert_eq!(BACKOFF_SECONDS, 5);
    assert_eq!(READ_TIMEOUT_MILLIS, 2500);
    assert_eq!(INJECTION_DELAY_MILLIS, 20);
}

#[test]
fn absent_device_backs_off() {
    let mut s = session(1, 2, Vec::new());
    assert_eq!(s.advance(SessionEvent::ProbeFailed), SessionCommand::Backoff);
    assert_eq!(s.advance(SessionEvent::OpenFailed), SessionCommand::Backoff);
    assert_eq!(s.advance(SessionEvent::ProbeFailed), SessionCommand::Backoff);
}

#[test]
fn connected_device_keeps_reading() {
    let mut s = session(1, 2, Vec::new());
    assert_eq!(s.advance(SessionEvent::Opened), SessionCommand::Read);
    assert_eq!(s.advance(SessionEvent::ReadTimedOut), SessionCommand::Read);
    assert_eq!(s.advance(SessionEvent::ReportRead), SessionCommand::Read);
}

#[test]
fn read_error_returns_to_probing_and_recovers() {
    let mut s = session(1, 2, Vec::new());
    assert_eq!(s.advance(SessionEvent::Opened), SessionCommand::Read);
    // a communication error abandons the handle and resumes probing; it
    // does not halt the session
    assert_eq!(s.advance(SessionEvent::ReadFailed), SessionCommand::Probe);
    assert_eq!(s.advance(SessionEvent::ProbeFailed), SessionCommand::Backoff);
    // a later successful probe and open resumes normal operation
    assert_eq!(s.advance(SessionEvent::Opened), SessionCommand::Read);
    assert_eq!(s.advance(SessionEvent::ReportRead), SessionCommand::Read);
}

#[test]
fn stop_flag_halts_from_every_state() {
    let mut absent = session(1, 2, Vec::new());
    assert_eq!(absent.advance(SessionEvent::StopRequested), SessionCommand::Halt);
    assert_eq!(absent.advance(SessionEvent::Opened), SessionCommand::Halt);

    let mut connected = session(1, 2, Vec::new());
    connected.advance(SessionEvent::Opened);
    assert_eq!(connected.advance(SessionEvent::StopRequested), SessionCommand::Halt);
    assert_eq!(connected.advance(SessionEvent::ReadTimedOut), SessionCommand::Halt);
}

#[test]
fn session_decodes_and_dispatches_on_release_only() {
    let mut s = session(1, 2, vec![shell_binding(Key::A, "echo")]);
    s.advance(SessionEvent::Opened);
    let evs = s.handle_report(&[0, 0, 0x04, 0, 0, 0, 0, 0], 8);
    assert_eq!(evs.len(), 1);
    assert_eq!(evs[0].event_type, KeyEventType::PRESSED);
    assert!(s.action_for(&evs[0]).is_none());
    let evs = s.handle_report(&[0, 0, 0, 0, 0, 0, 0, 0], 8);
    assert_eq!(evs.len(), 1);
    assert_eq!(evs[0], KeyEvent { key: Key::A, event_type: KeyEventType::RELEASED });
    assert!(matches!(s.action_for(&evs[0]), Some(OneOfMacros::Shell(_))));
}

#[test]
fn reconnecting_resets_the_decoder() {
    let mut s = session(1, 2, Vec::new());
    s.advance(SessionEvent::Opened);
    let evs = s.handle_report(&[0, 0, 0x04, 0, 0, 0, 0, 0], 8);
    assert_eq!(evs.len(), 1);
    // the device disappears while A is held, then comes back
    assert_eq!(s.advance(SessionEvent::ReadFailed), SessionCommand::Probe);
    assert_eq!(s.advance(SessionEvent::Opened), SessionCommand::Read);
    // the fresh decoder holds nothing, so nothing is released
    let evs = s.handle_report(&[0, 0, 0, 0, 0, 0, 0, 0], 8);
    assert_eq!(evs, Vec::new());
}

#[test]
fn identity_comparison() {
    let s = session(0x1a2b, 0x3c4d, Vec::new());
    assert!(s.matches_identity(0x1a2b, 0x3c4d));
    assert!(!s.matches_identity(0x1a2b, 0x3c4e));
    assert!(!s.matches_identity(0x1a2c, 0x3c4d));
}

#[test]
fn build_sessions_one_per_device() {
    let config = Config {
        devices: vec![
            device(1, 2, vec![shell_binding(Key::A, "echo")]),
            device(3, 4, vec![shortcut_binding(Key::B, vec![Key::C])]),
        ],
    };
    let sessions = keypad_macros::session::build_sessions(config).expect("valid configuration");
    assert_eq!(sessions.len(), 2);
    assert!(sessions[0].matches_identity(1, 2));
    assert!(sessions[1].matches_identity(3, 4));
}

#[test]
fn build_sessions_rejects_bad_configuration() {
    let config = Config {
        devices: vec![
            device(1, 2, vec![shell_binding(Key::A, "echo")]),
            device(3, 4, vec![shortcut_binding(Key::B, vec![Key::End, Key::Home])]),
        ],
    };
    let r = keypad_macros::session::build_sessions(config);
    assert_eq!(r.err(), Some(Key::End));
}
