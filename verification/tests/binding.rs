use keypad_macros::config::{Macro, OneOfMacros, Shortcut};
use keypad_macros::keyboard::{Key, KeyEvent, KeyEventType};
use keypad_macros::macros::{MacroBinding, ShellMacro};

fn shell(command: &str) -> OneOfMacros {
    OneOfMacros::Shell(ShellMacro {
        command: String::from(command),
        args: Vec::new(),
        envs: None,
        uid: None,
    })
}

fn shortcut(keys: Vec<Key>) -> OneOfMacros {
    OneOfMacros::Shortcut(Shortcut { keys })
}

fn entry(key: Key, oneof_macro: OneOfMacros) -> Macro {
    Macro { key, oneof_macro }
}

fn shell_command(m: &OneOfMacros) -> &str {
    match m {
        OneOfMacros::Shell(s) => s.command.as_str(),
        OneOfMacros::Shortcut(_) => panic!("expected a shell macro"),
    }
}

#[test]
fn injection_plan_downs_then_ups_in_order() {
    let sc = Shortcut {
        keys: vec![Key::ControlLeft, Key::ShiftLeft, Key::A],
    };
    let plan = sc.injection_plan();
    let expect = vec![
        KeyEvent { key: Key::ControlLeft, event_type: KeyEventType::PRESSED },
        KeyEvent { key: Key::ShiftLeft, event_type: KeyEventType::PRESSED },
        KeyEvent { key: Key::A, event_type: KeyEventType::PRESSED },
        KeyEvent { key: Key::ControlLeft, event_type: KeyEventType::RELEASED },
        KeyEvent { key: Key::ShiftLeft, event_type: KeyEventType::RELEASED },
        KeyEvent { key: Key::A, event_type: KeyEventType::RELEASED },
    ];
    assert_eq!(plan, expect);
}

#[test]
fn empty_injection_plan() {
    let sc = Shortcut { keys: Vec::new() };
    assert_eq!(sc.injection_plan(), Vec::new());
}

#[test]
fn lookup_finds_bound_key() {
    let binding =
        MacroBinding::new(vec![entry(Key::A, shell("echo")), entry(Key::B, shortcut(vec![Key::C]))])
            .unwrap();
    let found = binding.lookup(Key::A).expect("A is bound");
    assert_eq!(shell_command(found), "echo");
    assert!(matches!(binding.lookup(Key::B), Some(OneOfMacros::Shortcut(_))));
    assert!(binding.lookup(Key::C).is_none());
}

#[test]
fn later_entry_wins() {
    let binding =
        MacroBinding::new(vec![entry(Key::A, shell("first")), entry(Key::A, shell("second"))])
            .unwrap();
    let found = binding.lookup(Key::A).expect("A is bound");
    assert_eq!(shell_command(found), "second");
}

#[test]
fn uninjectable_key_is_a_configuration_error() {
    let r = MacroBinding::new(vec![entry(Key::A, shortcut(vec![Key::A, Key::Home]))]);
    assert_eq!(r.err(), Some(Key::Home));
}

#[test]
fn first_uninjectable_key_is_reported() {
    let r = MacroBinding::new(vec![
        entry(Key::A, shell("ok")),
        entry(Key::B, shortcut(vec![Key::Insert, Key::End])),
        entry(Key::C, shortcut(vec![Key::Unknown])),
    ]);
    assert_eq!(r.err(), Some(Key::Insert));
}

#[test]
fn shell_macros_reference_no_keys() {
    // a shell macro cannot fail validation, whatever key it is bound to
    let r = MacroBinding::new(vec![entry(Key::Home, shell("ok"))]);
    assert!(r.is_ok());
}

#[test]
fn pressed_events_never_dispatch() {
    let binding = MacroBinding::new(vec![entry(Key::A, shell("echo"))]).unwrap();
    let press = KeyEvent { key: Key::A, event_type: KeyEventType::PRESSED };
    assert!(binding.action_for(&press).is_none());
    let release = KeyEvent { key: Key::A, event_type: KeyEventType::RELEASED };
    assert!(binding.action_for(&release).is_some());
}

#[test]
fn unbound_release_is_a_silent_no_op() {
    let binding = MacroBinding::new(vec![entry(Key::A, shell("echo"))]).unwrap();
    let release = KeyEvent { key: Key::B, event_type: KeyEventType::RELEASED };
    assert!(binding.action_for(&release).is_none());
}
