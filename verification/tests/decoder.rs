use keypad_macros::keyboard::{Key, KeyEvent, KeyEventType, Keyboard};

fn ev(key: Key, event_type: KeyEventType) -> KeyEvent {
    KeyEvent { key, event_type }
}

fn pressed(key: Key) -> KeyEvent {
    ev(key, KeyEventType::PRESSED)
}

fn released(key: Key) -> KeyEvent {
    ev(key, KeyEventType::RELEASED)
}

#[test]
fn press_then_release() {
    let mut kb = Keyboard::new();
    let evs = kb.events(&[0, 0, 0x04, 0, 0, 0, 0, 0], 8).unwrap();
    assert_eq!(evs, vec![pressed(Key::A)]);
    let evs = kb.events(&[0, 0, 0, 0, 0, 0, 0, 0], 8).unwrap();
    assert_eq!(evs, vec![released(Key::A)]);
}

#[test]
fn identical_report_emits_nothing() {
    // re-decoding an unchanged report stays silent however often it
    // repeats, and the one release still fires at the end
    let mut kb = Keyboard::new();
    let evs = kb.events(&[0, 0, 0x04, 0, 0, 0, 0, 0], 8).unwrap();
    assert_eq!(evs, vec![pressed(Key::A)]);
    let evs = kb.events(&[0, 0, 0x04, 0, 0, 0, 0, 0], 8).unwrap();
    assert_eq!(evs, vec![]);
    let evs = kb.events(&[0, 0, 0x04, 0, 0, 0, 0, 0], 8).unwrap();
    assert_eq!(evs, vec![]);
    let evs = kb.events(&[0, 0, 0, 0, 0, 0, 0, 0], 8).unwrap();
    assert_eq!(evs, vec![released(Key::A)]);
}

#[test]
fn held_key_is_retained_until_released() {
    // a reconfirmed key stays in the retained state, so a key held over
    // many reports is released exactly once, when it finally disappears
    let mut kb = Keyboard::new();
    assert_eq!(
        kb.events(&[0, 0, 0x04, 0x05, 0, 0, 0, 0], 8).unwrap(),
        vec![pressed(Key::A), pressed(Key::B)]
    );
    assert_eq!(
        kb.events(&[0, 0, 0x05, 0, 0, 0, 0, 0], 8).unwrap(),
        vec![released(Key::A)]
    );
    assert_eq!(kb.events(&[0, 0, 0x05, 0, 0, 0, 0, 0], 8).unwrap(), vec![]);
    assert_eq!(
        kb.events(&[0, 0, 0, 0, 0, 0, 0, 0], 8).unwrap(),
        vec![released(Key::B)]
    );
}

#[test]
fn overflow_marker_stops_scan_but_releases() {
    let mut kb = Keyboard::new();
    assert_eq!(
        kb.events(&[0, 0, 0x04, 0x05, 0, 0, 0, 0], 8).unwrap(),
        vec![pressed(Key::A), pressed(Key::B)]
    );
    // slot 0 presses C, the overflow marker at slot 1 hides the rest of the
    // report, and the held keys not reconfirmed before it are released
    assert_eq!(
        kb.events(&[0, 0, 0x06, 0x01, 0x05, 0, 0, 0], 8).unwrap(),
        vec![pressed(Key::C), released(Key::A), released(Key::B)]
    );
}

#[test]
fn unmapped_code_does_not_suppress_neighbours() {
    let mut kb = Keyboard::new();
    let evs = kb.events(&[0, 0, 0xee, 0x04, 0xf1, 0x05, 0, 0], 8).unwrap();
    assert_eq!(evs, vec![pressed(Key::A), pressed(Key::B)]);
}

#[test]
fn empty_report_with_empty_state_is_silent() {
    let mut kb = Keyboard::new();
    assert_eq!(kb.events(&[0, 0, 0, 0, 0, 0, 0, 0], 8).unwrap(), vec![]);
}

#[test]
fn short_valid_length_scans_nothing() {
    let mut kb = Keyboard::new();
    assert_eq!(kb.events(&[0, 0, 0x04, 0, 0, 0, 0, 0], 2).unwrap(), vec![]);
    // a shorter valid length hides later slots
    assert_eq!(
        kb.events(&[0, 0, 0x04, 0x05, 0, 0, 0, 0], 3).unwrap(),
        vec![pressed(Key::A)]
    );
}

#[test]
fn six_simultaneous_keys() {
    let mut kb = Keyboard::new();
    let evs = kb
        .events(&[0, 0, 0x04, 0x05, 0x06, 0x07, 0x08, 0x09], 8)
        .unwrap();
    assert_eq!(
        evs,
        vec![
            pressed(Key::A),
            pressed(Key::B),
            pressed(Key::C),
            pressed(Key::D),
            pressed(Key::E),
            pressed(Key::F)
        ]
    );
    let evs = kb.events(&[0, 0, 0, 0, 0, 0, 0, 0], 8).unwrap();
    assert_eq!(
        evs,
        vec![
            released(Key::A),
            released(Key::B),
            released(Key::C),
            released(Key::D),
            released(Key::E),
            released(Key::F)
        ]
    );
}

#[test]
fn duplicate_slot_value_pressed_once() {
    let mut kb = Keyboard::new();
    let evs = kb.events(&[0, 0, 0x04, 0x04, 0, 0, 0, 0], 8).unwrap();
    assert_eq!(evs, vec![pressed(Key::A)]);
    let evs = kb.events(&[0, 0, 0, 0, 0, 0, 0, 0], 8).unwrap();
    assert_eq!(evs, vec![released(Key::A)]);
}

#[test]
fn releases_keep_held_order() {
    let mut kb = Keyboard::new();
    kb.events(&[0, 0, 0x1e, 0x04, 0x2c, 0, 0, 0], 8).unwrap();
    let evs = kb.events(&[0, 0, 0, 0, 0, 0, 0, 0], 8).unwrap();
    assert_eq!(
        evs,
        vec![released(Key::Num1), released(Key::A), released(Key::Space)]
    );
}

#[test]
fn usage_code_table() {
    assert_eq!(Key::try_key_from(0x04), Ok(Key::A));
    assert_eq!(Key::try_key_from(0x1d), Ok(Key::Z));
    assert_eq!(Key::try_key_from(0x1e), Ok(Key::Num1));
    assert_eq!(Key::try_key_from(0x27), Ok(Key::Num0));
    assert_eq!(Key::try_key_from(0x28), Ok(Key::Enter));
    assert_eq!(Key::try_key_from(0x39), Ok(Key::Capslock));
    assert_eq!(Key::try_key_from(0x3a), Ok(Key::F1));
    assert_eq!(Key::try_key_from(0x45), Ok(Key::F12));
    assert_eq!(Key::try_key_from(0x46), Ok(Key::PrintScreen));
    assert_eq!(Key::try_key_from(0x49), Ok(Key::Insert));
    assert_eq!(Key::try_key_from(0x4a), Ok(Key::Home));
    assert_eq!(Key::try_key_from(0x4c), Ok(Key::Delete));
    assert_eq!(Key::try_key_from(0x4d), Ok(Key::End));
    assert_eq!(Key::try_key_from(0x00), Err(()));
    assert_eq!(Key::try_key_from(0x01), Err(()));
    assert_eq!(Key::try_key_from(0x47), Err(()));
    assert_eq!(Key::try_key_from(0xff), Err(()));
}

#[test]
fn modifier_table() {
    assert_eq!(Key::try_mod_from(0x01), Ok(Key::ControlLeft));
    assert_eq!(Key::try_mod_from(0x02), Ok(Key::ShiftLeft));
    assert_eq!(Key::try_mod_from(0x04), Ok(Key::AltLeft));
    assert_eq!(Key::try_mod_from(0x10), Ok(Key::ControlRight));
    assert_eq!(Key::try_mod_from(0x20), Ok(Key::ShiftRight));
    assert_eq!(Key::try_mod_from(0x40), Ok(Key::AltRight));
    assert_eq!(Key::try_mod_from(0x03), Err(()));
    assert_eq!(Key::try_mod_from(0x80), Err(()));
}

#[test]
fn injectable_keys() {
    assert!(Key::A.is_injectable());
    assert!(Key::PrintScreen.is_injectable());
    assert!(Key::Delete.is_injectable());
    assert!(!Key::Unknown.is_injectable());
    assert!(!Key::Home.is_injectable());
    assert!(!Key::Insert.is_injectable());
    assert!(!Key::End.is_injectable());
}
