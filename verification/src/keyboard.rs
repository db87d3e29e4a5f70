//! Logical keys and the stateful boot-protocol report decoder.
//!
//! A boot-protocol keyboard input report is at least 8 bytes: byte 0 is the
//! modifier bitmap (not decoded here), byte 1 is reserved, and bytes 2 up to
//! the valid length hold up to 6 usage-code slots. A slot value of 0 means
//! an empty slot and a value of 1 is the rollover/overflow marker; either
//! one ends interpretation of the remaining slots of that report.

use vstd::prelude::*;

verus! {

/// Highest slot value that terminates the scan of a report: 0 marks an
/// empty slot and 1 is the rollover/overflow marker.
pub const KEY_ERR_OVF: u8 = 0x01;

/// Whether a key event reports the key going down or coming up.
#[derive(Debug, Clone, Copy, PartialEq, Eq, Structural)]
pub enum KeyEventType {
    PRESSED,
    RELEASED,
}

/// A decoded key transition.
#[derive(Debug, Clone, Copy, PartialEq, Eq, Structural)]
pub struct KeyEvent {
    pub key: Key,
    pub event_type: KeyEventType,
}

/// Closed enumeration of the logical keys a keypad can report, plus an
/// `Unknown` sentinel for unmapped usage codes. `Unknown` never appears in
/// a decoded event.
#[derive(Debug, Clone, Copy, PartialEq, Eq, Hash, Structural)]
pub enum Key {
    Unknown,
    A,
    B,
    C,
    D,
    E,
    F,
    G,
    H,
    I,
    J,
    K,
    L,
    M,
    N,
    O,
    P,
    Q,
    R,
    S,
    T,
    U,
    V,
    W,
    X,
    Y,
    Z,
    Num1,
    Num2,
    Num3,
    Num4,
    Num5,
    Num6,
    Num7,
    Num8,
    Num9,
    Num0,
    Enter,
    Esc,
    Backspace,
    Tab,
    Space,
    Minus,
    Equal,
    LeftBrace,
    Rightbrace,
    Backslash,
    Hashtilde,
    Semicolon,
    Apostrophe,
    Grave,
    Comma,
    Dot,
    Slash,
    Capslock,
    F1,
    F2,
    F3,
    F4,
    F5,
    F6,
    F7,
    F8,
    F9,
    F10,
    F11,
    F12,
    ShiftLeft,
    ShiftRight,
    ControlLeft,
    ControlRight,
    Alt,
    AltLeft,
    AltRight,
    Intlbackslash,
    Home,
    Insert,
    Delete,
    End,
    PrintScreen,
}

/// The usage-code table: which logical key, if any, a slot byte denotes.
pub open spec fn spec_key_from(value: u8) -> Result<Key, ()> {
    match value {
        0x04 => Ok(Key::A),
        0x05 => Ok(Key::B),
        0x06 => Ok(Key::C),
        0x07 => Ok(Key::D),
        0x08 => Ok(Key::E),
        0x09 => Ok(Key::F),
        0x0a => Ok(Key::G),
        0x0b => Ok(Key::H),
        0x0c => Ok(Key::I),
        0x0d => Ok(Key::J),
        0x0e => Ok(Key::K),
        0x0f => Ok(Key::L),
        0x10 => Ok(Key::M),
        0x11 => Ok(Key::N),
        0x12 => Ok(Key::O),
        0x13 => Ok(Key::P),
        0x14 => Ok(Key::Q),
        0x15 => Ok(Key::R),
        0x16 => Ok(Key::S),
        0x17 => Ok(Key::T),
        0x18 => Ok(Key::U),
        0x19 => Ok(Key::V),
        0x1a => Ok(Key::W),
        0x1b => Ok(Key::X),
        0x1c => Ok(Key::Y),
        0x1d => Ok(Key::Z),
        0x1e => Ok(Key::Num1),
        0x1f => Ok(Key::Num2),
        0x20 => Ok(Key::Num3),
        0x21 => Ok(Key::Num4),
        0x22 => Ok(Key::Num5),
        0x23 => Ok(Key::Num6),
        0x24 => Ok(Key::Num7),
        0x25 => Ok(Key::Num8),
        0x26 => Ok(Key::Num9),
        0x27 => Ok(Key::Num0),
        0x28 => Ok(Key::Enter),
        0x29 => Ok(Key::Esc),
        0x2a => Ok(Key::Backspace),
        0x2b => Ok(Key::Tab),
        0x2c => Ok(Key::Space),
        0x2d => Ok(Key::Minus),
        0x2e => Ok(Key::Equal),
        0x2f => Ok(Key::LeftBrace),
        0x30 => Ok(Key::Rightbrace),
        0x31 => Ok(Key::Backslash),
        0x32 => Ok(Key::Hashtilde),
        0x33 => Ok(Key::Semicolon),
        0x34 => Ok(Key::Apostrophe),
        0x35 => Ok(Key::Grave),
        0x36 => Ok(Key::Comma),
        0x37 => Ok(Key::Dot),
        0x38 => Ok(Key::Slash),
        0x39 => Ok(Key::Capslock),
        0x3a => Ok(Key::F1),
        0x3b => Ok(Key::F2),
        0x3c => Ok(Key::F3),
        0x3d => Ok(Key::F4),
        0x3e => Ok(Key::F5),
        0x3f => Ok(Key::F6),
        0x40 => Ok(Key::F7),
        0x41 => Ok(Key::F8),
        0x42 => Ok(Key::F9),
        0x43 => Ok(Key::F10),
        0x44 => Ok(Key::F11),
        0x45 => Ok(Key::F12),
        0x46 => Ok(Key::PrintScreen),
        0x49 => Ok(Key::Insert),
        0x4a => Ok(Key::Home),
        0x4c => Ok(Key::Delete),
        0x4d => Ok(Key::End),
        _ => Err(()),
    }
}

/// The modifier table: which logical key a modifier-bitmap value with a
/// single bit set denotes.
pub open spec fn spec_mod_from(value: u8) -> Result<Key, ()> {
    match value {
        0x01 => Ok(Key::ControlLeft),
        0x02 => Ok(Key::ShiftLeft),
        0x04 => Ok(Key::AltLeft),
        0x10 => Ok(Key::ControlRight),
        0x20 => Ok(Key::ShiftRight),
        0x40 => Ok(Key::AltRight),
        _ => Err(()),
    }
}

impl Key {
    /// Maps a usage-code slot byte to its logical key; `Err` for codes the
    /// table does not know.
    pub fn try_key_from(value: u8) -> (r: Result<Key, ()>)
        ensures
            r == spec_key_from(value),
    {
        match value {
            0x04 => Ok(Key::A),
            0x05 => Ok(Key::B),
            0x06 => Ok(Key::C),
            0x07 => Ok(Key::D),
            0x08 => Ok(Key::E),
            0x09 => Ok(Key::F),
            0x0a => Ok(Key::G),
            0x0b => Ok(Key::H),
            0x0c => Ok(Key::I),
            0x0d => Ok(Key::J),
            0x0e => Ok(Key::K),
            0x0f => Ok(Key::L),
            0x10 => Ok(Key::M),
            0x11 => Ok(Key::N),
            0x12 => Ok(Key::O),
            0x13 => Ok(Key::P),
            0x14 => Ok(Key::Q),
            0x15 => Ok(Key::R),
            0x16 => Ok(Key::S),
            0x17 => Ok(Key::T),
            0x18 => Ok(Key::U),
            0x19 => Ok(Key::V),
            0x1a => Ok(Key::W),
            0x1b => Ok(Key::X),
            0x1c => Ok(Key::Y),
            0x1d => Ok(Key::Z),
            0x1e => Ok(Key::Num1),
            0x1f => Ok(Key::Num2),
            0x20 => Ok(Key::Num3),
            0x21 => Ok(Key::Num4),
            0x22 => Ok(Key::Num5),
            0x23 => Ok(Key::Num6),
            0x24 => Ok(Key::Num7),
            0x25 => Ok(Key::Num8),
            0x26 => Ok(Key::Num9),
            0x27 => Ok(Key::Num0),
            0x28 => Ok(Key::Enter),
            0x29 => Ok(Key::Esc),
            0x2a => Ok(Key::Backspace),
            0x2b => Ok(Key::Tab),
            0x2c => Ok(Key::Space),
            0x2d => Ok(Key::Minus),
            0x2e => Ok(Key::Equal),
            0x2f => Ok(Key::LeftBrace),
            0x30 => Ok(Key::Rightbrace),
            0x31 => Ok(Key::Backslash),
            0x32 => Ok(Key::Hashtilde),
            0x33 => Ok(Key::Semicolon),
            0x34 => Ok(Key::Apostrophe),
            0x35 => Ok(Key::Grave),
            0x36 => Ok(Key::Comma),
            0x37 => Ok(Key::Dot),
            0x38 => Ok(Key::Slash),
            0x39 => Ok(Key::Capslock),
            0x3a => Ok(Key::F1),
            0x3b => Ok(Key::F2),
            0x3c => Ok(Key::F3),
            0x3d => Ok(Key::F4),
            0x3e => Ok(Key::F5),
            0x3f => Ok(Key::F6),
            0x40 => Ok(Key::F7),
            0x41 => Ok(Key::F8),
            0x42 => Ok(Key::F9),
            0x43 => Ok(Key::F10),
            0x44 => Ok(Key::F11),
            0x45 => Ok(Key::F12),
            0x46 => Ok(Key::PrintScreen),
            0x49 => Ok(Key::Insert),
            0x4a => Ok(Key::Home),
            0x4c => Ok(Key::Delete),
            0x4d => Ok(Key::End),
            _ => Err(()),
        }
    }

    /// Maps a modifier-bitmap value with a single bit set to its logical
    /// key; `Err` for anything else.
    pub fn try_mod_from(value: u8) -> (r: Result<Key, ()>)
        ensures
            r == spec_mod_from(value),
    {
        match value {
            0x01 => Ok(Key::ControlLeft),
            0x02 => Ok(Key::ShiftLeft),
            0x04 => Ok(Key::AltLeft),
            0x10 => Ok(Key::ControlRight),
            0x20 => Ok(Key::ShiftRight),
            0x40 => Ok(Key::AltRight),
            _ => Err(()),
        }
    }
}

/// Whether the input-injection capability has a target key for a logical
/// key: everything except the `Unknown` sentinel and the few keys without a
/// counterpart in the injection key space.
pub open spec fn spec_injectable(k: Key) -> bool {
    !(k == Key::Unknown || k == Key::Home || k == Key::Insert || k == Key::End)
}

impl Key {
    /// Whether this key can be synthesized by the input-injection
    /// capability. A key sequence naming a key for which this is false is a
    /// configuration error.
    pub fn is_injectable(&self) -> (b: bool)
        ensures
            b == spec_injectable(*self),
    {
        match *self {
            Key::Unknown => false,
            Key::Home => false,
            Key::Insert => false,
            Key::End => false,
            _ => true,
        }
    }
}

/// The usage-code slots of a report: bytes 2 up to the valid length.
pub open spec fn report_slots(report: Seq<u8>, length: int) -> Seq<u8> {
    if length <= 2 {
        Seq::empty()
    } else {
        report.subrange(2, length)
    }
}

/// The keys a report's slots name, in slot order: the scan stops at the
/// first empty or overflow slot and skips unmapped usage codes.
pub open spec fn scanned_keys(slots: Seq<u8>) -> Seq<Key>
    decreases slots.len(),
{
    if slots.len() == 0 {
        Seq::empty()
    } else if slots[0] <= KEY_ERR_OVF {
        Seq::empty()
    } else {
        match spec_key_from(slots[0]) {
            Ok(k) => seq![k] + scanned_keys(slots.skip(1)),
            Err(_) => scanned_keys(slots.skip(1)),
        }
    }
}

/// The keys of a scan that were not held before, in scan order, first
/// occurrences only: these emit `PRESSED`.
pub open spec fn newly_pressed(prev: Seq<Key>, scn: Seq<Key>) -> Seq<Key>
    decreases scn.len(),
{
    if scn.len() == 0 {
        Seq::empty()
    } else {
        let init = newly_pressed(prev, scn.drop_last());
        let k = scn.last();
        if !scn.drop_last().contains(k) && !prev.contains(k) {
            init.push(k)
        } else {
            init
        }
    }
}

/// The previously held keys that a scan reconfirms, in scan order, first
/// occurrences only: these emit nothing and stay held.
pub open spec fn reconfirmed(prev: Seq<Key>, scn: Seq<Key>) -> Seq<Key>
    decreases scn.len(),
{
    if scn.len() == 0 {
        Seq::empty()
    } else {
        let init = reconfirmed(prev, scn.drop_last());
        let k = scn.last();
        if !scn.drop_last().contains(k) && prev.contains(k) {
            init.push(k)
        } else {
            init
        }
    }
}

/// The previously held keys that a scan does not reconfirm, in held order:
/// these emit `RELEASED`.
pub open spec fn released_keys(prev: Seq<Key>, scn: Seq<Key>) -> Seq<Key>
    decreases prev.len(),
{
    if prev.len() == 0 {
        Seq::empty()
    } else {
        let init = released_keys(prev.drop_last(), scn);
        let k = prev.last();
        if scn.contains(k) {
            init
        } else {
            init.push(k)
        }
    }
}

pub open spec fn pressed_event(k: Key) -> KeyEvent {
    KeyEvent { key: k, event_type: KeyEventType::PRESSED }
}

pub open spec fn released_event(k: Key) -> KeyEvent {
    KeyEvent { key: k, event_type: KeyEventType::RELEASED }
}

pub open spec fn pressed_events_of(ks: Seq<Key>) -> Seq<KeyEvent> {
    ks.map_values(|k: Key| pressed_event(k))
}

pub open spec fn released_events_of(ks: Seq<Key>) -> Seq<KeyEvent> {
    ks.map_values(|k: Key| released_event(k))
}

/// What one decode call emits: a `PRESSED` event for each scanned key not
/// held before, in scan order, then a `RELEASED` event for each held key
/// the scan did not reconfirm, in held order.
pub open spec fn decoded_events(prev: Seq<Key>, slots: Seq<u8>) -> Seq<KeyEvent> {
    pressed_events_of(newly_pressed(prev, scanned_keys(slots)))
        + released_events_of(released_keys(prev, scanned_keys(slots)))
}

/// The decoder state after one decode call: every first-occurrence key of
/// this scan — the newly pressed and the reconfirmed together — replacing,
/// not merging with, the previous state.
pub open spec fn next_held(prev: Seq<Key>, slots: Seq<u8>) -> Seq<Key> {
    newly_pressed(prev, scanned_keys(slots)) + reconfirmed(prev, scanned_keys(slots))
}

/// No usage code maps to the `Unknown` sentinel.
proof fn lemma_key_from_not_unknown(value: u8)
    ensures
        spec_key_from(value) matches Ok(k) ==> k != Key::Unknown,
{
}

/// Extending the scanned prefix by one clean slot appends that slot's key,
/// if it has one.
proof fn lemma_scanned_take_snoc(slots: Seq<u8>, j: int)
    requires
        0 <= j < slots.len(),
        forall|m: int| 0 <= m < j ==> slots[m] > KEY_ERR_OVF,
    ensures
        scanned_keys(slots.take(j + 1)) == scanned_keys(slots.take(j)) + (if slots[j]
            <= KEY_ERR_OVF {
            Seq::<Key>::empty()
        } else {
            match spec_key_from(slots[j]) {
                Ok(k) => seq![k],
                Err(_) => Seq::<Key>::empty(),
            }
        }),
    decreases j,
{
    let delta = if slots[j] <= KEY_ERR_OVF {
        Seq::<Key>::empty()
    } else {
        match spec_key_from(slots[j]) {
            Ok(k) => seq![k],
            Err(_) => Seq::<Key>::empty(),
        }
    };
    if j == 0 {
        assert(slots.take(0) =~= Seq::<u8>::empty());
        if slots[0] <= KEY_ERR_OVF {
            assert(slots.take(1)[0] == slots[0]);
            assert(scanned_keys(slots.take(1)) =~= Seq::<Key>::empty());
        } else {
            assert(slots.take(1)[0] == slots[0]);
            assert(slots.take(1).skip(1) =~= Seq::<u8>::empty());
            assert(scanned_keys(Seq::<u8>::empty()) == Seq::<Key>::empty());
            match spec_key_from(slots[0]) {
                Ok(k) => {
                    assert(scanned_keys(slots.take(1)) == seq![k] + scanned_keys(
                        slots.take(1).skip(1),
                    ));
                    assert(scanned_keys(slots.take(1)) =~= seq![k]);
                    assert(delta =~= seq![k]);
                },
                Err(_) => {
                    assert(scanned_keys(slots.take(1)) == scanned_keys(slots.take(1).skip(1)));
                    assert(scanned_keys(slots.take(1)) =~= Seq::<Key>::empty());
                },
            }
        }
    } else {
        let tail = slots.skip(1);
        assert(slots[0] > KEY_ERR_OVF);
        lemma_scanned_take_snoc(tail, j - 1);
        assert(slots.take(j + 1)[0] == slots[0]);
        assert(slots.take(j)[0] == slots[0]);
        assert(slots.take(j + 1).skip(1) =~= tail.take(j));
        assert(slots.take(j).skip(1) =~= tail.take(j - 1));
        assert(tail[j - 1] == slots[j]);
        match spec_key_from(slots[0]) {
            Ok(k0) => {
                assert(scanned_keys(slots.take(j + 1)) == seq![k0] + scanned_keys(tail.take(j)));
                assert(scanned_keys(slots.take(j)) == seq![k0] + scanned_keys(tail.take(j - 1)));
                assert(seq![k0] + (scanned_keys(tail.take(j - 1)) + delta) =~= (seq![k0]
                    + scanned_keys(tail.take(j - 1))) + delta);
            },
            Err(_) => {
                assert(scanned_keys(slots.take(j + 1)) == scanned_keys(tail.take(j)));
                assert(scanned_keys(slots.take(j)) == scanned_keys(tail.take(j - 1)));
            },
        }
    }
}

/// An empty or overflow slot ends the scan: the slots after it contribute
/// nothing.
proof fn lemma_scanned_stops(slots: Seq<u8>, j: int)
    requires
        0 <= j < slots.len(),
        slots[j] <= KEY_ERR_OVF,
    ensures
        scanned_keys(slots) == scanned_keys(slots.take(j)),
    decreases j,
{
    if j == 0 {
        assert(scanned_keys(slots) =~= Seq::<Key>::empty());
        assert(slots.take(0) =~= Seq::<u8>::empty());
    } else if slots[0] <= KEY_ERR_OVF {
        assert(slots.take(j)[0] == slots[0]);
    } else {
        let tail = slots.skip(1);
        assert(tail[j - 1] == slots[j]);
        lemma_scanned_stops(tail, j - 1);
        assert(slots.take(j)[0] == slots[0]);
        assert(slots.take(j).skip(1) =~= tail.take(j - 1));
    }
}

/// Which keys end up newly pressed and which reconfirmed: the scanned keys,
/// split by membership in the previous state.
proof fn lemma_scan_partition(prev: Seq<Key>, scn: Seq<Key>)
    ensures
        forall|k: Key| #[trigger] newly_pressed(prev, scn).contains(k) <==> (scn.contains(k)
            && !prev.contains(k)),
        forall|k: Key| #[trigger] reconfirmed(prev, scn).contains(k) <==> (scn.contains(k)
            && prev.contains(k)),
    decreases scn.len(),
{
    if scn.len() == 0 {
    } else {
        let pre = scn.drop_last();
        let k0 = scn.last();
        lemma_scan_partition(prev, pre);
        assert(pre.push(k0) =~= scn);
        assert forall|k: Key| #[trigger] scn.contains(k) implies pre.contains(k) || k == k0 by {
            let i = choose|i: int| 0 <= i < scn.len() && scn[i] == k;
            if i < pre.len() {
                assert(pre[i] == k);
            }
        }
        assert forall|k: Key| pre.contains(k) implies scn.contains(k) by {
            let i = choose|i: int| 0 <= i < pre.len() && pre[i] == k;
            assert(scn[i] == k);
        }
        assert(scn.contains(k0)) by {
            assert(scn[scn.len() - 1] == k0);
        }
        let np = newly_pressed(prev, scn);
        let rc = reconfirmed(prev, scn);
        let np0 = newly_pressed(prev, pre);
        let rc0 = reconfirmed(prev, pre);
        if !pre.contains(k0) && !prev.contains(k0) {
            assert(np == np0.push(k0));
            assert forall|k: Key| #[trigger] np.contains(k) implies np0.contains(k) || k == k0 by {
                let i = choose|i: int| 0 <= i < np.len() && np[i] == k;
                if i < np0.len() {
                    assert(np0[i] == k);
                }
            }
            assert forall|k: Key| np0.contains(k) implies np.contains(k) by {
                let i = choose|i: int| 0 <= i < np0.len() && np0[i] == k;
                assert(np[i] == k);
            }
            assert(np.contains(k0)) by {
                assert(np[np.len() - 1] == k0);
            }
        } else if !pre.contains(k0) && prev.contains(k0) {
            assert(rc == rc0.push(k0));
            assert forall|k: Key| #[trigger] rc.contains(k) implies rc0.contains(k) || k == k0 by {
                let i = choose|i: int| 0 <= i < rc.len() && rc[i] == k;
                if i < rc0.len() {
                    assert(rc0[i] == k);
                }
            }
            assert forall|k: Key| rc0.contains(k) implies rc.contains(k) by {
                let i = choose|i: int| 0 <= i < rc0.len() && rc0[i] == k;
                assert(rc[i] == k);
            }
            assert(rc.contains(k0)) by {
                assert(rc[rc.len() - 1] == k0);
            }
        }
    }
}

/// Which keys a scan releases: the previously held keys absent from it.
proof fn lemma_released_membership(prev: Seq<Key>, scn: Seq<Key>)
    ensures
        forall|k: Key| #[trigger] released_keys(prev, scn).contains(k) <==> (prev.contains(k)
            && !scn.contains(k)),
    decreases prev.len(),
{
    if prev.len() == 0 {
    } else {
        let pre = prev.drop_last();
        let k0 = prev.last();
        lemma_released_membership(pre, scn);
        assert(pre.push(k0) =~= prev);
        assert forall|k: Key| #[trigger] prev.contains(k) implies pre.contains(k) || k == k0 by {
            let i = choose|i: int| 0 <= i < prev.len() && prev[i] == k;
            if i < pre.len() {
                assert(pre[i] == k);
            }
        }
        assert forall|k: Key| pre.contains(k) implies prev.contains(k) by {
            let i = choose|i: int| 0 <= i < pre.len() && pre[i] == k;
            assert(prev[i] == k);
        }
        assert(prev.contains(k0)) by {
            assert(prev[prev.len() - 1] == k0);
        }
        let rl = released_keys(prev, scn);
        let rl0 = released_keys(pre, scn);
        if !scn.contains(k0) {
            assert(rl == rl0.push(k0));
            assert forall|k: Key| #[trigger] rl.contains(k) implies rl0.contains(k) || k == k0 by {
                let i = choose|i: int| 0 <= i < rl.len() && rl[i] == k;
                if i < rl0.len() {
                    assert(rl0[i] == k);
                }
            }
            assert forall|k: Key| rl0.contains(k) implies rl.contains(k) by {
                let i = choose|i: int| 0 <= i < rl0.len() && rl0[i] == k;
                assert(rl[i] == k);
            }
            assert(rl.contains(k0)) by {
                assert(rl[rl.len() - 1] == k0);
            }
        }
    }
}

/// The newly pressed keys are distinct and no more numerous than the scan.
proof fn lemma_newly_pressed_no_dup(prev: Seq<Key>, scn: Seq<Key>)
    ensures
        newly_pressed(prev, scn).len() <= scn.len(),
        forall|i: int, j: int|
            0 <= i < j < newly_pressed(prev, scn).len() ==> newly_pressed(prev, scn)[i]
                != newly_pressed(prev, scn)[j],
    decreases scn.len(),
{
    if scn.len() == 0 {
    } else {
        let pre = scn.drop_last();
        let k0 = scn.last();
        lemma_newly_pressed_no_dup(prev, pre);
        let np = newly_pressed(prev, scn);
        let np0 = newly_pressed(prev, pre);
        if !pre.contains(k0) && !prev.contains(k0) {
            lemma_scan_partition(prev, pre);
            assert(!np0.contains(k0));
            assert forall|i: int, j: int| 0 <= i < j < np.len() implies np[i] != np[j] by {
                if j < np0.len() {
                } else {
                    assert(np[j] == k0);
                    assert(np0[i] == np[i]);
                    if np[i] == k0 {
                        assert(np0.contains(k0));
                    }
                }
            }
        }
    }
}

/// The reconfirmed keys are distinct, and newly pressed and reconfirmed
/// together are no more numerous than the scan.
proof fn lemma_scan_split(prev: Seq<Key>, scn: Seq<Key>)
    ensures
        newly_pressed(prev, scn).len() + reconfirmed(prev, scn).len() <= scn.len(),
        forall|i: int, j: int|
            0 <= i < j < reconfirmed(prev, scn).len() ==> reconfirmed(prev, scn)[i]
                != reconfirmed(prev, scn)[j],
    decreases scn.len(),
{
    if scn.len() == 0 {
    } else {
        let pre = scn.drop_last();
        let k0 = scn.last();
        lemma_scan_split(prev, pre);
        let rc = reconfirmed(prev, scn);
        let rc0 = reconfirmed(prev, pre);
        if !pre.contains(k0) && prev.contains(k0) {
            lemma_scan_partition(prev, pre);
            assert(!rc0.contains(k0));
            assert forall|i: int, j: int| 0 <= i < j < rc.len() implies rc[i] != rc[j] by {
                if j < rc0.len() {
                } else {
                    assert(rc[j] == k0);
                    assert(rc0[i] == rc[i]);
                    if rc[i] == k0 {
                        assert(rc0.contains(k0));
                    }
                }
            }
        }
    }
}

/// The next retained state never outgrows the slots, holds no duplicate
/// and never the `Unknown` sentinel.
proof fn lemma_next_held_sound(prev: Seq<Key>, slots: Seq<u8>)
    ensures
        next_held(prev, slots).len() <= slots.len(),
        forall|i: int, j: int|
            0 <= i < j < next_held(prev, slots).len() ==> next_held(prev, slots)[i] != next_held(
                prev,
                slots,
            )[j],
        forall|m: int|
            0 <= m < next_held(prev, slots).len() ==> next_held(prev, slots)[m] != Key::Unknown,
{
    let scn = scanned_keys(slots);
    let np = newly_pressed(prev, scn);
    let rc = reconfirmed(prev, scn);
    let s = next_held(prev, slots);
    lemma_newly_pressed_no_dup(prev, scn);
    lemma_scan_split(prev, scn);
    lemma_scan_partition(prev, scn);
    lemma_scanned_sound(slots);
    assert(s == np + rc);
    assert forall|i: int, j: int| 0 <= i < j < s.len() implies s[i] != s[j] by {
        if j < np.len() {
        } else if i >= np.len() {
            assert(s[i] == rc[i - np.len()]);
            assert(s[j] == rc[j - np.len()]);
        } else {
            assert(s[i] == np[i]);
            assert(s[j] == rc[j - np.len()]);
            assert(np.contains(np[i]));
            assert(rc.contains(rc[j - np.len()]));
        }
    }
    assert forall|m: int| 0 <= m < s.len() implies s[m] != Key::Unknown by {
        if m < np.len() {
            assert(s[m] == np[m]);
            assert(np.contains(np[m]));
            assert(scn.contains(s[m]));
        } else {
            assert(s[m] == rc[m - np.len()]);
            assert(rc.contains(rc[m - np.len()]));
            assert(scn.contains(s[m]));
        }
    }
}

/// After any decode the retained state holds exactly the keys of this
/// scan: a key is held afterwards if and only if the report scanned it,
/// whether it was newly pressed or reconfirmed.
pub proof fn lemma_state_is_scanned_set(prev: Seq<Key>, slots: Seq<u8>)
    ensures
        forall|k: Key| #[trigger] next_held(prev, slots).contains(k) <==> scanned_keys(
            slots,
        ).contains(k),
{
    let scn = scanned_keys(slots);
    let np = newly_pressed(prev, scn);
    let rc = reconfirmed(prev, scn);
    let s = next_held(prev, slots);
    lemma_scan_partition(prev, scn);
    assert(s == np + rc);
    assert forall|k: Key| #[trigger] s.contains(k) implies scn.contains(k) by {
        let i = choose|i: int| 0 <= i < s.len() && s[i] == k;
        if i < np.len() {
            assert(np[i] == k);
            assert(np.contains(k));
        } else {
            assert(rc[i - np.len()] == k);
            assert(rc.contains(k));
        }
    }
    assert forall|k: Key| scn.contains(k) implies s.contains(k) by {
        if prev.contains(k) {
            assert(rc.contains(k));
            let i = choose|i: int| 0 <= i < rc.len() && rc[i] == k;
            assert(s[np.len() + i] == k);
        } else {
            assert(np.contains(k));
            let i = choose|i: int| 0 <= i < np.len() && np[i] == k;
            assert(s[i] == k);
        }
    }
}

/// The released keys are distinct when the previous state is.
proof fn lemma_released_no_dup(prev: Seq<Key>, scn: Seq<Key>)
    requires
        forall|i: int, j: int| 0 <= i < j < prev.len() ==> prev[i] != prev[j],
    ensures
        forall|i: int, j: int|
            0 <= i < j < released_keys(prev, scn).len() ==> released_keys(prev, scn)[i]
                != released_keys(prev, scn)[j],
    decreases prev.len(),
{
    if prev.len() == 0 {
    } else {
        let pre = prev.drop_last();
        let k0 = prev.last();
        assert(forall|i: int, j: int| 0 <= i < j < pre.len() ==> pre[i] != pre[j]);
        lemma_released_no_dup(pre, scn);
        let rl = released_keys(prev, scn);
        let rl0 = released_keys(pre, scn);
        if !scn.contains(k0) {
            assert(!pre.contains(k0)) by {
                if pre.contains(k0) {
                    let i = choose|i: int| 0 <= i < pre.len() && pre[i] == k0;
                    assert(prev[i] == prev[prev.len() - 1]);
                }
            }
            lemma_released_membership(pre, scn);
            assert(!rl0.contains(k0));
            assert forall|i: int, j: int| 0 <= i < j < rl.len() implies rl[i] != rl[j] by {
                if j < rl0.len() {
                } else {
                    assert(rl[j] == k0);
                    assert(rl0[i] == rl[i]);
                    if rl[i] == k0 {
                        assert(rl0.contains(k0));
                    }
                }
            }
        }
    }
}

/// A scan never yields more keys than it has slots, and never the
/// `Unknown` sentinel.
proof fn lemma_scanned_sound(slots: Seq<u8>)
    ensures
        scanned_keys(slots).len() <= slots.len(),
        forall|k: Key| #[trigger] scanned_keys(slots).contains(k) ==> k != Key::Unknown,
    decreases slots.len(),
{
    if slots.len() == 0 {
    } else if slots[0] <= KEY_ERR_OVF {
    } else {
        lemma_scanned_sound(slots.skip(1));
        lemma_key_from_not_unknown(slots[0]);
        let rest = scanned_keys(slots.skip(1));
        match spec_key_from(slots[0]) {
            Ok(k0) => {
                let scn = seq![k0] + rest;
                assert(scanned_keys(slots) == scn);
                assert(k0 != Key::Unknown);
                assert forall|k: Key| #[trigger] scn.contains(k) implies k != Key::Unknown by {
                    let i = choose|i: int| 0 <= i < scn.len() && scn[i] == k;
                    if i == 0 {
                        assert(scn[0] == k0);
                        assert(k == k0);
                    } else {
                        assert(rest[i - 1] == k);
                        assert(rest.contains(k));
                    }
                }
            },
            Err(_) => {},
        }
    }
}

/// A report that reconfirms exactly the held keys decodes to no events:
/// nothing is newly pressed and nothing is released, and the retained
/// state holds the same keys as before — so re-decoding an unchanged
/// report stays silent however often it repeats.
pub proof fn lemma_unchanged_report_is_silent(prev: Seq<Key>, slots: Seq<u8>)
    requires
        forall|k: Key| #[trigger] scanned_keys(slots).contains(k) <==> prev.contains(k),
    ensures
        decoded_events(prev, slots) == Seq::<KeyEvent>::empty(),
        forall|k: Key| #[trigger] next_held(prev, slots).contains(k) <==> prev.contains(k),
{
    lemma_state_is_scanned_set(prev, slots);
    let scn = scanned_keys(slots);
    let np = newly_pressed(prev, scn);
    let rl = released_keys(prev, scn);
    lemma_scan_partition(prev, scn);
    lemma_released_membership(prev, scn);
    assert(np.len() == 0) by {
        if np.len() > 0 {
            assert(np.contains(np[0]));
        }
    }
    assert(rl.len() == 0) by {
        if rl.len() > 0 {
            assert(rl.contains(rl[0]));
        }
    }
    assert(decoded_events(prev, slots) =~= Seq::<KeyEvent>::empty());
}

/// An empty or overflow marker at slot index `k` makes the report decode
/// exactly as if it ended there: no key from a later slot is pressed, while
/// held keys not reconfirmed before index `k` are still released.
pub proof fn lemma_overflow_stops_scan(prev: Seq<Key>, slots: Seq<u8>, k: int)
    requires
        0 <= k < slots.len(),
        slots[k] <= KEY_ERR_OVF,
    ensures
        decoded_events(prev, slots) == decoded_events(prev, slots.take(k)),
        next_held(prev, slots) == next_held(prev, slots.take(k)),
{
    lemma_scanned_stops(slots, k);
}

/// An unmapped usage code in a report changes nothing: the report decodes
/// exactly as if that slot were not there, so neighbouring mapped codes are
/// still detected.
pub proof fn lemma_unmapped_code_ignored(prev: Seq<Key>, slots: Seq<u8>, k: int)
    requires
        0 <= k < slots.len(),
        slots[k] > KEY_ERR_OVF,
        spec_key_from(slots[k]) is Err,
    ensures
        decoded_events(prev, slots) == decoded_events(prev, slots.remove(k)),
        next_held(prev, slots) == next_held(prev, slots.remove(k)),
{
    lemma_scanned_remove_unmapped(slots, k);
}

/// Removing an unmapped, non-terminating slot does not change the scan.
proof fn lemma_scanned_remove_unmapped(slots: Seq<u8>, k: int)
    requires
        0 <= k < slots.len(),
        slots[k] > KEY_ERR_OVF,
        spec_key_from(slots[k]) is Err,
    ensures
        scanned_keys(slots) == scanned_keys(slots.remove(k)),
    decreases k,
{
    let rest = slots.skip(1);
    if k == 0 {
        assert(slots.remove(0) =~= rest);
    } else {
        assert(slots.remove(k)[0] == slots[0]);
        if slots[0] <= KEY_ERR_OVF {
        } else {
            assert(rest[k - 1] == slots[k]);
            lemma_scanned_remove_unmapped(rest, k - 1);
            assert(slots.remove(k).skip(1) =~= rest.remove(k - 1));
        }
    }
}

/// Where each decoded event comes from: a `PRESSED` event is derived only
/// for a key present in the scan and absent from the previous state, and a
/// `RELEASED` event only for a key present in the previous state and
/// absent from the scan.
pub proof fn lemma_event_derivation(prev: Seq<Key>, slots: Seq<u8>)
    ensures
        forall|i: int|
            0 <= i < decoded_events(prev, slots).len() ==> {
                let e = #[trigger] decoded_events(prev, slots)[i];
                &&& (e.event_type == KeyEventType::PRESSED ==> scanned_keys(slots).contains(e.key)
                    && !prev.contains(e.key))
                &&& (e.event_type == KeyEventType::RELEASED ==> prev.contains(e.key)
                    && !scanned_keys(slots).contains(e.key))
            },
{
    let scn = scanned_keys(slots);
    let np = newly_pressed(prev, scn);
    let rl = released_keys(prev, scn);
    lemma_scan_partition(prev, scn);
    lemma_released_membership(prev, scn);
    assert forall|i: int| 0 <= i < decoded_events(prev, slots).len() implies {
        let e = #[trigger] decoded_events(prev, slots)[i];
        &&& (e.event_type == KeyEventType::PRESSED ==> scn.contains(e.key) && !prev.contains(
            e.key,
        ))
        &&& (e.event_type == KeyEventType::RELEASED ==> prev.contains(e.key) && !scn.contains(
            e.key,
        ))
    } by {
        let e = decoded_events(prev, slots)[i];
        if i < np.len() {
            assert(e == pressed_event(np[i]));
            assert(np.contains(np[i]));
        } else {
            assert(e == released_event(rl[i - np.len()]));
            assert(rl.contains(rl[i - np.len()]));
        }
    }
}

/// The `Unknown` sentinel never appears in a decoded event, as long as the
/// previous state holds none, which every decode call preserves.
pub proof fn lemma_no_unknown_events(prev: Seq<Key>, slots: Seq<u8>)
    requires
        forall|m: int| 0 <= m < prev.len() ==> prev[m] != Key::Unknown,
    ensures
        forall|i: int|
            0 <= i < decoded_events(prev, slots).len() ==> (#[trigger] decoded_events(
                prev,
                slots,
            )[i]).key != Key::Unknown,
{
    lemma_event_derivation(prev, slots);
    lemma_scanned_sound(slots);
    assert forall|i: int| 0 <= i < decoded_events(prev, slots).len() implies (
    #[trigger] decoded_events(prev, slots)[i]).key != Key::Unknown by {
        let e = decoded_events(prev, slots)[i];
        match e.event_type {
            KeyEventType::PRESSED => {
                assert(scanned_keys(slots).contains(e.key));
            },
            KeyEventType::RELEASED => {
                assert(prev.contains(e.key));
                let m = choose|m: int| 0 <= m < prev.len() && prev[m] == e.key;
            },
        }
    }
}

/// How many entries of a key sequence are the key `k`.
pub open spec fn key_count(s: Seq<Key>, k: Key) -> nat
    decreases s.len(),
{
    if s.len() == 0 {
        0
    } else {
        key_count(s.drop_last(), k) + (if s.last() == k {
            1nat
        } else {
            0nat
        })
    }
}

/// How many events of a sequence concern key `k` with kind `t`.
pub open spec fn event_count(evs: Seq<KeyEvent>, k: Key, t: KeyEventType) -> nat
    decreases evs.len(),
{
    if evs.len() == 0 {
        0
    } else {
        event_count(evs.drop_last(), k, t) + (if evs.last().key == k && evs.last().event_type
            == t {
            1nat
        } else {
            0nat
        })
    }
}

/// The decoder state after a fresh decoder has processed a whole sequence
/// of reports, each given as its slot bytes.
pub open spec fn run_held(reports: Seq<Seq<u8>>) -> Seq<Key>
    decreases reports.len(),
{
    if reports.len() == 0 {
        Seq::empty()
    } else {
        next_held(run_held(reports.drop_last()), reports.last())
    }
}

/// How many events for key `k` of kind `t` a fresh decoder emits over a
/// whole sequence of reports.
pub open spec fn run_event_count(reports: Seq<Seq<u8>>, k: Key, t: KeyEventType) -> nat
    decreases reports.len(),
{
    if reports.len() == 0 {
        0
    } else {
        run_event_count(reports.drop_last(), k, t) + event_count(
            decoded_events(run_held(reports.drop_last()), reports.last()),
            k,
            t,
        )
    }
}

/// Counts add up over concatenation.
proof fn lemma_event_count_add(a: Seq<KeyEvent>, b: Seq<KeyEvent>, k: Key, t: KeyEventType)
    ensures
        event_count(a + b, k, t) == event_count(a, k, t) + event_count(b, k, t),
    decreases b.len(),
{
    if b.len() == 0 {
        assert(a + b =~= a);
    } else {
        lemma_event_count_add(a, b.drop_last(), k, t);
        assert((a + b).drop_last() =~= a + b.drop_last());
        assert((a + b).last() == b.last());
    }
}

/// Counting events of one kind over the events made from a key sequence is
/// counting the key; the other kind does not occur.
proof fn lemma_event_count_of_keys(s: Seq<Key>, k: Key)
    ensures
        event_count(pressed_events_of(s), k, KeyEventType::PRESSED) == key_count(s, k),
        event_count(pressed_events_of(s), k, KeyEventType::RELEASED) == 0,
        event_count(released_events_of(s), k, KeyEventType::RELEASED) == key_count(s, k),
        event_count(released_events_of(s), k, KeyEventType::PRESSED) == 0,
    decreases s.len(),
{
    if s.len() == 0 {
    } else {
        lemma_event_count_of_keys(s.drop_last(), k);
        assert(pressed_events_of(s).drop_last() =~= pressed_events_of(s.drop_last()));
        assert(pressed_events_of(s).last() == pressed_event(s.last()));
        assert(released_events_of(s).drop_last() =~= released_events_of(s.drop_last()));
        assert(released_events_of(s).last() == released_event(s.last()));
    }
}

/// In a sequence without duplicates, a key's count is its membership.
proof fn lemma_key_count_no_dup(s: Seq<Key>, k: Key)
    requires
        forall|i: int, j: int| 0 <= i < j < s.len() ==> s[i] != s[j],
    ensures
        key_count(s, k) == if s.contains(k) {
            1nat
        } else {
            0nat
        },
    decreases s.len(),
{
    if s.len() == 0 {
        if s.contains(k) {
            let i = choose|i: int| 0 <= i < s.len() && s[i] == k;
        }
    } else {
        let pre = s.drop_last();
        assert(forall|i: int, j: int| 0 <= i < j < pre.len() ==> pre[i] != pre[j]);
        lemma_key_count_no_dup(pre, k);
        assert forall|kk: Key| #[trigger] pre.contains(kk) implies s.contains(kk) by {
            let i = choose|i: int| 0 <= i < pre.len() && pre[i] == kk;
            assert(s[i] == kk);
        }
        if s.last() == k {
            assert(s.contains(k)) by {
                assert(s[s.len() - 1] == k);
            }
            assert(!pre.contains(k)) by {
                if pre.contains(k) {
                    let i = choose|i: int| 0 <= i < pre.len() && pre[i] == k;
                    assert(s[i] == s[s.len() - 1]);
                }
            }
        } else {
            if s.contains(k) {
                let i = choose|i: int| 0 <= i < s.len() && s[i] == k;
                assert(pre[i] == k);
                assert(pre.contains(k));
            }
        }
    }
}

/// What one decode step does for one key: a single `PRESSED` exactly when
/// the scan holds a key that was not held, a single `RELEASED` exactly when
/// a held key is not in the scan, and the key is retained exactly when
/// this scan holds it.
proof fn lemma_step_counts(prev: Seq<Key>, slots: Seq<u8>, k: Key)
    requires
        forall|i: int, j: int| 0 <= i < j < prev.len() ==> prev[i] != prev[j],
    ensures
        event_count(decoded_events(prev, slots), k, KeyEventType::PRESSED) == if scanned_keys(
            slots,
        ).contains(k) && !prev.contains(k) {
            1nat
        } else {
            0nat
        },
        event_count(decoded_events(prev, slots), k, KeyEventType::RELEASED) == if prev.contains(k)
            && !scanned_keys(slots).contains(k) {
            1nat
        } else {
            0nat
        },
        next_held(prev, slots).contains(k) <==> scanned_keys(slots).contains(k),
{
    let scn = scanned_keys(slots);
    let np = newly_pressed(prev, scn);
    let rl = released_keys(prev, scn);
    lemma_state_is_scanned_set(prev, slots);
    lemma_scan_partition(prev, scn);
    lemma_released_membership(prev, scn);
    lemma_newly_pressed_no_dup(prev, scn);
    lemma_released_no_dup(prev, scn);
    lemma_key_count_no_dup(np, k);
    lemma_key_count_no_dup(rl, k);
    lemma_event_count_add(pressed_events_of(np), released_events_of(rl), k, KeyEventType::PRESSED);
    lemma_event_count_add(pressed_events_of(np), released_events_of(rl), k, KeyEventType::RELEASED);
    lemma_event_count_of_keys(np, k);
    lemma_event_count_of_keys(rl, k);
}

/// The retained state never holds duplicates over any run.
proof fn lemma_run_held_no_dup(reports: Seq<Seq<u8>>)
    ensures
        forall|i: int, j: int|
            0 <= i < j < run_held(reports).len() ==> run_held(reports)[i] != run_held(reports)[j],
{
    if reports.len() == 0 {
    } else {
        lemma_next_held_sound(run_held(reports.drop_last()), reports.last());
    }
}

/// Over any sequence of reports, a fresh decoder emits presses and
/// releases for each key in balance: every `PRESSED` is matched by exactly
/// one `RELEASED` once the key no longer appears in a scanned report,
/// except for a key still held when observation ends, which has exactly
/// one unmatched `PRESSED`; and a key is held at the end only if the last
/// report scanned it.
pub proof fn lemma_every_press_matched_by_release(reports: Seq<Seq<u8>>, k: Key)
    ensures
        run_event_count(reports, k, KeyEventType::PRESSED) == run_event_count(
            reports,
            k,
            KeyEventType::RELEASED,
        ) + (if run_held(reports).contains(k) {
            1nat
        } else {
            0nat
        }),
        run_held(reports).contains(k) ==> reports.len() > 0 && scanned_keys(
            reports.last(),
        ).contains(k),
    decreases reports.len(),
{
    if reports.len() == 0 {
        if run_held(reports).contains(k) {
            let i = choose|i: int| 0 <= i < run_held(reports).len() && run_held(reports)[i] == k;
        }
    } else {
        let pre = reports.drop_last();
        let r = reports.last();
        let h = run_held(pre);
        lemma_every_press_matched_by_release(pre, k);
        lemma_run_held_no_dup(pre);
        lemma_step_counts(h, r, k);
    }
}

/// Whether a vector of keys holds `k`.
fn vec_contains_key(v: &Vec<Key>, k: Key) -> (b: bool)
    ensures
        b == v@.contains(k),
{
    let mut i: usize = 0;
    while i < v.len()
        invariant
            i <= v.len(),
            forall|m: int| 0 <= m < i ==> v@[m] != k,
        decreases v.len() - i,
    {
        if v[i] == k {
            assert(v@.contains(k)) by {
                assert(v@[i as int] == k);
            }
            return true;
        }
        i += 1;
    }
    assert(!v@.contains(k));
    false
}

/// The stateful per-device report decoder: it retains the keys held as of
/// the previous successfully decoded report, at most six, each distinct
/// and never `Unknown`.
pub struct Keyboard {
    previous_events: Vec<Key>,
}

impl View for Keyboard {
    type V = Seq<Key>;

    closed spec fn view(&self) -> Seq<Key> {
        self.previous_events@
    }
}

impl Keyboard {
    /// The decoder's invariant over its retained state.
    pub open spec fn wf(&self) -> bool {
        &&& self@.len() <= 6
        &&& forall|i: int, j: int| 0 <= i < j < self@.len() ==> self@[i] != self@[j]
        &&& forall|i: int| 0 <= i < self@.len() ==> self@[i] != Key::Unknown
    }

    /// A fresh decoder: nothing held.
    pub fn new() -> (kb: Keyboard)
        ensures
            kb@ == Seq::<Key>::empty(),
            kb.wf(),
    {
        let kb = Keyboard { previous_events: Vec::with_capacity(6) };
        proof {
            assert(kb@ =~= Seq::<Key>::empty());
        }
        kb
    }

    /// Decodes one report: emits a `PRESSED` event for each scanned key not
    /// held before, in slot order, then a `RELEASED` event for each held key
    /// the scan did not reconfirm, in held order, and replaces the retained
    /// state with all keys of this scan — the newly pressed and the
    /// reconfirmed. Deterministic in the pair of retained state and input;
    /// never fails.
    pub fn events(&mut self, buf: &[u8; 8], length: usize) -> (r: Result<
        Vec<KeyEvent>,
        &'static str,
    >)
        requires
            old(self).wf(),
            length <= 8,
        ensures
            final(self).wf(),
            r is Ok,
            r matches Ok(evs) ==> evs@ == decoded_events(
                old(self)@,
                report_slots(buf@, length as int),
            ),
            final(self)@ == next_held(old(self)@, report_slots(buf@, length as int)),
    {
        let ghost prev: Seq<Key> = self@;
        let ghost slots: Seq<u8> = report_slots(buf@, length as int);
        let slot_count: usize = if length > 2 {
            length - 2
        } else {
            0
        };
        proof {
            assert(slots.len() == slot_count);
            assert(forall|m: int| 0 <= m < slots.len() ==> slots[m] == buf@[m + 2]);
        }
        let mut events: Vec<KeyEvent> = Vec::new();
        let mut pressed: Vec<Key> = Vec::new();
        let mut matched: Vec<Key> = Vec::new();
        let ghost mut scn: Seq<Key> = Seq::empty();
        let mut j: usize = 0;

        proof {
            assert(slots.take(0) =~= Seq::<u8>::empty());
            assert(slots.take(slot_count as int) =~= slots);
        }
        while j < slot_count
            invariant_except_break
                j <= slot_count,
                slots.take(slot_count as int) == slots,
                slot_count == slots.len(),
                slot_count <= 6,
                slots == report_slots(buf@, length as int),
                length <= 8,
                forall|m: int| 0 <= m < slots.len() ==> slots[m] == buf@[m + 2],
                forall|m: int| 0 <= m < j ==> slots[m] > KEY_ERR_OVF,
                scn == scanned_keys(slots.take(j as int)),
                self.previous_events@ == prev,
                pressed@ == newly_pressed(prev, scn),
                matched@ == reconfirmed(prev, scn),
                events@ == pressed_events_of(newly_pressed(prev, scn)),
            ensures
                slots == report_slots(buf@, length as int),
                self.previous_events@ == prev,
                scn == scanned_keys(slots),
                pressed@ == newly_pressed(prev, scn),
                matched@ == reconfirmed(prev, scn),
                events@ == pressed_events_of(newly_pressed(prev, scn)),
            decreases slot_count - j,
        {
            let value = buf[j + 2];
            proof {
                assert(value == slots[j as int]);
            }
            if value <= KEY_ERR_OVF {
                proof {
                    lemma_scanned_stops(slots, j as int);
                }
                break ;
            }
            let ghost scn0 = scn;
            proof {
                lemma_scanned_take_snoc(slots, j as int);
            }
            match Key::try_key_from(value) {
                Err(_) => {
                    proof {
                        assert(slots.take(j as int + 1) == slots.take(j + 1 as int));
                        assert(scanned_keys(slots.take(j as int + 1)) =~= scn0);
                        scn = scanned_keys(slots.take(j as int + 1));
                    }
                },
                Ok(key) => {
                    proof {
                        scn = scanned_keys(slots.take(j as int + 1));
                        assert(scn =~= scn0.push(key));
                        assert(scn.drop_last() =~= scn0);
                        assert(scn.last() == key);
                        lemma_scan_partition(prev, scn0);
                    }
                    let in_pressed = vec_contains_key(&pressed, key);
                    let in_matched = vec_contains_key(&matched, key);
                    if in_pressed || in_matched {
                        // the same slot value occurred earlier in this report
                        proof {
                            assert(scn0.contains(key));
                            assert(newly_pressed(prev, scn) == newly_pressed(prev, scn0));
                            assert(reconfirmed(prev, scn) == reconfirmed(prev, scn0));
                        }
                    } else {
                        proof {
                            assert(!scn0.contains(key));
                        }
                        let was_held = vec_contains_key(&self.previous_events, key);
                        if was_held {
                            matched.push(key);
                            proof {
                                assert(reconfirmed(prev, scn) == reconfirmed(prev, scn0).push(
                                    key,
                                ));
                                assert(newly_pressed(prev, scn) == newly_pressed(prev, scn0));
                            }
                        } else {
                            pressed.push(key);
                            events.push(KeyEvent { key, event_type: KeyEventType::PRESSED });
                            proof {
                                assert(newly_pressed(prev, scn) == newly_pressed(prev, scn0).push(
                                    key,
                                ));
                                assert(reconfirmed(prev, scn) == reconfirmed(prev, scn0));
                                assert(events@ =~= pressed_events_of(newly_pressed(prev, scn)));
                            }
                        }
                    }
                },
            }
            j += 1;
        }

        proof {
            if j >= slot_count {
                assert(slots.take(slot_count as int) =~= slots);
            }
        }

        // every held key the scan did not reconfirm is released, in held order
        let mut i: usize = 0;
        let held_count: usize = self.previous_events.len();
        proof {
            lemma_scan_partition(prev, scn);
            assert(prev.take(0) =~= Seq::<Key>::empty());
        }
        while i < held_count
            invariant
                i <= held_count,
                held_count == prev.len(),
                self.previous_events@ == prev,
                scn == scanned_keys(slots),
                matched@ == reconfirmed(prev, scn),
                pressed@ == newly_pressed(prev, scn),
                forall|k: Key| #[trigger] matched@.contains(k) <==> (scn.contains(k)
                    && prev.contains(k)),
                events@ == pressed_events_of(newly_pressed(prev, scn)) + released_events_of(
                    released_keys(prev.take(i as int), scn),
                ),
            decreases held_count - i,
        {
            let k = self.previous_events[i];
            let ghost rl0 = released_keys(prev.take(i as int), scn);
            proof {
                assert(prev.take(i as int + 1).drop_last() =~= prev.take(i as int));
                assert(prev.take(i as int + 1).last() == prev[i as int]);
                assert(prev.contains(k)) by {
                    assert(prev[i as int] == k);
                }
            }
            let was_matched = vec_contains_key(&matched, k);
            if !was_matched {
                events.push(KeyEvent { key: k, event_type: KeyEventType::RELEASED });
                proof {
                    assert(!scn.contains(k));
                    assert(released_keys(prev.take(i as int + 1), scn) == rl0.push(k));
                    assert(events@ =~= pressed_events_of(newly_pressed(prev, scn))
                        + released_events_of(released_keys(prev.take(i as int + 1), scn)));
                }
            } else {
                proof {
                    assert(scn.contains(k));
                    assert(released_keys(prev.take(i as int + 1), scn) == rl0);
                }
            }
            i += 1;
        }
        proof {
            assert(prev.take(held_count as int) =~= prev);
            assert(events@ == decoded_events(prev, slots));
        }

        // the keys of this scan replace the retained state: the newly
        // pressed and the reconfirmed together
        pressed.append(&mut matched);
        self.previous_events = pressed;
        proof {
            lemma_next_held_sound(prev, slots);
            assert(self@ == next_held(prev, slots));
            assert(self@.len() <= 6);
        }
        Ok(events)
    }
}

} // verus!
