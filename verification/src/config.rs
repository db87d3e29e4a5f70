//! Configuration data: per-device identity and key-to-action bindings.
//!
//! These are plain values handed in by the configuration loader. A malformed
//! binding (a key sequence naming a key the input-injection capability
//! cannot synthesize) is rejected at session construction, before any
//! session runs.

use crate::keyboard::Key;
use crate::macros::ShellMacro;
use vstd::prelude::*;

verus! {

/// A key-sequence macro: the keys to synthesize, in configured order.
#[derive(Debug, Clone)]
pub struct Shortcut {
    pub keys: Vec<Key>,
}

/// The closed set of actions a key release can be bound to.
#[derive(Debug, Clone)]
pub enum OneOfMacros {
    Shell(ShellMacro),
    Shortcut(Shortcut),
}

/// One binding: a key and the action its release triggers.
#[derive(Debug, Clone)]
pub struct Macro {
    pub key: Key,
    pub oneof_macro: OneOfMacros,
}

/// One configured device: its identity and its bindings.
#[derive(Debug, Clone)]
pub struct DeviceConfiguration {
    pub vid: u16,
    pub pid: u16,
    pub macros: Vec<Macro>,
}

/// The whole configuration: all devices to listen to.
#[derive(Debug, Clone)]
pub struct Config {
    pub devices: Vec<DeviceConfiguration>,
}

} // verus!
