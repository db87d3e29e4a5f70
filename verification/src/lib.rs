//! Core of a USB HID keypad macro daemon: a verified report decoder that
//! turns raw boot-protocol keyboard reports into press/release events, a
//! per-device session state machine (presence probing, bounded-timeout
//! reads, reconnect on failure, cooperative stop), and an immutable macro
//! binding table that maps key releases to configured actions.
//!
//! Everything that touches the operating system (USB transport, process
//! spawning, synthetic input injection, signals) lives outside this crate;
//! the functions here work on plain values and carry contracts.

pub mod config;
pub mod keyboard;
pub mod macros;
pub mod session;
