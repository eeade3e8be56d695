//! Core of a keyboard-controller firmware: matrix debouncing, layered
//! keymap resolution, and HID boot-report encoding, all verified.
//!
//! The hardware edges (matrix pin scanning, USB transport, interrupt
//! dispatch) live outside this crate; they hand in raw boolean scan grids
//! and carry out the reports and reset requests this crate computes.

pub mod types;
pub mod debounce;
pub mod layout;
pub mod report;
pub mod pipeline;
