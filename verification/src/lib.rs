//! Watches the set of attached USB devices for unauthorized changes.
//!
//! A baseline inventory of device records is captured once and persisted;
//! every polling cycle a fresh inventory is compared against it, and devices
//! are classified as new or missing.  This crate holds the verified core:
//! the device identity model, the snapshot diff engine, the text codec for
//! the persisted inventory, and the per-cycle monitor logic.  Talking to the
//! USB stack and to the file system is left to the surrounding program.

pub mod device;
pub mod digits;
pub mod diff;
pub mod codec;
pub mod monitor;
