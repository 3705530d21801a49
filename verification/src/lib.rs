//! Core engine of a clipboard-history keeper: a bounded, deduplicated
//! history and bookmark store with an address-detection log, a polling
//! state machine for capture, a structural-fingerprint autosave gate,
//! and a crash-safe persistence codec.
//!
//! All state lives in plain data types; the thin process wrapper supplies
//! the clock, the clipboard and the file system and is kept outside the
//! verified core.

pub mod model;
pub mod bytes;
pub mod fingerprint;
pub mod scan;
pub mod store;
pub mod codec;
pub mod persist;
pub mod monitor;
pub mod outside;
pub mod laws;
