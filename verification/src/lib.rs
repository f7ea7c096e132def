//! A local encrypted credential vault.
//!
//! The vault stores per-host username/password pairs, resolves a host/user
//! query to a single credential (with fuzzy disambiguation when several hosts
//! match), and persists itself atomically in sealed (encrypted and encoded)
//! form.

pub mod codec;
pub mod model;
pub mod serial;
pub mod lookup;
pub mod text;
pub mod persist;
pub mod ops;
pub mod resolve;
pub mod errs;
