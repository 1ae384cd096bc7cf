//! Figma network line tester, as a verified library.
//!
//! Two engines make up the core: the race engine, which selects the
//! fastest-responding candidate IP under a shrinking timeout budget, and the
//! hosts-file merge engine, which inserts and removes `ip hostname` mappings
//! scoped to a single ownership marker comment. All decisions are made here
//! on plain values; DNS lookups, HTTP probes and file access happen outside
//! the library and hand their observations in.

pub mod geo;
pub mod hosts;
pub mod lines;
pub mod platform;
pub mod pool;
pub mod race;
pub mod reset;
