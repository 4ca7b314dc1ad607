//! Terminal session engine: a verified model of a PTY session registry, the
//! byte-stream text pipeline that feeds a display surface, and an encrypted,
//! appendable keystroke-recording subsystem.
//!
//! The surrounding application owns the actual pseudo-terminals, threads and
//! files; this crate owns every decision and every byte transformation in
//! between, with contracts checked by Verus.

pub mod textutil;
pub mod scan;
pub mod json;
pub mod secure;
pub mod recording;
pub mod session;
pub mod coordinator;
pub mod launch;
pub mod utf8stream;
pub mod persist;
