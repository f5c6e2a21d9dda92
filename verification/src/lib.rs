//! Event transport for build tracing.
//!
//! Traced processes publish lifecycle events as small record files in a shared
//! directory; a collector later lists the directory and decodes what it finds.
//! This crate holds the data model, the record format and the rules of the read
//! pass. Touching the filesystem is left to the caller.

pub mod codec;
pub mod collector;
pub mod decimal;
pub mod error;
pub mod event;
pub mod sender;
