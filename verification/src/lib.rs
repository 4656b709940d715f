//! The verified core of a host-local process monitor: how process samples
//! become summaries and details, how operator notes are kept per process
//! instance, how managed runs are registered, and how their captured output is
//! numbered, kept in a bounded tail and paged back out.

pub mod errors;
pub mod logs;
pub mod managed;
pub mod notes;
pub mod ordering;
pub mod processes;
pub mod text;
