//! Kernel plane: bounded byte history, content and transcript records, the
//! session graph and the per-session attach state machine. The PTY itself
//! and everything that touches a descriptor live with the caller.

pub mod error;
pub mod ring;
pub mod checkpoint;
pub mod pty;
pub mod session;
pub mod content;
pub mod transcript;
pub mod journal;
pub mod ids;
pub mod graph;
