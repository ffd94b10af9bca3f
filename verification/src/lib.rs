//! Verified core of a minimal desktop editor shell.
//!
//! The crate models the two pieces of logic that must be correct in such a
//! shell: the filesystem bridge (create directory, list directory, read and
//! write file contents) and the UI synchronization layer that owns the
//! directory listing, the selected file and the in-memory buffer.  The
//! filesystem is modelled as a map from absolute paths to nodes, the
//! synchronization layer as an explicit state machine driven by events; a
//! thin unverified shell performs the real I/O around these.

pub mod codec;
pub mod fs;
pub mod paths;
pub mod session;
