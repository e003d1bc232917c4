//! A merge-conflict assistant: finds version-control conflict markers in
//! document text, tracks per-document state as edits arrive, decides when
//! diagnostics must be republished, and builds the quick-fix edits that
//! resolve a conflict by keeping one side, both sides, or the ancestor.
//!
//! Documents are held as byte strings; the transport layer that speaks the
//! editor protocol converts to and from them at the boundary.

pub mod actions;
pub mod conflict;
pub mod diagnostics;
pub mod edits;
pub mod markers;
pub mod position;
pub mod scanner;
pub mod session;
pub mod store;
