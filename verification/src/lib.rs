//! Local synchronization of a remote document-editing project.
//!
//! The crate models the local side of the tool as verified state machines:
//! a session cache with expiry, a repository anchored by a marker directory,
//! backup-before-overwrite pulls, and fail-fast pushes. Network and disk
//! access live outside the library; the functions here take the fetched
//! values as arguments and decide everything else.

pub mod backup;
pub mod codec;
pub mod errors;
pub mod fs_model;
pub mod parse;
pub mod project;
pub mod push;
pub mod repository;
pub mod session;
pub mod session_codec;
pub mod sync;
pub mod text;
