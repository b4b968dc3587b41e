//! Error taxonomy shared by every operation.

use vstd::prelude::*;

verus! {

/// Everything that can go wrong in a synchronization operation.
///
/// Local-state precondition failures (`AlreadyInitialized`, `TargetExists`,
/// `NotARepository`, `CorruptState`) are fatal and ask the user for a
/// corrective action. Remote failures carry enough detail to diagnose by
/// hand; none of them is retried automatically.
#[derive(Debug)]
pub enum SyncError {
    /// A marker directory already exists on the upward path.
    AlreadyInitialized,
    /// The computed project directory already exists.
    TargetExists,
    /// No marker directory was found on the upward path.
    NotARepository,
    /// The marker directory exists but its project record is unreadable.
    CorruptState,
    /// No project with the queried name or id exists remotely; the exact
    /// query is carried for the user to see.
    ProjectNotFound { query: String },
    /// The interactive login did not produce a session bundle.
    AuthFailed,
    /// The interactive login ran past its generous upper bound.
    LoginTimeout,
    /// A cache deletion was requested but no cache exists.
    AlreadyLoggedOut,
    /// The remote service could not be reached.
    NetworkError,
    /// The remote service answered in an unexpected shape.
    RemoteProtocolError,
    /// An upload was answered with a non-success status.
    UploadFailed { status: u16, body: String },
    /// A local filesystem operation failed.
    IoError,
}

} // verus!
