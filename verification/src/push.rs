//! The push protocol: files go up one at a time, in order, and the first
//! failure aborts everything that follows — fail-fast, no rollback of
//! what already went through.

use vstd::prelude::*;

use crate::errors::SyncError;

verus! {

/// One push operation in progress: the files to upload, how many have
/// been uploaded, and the failure that stopped it, if one did.
pub struct PushSession {
    pub files: Vec<String>,
    pub completed: usize,
    pub failure: Option<(usize, u16, String)>,
}

impl PushSession {
    /// The session's bookkeeping is sound: no more completions than
    /// files, and a recorded failure names the first file that did not
    /// go through.
    pub open spec fn wf(self) -> bool {
        &&& self.completed <= self.files@.len()
        &&& match self.failure {
            Some(f) => f.0 == self.completed && self.completed < self.files@.len(),
            None => true,
        }
    }

    /// Starts a push of the given files.
    pub fn new(files: Vec<String>) -> (r: PushSession)
        ensures
            r.wf(),
            r.files@ == files@,
            r.completed == 0,
            r.failure is None,
    {
        PushSession { files, completed: 0, failure: None }
    }

    /// The next file to upload: nothing once every file went through,
    /// and — fail-fast — nothing once any upload has failed.
    pub fn next_file(&self) -> (r: Option<String>)
        requires
            self.wf(),
        ensures
            match r {
                Some(f) => self.failure is None && self.completed < self.files@.len() && f@
                    == self.files@[self.completed as int]@,
                None => self.failure is Some || self.completed == self.files@.len(),
            },
    {
        match &self.failure {
            Some(_) => None,
            None => {
                if self.completed < self.files.len() {
                    Some(self.files[self.completed].clone())
                } else {
                    None
                }
            },
        }
    }

    /// Records that the current file was uploaded.
    pub fn record_success(&mut self)
        requires
            old(self).wf(),
            old(self).failure is None,
            old(self).completed < old(self).files@.len(),
        ensures
            final (self).wf(),
            final (self).files@ == old(self).files@,
            final (self).completed == old(self).completed + 1,
            final (self).failure is None,
    {
        let n = self.files.len();
        proof {
            assert(self.completed < n);
        }
        self.completed = self.completed + 1;
    }

    /// Records that the current file's upload was answered with a
    /// non-success status: the session aborts here.
    pub fn record_failure(&mut self, status: u16, body: String)
        requires
            old(self).wf(),
            old(self).failure is None,
            old(self).completed < old(self).files@.len(),
        ensures
            final (self).wf(),
            final (self).files@ == old(self).files@,
            final (self).completed == old(self).completed,
            final (self).failure == Some((old(self).completed, status, body)),
    {
        self.failure = Some((self.completed, status, body));
    }

    /// Whether every file went through.
    pub fn succeeded(&self) -> (r: bool)
        ensures
            r == (self.failure is None && self.completed == self.files@.len()),
    {
        match &self.failure {
            Some(_) => false,
            None => self.completed == self.files.len(),
        }
    }

    /// The outcome: `Ok` when every file was uploaded, and otherwise the
    /// failing file's name with the remote status and body — files after
    /// it were never attempted.
    pub fn outcome(&self) -> (r: Result<(), SyncError>)
        requires
            self.wf(),
        ensures
            match self.failure {
                Some(f) => r matches Err(SyncError::UploadFailed { status, body }) && status == f.1
                    && body@ == f.2@,
                None => {
                    if self.completed == self.files@.len() {
                        r is Ok
                    } else {
                        r matches Err(SyncError::NetworkError)
                    }
                },
            },
    {
        match &self.failure {
            Some((_, status, body)) => Err(
                SyncError::UploadFailed { status: *status, body: body.clone() },
            ),
            None => {
                if self.completed == self.files.len() {
                    Ok(())
                } else {
                    // The push stopped before its end without a recorded
                    // remote answer: the transport gave out.
                    Err(SyncError::NetworkError)
                }
            },
        }
    }

    /// The failing file's name, when an upload failed.
    pub fn failed_file(&self) -> (r: Option<String>)
        requires
            self.wf(),
        ensures
            match r {
                Some(f) => self.failure matches Some(x) && f@ == self.files@[x.0 as int]@,
                None => self.failure is None,
            },
    {
        match &self.failure {
            Some((i, _, _)) => Some(self.files[*i].clone()),
            None => None,
        }
    }
}

/// The per-upload decision of the remote answer: success statuses pass,
/// anything else fails with the status and the answer's body.
pub fn upload_outcome(status: u16, body: String) -> (r: Result<(), SyncError>)
    ensures
        200 <= status < 300 ==> r is Ok,
        !(200 <= status < 300) ==> (r matches Err(SyncError::UploadFailed { status: s, body: b })
            && s == status && b@ == body@),
{
    if 200 <= status && status < 300 {
        Ok(())
    } else {
        Err(SyncError::UploadFailed { status, body })
    }
}

} // verus!
