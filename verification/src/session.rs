//! The authentication session: the bundle of credentials obtained by an
//! interactive login, and the store that caches it between invocations.

use vstd::prelude::*;

use crate::errors::SyncError;

verus! {

/// The full set of credentials needed to act as the authenticated user.
///
/// A bundle is *valid* at time `now` iff `now < expires_at`; an expired
/// bundle is never used for a call and is treated as a cache miss.
pub struct SessionBundle {
    /// Opaque credential identifying the authenticated user.
    pub session_token: String,
    /// Optional service-specific affinity token; absence does not
    /// invalidate the bundle.
    pub secondary_token: Option<String>,
    /// Token required for state-changing remote calls.
    pub csrf_token: String,
    /// Human-readable account identifier, informational only.
    pub account_identifier: String,
    /// Expiry instant, in epoch seconds.
    pub expires_at: u64,
}

impl SessionBundle {
    /// A bundle may be used at `now` only while `now` is strictly before
    /// its expiry instant.
    pub open spec fn is_valid(self, now: u64) -> bool {
        now < self.expires_at
    }

    /// Runtime check of `is_valid`.
    pub fn valid_at(&self, now: u64) -> (r: bool)
        ensures
            r == self.is_valid(now),
    {
        now < self.expires_at
    }

    /// An equal copy of the bundle.
    pub fn duplicate(&self) -> (r: SessionBundle)
        ensures
            r == *self,
    {
        SessionBundle {
            session_token: self.session_token.clone(),
            secondary_token: match &self.secondary_token {
                Some(t) => Some(t.clone()),
                None => None,
            },
            csrf_token: self.csrf_token.clone(),
            account_identifier: self.account_identifier.clone(),
            expires_at: self.expires_at,
        }
    }
}

/// The persisted session cache, seen through its parsed content.
///
/// `cache` is what the cache file currently holds: `None` when the file is
/// absent, unreadable or malformed, `Some(bundle)` otherwise. Reading and
/// writing the file itself is the caller's concern; every decision about
/// the content is made here.
pub struct SessionStore {
    pub cache: Option<SessionBundle>,
}

impl SessionStore {
    /// A store with no cached bundle.
    pub fn empty() -> (r: SessionStore)
        ensures
            r.cache is None,
    {
        SessionStore { cache: None }
    }

    /// A store holding a parsed bundle.
    pub fn with_cache(bundle: SessionBundle) -> (r: SessionStore)
        ensures
            r.cache == Some(bundle),
    {
        SessionStore { cache: Some(bundle) }
    }

    /// The cached bundle, or nothing when the cache is empty or the bundle
    /// has expired. An expired bundle is discarded from consideration,
    /// never resurrected: every bundle with `expires_at <= now` yields
    /// `None`, whatever its other fields hold.
    pub fn load(&self, now: u64) -> (r: Option<SessionBundle>)
        ensures
            match self.cache {
                Some(b) => r == if b.is_valid(now) {
                    Some(b)
                } else {
                    None::<SessionBundle>
                },
                None => r is None,
            },
    {
        match &self.cache {
            Some(b) => {
                if b.valid_at(now) {
                    Some(b.duplicate())
                } else {
                    None
                }
            },
            None => None,
        }
    }

    /// Replaces any previous cache with `bundle`.
    pub fn save(&mut self, bundle: SessionBundle)
        ensures
            final(self).cache == Some(bundle),
    {
        self.cache = Some(bundle);
    }

    /// Deletes the cache. Deleting an empty cache is a user-visible
    /// "already logged out" condition, surfaced as an error rather than
    /// swallowed.
    pub fn clear(&mut self) -> (r: Result<(), SyncError>)
        ensures
            match old(self).cache {
                Some(_) => r is Ok && final(self).cache is None,
                None => r matches Err(SyncError::AlreadyLoggedOut) && final(self).cache is None,
            },
    {
        match &self.cache {
            Some(_) => {
                self.cache = None;
                Ok(())
            },
            None => Err(SyncError::AlreadyLoggedOut),
        }
    }
}

/// What the orchestrator must do about authentication: use the cached
/// bundle, or run the interactive login.
pub enum AuthStep {
    Cached(SessionBundle),
    LoginRequired,
}

/// Decides how an operation obtains its session: the cached bundle when
/// it is still valid, the interactive login otherwise. Login is asked
/// for exactly when the cache yields nothing.
pub fn resolve_auth(store: &SessionStore, now: u64) -> (r: AuthStep)
    ensures
        match r {
            AuthStep::Cached(b) => store.cache == Some(b) && b.is_valid(now),
            AuthStep::LoginRequired => match store.cache {
                Some(b) => !b.is_valid(now),
                None => true,
            },
        },
{
    match store.load(now) {
        Some(b) => AuthStep::Cached(b),
        None => AuthStep::LoginRequired,
    }
}

/// Takes the interactive login's outcome: a fresh valid bundle is
/// persisted immediately — before any further call, so that a crash
/// cannot force a second login — and returned. A bundle already expired
/// at `now` is never cached and never handed out: an expired bundle is
/// never used, whatever produced it. A failed login leaves the store
/// untouched.
pub fn complete_login(
    store: &mut SessionStore,
    outcome: Result<SessionBundle, SyncError>,
    now: u64,
) -> (r: Result<SessionBundle, SyncError>)
    ensures
        match outcome {
            Ok(b) => {
                if b.is_valid(now) {
                    final (store).cache == Some(b) && (r matches Ok(rb) && rb == b)
                } else {
                    *final (store) == *old(store) && r matches Err(SyncError::AuthFailed)
                }
            },
            Err(e) => *final (store) == *old(store) && (r matches Err(e2) && e2 == e),
        },
        r matches Ok(rb) ==> rb.is_valid(now),
{
    match outcome {
        Ok(b) => {
            if !b.valid_at(now) {
                return Err(SyncError::AuthFailed);
            }
            let out = b.duplicate();
            store.save(b);
            Ok(out)
        },
        Err(e) => Err(e),
    }
}


} // verus!
