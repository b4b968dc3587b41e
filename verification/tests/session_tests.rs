use olsync::errors::SyncError;
use olsync::session::{complete_login, resolve_auth, AuthStep, SessionBundle, SessionStore};

fn bundle(expires_at: u64) -> SessionBundle {
    SessionBundle {
        session_token: String::from("tok-123"),
        secondary_token: Some(String::from("aff-1")),
        csrf_token: String::from("csrf-9"),
        account_identifier: String::from("user@example.com"),
        expires_at,
    }
}

#[test]
fn expired_bundle_loads_as_nothing() {
    // Expiry exactly at `now` is already expired.
    let store = SessionStore::with_cache(bundle(1000));
    assert!(store.load(1000).is_none());
    assert!(store.load(5000).is_none());
}

#[test]
fn expired_bundle_ignored_whatever_other_fields_hold() {
    let mut b = bundle(7);
    b.secondary_token = None;
    b.session_token = String::from("still-plausible");
    let store = SessionStore::with_cache(b);
    assert!(store.load(7).is_none());
}

#[test]
fn valid_bundle_loads() {
    let store = SessionStore::with_cache(bundle(1000));
    let loaded = store.load(999).expect("bundle should be valid before expiry");
    assert_eq!(loaded.session_token, "tok-123");
    assert_eq!(loaded.account_identifier, "user@example.com");
    assert_eq!(loaded.expires_at, 1000);
}

#[test]
fn empty_store_loads_as_nothing() {
    let store = SessionStore::empty();
    assert!(store.load(0).is_none());
}

#[test]
fn save_replaces_previous_cache() {
    let mut store = SessionStore::with_cache(bundle(10));
    store.save(bundle(99));
    let loaded = store.load(50).expect("replacement should be valid");
    assert_eq!(loaded.expires_at, 99);
}

#[test]
fn clear_on_empty_store_is_already_logged_out() {
    let mut store = SessionStore::empty();
    let r = store.clear();
    assert!(matches!(r, Err(SyncError::AlreadyLoggedOut)));
}

#[test]
fn clear_removes_the_cache() {
    let mut store = SessionStore::with_cache(bundle(1000));
    assert!(store.clear().is_ok());
    assert!(store.load(0).is_none());
    assert!(matches!(store.clear(), Err(SyncError::AlreadyLoggedOut)));
}

#[test]
fn resolve_auth_uses_valid_cache() {
    let store = SessionStore::with_cache(bundle(1000));
    match resolve_auth(&store, 500) {
        AuthStep::Cached(b) => assert_eq!(b.session_token, "tok-123"),
        AuthStep::LoginRequired => panic!("a valid cache must be used"),
    }
}

#[test]
fn resolve_auth_demands_login_on_expiry() {
    let store = SessionStore::with_cache(bundle(1000));
    assert!(matches!(resolve_auth(&store, 1000), AuthStep::LoginRequired));
    assert!(matches!(resolve_auth(&SessionStore::empty(), 0), AuthStep::LoginRequired));
}

#[test]
fn successful_login_is_persisted_before_use() {
    let mut store = SessionStore::empty();
    let r = complete_login(&mut store, Ok(bundle(1000)), 500);
    let got = r.expect("login outcome should pass through");
    assert_eq!(got.session_token, "tok-123");
    let cached = store.load(500).expect("the fresh bundle must be cached");
    assert_eq!(cached.session_token, "tok-123");
}

#[test]
fn failed_login_leaves_store_untouched() {
    let mut store = SessionStore::empty();
    let r = complete_login(&mut store, Err(SyncError::LoginTimeout), 0);
    assert!(matches!(r, Err(SyncError::LoginTimeout)));
    assert!(store.load(0).is_none());
    assert!(matches!(store.clear(), Err(SyncError::AlreadyLoggedOut)));
}

#[test]
fn expired_fresh_login_is_never_used_or_cached() {
    // The agent handed back a bundle that is already expired: it must
    // neither be returned for use nor written to the cache.
    let mut store = SessionStore::empty();
    let r = complete_login(&mut store, Ok(bundle(1000)), 1000);
    assert!(matches!(r, Err(SyncError::AuthFailed)));
    assert!(store.load(0).is_none());
    assert!(matches!(store.clear(), Err(SyncError::AlreadyLoggedOut)));
}
