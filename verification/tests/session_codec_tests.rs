use olsync::session::SessionBundle;
use olsync::session_codec::{encode_bundle, parse_bundle};

fn bundle(secondary: Option<&str>) -> SessionBundle {
    SessionBundle {
        session_token: String::from("s%3Aabc.def"),
        secondary_token: secondary.map(|s| s.to_string()),
        csrf_token: String::from("csrf\"quoted\""),
        account_identifier: String::from("user@example.com"),
        expires_at: 1700000000,
    }
}

#[test]
fn bundle_record_round_trip_with_secondary() {
    let b = bundle(Some("aff\\iliate\n1"));
    let bytes = encode_bundle(&b);
    let back = parse_bundle(&bytes).expect("a printed record reads back");
    assert_eq!(back.session_token, b.session_token);
    assert_eq!(back.secondary_token, b.secondary_token);
    assert_eq!(back.csrf_token, b.csrf_token);
    assert_eq!(back.account_identifier, b.account_identifier);
    assert_eq!(back.expires_at, b.expires_at);
}

#[test]
fn bundle_record_round_trip_without_secondary() {
    let b = bundle(None);
    let back = parse_bundle(&encode_bundle(&b)).expect("a printed record reads back");
    assert!(back.secondary_token.is_none());
    assert_eq!(back.expires_at, 1700000000);
}

#[test]
fn bundle_record_exact_bytes() {
    let b = SessionBundle {
        session_token: String::from("t"),
        secondary_token: None,
        csrf_token: String::from("c"),
        account_identifier: String::from("a@b"),
        expires_at: 7,
    };
    let expected = concat_bytes_helper();
    assert_eq!(encode_bundle(&b), expected);
}

fn concat_bytes_helper() -> Vec<u8> {
    let mut v = Vec::new();
    v.extend_from_slice(b"{\"session_token\":\"t\",\"secondary_token\":null,");
    v.extend_from_slice(b"\"csrf_token\":\"c\",\"account_identifier\":\"a@b\",\"expires_at\":7}");
    v
}

#[test]
fn malformed_cache_records_do_not_parse() {
    assert!(parse_bundle(&b"".to_vec()).is_none());
    assert!(parse_bundle(&b"{}".to_vec()).is_none());
    // A number with a stray leading zero is not canonical.
    let mut v = encode_bundle(&SessionBundle {
        session_token: String::from("t"),
        secondary_token: None,
        csrf_token: String::from("c"),
        account_identifier: String::from("a"),
        expires_at: 7,
    });
    let brace = v.pop().unwrap();
    let last = v.pop().unwrap();
    v.push(b'0');
    v.push(last);
    v.push(brace);
    assert!(parse_bundle(&v).is_none());
    // Trailing bytes after the closing brace are refused.
    let mut w = encode_bundle(&bundle(None));
    w.push(b' ');
    assert!(parse_bundle(&w).is_none());
    // An expiry wider than the field is refused.
    let mut x = encode_bundle(&SessionBundle {
        session_token: String::from("t"),
        secondary_token: None,
        csrf_token: String::from("c"),
        account_identifier: String::from("a"),
        expires_at: u64::MAX,
    });
    let brace = x.pop().unwrap();
    x.push(b'9');
    x.push(brace);
    assert!(parse_bundle(&x).is_none());
}

#[test]
fn widest_expiry_still_reads_back() {
    let b = SessionBundle {
        session_token: String::from("t"),
        secondary_token: Some(String::from("g")),
        csrf_token: String::from("c"),
        account_identifier: String::from("a"),
        expires_at: u64::MAX,
    };
    let back = parse_bundle(&encode_bundle(&b)).unwrap();
    assert_eq!(back.expires_at, u64::MAX);
}
