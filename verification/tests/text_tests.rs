use olsync::text::{
    backup_file_name, cookie_header, download_project_url, error_message, login_url, path_to_str,
    projects_url, success_message, u64_to_string, upload_file_url, with_prefix,
};

#[test]
fn decimal_rendering() {
    assert_eq!(u64_to_string(0), "0");
    assert_eq!(u64_to_string(7), "7");
    assert_eq!(u64_to_string(10), "10");
    assert_eq!(u64_to_string(1234567890), "1234567890");
    assert_eq!(u64_to_string(u64::MAX), "18446744073709551615");
}

#[test]
fn backup_names_carry_project_and_instant() {
    assert_eq!(
        backup_file_name(&"Thesis".to_string(), 1700000000123),
        "Thesis-1700000000123.local.bak"
    );
}

#[test]
fn paths_render_with_slashes() {
    assert_eq!(path_to_str(&vec!["home".to_string(), "user".to_string()]), "/home/user");
    assert_eq!(path_to_str(&vec![]), "");
}

#[test]
fn cookie_header_joins_name_and_value() {
    assert_eq!(
        cookie_header(&"overleaf_session2".to_string(), &"s%3Aabc".to_string()),
        "overleaf_session2=s%3Aabc"
    );
}

#[test]
fn request_addresses() {
    assert_eq!(projects_url(), "https://www.overleaf.com/project");
    assert_eq!(login_url(), "https://www.overleaf.com/login");
    assert_eq!(
        download_project_url(&"abc".to_string()),
        "https://www.overleaf.com/project/abc/download/zip"
    );
    assert_eq!(
        upload_file_url(&"abc".to_string()),
        "https://www.overleaf.com/project/abc/upload"
    );
}

#[test]
fn multi_line_messages_get_a_gutter() {
    assert_eq!(with_prefix(&"plain".to_string()), "plain");
    assert_eq!(with_prefix(&"one\ntwo".to_string()), "one\n |  two");
    assert_eq!(with_prefix(&"a\nb\nc".to_string()), "a\n |  b\n |  c");
    assert_eq!(with_prefix(&String::new()), "");
}

#[test]
fn outcome_lines() {
    assert_eq!(success_message("done".to_string()), "[\u{2714}] done");
    assert_eq!(error_message("bad\nnews".to_string()), "[!] bad\n |  news");
}
