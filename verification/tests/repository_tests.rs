use olsync::codec::{encode_project, parse_project};
use olsync::errors::SyncError;
use olsync::fs_model::FsModel;
use olsync::project::Project;
use olsync::repository::{
    get_olsync_directory, get_project_info, get_repo_root, init_olsync_repository,
    is_olsync_repository, marker_dir_name,
};

fn path(parts: &[&str]) -> Vec<String> {
    parts.iter().map(|s| s.to_string()).collect()
}

fn project(id: &str, name: &str) -> Project {
    Project { id: id.to_string(), name: name.to_string() }
}

fn home_fs() -> FsModel {
    let mut fs = FsModel::empty();
    fs.create_dir(path(&["home"])).unwrap();
    fs.create_dir(path(&["home", "user"])).unwrap();
    fs
}

#[test]
fn empty_filesystem_is_no_repository() {
    let fs = home_fs();
    assert!(!is_olsync_repository(&fs, &path(&["home", "user"])));
    assert!(get_olsync_directory(&fs, &path(&["home", "user"])).is_none());
    assert!(matches!(
        get_repo_root(&fs, &path(&["home", "user"])),
        Err(SyncError::NotARepository)
    ));
}

#[test]
fn init_creates_marker_and_identity() {
    let mut fs = home_fs();
    let cwd = path(&["home", "user"]);
    let root = init_olsync_repository(&mut fs, &cwd, &project("p1", "Thesis")).unwrap();
    assert_eq!(root, path(&["home", "user", "Thesis"]));
    assert!(is_olsync_repository(&fs, &root));
    let marker = get_olsync_directory(&fs, &root).unwrap();
    assert_eq!(marker, path(&["home", "user", "Thesis", ".sync-metadata"]));
    let info = get_project_info(&fs, &root).unwrap();
    assert_eq!(info.id, "p1");
    assert_eq!(info.name, "Thesis");
}

#[test]
fn marker_discovery_is_the_same_from_any_depth() {
    let mut fs = home_fs();
    let cwd = path(&["home", "user"]);
    let root = init_olsync_repository(&mut fs, &cwd, &project("p1", "Thesis")).unwrap();
    fs.create_dir(path(&["home", "user", "Thesis", "chapters"])).unwrap();
    fs.create_dir(path(&["home", "user", "Thesis", "chapters", "one"])).unwrap();
    let from_root = get_olsync_directory(&fs, &root).unwrap();
    let from_d1 = get_olsync_directory(&fs, &path(&["home", "user", "Thesis", "chapters"]))
        .unwrap();
    let from_d2 = get_olsync_directory(
        &fs,
        &path(&["home", "user", "Thesis", "chapters", "one"]),
    )
        .unwrap();
    assert_eq!(from_root, from_d1);
    assert_eq!(from_root, from_d2);
    assert_eq!(
        get_repo_root(&fs, &path(&["home", "user", "Thesis", "chapters", "one"])).unwrap(),
        root
    );
}

#[test]
fn init_inside_repository_fails_and_changes_nothing() {
    let mut fs = home_fs();
    let cwd = path(&["home", "user"]);
    let root = init_olsync_repository(&mut fs, &cwd, &project("p1", "Thesis")).unwrap();
    fs.create_dir(path(&["home", "user", "Thesis", "sub"])).unwrap();
    let before = fs.entries.len();
    // From the root itself.
    let r = init_olsync_repository(&mut fs, &root, &project("p2", "Other"));
    assert!(matches!(r, Err(SyncError::AlreadyInitialized)));
    // From a subdirectory: the ancestor marker is still found.
    let r = init_olsync_repository(
        &mut fs,
        &path(&["home", "user", "Thesis", "sub"]),
        &project("p2", "Other"),
    );
    assert!(matches!(r, Err(SyncError::AlreadyInitialized)));
    assert_eq!(fs.entries.len(), before);
    assert!(!fs.exists_path(&path(&["home", "user", "Thesis", "sub", "Other"])));
}

#[test]
fn init_refuses_existing_target_directory() {
    let mut fs = home_fs();
    fs.create_dir(path(&["home", "user", "Thesis"])).unwrap();
    let r = init_olsync_repository(&mut fs, &path(&["home", "user"]), &project("p1", "Thesis"));
    assert!(matches!(r, Err(SyncError::TargetExists)));
}

#[test]
fn project_info_without_marker_is_not_a_repository() {
    let fs = home_fs();
    assert!(matches!(
        get_project_info(&fs, &path(&["home", "user"])),
        Err(SyncError::NotARepository)
    ));
}

#[test]
fn corrupt_identity_record_is_fatal() {
    let mut fs = home_fs();
    let cwd = path(&["home", "user"]);
    let root = init_olsync_repository(&mut fs, &cwd, &project("p1", "Thesis")).unwrap();
    let mut info_path = root.clone();
    info_path.push(marker_dir_name());
    info_path.push("projectinfo".to_string());
    fs.write_file(info_path, b"not a record".to_vec()).unwrap();
    assert!(matches!(get_project_info(&fs, &root), Err(SyncError::CorruptState)));
}

#[test]
fn project_record_round_trip() {
    let p = project("abc123", "My \"quoted\" name\\with\nescapes");
    let bytes = encode_project(&p);
    let back = parse_project(&bytes).expect("a printed record reads back");
    assert_eq!(back.id, p.id);
    assert_eq!(back.name, p.name);
}

#[test]
fn project_record_exact_bytes() {
    let p = project("k7", "Thesis");
    let bytes = encode_project(&p);
    assert_eq!(bytes, b"{\"id\":\"k7\",\"name\":\"Thesis\"}".to_vec());
}

#[test]
fn malformed_records_do_not_parse() {
    assert!(parse_project(&b"".to_vec()).is_none());
    assert!(parse_project(&b"{}".to_vec()).is_none());
    assert!(parse_project(&b"{\"id\":\"a\"}".to_vec()).is_none());
    assert!(parse_project(&b"{\"id\":\"a\",\"name\":\"b\"".to_vec()).is_none());
    assert!(parse_project(&b"{\"id\":\"a\",\"name\":\"b\"} ".to_vec()).is_none());
    // A stray escape code is refused.
    assert!(parse_project(&b"{\"id\":\"a\\x\",\"name\":\"b\"}".to_vec()).is_none());
}
