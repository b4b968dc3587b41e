use olsync::backup::create_local_backup;
use olsync::errors::SyncError;
use olsync::fs_model::{FsEntry, FsModel, FsNode};
use olsync::project::{find_project_by_id, find_project_by_name, Project};
use olsync::repository::{init_olsync_repository, is_olsync_repository, marker_dir_name};
use olsync::sync::{clone_project, pull_project, validate_archive, wipe_project};

fn path(parts: &[&str]) -> Vec<String> {
    parts.iter().map(|s| s.to_string()).collect()
}

fn project(id: &str, name: &str) -> Project {
    Project { id: id.to_string(), name: name.to_string() }
}

fn dir(parts: &[&str]) -> FsEntry {
    FsEntry { path: path(parts), node: FsNode::Dir }
}

fn file(parts: &[&str], content: &[u8]) -> FsEntry {
    FsEntry { path: path(parts), node: FsNode::File(content.to_vec()) }
}

fn repo_fs() -> (FsModel, Vec<String>) {
    let mut fs = FsModel::empty();
    fs.create_dir(path(&["home"])).unwrap();
    let root = init_olsync_repository(&mut fs, &path(&["home"]), &project("p1", "Thesis"))
        .unwrap();
    fs.write_file(path(&["home", "Thesis", "main.tex"]), b"old text".to_vec()).unwrap();
    fs.create_dir(path(&["home", "Thesis", "figures"])).unwrap();
    fs.write_file(path(&["home", "Thesis", "figures", "a.png"]), b"png-bytes".to_vec())
        .unwrap();
    (fs, root)
}

fn read(fs: &FsModel, parts: &[&str]) -> Option<Vec<u8>> {
    fs.read_file(&path(parts)).cloned()
}

#[test]
fn duplicate_names_resolve_to_the_last_listing_entry() {
    let listing = vec![
        project("X", "Thesis"),
        project("m", "Notes"),
        project("Y", "Thesis"),
    ];
    let hit = find_project_by_name(&listing, &"Thesis".to_string()).unwrap();
    assert_eq!(hit.id, "Y");
    assert_eq!(hit.name, "Thesis");
    match find_project_by_name(&listing, &"absent".to_string()) {
        Err(SyncError::ProjectNotFound { query }) => assert_eq!(query, "absent"),
        _ => panic!("a missing name must be reported with the exact query"),
    }
    let by_id = find_project_by_id(&listing, &"m".to_string()).unwrap();
    assert_eq!(by_id.name, "Notes");
}

#[test]
fn backup_copies_everything_but_the_marker() {
    let (mut fs, root) = repo_fs();
    let before = fs.entries.len();
    let bak = create_local_backup(&mut fs, &root, 42).unwrap();
    let mut expected = root.clone();
    expected.push(marker_dir_name());
    expected.push("Thesis-42.local.bak".to_string());
    assert_eq!(bak, expected);
    // Copies are byte-identical, at every depth.
    assert_eq!(
        read(&fs, &["home", "Thesis", ".sync-metadata", "Thesis-42.local.bak", "main.tex"]),
        Some(b"old text".to_vec())
    );
    assert_eq!(
        read(
            &fs,
            &[
                "home",
                "Thesis",
                ".sync-metadata",
                "Thesis-42.local.bak",
                "figures",
                "a.png",
            ],
        ),
        Some(b"png-bytes".to_vec())
    );
    // The originals are untouched and nothing was deleted.
    assert_eq!(read(&fs, &["home", "Thesis", "main.tex"]), Some(b"old text".to_vec()));
    assert_eq!(read(&fs, &["home", "Thesis", "figures", "a.png"]), Some(b"png-bytes".to_vec()));
    assert!(fs.entries.len() > before);
}

#[test]
fn backup_outside_repository_fails() {
    let mut fs = FsModel::empty();
    fs.create_dir(path(&["home"])).unwrap();
    assert!(matches!(
        create_local_backup(&mut fs, &path(&["home"]), 1),
        Err(SyncError::NotARepository)
    ));
}

#[test]
fn wipe_spares_the_marker() {
    let (mut fs, root) = repo_fs();
    wipe_project(&mut fs, &root).unwrap();
    assert!(read(&fs, &["home", "Thesis", "main.tex"]).is_none());
    assert!(!fs.exists_path(&path(&["home", "Thesis", "figures"])));
    assert!(is_olsync_repository(&fs, &root));
    assert!(read(&fs, &["home", "Thesis", ".sync-metadata", "projectinfo"]).is_some());
}

#[test]
fn pull_replaces_content_and_backs_up_first() {
    let (mut fs, root) = repo_fs();
    let archive = vec![
        file(&["main.tex"], b"new text"),
        dir(&["sections"]),
        file(&["sections", "intro.tex"], b"intro"),
    ];
    let (got_root, bak) = pull_project(&mut fs, &root, archive, false, 7).unwrap();
    assert_eq!(got_root, root);
    let bak = bak.expect("a backup is made unless suppressed");
    assert_eq!(*bak.last().unwrap(), "Thesis-7.local.bak".to_string());
    // New content is in place; the old content is gone from the root.
    assert_eq!(read(&fs, &["home", "Thesis", "main.tex"]), Some(b"new text".to_vec()));
    assert_eq!(
        read(&fs, &["home", "Thesis", "sections", "intro.tex"]),
        Some(b"intro".to_vec())
    );
    assert!(!fs.exists_path(&path(&["home", "Thesis", "figures"])));
    // The backup preserves what was overwritten.
    assert_eq!(
        read(&fs, &["home", "Thesis", ".sync-metadata", "Thesis-7.local.bak", "main.tex"]),
        Some(b"old text".to_vec())
    );
}

#[test]
fn pull_without_backup_creates_no_snapshot_directory() {
    let (mut fs, root) = repo_fs();
    let archive = vec![file(&["main.tex"], b"new text")];
    let (_, bak) = pull_project(&mut fs, &root, archive, true, 7).unwrap();
    assert!(bak.is_none());
    // Still wiped and repopulated.
    assert_eq!(read(&fs, &["home", "Thesis", "main.tex"]), Some(b"new text".to_vec()));
    assert!(!fs.exists_path(&path(&["home", "Thesis", "figures"])));
    // No path anywhere carries the backup suffix.
    for e in &fs.entries {
        for comp in &e.path {
            assert!(!comp.ends_with(".local.bak"));
        }
    }
}

#[test]
fn failed_suppressed_pull_creates_no_snapshot_either() {
    let (mut fs, root) = repo_fs();
    let before: Vec<Vec<String>> = fs.entries.iter().map(|e| e.path.clone()).collect();
    // A file inside an undeclared directory: the archive is refused after
    // the wipe, and with the backup suppressed nothing new may appear.
    let archive = vec![file(&["sections", "intro.tex"], b"intro")];
    let r = pull_project(&mut fs, &root, archive, true, 7);
    assert!(matches!(r, Err(SyncError::RemoteProtocolError)));
    for e in &fs.entries {
        assert!(before.contains(&e.path));
        for comp in &e.path {
            assert!(!comp.ends_with(".local.bak"));
        }
    }
    assert!(is_olsync_repository(&fs, &root));
}

#[test]
fn pull_outside_repository_fails() {
    let mut fs = FsModel::empty();
    fs.create_dir(path(&["home"])).unwrap();
    assert!(matches!(
        pull_project(&mut fs, &path(&["home"]), vec![], true, 0),
        Err(SyncError::NotARepository)
    ));
}

#[test]
fn bad_archive_after_wipe_leaves_root_empty_with_backup() {
    let (mut fs, root) = repo_fs();
    // A file inside a directory that the archive never declares.
    let archive = vec![file(&["sections", "intro.tex"], b"intro")];
    let r = pull_project(&mut fs, &root, archive, false, 7);
    assert!(matches!(r, Err(SyncError::RemoteProtocolError)));
    assert!(read(&fs, &["home", "Thesis", "main.tex"]).is_none());
    assert_eq!(
        read(&fs, &["home", "Thesis", ".sync-metadata", "Thesis-7.local.bak", "main.tex"]),
        Some(b"old text".to_vec())
    );
}

#[test]
fn clone_scenario_initializes_and_populates() {
    let mut fs = FsModel::empty();
    fs.create_dir(path(&["home"])).unwrap();
    let listing = vec![project("X", "Draft"), project("Y", "Thesis")];
    let picked = find_project_by_name(&listing, &"Thesis".to_string()).unwrap();
    assert!(!is_olsync_repository(&fs, &path(&["home"])));
    let archive = vec![file(&["main.tex"], b"content"), dir(&["figures"])];
    let root = clone_project(&mut fs, &path(&["home"]), &picked, archive).unwrap();
    assert_eq!(root, path(&["home", "Thesis"]));
    assert!(is_olsync_repository(&fs, &root));
    assert_eq!(read(&fs, &["home", "Thesis", "main.tex"]), Some(b"content".to_vec()));
    assert!(fs.exists_path(&path(&["home", "Thesis", "figures"])));
    // Cloning again on top fails without touching anything.
    let count = fs.entries.len();
    let r = clone_project(&mut fs, &root, &project("Z", "Other"), vec![]);
    assert!(matches!(r, Err(SyncError::AlreadyInitialized)));
    assert_eq!(fs.entries.len(), count);
}

#[test]
fn archive_validation_rules() {
    assert!(validate_archive(&vec![file(&["a.tex"], b"x"), dir(&["d"])]));
    // The marker branch is out of bounds.
    assert!(!validate_archive(&vec![file(&[".sync-metadata", "x"], b"x")]));
    // Duplicates are refused.
    assert!(!validate_archive(&vec![file(&["a"], b"1"), file(&["a"], b"2")]));
    // A parent must be declared as a directory.
    assert!(!validate_archive(&vec![file(&["d", "x"], b"1")]));
    assert!(validate_archive(&vec![dir(&["d"]), file(&["d", "x"], b"1")]));
    // A parent declared as a file does not count.
    assert!(!validate_archive(&vec![file(&["d"], b"1"), file(&["d", "x"], b"1")]));
    // The empty archive is fine: the project is simply empty.
    assert!(validate_archive(&vec![]));
}
