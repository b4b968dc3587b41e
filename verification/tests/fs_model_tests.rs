use olsync::backup::create_local_backup_now;
use olsync::errors::SyncError;
use olsync::fs_model::{path_eq, path_starts_with, FsModel};
use olsync::project::Project;
use olsync::repository::init_olsync_repository;

fn path(parts: &[&str]) -> Vec<String> {
    parts.iter().map(|s| s.to_string()).collect()
}

#[test]
fn directories_need_an_existing_parent() {
    let mut fs = FsModel::empty();
    assert!(matches!(fs.create_dir(path(&["a", "b"])), Err(SyncError::IoError)));
    assert!(fs.create_dir(path(&["a"])).is_ok());
    assert!(fs.create_dir(path(&["a", "b"])).is_ok());
    assert!(matches!(fs.create_dir(path(&["a"])), Err(SyncError::TargetExists)));
    assert!(matches!(fs.create_dir(path(&[])), Err(SyncError::IoError)));
}

#[test]
fn files_overwrite_but_never_shadow_directories() {
    let mut fs = FsModel::empty();
    fs.create_dir(path(&["a"])).unwrap();
    assert!(fs.write_file(path(&["a", "f"]), b"one".to_vec()).is_ok());
    assert_eq!(fs.read_file(&path(&["a", "f"])), Some(&b"one".to_vec()));
    assert!(fs.write_file(path(&["a", "f"]), b"two".to_vec()).is_ok());
    assert_eq!(fs.read_file(&path(&["a", "f"])), Some(&b"two".to_vec()));
    // A directory cannot be overwritten by a file.
    assert!(matches!(fs.write_file(path(&["a"]), b"x".to_vec()), Err(SyncError::IoError)));
    // A file is not a directory: nothing can be created under it.
    assert!(matches!(fs.create_dir(path(&["a", "f", "sub"])), Err(SyncError::IoError)));
    // Reading a directory as a file yields nothing.
    assert!(fs.read_file(&path(&["a"])).is_none());
}

#[test]
fn path_comparisons() {
    assert!(path_eq(&path(&["a", "b"]), &path(&["a", "b"])));
    assert!(!path_eq(&path(&["a", "b"]), &path(&["a", "c"])));
    assert!(!path_eq(&path(&["a"]), &path(&["a", "b"])));
    assert!(path_starts_with(&path(&["a", "b", "c"]), &path(&["a", "b"])));
    assert!(path_starts_with(&path(&["a"]), &path(&[])));
    assert!(!path_starts_with(&path(&["a", "b"]), &path(&["b"])));
}

#[test]
fn clock_stamped_backup_matches_the_pattern() {
    let mut fs = FsModel::empty();
    fs.create_dir(path(&["home"])).unwrap();
    let root = init_olsync_repository(
        &mut fs,
        &path(&["home"]),
        &Project { id: "p1".to_string(), name: "Thesis".to_string() },
    )
    .unwrap();
    fs.write_file(path(&["home", "Thesis", "main.tex"]), b"text".to_vec()).unwrap();
    let bak = create_local_backup_now(&mut fs, &root).unwrap();
    let name = bak.last().unwrap();
    assert!(name.starts_with("Thesis-"));
    assert!(name.ends_with(".local.bak"));
}
