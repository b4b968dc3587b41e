//! The local repository: a marker directory found by upward search, the
//! persisted project identity inside it, and repository initialization.

use vstd::prelude::*;

use crate::codec::{encode_project, parse_project, project_record, record_text};
use crate::errors::SyncError;
use crate::fs_model::{clone_path, FsEntry, FsModel, FsNode, NodeV};
use crate::project::Project;

verus! {

use vstd::string::StringExecFns;

/// The name of the marker directory that anchors a repository.
pub open spec fn marker_name() -> Seq<char> {
    ".sync-metadata"@
}

/// The name of the file inside the marker that holds the project record.
pub open spec fn info_name() -> Seq<char> {
    "projectinfo"@
}

/// The marker directory's name, as a string.
pub fn marker_dir_name() -> (r: String)
    ensures
        r@ == marker_name(),
{
    String::from_str(".sync-metadata")
}

/// The project record file's name, as a string.
pub fn info_file_name() -> (r: String)
    ensures
        r@ == info_name(),
{
    String::from_str("projectinfo")
}

/// The upward search for the marker directory: starting at `cwd`, each
/// directory is asked for a child named like the marker; the first hit —
/// the deepest one — wins, and the search stops at the filesystem root.
pub open spec fn marker_search(m: FsModel, cwd: Seq<Seq<char>>) -> Option<Seq<Seq<char>>>
    decreases cwd.len(),
{
    if m.has(cwd.push(marker_name())) {
        Some(cwd.push(marker_name()))
    } else if cwd.len() == 0 {
        None
    } else {
        marker_search(m, cwd.drop_last())
    }
}

/// Returns the marker directory of the repository that `cwd` belongs to:
/// the upward search of `marker_search`, word for word.
pub fn get_olsync_directory(fs: &FsModel, cwd: &Vec<String>) -> (r: Option<Vec<String>>)
    requires
        fs.wf(),
    ensures
        match r {
            Some(d) => marker_search(*fs, cwd.deep_view()) == Some(d.deep_view()),
            None => marker_search(*fs, cwd.deep_view()) is None,
        },
{
    let mut cur = clone_path(cwd);
    loop
        invariant
            fs.wf(),
            marker_search(*fs, cwd.deep_view()) == marker_search(*fs, cur.deep_view()),
        decreases cur.len(),
    {
        let mut candidate = clone_path(&cur);
        candidate.push(marker_dir_name());
        proof {
            assert(candidate.deep_view() =~= cur.deep_view().push(marker_name()));
        }
        if fs.exists_path(&candidate) {
            return Some(candidate);
        }
        if cur.len() == 0 {
            return None;
        }
        let ghost prev = cur.deep_view();
        cur.pop();
        proof {
            assert(cur.deep_view() =~= prev.drop_last());
        }
    }
}

/// Whether `cwd` lies inside a repository: the upward search succeeds.
pub fn is_olsync_repository(fs: &FsModel, cwd: &Vec<String>) -> (r: bool)
    requires
        fs.wf(),
    ensures
        r == (marker_search(*fs, cwd.deep_view()) is Some),
{
    get_olsync_directory(fs, cwd).is_some()
}

/// The repository root: the parent of the marker directory.
pub fn get_repo_root(fs: &FsModel, cwd: &Vec<String>) -> (r: Result<Vec<String>, SyncError>)
    requires
        fs.wf(),
    ensures
        match r {
            Ok(root) => marker_search(*fs, cwd.deep_view()) == Some(
                root.deep_view().push(marker_name()),
            ),
            Err(e) => e is NotARepository && marker_search(*fs, cwd.deep_view()) is None,
        },
{
    match get_olsync_directory(fs, cwd) {
        Some(mut d) => {
            let ghost dv = d.deep_view();
            proof {
                lemma_marker_search_found(*fs, cwd.deep_view(), dv);
            }
            d.pop();
            proof {
                assert(d.deep_view() =~= dv.drop_last());
                assert(dv.drop_last().push(marker_name()) =~= dv);
            }
            Ok(d)
        },
        None => Err(SyncError::NotARepository),
    }
}

/// A found marker path always names the marker directory of some
/// directory on the upward path: it is nonempty, ends in the marker name,
/// and exists.
pub proof fn lemma_marker_search_found(m: FsModel, cwd: Seq<Seq<char>>, mk: Seq<Seq<char>>)
    requires
        marker_search(m, cwd) == Some(mk),
    ensures
        mk.len() >= 1,
        mk.last() == marker_name(),
        m.has(mk),
    decreases cwd.len(),
{
    if m.has(cwd.push(marker_name())) {
    } else if cwd.len() == 0 {
    } else {
        lemma_marker_search_found(m, cwd.drop_last(), mk);
    }
}

/// Initializes a repository for `project` in `cwd`: creates the project
/// directory named after the project, the marker inside it, and the
/// persisted project record. Fails with `AlreadyInitialized` — changing
/// nothing — when any directory on the upward path already holds a
/// marker; with `TargetExists` when the project directory already exists;
/// with `IoError` when `cwd` is not a directory.
pub fn init_olsync_repository(fs: &mut FsModel, cwd: &Vec<String>, project: &Project) -> (r: Result<
    Vec<String>,
    SyncError,
>)
    requires
        old(fs).wf(),
    ensures
        final (fs).wf(),
        match r {
            Ok(root) => {
                &&& marker_search(*old(fs), cwd.deep_view()) is None
                &&& !old(fs).has(cwd.deep_view().push(project.name@))
                &&& old(fs).dir_at(cwd.deep_view())
                &&& root.deep_view() == cwd.deep_view().push(project.name@)
                &&& final (fs).dir_at(root.deep_view())
                &&& final (fs).dir_at(root.deep_view().push(marker_name()))
                &&& final (fs).file_at(
                    root.deep_view().push(marker_name()).push(info_name()),
                    project_record(*project),
                )
                &&& forall|q: Seq<Seq<char>>|
                    old(fs).has(q) ==> final (fs).node_at(q) == old(fs).node_at(q)
                &&& forall|q: Seq<Seq<char>>|
                    final (fs).has(q) <==> old(fs).has(q) || q == root.deep_view() || q
                        == root.deep_view().push(marker_name()) || q == root.deep_view().push(
                        marker_name(),
                    ).push(info_name())
            },
            Err(e) => {
                &&& *final (fs) == *old(fs)
                &&& if marker_search(*old(fs), cwd.deep_view()) is Some {
                    e is AlreadyInitialized
                } else if old(fs).has(cwd.deep_view().push(project.name@)) {
                    e is TargetExists
                } else {
                    e is IoError && !old(fs).dir_at(cwd.deep_view())
                }
            },
        },
{
    if is_olsync_repository(fs, cwd) {
        return Err(SyncError::AlreadyInitialized);
    }
    let mut root = clone_path(cwd);
    root.push(project.name.clone());
    let ghost rootv = root.deep_view();
    proof {
        assert(rootv =~= cwd.deep_view().push(project.name@));
    }
    if fs.exists_path(&root) {
        return Err(SyncError::TargetExists);
    }
    if cwd.len() > 0 {
        match fs.find(cwd) {
            Some(i) => {
                match &fs.entries[i].node {
                    FsNode::Dir => {
                        proof {
                            fs.lemma_entry_resolves(i as int);
                        }
                    },
                    FsNode::File(_) => {
                        proof {
                            fs.lemma_entry_resolves(i as int);
                        }
                        return Err(SyncError::IoError);
                    },
                }
            },
            None => {
                return Err(SyncError::IoError);
            },
        }
    }
    let mut marker = clone_path(&root);
    marker.push(marker_dir_name());
    let ghost markerv = marker.deep_view();
    let mut info = clone_path(&marker);
    info.push(info_file_name());
    let ghost infov = info.deep_view();
    proof {
        assert(markerv =~= rootv.push(marker_name()));
        assert(infov =~= markerv.push(info_name()));
    }
    let record = encode_project(project);
    let root_entry_path = clone_path(&root);
    let mut adds: Vec<FsEntry> = Vec::new();
    adds.push(FsEntry { path: root_entry_path, node: FsNode::Dir });
    adds.push(FsEntry { path: marker, node: FsNode::Dir });
    adds.push(FsEntry { path: info, node: FsNode::File(record) });
    proof {
        let a = adds@;
        assert(a[0].pv() == rootv && a[0].node.nv() is Dir);
        assert(a[1].pv() == markerv && a[1].node.nv() is Dir);
        assert(a[2].pv() == infov);
        let cl = cwd.deep_view().len() as int;
        assert(rootv.len() == cl + 1);
        assert(markerv.len() == cl + 2);
        assert(infov.len() == cl + 3);
        // The marker and record paths are absent: their presence would
        // make the project directory a directory of the old model.
        assert forall|t: int| 0 <= t < a.len() implies !old(fs).has(#[trigger] a[t].pv()) by {
            if old(fs).has(a[t].pv()) {
                if t == 1 || t == 2 {
                    let w = old(fs).index_of(a[t].pv());
                    old(fs).lemma_entry_resolves(w);
                    assert(old(fs).dir_at(old(fs).path_at(w).take(cl + 1)));
                    assert(old(fs).path_at(w).take(cl + 1) =~= rootv);
                    assert(old(fs).has(rootv));
                }
            }
        }
        // Every proper prefix of a new path is a directory of the old
        // model or an earlier entry of the batch.
        assert forall|t: int, k: int|
            0 <= t < a.len() && 1 <= k < a[t].pv().len() implies old(fs).dir_at(
                #[trigger] a[t].pv().take(k),
            ) || (exists|u: int|
                0 <= u < a.len() && (#[trigger] a[u].pv()) == a[t].pv().take(k) && a[u].node.nv()
                    is Dir) by {
            if k == cl + 1 {
                assert(a[t].pv().take(k) =~= rootv);
            } else if k == cl + 2 {
                assert(a[t].pv().take(k) =~= markerv);
            } else {
                // A prefix of cwd itself: a directory of the old model.
                assert(a[t].pv().take(k) =~= cwd.deep_view().take(k));
                if k == cl {
                    assert(old(fs).dir_at(cwd.deep_view()));
                    assert(cwd.deep_view().take(k) =~= cwd.deep_view());
                } else {
                    let w = old(fs).index_of(cwd.deep_view());
                    old(fs).lemma_entry_resolves(w);
                    assert(old(fs).dir_at(old(fs).path_at(w).take(k)));
                    assert(old(fs).path_at(w).take(k) =~= cwd.deep_view().take(k));
                }
            }
        }
    }
    fs.add_entries(adds);
    proof {
        assert(final (fs).node_at(rootv) is Dir);
        assert(final (fs).node_at(markerv) is Dir);
        assert(final (fs).file_at(infov, project_record(*project)));
    }
    Ok(root)
}

/// The project identity stored inside the marker directory `mk`, as
/// text: the record file read back, when it exists and reads.
pub open spec fn stored_project_text(m: FsModel, mk: Seq<Seq<char>>) -> Option<
    (Seq<char>, Seq<char>),
> {
    if m.has(mk.push(info_name())) {
        match m.node_at(mk.push(info_name())) {
            NodeV::File(c) => record_text(c),
            NodeV::Dir => None,
        }
    } else {
        None
    }
}

/// Reads the project identity persisted in the marker directory: fails
/// with `NotARepository` when there is no marker, and with `CorruptState`
/// when the record file is missing, a directory, or unreadable.
pub fn get_project_info(fs: &FsModel, cwd: &Vec<String>) -> (r: Result<Project, SyncError>)
    requires
        fs.wf(),
    ensures
        match marker_search(*fs, cwd.deep_view()) {
            None => r matches Err(SyncError::NotARepository),
            Some(mk) => {
                match stored_project_text(*fs, mk) {
                    Some(t) => r matches Ok(p) && p.id@ == t.0 && p.name@ == t.1,
                    None => r matches Err(SyncError::CorruptState),
                }
            },
        },
{
    match get_olsync_directory(fs, cwd) {
        None => Err(SyncError::NotARepository),
        Some(mk) => {
            let mut info = clone_path(&mk);
            info.push(info_file_name());
            proof {
                assert(info.deep_view() =~= mk.deep_view().push(info_name()));
            }
            match fs.read_file(&info) {
                None => {
                    proof {
                        let ip = info.deep_view();
                        if fs.has(ip) {
                            match fs.node_at(ip) {
                                NodeV::File(c) => {
                                    assert(fs.file_at(ip, c));
                                },
                                NodeV::Dir => {},
                            }
                        }
                    }
                    Err(SyncError::CorruptState)
                },
                Some(content) => {
                    match parse_project(content) {
                        Some(p) => Ok(p),
                        None => Err(SyncError::CorruptState),
                    }
                },
            }
        },
    }
}

/// A repository initialized at `root` is discovered from `root` itself
/// and from every subdirectory chain under it that holds no marker of
/// its own: the search from anywhere inside the repository resolves to
/// the same marker directory.
pub proof fn lemma_marker_discovery_idempotent(m: FsModel, root: Seq<Seq<char>>, sub: Seq<Seq<char>>)
    requires
        m.has(root.push(marker_name())),
        root.is_prefix_of(sub),
        forall|k: int|
            root.len() < k <= sub.len() ==> !m.has(#[trigger] sub.take(k).push(marker_name())),
    ensures
        marker_search(m, sub) == marker_search(m, root),
        marker_search(m, root) == Some(root.push(marker_name())),
    decreases sub.len(),
{
    if sub.len() == root.len() {
        assert(sub =~= root);
    } else {
        assert(sub.take(sub.len() as int) =~= sub);
        assert(!m.has(sub.push(marker_name())));
        let parent = sub.drop_last();
        assert(root.is_prefix_of(parent)) by {
            assert(parent.take(root.len() as int) =~= sub.take(root.len() as int));
        }
        assert forall|k: int|
            root.len() < k <= parent.len() implies !m.has(
            #[trigger] parent.take(k).push(marker_name()),
        ) by {
            assert(parent.take(k) =~= sub.take(k));
        }
        lemma_marker_discovery_idempotent(m, root, parent);
    }
}

} // verus!
