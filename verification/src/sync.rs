//! The clone and pull state machines over the filesystem model: wiping
//! the project root, placing extracted archive content, and sequencing
//! backup before every destructive step.

use vstd::prelude::*;

use crate::backup::create_local_backup;
use crate::errors::SyncError;
use crate::fs_model::{clone_path, path_eq, under_except, FsEntry, FsModel, FsNode};
use crate::project::Project;
use crate::repository::{
    get_repo_root, init_olsync_repository, marker_dir_name, marker_name, marker_search,
    stored_project_text, info_name,
};
use crate::text::backup_name;

verus! {

/// Removes everything under the project root except the marker
/// directory, leaving the rest of the filesystem untouched.
pub fn wipe_project(fs: &mut FsModel, cwd: &Vec<String>) -> (r: Result<(), SyncError>)
    requires
        old(fs).wf(),
    ensures
        final (fs).wf(),
        match marker_search(*old(fs), cwd.deep_view()) {
            None => r matches Err(SyncError::NotARepository) && *final (fs) == *old(fs),
            Some(mk) => r is Ok && {
                &&& forall|q: Seq<Seq<char>>|
                    final (fs).has(q) <==> (old(fs).has(q) && !under_except(
                        mk.drop_last(),
                        marker_name(),
                        q,
                    ))
                &&& forall|q: Seq<Seq<char>>|
                    final (fs).has(q) ==> final (fs).node_at(q) == old(fs).node_at(q)
            },
        },
{
    let root = match get_repo_root(fs, cwd) {
        Ok(root) => root,
        Err(_) => {
            return Err(SyncError::NotARepository);
        },
    };
    let mname = marker_dir_name();
    proof {
        assert(root.deep_view().push(marker_name()).drop_last() =~= root.deep_view());
    }
    fs.remove_children_except(&root, &mname);
    Ok(())
}

/// A batch of extracted archive entries that can populate a freshly
/// wiped project root: paths relative to the root, never empty, pairwise
/// distinct, outside the marker branch, and with every proper prefix
/// present as a directory entry of the batch.
pub open spec fn archive_ok(a: Seq<FsEntry>) -> bool {
    &&& forall|t: int| 0 <= t < a.len() ==> (#[trigger] a[t].pv()).len() >= 1
    &&& forall|t: int, u: int| 0 <= t < u < a.len() ==> a[t].pv() != a[u].pv()
    &&& forall|t: int| 0 <= t < a.len() ==> (#[trigger] a[t].pv())[0] != marker_name()
    &&& forall|t: int, k: int|
        0 <= t < a.len() && 1 <= k < a[t].pv().len() ==> prefix_dir_in(
            a,
            #[trigger] a[t].pv().take(k),
        )
}

/// Whether some entry of the batch is a directory at exactly path `p`.
pub open spec fn prefix_dir_in(a: Seq<FsEntry>, p: Seq<Seq<char>>) -> bool {
    exists|u: int| 0 <= u < a.len() && (#[trigger] a[u].pv()) == p && a[u].node.nv() is Dir
}

/// Whether the extracted entries form a batch that `archive_ok` accepts.
pub fn validate_archive(archive: &Vec<FsEntry>) -> (r: bool)
    ensures
        r == archive_ok(archive@),
{
    let mname = marker_dir_name();
    let n = archive.len();
    let mut t: usize = 0;
    while t < n
        invariant
            n == archive@.len(),
            t <= n,
            mname@ == marker_name(),
            forall|x: int| 0 <= x < t ==> (#[trigger] archive@[x].pv()).len() >= 1,
            forall|x: int, u: int| 0 <= u < x < t ==> archive@[x].pv() != archive@[u].pv(),
            forall|x: int| 0 <= x < t ==> (#[trigger] archive@[x].pv())[0] != marker_name(),
            forall|x: int, k: int|
                0 <= x < t && 1 <= k < archive@[x].pv().len() ==> prefix_dir_in(
                    archive@,
                    #[trigger] archive@[x].pv().take(k),
                ),
        decreases n - t,
    {
        let ep = &archive[t].path;
        proof {
            assert(archive@[t as int].pv() == ep.deep_view());
        }
        if ep.len() == 0 {
            return false;
        }
        if ep[0] == mname {
            proof {
                assert(ep.deep_view()[0] == ep@[0]@);
            }
            return false;
        }
        proof {
            assert(ep.deep_view()[0] == ep@[0]@);
        }
        let mut u: usize = 0;
        while u < t
            invariant
                u <= t < n,
                n == archive@.len(),
                ep == &archive@[t as int].path,
                forall|x: int| 0 <= x < u ==> archive@[t as int].pv() != archive@[x].pv(),
            decreases t - u,
        {
            if path_eq(ep, &archive[u].path) {
                return false;
            }
            u += 1;
        }
        // Every proper prefix must be a directory entry of the batch.
        let el = ep.len();
        let mut pre: Vec<String> = Vec::new();
        let mut k: usize = 0;
        while k + 1 < el
            invariant
                n == archive@.len(),
                t < n,
                k < el == ep@.len(),
                ep == &archive@[t as int].path,
                pre.deep_view() =~= ep.deep_view().take(k as int),
                forall|kk: int|
                    1 <= kk <= k ==> prefix_dir_in(
                        archive@,
                        #[trigger] archive@[t as int].pv().take(kk),
                    ),
            decreases el - k,
        {
            let ghost pre0 = pre.deep_view();
            pre.push(ep[k].clone());
            proof {
                assert(pre.deep_view() =~= pre0.push(ep.deep_view()[k as int]));
                assert(pre.deep_view() =~= ep.deep_view().take(k + 1));
            }
            let mut found = false;
            let mut w: usize = 0;
            while w < n
                invariant
                    n == archive@.len(),
                    t < n,
                    k + 1 < ep@.len(),
                    w <= n,
                    pre.deep_view() == ep.deep_view().take(k + 1),
                    ep == &archive@[t as int].path,
                    found ==> prefix_dir_in(archive@, archive@[t as int].pv().take(k + 1)),
                    !found ==> forall|u: int|
                        0 <= u < w ==> !((#[trigger] archive@[u].pv()) == archive@[
                            t as int
                        ].pv().take(k + 1) && archive@[u].node.nv() is Dir),
                decreases n - w,
            {
                if path_eq(&archive[w].path, &pre) {
                    match &archive[w].node {
                        FsNode::Dir => {
                            proof {
                                assert(archive@[w as int].pv() == archive@[t as int].pv().take(
                                    k + 1,
                                ));
                            }
                            found = true;
                        },
                        FsNode::File(_) => {
                            proof {
                                assert(archive@[w as int].node.nv() is File);
                            }
                        },
                    }
                } else {
                    proof {
                        assert(archive@[w as int].pv() != archive@[t as int].pv().take(k + 1));
                    }
                }
                w += 1;
            }
            if !found {
                // No directory entry spells this prefix: the scan saw every
                // entry and none was a directory there, so the batch is not
                // admissible.
                proof {
                    assert(!archive_ok(archive@)) by {
                        if archive_ok(archive@) {
                            assert(prefix_dir_in(archive@, archive@[t as int].pv().take(k + 1)));
                            let u = choose|u: int|
                                0 <= u < archive@.len() && (#[trigger] archive@[u].pv())
                                    == archive@[t as int].pv().take(k + 1) && archive@[u].node.nv()
                                    is Dir;
                            assert(false);
                        }
                    }
                }
                return false;
            }
            k += 1;
        }
        proof {
            assert forall|kk: int|
                1 <= kk < archive@[t as int].pv().len() implies prefix_dir_in(
                archive@,
                #[trigger] archive@[t as int].pv().take(kk),
            ) by {
                assert(kk <= k);
            }
        }
        t += 1;
    }
    true
}

/// Places an archive's entries under the project root. The root must be
/// a directory holding nothing but its marker branch — the state a wipe
/// or a fresh initialization leaves behind.
fn populate(fs: &mut FsModel, root: &Vec<String>, archive: Vec<FsEntry>)
    requires
        old(fs).wf(),
        archive_ok(archive@),
        old(fs).dir_at(root.deep_view()),
        forall|q: Seq<Seq<char>>|
            old(fs).has(q) && q.len() > root.deep_view().len() && q.take(
                root.deep_view().len() as int,
            ) == root.deep_view() ==> q[root.deep_view().len() as int] == marker_name(),
    ensures
        final (fs).wf(),
        forall|q: Seq<Seq<char>>|
            final (fs).has(q) <==> old(fs).has(q) || (exists|t: int|
                0 <= t < archive@.len() && q == root.deep_view() + (#[trigger] archive@[t].pv())),
        forall|q: Seq<Seq<char>>|
            old(fs).has(q) ==> final (fs).node_at(q) == old(fs).node_at(q),
        forall|t: int|
            0 <= t < archive@.len() ==> final (fs).has(
                root.deep_view() + (#[trigger] archive@[t].pv()),
            ) && final (fs).node_at(root.deep_view() + archive@[t].pv()) == archive@[t].node.nv(),
{
    let ghost rootv = root.deep_view();
    let ghost a0 = archive@;
    let rl = root.len();
    let n = archive.len();
    let mut adds: Vec<FsEntry> = Vec::new();
    let mut archive = archive;
    // Convert each relative path to an absolute one under the root.
    let mut t: usize = 0;
    while t < n
        invariant
            n == a0.len(),
            t <= n,
            rl == root@.len(),
            rootv == root.deep_view(),
            archive@ == a0,
            adds@.len() == t,
            forall|x: int|
                0 <= x < t ==> (#[trigger] adds@[x].pv()) == rootv + a0[x].pv()
                    && adds@[x].node.nv() == a0[x].node.nv(),
        decreases n - t,
    {
        let ep = &archive[t].path;
        let el = ep.len();
        let mut np = clone_path(root);
        let mut k: usize = 0;
        while k < el
            invariant
                k <= el,
                el == ep@.len(),
                rootv == root.deep_view(),
                np.deep_view() =~= rootv + ep.deep_view().take(k as int),
            decreases el - k,
        {
            let ghost np0 = np.deep_view();
            np.push(ep[k].clone());
            proof {
                assert(np.deep_view() =~= np0.push(ep.deep_view()[k as int]));
                assert(np0.push(ep.deep_view()[k as int]) =~= rootv + ep.deep_view().take(k + 1));
            }
            k += 1;
        }
        proof {
            assert(ep.deep_view().take(el as int) =~= ep.deep_view());
            assert(archive@[t as int].pv() == ep.deep_view());
        }
        let node = archive[t].node.duplicate();
        adds.push(FsEntry { path: np, node });
        t += 1;
    }
    proof {
        let m = *fs;
        let a = adds@;
        assert forall|x: int| 0 <= x < a.len() implies (#[trigger] a[x].pv()).len() >= 1 by {
            assert(a[x].pv() == rootv + a0[x].pv());
        }
        assert forall|x: int, u: int| 0 <= x < u < a.len() implies a[x].pv() != a[u].pv() by {
            if a[x].pv() == a[u].pv() {
                assert(a[x].pv() == rootv + a0[x].pv());
                assert(a[u].pv() == rootv + a0[u].pv());
                assert(a0[x].pv() =~= a0[u].pv()) by {
                    assert forall|y: int| 0 <= y < a0[x].pv().len() implies a0[x].pv()[y] == a0[
                        u
                    ].pv()[y] by {
                        assert(a[x].pv()[rl + y] == a[u].pv()[rl + y]);
                    }
                    assert(a0[x].pv().len() == a0[u].pv().len());
                }
            }
        }
        assert forall|x: int| 0 <= x < a.len() implies !m.has(#[trigger] a[x].pv()) by {
            assert(a[x].pv() == rootv + a0[x].pv());
            if m.has(a[x].pv()) {
                assert(a[x].pv().take(rl as int) =~= rootv);
                assert(a[x].pv()[rl as int] == a0[x].pv()[0]);
                assert(a0[x].pv()[0] != marker_name());
            }
        }
        assert forall|x: int, k: int|
            0 <= x < a.len() && 1 <= k < a[x].pv().len() implies m.dir_at(
                #[trigger] a[x].pv().take(k),
            ) || (exists|u: int|
                0 <= u < a.len() && (#[trigger] a[u].pv()) == a[x].pv().take(k) && a[u].node.nv()
                    is Dir) by {
            assert(a[x].pv() == rootv + a0[x].pv());
            if k < rl {
                let w_root = m.index_of(rootv);
                m.lemma_entry_resolves(w_root);
                assert(a[x].pv().take(k) =~= m.path_at(w_root).take(k));
                assert(m.dir_at(m.path_at(w_root).take(k)));
            } else if k == rl {
                assert(a[x].pv().take(k) =~= rootv);
            } else {
                let kk = k - rl;
                assert(1 <= kk < a0[x].pv().len());
                assert(prefix_dir_in(a0, a0[x].pv().take(kk)));
                let u = choose|u: int|
                    0 <= u < a0.len() && (#[trigger] a0[u].pv()) == a0[x].pv().take(kk) && a0[
                        u
                    ].node.nv() is Dir;
                assert(a[u].pv() == rootv + a0[u].pv());
                assert(a[u].pv() =~= a[x].pv().take(k)) by {
                    assert(a0[u].pv() == a0[x].pv().take(kk));
                }
            }
        }
    }
    let ghost oldm = *fs;
    let ghost a = adds@;
    fs.add_entries(adds);
    proof {
        let m = *fs;
        assert forall|t2: int|
            0 <= t2 < a0.len() implies m.has(rootv + (#[trigger] a0[t2].pv())) && m.node_at(
            rootv + a0[t2].pv(),
        ) == a0[t2].node.nv() by {
            assert(a[t2].pv() == rootv + a0[t2].pv());
            assert(m.node_at(a[t2].pv()) == a[t2].node.nv());
        }
        assert forall|q: Seq<Seq<char>>|
            m.has(q) implies oldm.has(q) || (exists|t2: int|
                0 <= t2 < a0.len() && q == rootv + (#[trigger] a0[t2].pv())) by {
            if !oldm.has(q) {
                let x = choose|x: int| 0 <= x < a.len() && (#[trigger] a[x].pv()) == q;
                assert(a[x].pv() == rootv + a0[x].pv());
            }
        }
        assert forall|q: Seq<Seq<char>>|
            (exists|t2: int| 0 <= t2 < a0.len() && q == rootv + (#[trigger] a0[t2].pv()))
                implies m.has(q) by {
            let t2 = choose|t2: int| 0 <= t2 < a0.len() && q == rootv + (#[trigger] a0[t2].pv());
            assert(a[t2].pv() == rootv + a0[t2].pv());
        }
    }
}

/// Clones a project: checks that no repository encloses `cwd`,
/// initializes the marker and project directory, and places the
/// extracted archive content inside. A bad archive leaves the freshly
/// initialized — but unpopulated — repository in place for the user to
/// inspect: clone is atomic only through initialization.
pub fn clone_project(fs: &mut FsModel, cwd: &Vec<String>, project: &Project, archive: Vec<
    FsEntry,
>) -> (r: Result<Vec<String>, SyncError>)
    requires
        old(fs).wf(),
    ensures
        final (fs).wf(),
        ({
            let rootv = cwd.deep_view().push(project.name@);
            let mkv = rootv.push(marker_name());
            let infov = mkv.push(info_name());
            match r {
                Ok(root) => {
                    &&& marker_search(*old(fs), cwd.deep_view()) is None
                    &&& !old(fs).has(rootv)
                    &&& archive_ok(archive@)
                    &&& root.deep_view() == rootv
                    &&& final (fs).dir_at(rootv)
                    &&& final (fs).dir_at(mkv)
                    &&& final (fs).file_at(infov, crate::codec::project_record(*project))
                    &&& forall|q: Seq<Seq<char>>|
                        old(fs).has(q) ==> final (fs).node_at(q) == old(fs).node_at(q)
                    &&& forall|t: int|
                        0 <= t < archive@.len() ==> final (fs).has(
                            rootv + (#[trigger] archive@[t].pv()),
                        ) && final (fs).node_at(rootv + archive@[t].pv()) == archive@[t].node.nv()
                    &&& forall|q: Seq<Seq<char>>|
                        final (fs).has(q) <==> old(fs).has(q) || q == rootv || q == mkv || q
                            == infov || (exists|t: int|
                            0 <= t < archive@.len() && q == rootv + (#[trigger] archive@[t].pv()))
                },
                Err(e) => {
                    if marker_search(*old(fs), cwd.deep_view()) is Some {
                        e is AlreadyInitialized && *final (fs) == *old(fs)
                    } else if old(fs).has(rootv) {
                        e is TargetExists && *final (fs) == *old(fs)
                    } else if !old(fs).dir_at(cwd.deep_view()) {
                        e is IoError && *final (fs) == *old(fs)
                    } else {
                        &&& e is RemoteProtocolError
                        &&& !archive_ok(archive@)
                        &&& final (fs).dir_at(rootv)
                        &&& final (fs).dir_at(mkv)
                        &&& final (fs).file_at(infov, crate::codec::project_record(*project))
                        &&& forall|q: Seq<Seq<char>>|
                            old(fs).has(q) ==> final (fs).node_at(q) == old(fs).node_at(q)
                        &&& forall|q: Seq<Seq<char>>|
                            final (fs).has(q) <==> old(fs).has(q) || q == rootv || q == mkv || q
                                == infov
                    }
                },
            }
        }),
{
    let ghost oldm = *fs;
    let root = match init_olsync_repository(fs, cwd, project) {
        Ok(root) => root,
        Err(e) => {
            return Err(e);
        },
    };
    let ghost rootv = root.deep_view();
    let ghost mkv = rootv.push(marker_name());
    let ghost infov = mkv.push(info_name());
    if !validate_archive(&archive) {
        return Err(SyncError::RemoteProtocolError);
    }
    let ghost fs1 = *fs;
    proof {
        // After initialization the root holds nothing but its marker
        // branch, so the archive can move in.
        assert forall|q: Seq<Seq<char>>|
            fs1.has(q) && q.len() > rootv.len() && q.take(rootv.len() as int) == rootv implies q[
            rootv.len() as int
        ] == marker_name() by {
            if oldm.has(q) {
                let w = oldm.index_of(q);
                oldm.lemma_entry_resolves(w);
                assert(oldm.dir_at(oldm.path_at(w).take(rootv.len() as int)));
                assert(oldm.path_at(w).take(rootv.len() as int) == rootv);
                assert(oldm.has(rootv));
            } else if q == mkv {
                assert(mkv[rootv.len() as int] == marker_name());
            } else if q == infov {
                assert(infov[rootv.len() as int] == marker_name());
            }
        }
    }
    populate(fs, &root, archive);
    Ok(root)
}

/// Pulls the remote state over the local one: backup first — unless
/// suppressed — then wipe the project root and place the extracted
/// archive. A bad archive surfaces only after the wipe: the root is then
/// empty and the fresh backup, when one was made, is the recovery path.
pub fn pull_project(fs: &mut FsModel, cwd: &Vec<String>, archive: Vec<FsEntry>, no_backup: bool,
    now_millis: u64) -> (r: Result<(Vec<String>, Option<Vec<String>>), SyncError>)
    requires
        old(fs).wf(),
    ensures
        final (fs).wf(),
        match marker_search(*old(fs), cwd.deep_view()) {
            None => r matches Err(SyncError::NotARepository) && *final (fs) == *old(fs),
            Some(mk) => ({
                let root = mk.drop_last();
                &&& (r is Ok <==> archive_ok(archive@) && (no_backup || (
                match stored_project_text(*old(fs), mk) {
                    Some(t) => old(fs).node_at(mk) is Dir && !old(fs).has(
                        mk.push(backup_name(t.1, now_millis as nat)),
                    ),
                    None => false,
                })))
                &&& match r {
                    Ok(out) => {
                        &&& out.0.deep_view() == root
                        &&& archive_ok(archive@)
                        &&& forall|t: int|
                            0 <= t < archive@.len() ==> final (fs).has(
                                root + (#[trigger] archive@[t].pv()),
                            ) && final (fs).node_at(root + archive@[t].pv()) == archive@[
                                t
                            ].node.nv()
                        &&& if no_backup {
                            &&& out.1 is None
                            &&& forall|q: Seq<Seq<char>>|
                                final (fs).has(q) <==> (old(fs).has(q) && !under_except(
                                    root,
                                    marker_name(),
                                    q,
                                )) || (exists|t: int|
                                    0 <= t < archive@.len() && q == root + (
                                    #[trigger] archive@[t].pv()))
                            &&& forall|q: Seq<Seq<char>>|
                                old(fs).has(q) && !under_except(root, marker_name(), q)
                                    ==> final (fs).node_at(q) == old(fs).node_at(q)
                        } else {
                            out.1 matches Some(b) && ({
                                let bv = b.deep_view();
                                &&& stored_project_text(*old(fs), mk) matches Some(t) && bv
                                    == mk.push(backup_name(t.1, now_millis as nat))
                                &&& final (fs).dir_at(bv)
                                &&& forall|q: Seq<Seq<char>>|
                                    old(fs).has(q) && under_except(root, marker_name(), q)
                                        ==> final (fs).has(bv + q.skip(root.len() as int))
                                        && final (fs).node_at(bv + q.skip(root.len() as int))
                                        == old(fs).node_at(q)
                                &&& forall|q: Seq<Seq<char>>|
                                    old(fs).has(q) && !under_except(root, marker_name(), q)
                                        ==> final (fs).has(q) && final (fs).node_at(q) == old(
                                        fs,
                                    ).node_at(q)
                                &&& forall|q: Seq<Seq<char>>|
                                    final (fs).has(q) ==> (old(fs).has(q) && !under_except(
                                        root,
                                        marker_name(),
                                        q,
                                    )) || q == bv || (q.len() > bv.len() && q.take(
                                        bv.len() as int,
                                    ) == bv) || (exists|t: int|
                                        0 <= t < archive@.len() && q == root + (
                                        #[trigger] archive@[t].pv()))
                            })
                        }
                    },
                    Err(e) => {
                        if e is RemoteProtocolError {
                            // The archive was bad and the wipe had already
                            // happened: the root is empty, and the backup -
                            // when one was made - survives intact as the
                            // recovery path.
                            &&& !archive_ok(archive@)
                            &&& forall|q: Seq<Seq<char>>|
                                old(fs).has(q) && !under_except(root, marker_name(), q)
                                    ==> final (fs).has(q) && final (fs).node_at(q) == old(
                                    fs,
                                ).node_at(q)
                            &&& forall|q: Seq<Seq<char>>|
                                final (fs).has(q) ==> !under_except(root, marker_name(), q)
                            &&& if no_backup {
                                forall|q: Seq<Seq<char>>|
                                    final (fs).has(q) <==> (old(fs).has(q) && !under_except(
                                        root,
                                        marker_name(),
                                        q,
                                    ))
                            } else {
                                match stored_project_text(*old(fs), mk) {
                                    Some(t) => ({
                                        let bv = mk.push(backup_name(t.1, now_millis as nat));
                                        &&& final (fs).dir_at(bv)
                                        &&& forall|q: Seq<Seq<char>>|
                                            old(fs).has(q) && under_except(
                                                root,
                                                marker_name(),
                                                q,
                                            ) ==> final (fs).has(bv + q.skip(root.len() as int))
                                                && final (fs).node_at(
                                                bv + q.skip(root.len() as int),
                                            ) == old(fs).node_at(q)
                                        &&& forall|q: Seq<Seq<char>>|
                                            final (fs).has(q) ==> (old(fs).has(q)
                                                && !under_except(root, marker_name(), q)) || q
                                                == bv || (q.len() > bv.len() && q.take(
                                                bv.len() as int,
                                            ) == bv && old(fs).has(root + q.skip(bv.len() as int)))
                                    }),
                                    None => false,
                                }
                            }
                        } else {
                            // The backup itself failed; nothing was changed,
                            // and each error names its exact condition.
                            &&& !no_backup
                            &&& *final (fs) == *old(fs)
                            &&& match stored_project_text(*old(fs), mk) {
                                None => e is CorruptState,
                                Some(t) => {
                                    if !(old(fs).node_at(mk) is Dir) {
                                        e is IoError
                                    } else {
                                        e is TargetExists && old(fs).has(
                                            mk.push(backup_name(t.1, now_millis as nat)),
                                        )
                                    }
                                },
                            }
                        }
                    },
                }
            }),
        },
{
    let root = match get_repo_root(fs, cwd) {
        Ok(root) => root,
        Err(_) => {
            return Err(SyncError::NotARepository);
        },
    };
    let ghost oldm = *fs;
    let ghost rootv = root.deep_view();
    let ghost mk = rootv.push(marker_name());
    let mut backup: Option<Vec<String>> = None;
    if !no_backup {
        match create_local_backup(fs, cwd, now_millis) {
            Ok(b) => {
                backup = Some(b);
            },
            Err(e) => {
                return Err(e);
            },
        }
    }
    let ghost fs1 = *fs;
    let mname = marker_dir_name();
    proof {
        assert(mk.drop_last() =~= rootv);
    }
    fs.remove_children_except(&root, &mname);
    let ghost fs2 = *fs;
    if !validate_archive(&archive) {
        proof {
            if !no_backup {
                let t = stored_project_text(oldm, mk).unwrap();
                let bv = mk.push(backup_name(t.1, now_millis as nat));
                // The backup's copies lie on the marker branch, so the wipe
                // spared them: the snapshot survives the failed pull intact.
                assert(bv[rootv.len() as int] == marker_name());
                assert(fs2.has(bv) && fs2.node_at(bv) == fs1.node_at(bv)) by {
                    assert(!under_except(rootv, marker_name(), bv));
                }
                assert forall|q: Seq<Seq<char>>|
                    oldm.has(q) && under_except(rootv, marker_name(), q) implies fs2.has(
                    bv + q.skip(rootv.len() as int),
                ) && fs2.node_at(bv + q.skip(rootv.len() as int)) == oldm.node_at(q) by {
                    let c = bv + q.skip(rootv.len() as int);
                    assert(c[rootv.len() as int] == bv[rootv.len() as int]);
                    assert(c.take(rootv.len() as int) =~= bv.take(rootv.len() as int));
                    assert(bv.take(rootv.len() as int) =~= rootv);
                    assert(!under_except(rootv, marker_name(), c));
                }
                assert forall|q: Seq<Seq<char>>|
                    fs2.has(q) implies (oldm.has(q) && !under_except(rootv, marker_name(), q))
                        || q == bv || (q.len() > bv.len() && q.take(bv.len() as int) == bv
                        && oldm.has(rootv + q.skip(bv.len() as int))) by {
                    assert(fs1.has(q));
                }
            }
        }
        return Err(SyncError::RemoteProtocolError);
    }
    proof {
        // The root survived the wipe as a directory.
        crate::repository::lemma_marker_search_found(oldm, cwd.deep_view(), mk);
        if rootv.len() > 0 {
            let w = oldm.index_of(mk);
            oldm.lemma_entry_resolves(w);
            assert(oldm.dir_at(oldm.path_at(w).take(rootv.len() as int)));
            assert(oldm.path_at(w).take(rootv.len() as int) =~= rootv);
            assert(fs1.has(rootv) && fs1.node_at(rootv) == oldm.node_at(rootv));
            assert(!under_except(rootv, marker_name(), rootv));
            assert(fs2.has(rootv) && fs2.node_at(rootv) == fs1.node_at(rootv));
            assert(fs2.dir_at(rootv));
        }
    }
    populate(fs, &root, archive);
    Ok((root, backup))
}

/// With backup suppressed, a pull adds nothing inside the marker
/// directory: every path under the marker after the pull — a backup
/// snapshot would be one — was already there before it.
pub proof fn lemma_pull_suppressed_adds_no_snapshot(
    oldm: FsModel,
    m: FsModel,
    root: Seq<Seq<char>>,
    a: Seq<FsEntry>,
    q: Seq<Seq<char>>,
)
    requires
        archive_ok(a),
        forall|p: Seq<Seq<char>>|
            m.has(p) <==> (oldm.has(p) && !under_except(root, marker_name(), p)) || (exists|t: int|
                0 <= t < a.len() && p == root + (#[trigger] a[t].pv())),
        m.has(q),
        q.len() > root.len() + 1,
        q.take(root.len() as int + 1) == root.push(marker_name()),
    ensures
        oldm.has(q),
{
    if !oldm.has(q) {
        let t = choose|t: int| 0 <= t < a.len() && q == root + (#[trigger] a[t].pv());
        assert(q[root.len() as int] == a[t].pv()[0]);
        assert(q.take(root.len() as int + 1)[root.len() as int] == marker_name());
    }
}


} // verus!
