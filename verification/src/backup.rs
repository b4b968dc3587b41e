//! Backup before overwrite: a full copy of the project root's contents —
//! the marker directory excepted — into a fresh timestamped directory
//! nested inside the marker. Backups are purely additive: nothing is
//! deleted, and a failure partway leaves the originals untouched.

use vstd::prelude::*;

use crate::errors::SyncError;
use crate::fs_model::{clone_path, path_starts_with, under_except, FsEntry, FsModel, FsNode};
use crate::repository::{
    get_project_info, get_repo_root, marker_dir_name, marker_name, marker_search,
    stored_project_text,
};
use crate::text::{backup_file_name, backup_name};

verus! {

/// Creates the timestamped backup of the project root's contents, the
/// marker directory excepted, inside the marker directory. Every entry
/// under the root — at every depth — is copied with its content; the
/// originals are untouched, and nothing appears outside the new backup
/// directory.
pub fn create_local_backup(fs: &mut FsModel, cwd: &Vec<String>, now_millis: u64) -> (r: Result<
    Vec<String>,
    SyncError,
>)
    requires
        old(fs).wf(),
    ensures
        final (fs).wf(),
        match marker_search(*old(fs), cwd.deep_view()) {
            None => r matches Err(SyncError::NotARepository) && *final (fs) == *old(fs),
            Some(mk) => {
                match stored_project_text(*old(fs), mk) {
                    None => r matches Err(SyncError::CorruptState) && *final (fs) == *old(fs),
                    Some(t) => {
                        let root = mk.drop_last();
                        let bakv = mk.push(backup_name(t.1, now_millis as nat));
                        if !(old(fs).node_at(mk) is Dir) {
                            r matches Err(SyncError::IoError) && *final (fs) == *old(fs)
                        } else if old(fs).has(bakv) {
                            r matches Err(SyncError::TargetExists) && *final (fs) == *old(fs)
                        } else {
                            r matches Ok(bak) && bak.deep_view() == bakv && {
                                &&& final (fs).dir_at(bakv)
                                &&& forall|q: Seq<Seq<char>>|
                                    old(fs).has(q) ==> final (fs).has(q) && final (fs).node_at(q)
                                        == old(fs).node_at(q)
                                &&& forall|q: Seq<Seq<char>>|
                                    old(fs).has(q) && under_except(root, marker_name(), q)
                                        ==> final (fs).has(bakv + q.skip(root.len() as int))
                                        && final (fs).node_at(bakv + q.skip(root.len() as int))
                                        == old(fs).node_at(q)
                                &&& forall|q: Seq<Seq<char>>|
                                    final (fs).has(q) ==> old(fs).has(q) || q == bakv || (q.len()
                                        > bakv.len() && q.take(bakv.len() as int) == bakv && old(
                                        fs,
                                    ).has(root + q.skip(bakv.len() as int)) && final (fs).node_at(
                                        q,
                                    ) == old(fs).node_at(root + q.skip(bakv.len() as int)))
                            }
                        }
                    },
                }
            },
        },
{
    let root = match get_repo_root(fs, cwd) {
        Ok(root) => root,
        Err(_) => {
            return Err(SyncError::NotARepository);
        },
    };
    let project = match get_project_info(fs, cwd) {
        Ok(p) => p,
        Err(_) => {
            return Err(SyncError::CorruptState);
        },
    };
    let mname = marker_dir_name();
    let mut marker = clone_path(&root);
    marker.push(mname.clone());
    let ghost mk = marker.deep_view();
    let ghost rootv = root.deep_view();
    proof {
        assert(mk =~= rootv.push(marker_name()));
        assert(mk.drop_last() =~= rootv);
    }
    proof {
        crate::repository::lemma_marker_search_found(*fs, cwd.deep_view(), mk);
    }
    // The marker must itself be a directory to hold the backup.
    match fs.find(&marker) {
        Some(i) => {
            proof {
                fs.lemma_entry_resolves(i as int);
            }
            match &fs.entries[i].node {
                FsNode::Dir => {},
                FsNode::File(_) => {
                    return Err(SyncError::IoError);
                },
            }
        },
        None => {
            proof {
                assert(false);
            }
            return Err(SyncError::IoError);
        },
    }
    let bname = backup_file_name(&project.name, now_millis);
    let mut bak = clone_path(&marker);
    bak.push(bname);
    let ghost bakv = bak.deep_view();
    proof {
        assert(bakv =~= mk.push(backup_name(project.name@, now_millis as nat)));
    }
    if fs.exists_path(&bak) {
        return Err(SyncError::TargetExists);
    }
    let rl = root.len();
    let ghost bl = bakv.len() as int;
    let mut adds: Vec<FsEntry> = Vec::new();
    adds.push(FsEntry { path: clone_path(&bak), node: FsNode::Dir });
    let ghost mut src: Seq<int> = Seq::empty();
    let n = fs.entries.len();
    let mut i: usize = 0;
    while i < n
        invariant
            fs.wf(),
            n == fs.entries.len(),
            i <= n,
            rl == root@.len(),
            rootv == root.deep_view(),
            rootv.len() == rl,
            mname@ == marker_name(),
            bakv == bak.deep_view(),
            bl == bakv.len() as int,
            bakv.len() == rootv.len() + 2,
            adds@.len() == src.len() + 1,
            adds@[0].pv() == bakv && adds@[0].node.nv() is Dir,
            forall|j1: int, j2: int| 0 <= j1 < j2 < src.len() ==> src[j1] < src[j2],
            forall|j: int| 0 <= j < src.len() ==> 0 <= #[trigger] src[j] < i,
            forall|j: int|
                0 <= j < src.len() ==> under_except(
                    rootv,
                    marker_name(),
                    fs.path_at(#[trigger] src[j]),
                ),
            forall|j: int|
                0 <= j < src.len() ==> adds@[j + 1].pv() == bakv + fs.path_at(
                    #[trigger] src[j],
                ).skip(rl as int) && adds@[j + 1].node.nv() == fs.node_v(src[j]),
            forall|ii: int|
                0 <= ii < i && under_except(rootv, marker_name(), #[trigger] fs.path_at(ii))
                    ==> exists|j: int| 0 <= j < src.len() && src[j] == ii,
        decreases n - i,
    {
        let ep = &fs.entries[i].path;
        proof {
            assert(fs.path_at(i as int) == ep.deep_view());
        }
        let mut take_it = false;
        if ep.len() > rl {
            if path_starts_with(ep, &root) {
                if !(ep[rl] == mname) {
                    take_it = true;
                    proof {
                        assert(ep.deep_view()[rl as int] == ep@[rl as int]@);
                        assert(under_except(rootv, marker_name(), fs.path_at(i as int)));
                    }
                } else {
                    proof {
                        assert(ep.deep_view()[rl as int] == ep@[rl as int]@);
                        assert(!under_except(rootv, marker_name(), fs.path_at(i as int)));
                    }
                }
            } else {
                proof {
                    assert(!under_except(rootv, marker_name(), fs.path_at(i as int)));
                }
            }
        } else {
            proof {
                assert(!under_except(rootv, marker_name(), fs.path_at(i as int)));
            }
        }
        if take_it {
            let mut np = clone_path(&bak);
            let el = ep.len();
            let mut k: usize = rl;
            while k < el
                invariant
                    rl <= k <= el,
                    el == ep@.len(),
                    bakv == bak.deep_view(),
                    np.deep_view() =~= bakv + ep.deep_view().subrange(rl as int, k as int),
                decreases el - k,
            {
                let ghost np0 = np.deep_view();
                np.push(ep[k].clone());
                proof {
                    assert(np.deep_view() =~= np0.push(ep.deep_view()[k as int]));
                    assert(np0.push(ep.deep_view()[k as int]) =~= bakv + ep.deep_view().subrange(
                        rl as int,
                        k + 1,
                    ));
                }
                k += 1;
            }
            proof {
                assert(ep.deep_view().subrange(rl as int, el as int) =~= ep.deep_view().skip(
                    rl as int,
                ));
            }
            let node = fs.entries[i].node.duplicate();
            adds.push(FsEntry { path: np, node });
            proof {
                let src0 = src;
                src = src.push(i as int);
                assert forall|ii: int|
                    0 <= ii < i + 1 && under_except(
                        rootv,
                        marker_name(),
                        #[trigger] fs.path_at(ii),
                    ) implies exists|j: int| 0 <= j < src.len() && src[j] == ii by {
                    if ii == i {
                        assert(src[src.len() - 1] == ii);
                    } else {
                        let j = choose|j: int| 0 <= j < src0.len() && src0[j] == ii;
                        assert(src[j] == ii);
                    }
                }
            }
        }
        i += 1;
    }
    // The batch is admissible: fresh, distinct, prefix-closed.
    proof {
        let m = *fs;
        let a = adds@;
        let mklen = mk.len() as int;
        let w_mk = m.index_of(mk);
        m.lemma_entry_resolves(w_mk);
        // No empty path.
        assert forall|t: int| 0 <= t < a.len() implies (#[trigger] a[t].pv()).len() >= 1 by {
            if t > 0 {
                assert(a[t].pv() == bakv + m.path_at(src[t - 1]).skip(rl as int));
            }
        }
        // Freshness.
        assert forall|t: int| 0 <= t < a.len() implies !m.has(#[trigger] a[t].pv()) by {
            if t > 0 && m.has(a[t].pv()) {
                let w = m.index_of(a[t].pv());
                m.lemma_entry_resolves(w);
                assert(a[t].pv() == bakv + m.path_at(src[t - 1]).skip(rl as int));
                assert(under_except(rootv, marker_name(), m.path_at(src[t - 1])));
                assert(m.path_at(w).len() > bl);
                assert(m.dir_at(m.path_at(w).take(bl)));
                assert(m.path_at(w).take(bl) =~= bakv);
                assert(m.has(bakv));
            }
        }
        // Pairwise distinct paths.
        assert forall|t: int, u: int| 0 <= t < u < a.len() implies a[t].pv() != a[u].pv() by {
            if t == 0 {
                assert(a[u].pv() == bakv + m.path_at(src[u - 1]).skip(rl as int));
                assert(under_except(rootv, marker_name(), m.path_at(src[u - 1])));
                assert(a[u].pv().len() > bl);
            } else if a[t].pv() == a[u].pv() {
                assert(a[t].pv() == bakv + m.path_at(src[t - 1]).skip(rl as int));
                assert(a[u].pv() == bakv + m.path_at(src[u - 1]).skip(rl as int));
                assert(under_except(rootv, marker_name(), m.path_at(src[t - 1])));
                assert(under_except(rootv, marker_name(), m.path_at(src[u - 1])));
                let s1 = m.path_at(src[t - 1]);
                let s2 = m.path_at(src[u - 1]);
                assert(s1.skip(rl as int) =~= s2.skip(rl as int)) by {
                    assert forall|x: int| 0 <= x < s1.skip(rl as int).len() implies s1.skip(
                        rl as int,
                    )[x] == s2.skip(rl as int)[x] by {
                        assert(a[t].pv()[bl + x] == a[u].pv()[bl + x]);
                    }
                    assert(s1.skip(rl as int).len() == s2.skip(rl as int).len()) by {
                        assert(a[t].pv().len() == a[u].pv().len());
                    }
                }
                assert(s1 =~= s2) by {
                    assert(s1.take(rl as int) == rootv && s2.take(rl as int) == rootv);
                    assert forall|x: int| 0 <= x < s1.len() implies s1[x] == s2[x] by {
                        if x < rl {
                            assert(s1.take(rl as int)[x] == s2.take(rl as int)[x]);
                        } else {
                            assert(s1.skip(rl as int)[x - rl] == s2.skip(rl as int)[x - rl]);
                        }
                    }
                }
                m.lemma_unique(src[t - 1], src[u - 1]);
            }
        }
        // Prefix closure of the batch.
        assert forall|t: int, k: int|
            0 <= t < a.len() && 1 <= k < a[t].pv().len() implies m.dir_at(
                #[trigger] a[t].pv().take(k),
            ) || (exists|u: int|
                0 <= u < a.len() && (#[trigger] a[u].pv()) == a[t].pv().take(k) && a[u].node.nv()
                    is Dir) by {
            if t > 0 {
                assert(a[t].pv() == bakv + m.path_at(src[t - 1]).skip(rl as int));
                assert(under_except(rootv, marker_name(), m.path_at(src[t - 1])));
            }
            if k < bl {
                // A prefix of the backup directory path: the marker chain.
                assert(a[t].pv().take(k) =~= bakv.take(k));
                if k == mklen {
                    assert(bakv.take(k) =~= mk);
                } else {
                    assert(bakv.take(k) =~= m.path_at(w_mk).take(k));
                    assert(m.dir_at(m.path_at(w_mk).take(k)));
                }
            } else if k == bl {
                assert(a[t].pv().take(k) =~= bakv);
                assert(a[0].pv() == bakv && a[0].node.nv() is Dir);
            } else {
                // A prefix inside a copied subtree: its source prefix is a
                // directory under the root, hence itself copied.
                let sp = m.path_at(src[t - 1]);
                let j2 = k - bl;
                assert(m.dir_at(sp.take(rl + j2)));
                let spp = sp.take(rl + j2);
                let wpre = m.index_of(spp);
                m.lemma_entry_resolves(wpre);
                assert(under_except(rootv, marker_name(), spp)) by {
                    assert(spp.take(rl as int) =~= sp.take(rl as int));
                    assert(spp[rl as int] == sp[rl as int]);
                }
                assert(exists|j: int| 0 <= j < src.len() && src[j] == wpre);
                let j = choose|j: int| 0 <= j < src.len() && src[j] == wpre;
                assert(a[j + 1].pv() == bakv + spp.skip(rl as int));
                assert(bakv + spp.skip(rl as int) =~= a[t].pv().take(k)) by {
                    assert(spp.skip(rl as int) =~= sp.skip(rl as int).take(j2));
                }
                assert(a[j + 1].node.nv() is Dir);
            }
        }
    }
    let ghost oldm = *fs;
    let ghost a = adds@;
    fs.add_entries(adds);
    proof {
        let m = *fs;
        // The new backup directory.
        assert(m.node_at(bakv) == a[0].node.nv());
        // Everything under the root is mirrored under the backup.
        assert forall|q: Seq<Seq<char>>|
            oldm.has(q) && under_except(rootv, marker_name(), q) implies m.has(
            bakv + q.skip(rl as int),
        ) && m.node_at(bakv + q.skip(rl as int)) == oldm.node_at(q) by {
            let w = oldm.index_of(q);
            oldm.lemma_entry_resolves(w);
            let j = choose|j: int| 0 <= j < src.len() && src[j] == w;
            assert(a[j + 1].pv() == bakv + oldm.path_at(src[j]).skip(rl as int));
            assert(a[j + 1].pv() == bakv + q.skip(rl as int));
            assert(m.node_at(a[j + 1].pv()) == a[j + 1].node.nv());
        }
        // Nothing appears outside the backup directory.
        assert forall|q: Seq<Seq<char>>|
            m.has(q) implies oldm.has(q) || q == bakv || (q.len() > bakv.len() && q.take(bl)
                == bakv && oldm.has(rootv + q.skip(bl)) && m.node_at(q) == oldm.node_at(
                rootv + q.skip(bl),
            )) by {
            if !oldm.has(q) {
                let t = choose|t: int| 0 <= t < a.len() && (#[trigger] a[t].pv()) == q;
                if t > 0 {
                    assert(a[t].pv() == bakv + oldm.path_at(src[t - 1]).skip(rl as int));
                    assert(under_except(rootv, marker_name(), oldm.path_at(src[t - 1])));
                    let sp = oldm.path_at(src[t - 1]);
                    oldm.lemma_entry_resolves(src[t - 1]);
                    assert(sp =~= rootv + sp.skip(rl as int)) by {
                        assert(sp.take(rl as int) == rootv);
                    }
                    assert(q.take(bl) =~= bakv);
                    assert(q.skip(bl) =~= sp.skip(rl as int));
                    assert(m.node_at(q) == a[t].node.nv());
                }
            }
        }
    }
    Ok(bak)
}


/// Relies on `chrono::Utc::now`: a clock reading in epoch milliseconds,
/// with no promised value. On a system clock set before the epoch the
/// call stops the process, as the original tool's clock reading does.
#[verifier::external_body]
fn current_epoch_millis() -> i64 {
    chrono::Utc::now().timestamp_millis()
}

/// Creates the backup stamped with the clock's reading now. Whatever
/// instant the clock reports, the snapshot is complete and additive; a
/// pre-epoch reading stamps the name with zero.
pub fn create_local_backup_now(fs: &mut FsModel, cwd: &Vec<String>) -> (r: Result<
    Vec<String>,
    SyncError,
>)
    requires
        old(fs).wf(),
    ensures
        final (fs).wf(),
        match marker_search(*old(fs), cwd.deep_view()) {
            None => r matches Err(SyncError::NotARepository) && *final (fs) == *old(fs),
            Some(mk) => {
                match stored_project_text(*old(fs), mk) {
                    None => r matches Err(SyncError::CorruptState) && *final (fs) == *old(fs),
                    Some(t) => {
                        // A clock reading can only spoil the backup by
                        // colliding with an existing snapshot name; on
                        // inputs no reading can spoil, success is owed.
                        &&& (old(fs).node_at(mk) is Dir && (forall|ms: u64|
                            !old(fs).has(mk.push(backup_name(t.1, ms as nat)))) ==> r is Ok)
                        &&& match r {
                            Ok(bak) => {
                                let root = mk.drop_last();
                                let bakv = bak.deep_view();
                                &&& (exists|ms: u64|
                                    bakv == mk.push(backup_name(t.1, ms as nat)))
                                &&& !old(fs).has(bakv)
                                &&& final (fs).dir_at(bakv)
                                &&& forall|q: Seq<Seq<char>>|
                                    old(fs).has(q) ==> final (fs).has(q) && final (fs).node_at(q)
                                        == old(fs).node_at(q)
                                &&& forall|q: Seq<Seq<char>>|
                                    old(fs).has(q) && under_except(root, marker_name(), q)
                                        ==> final (fs).has(bakv + q.skip(root.len() as int))
                                        && final (fs).node_at(bakv + q.skip(root.len() as int))
                                        == old(fs).node_at(q)
                                &&& forall|q: Seq<Seq<char>>|
                                    final (fs).has(q) ==> old(fs).has(q) || q == bakv || (q.len()
                                        > bakv.len() && q.take(bakv.len() as int) == bakv && old(
                                        fs,
                                    ).has(root + q.skip(bakv.len() as int)) && final (fs).node_at(
                                        q,
                                    ) == old(fs).node_at(root + q.skip(bakv.len() as int)))
                            },
                            Err(e) => *final (fs) == *old(fs) && (if !(old(fs).node_at(mk)
                                is Dir) {
                                e is IoError
                            } else {
                                e is TargetExists && (exists|ms: u64|
                                    old(fs).has(mk.push(backup_name(t.1, ms as nat))))
                            }),
                        }
                    },
                }
            },
        },
{
    let t = current_epoch_millis();
    let ms: u64 = if t < 0 {
        0
    } else {
        t as u64
    };
    create_local_backup(fs, cwd, ms)
}

} // verus!
