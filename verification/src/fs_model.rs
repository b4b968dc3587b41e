//! A model of the slice of the filesystem that the tool works on.
//!
//! Paths are sequences of name components, rooted at an implicit
//! filesystem root; every existing path carries a node, either a
//! directory or a file with its content. The model keeps three
//! well-formedness facts: no path occurs twice, no entry names the root
//! itself, and every proper prefix of an existing path is a directory.

use vstd::prelude::*;

use crate::errors::SyncError;

verus! {

/// What an existing path holds.
pub enum FsNode {
    Dir,
    File(Vec<u8>),
}

/// Mathematical counterpart of `FsNode`.
pub enum NodeV {
    Dir,
    File(Seq<u8>),
}

impl FsNode {
    /// The node, seen mathematically.
    pub open spec fn nv(self) -> NodeV {
        match self {
            FsNode::Dir => NodeV::Dir,
            FsNode::File(c) => NodeV::File(c@),
        }
    }

    /// An equal copy of the node.
    pub fn duplicate(&self) -> (r: FsNode)
        ensures
            r.nv() == self.nv(),
    {
        match self {
            FsNode::Dir => FsNode::Dir,
            FsNode::File(c) => FsNode::File(clone_bytes(c)),
        }
    }
}

/// One existing path and its node.
pub struct FsEntry {
    pub path: Vec<String>,
    pub node: FsNode,
}

impl FsEntry {
    /// The path, seen as a sequence of component views.
    pub open spec fn pv(self) -> Seq<Seq<char>> {
        self.path.deep_view()
    }
}

/// The modelled filesystem: a collection of existing paths.
pub struct FsModel {
    pub entries: Vec<FsEntry>,
}

/// An equal copy of a component path.
pub fn clone_path(p: &Vec<String>) -> (r: Vec<String>)
    ensures
        r@ == p@,
{
    let r = p.clone();
    proof {
        assert forall|i: int| 0 <= i < p@.len() implies r@[i] == p@[i] by {
            assert(cloned::<String>(p@[i], r@[i]));
        }
        assert(r@ =~= p@);
    }
    r
}

/// An equal copy of a byte vector.
pub fn clone_bytes(b: &Vec<u8>) -> (r: Vec<u8>)
    ensures
        r@ == b@,
{
    let r = b.clone();
    proof {
        assert forall|i: int| 0 <= i < b@.len() implies r@[i] == b@[i] by {
            assert(cloned::<u8>(b@[i], r@[i]));
        }
        assert(r@ =~= b@);
    }
    r
}

/// Whether two component paths name the same path.
pub fn path_eq(a: &Vec<String>, b: &Vec<String>) -> (r: bool)
    ensures
        r == (a.deep_view() == b.deep_view()),
{
    if a.len() != b.len() {
        proof {
            assert(a.deep_view().len() != b.deep_view().len());
        }
        return false;
    }
    let n = a.len();
    let mut i: usize = 0;
    while i < n
        invariant
            n == a@.len() == b@.len(),
            i <= n,
            forall|j: int| 0 <= j < i ==> a.deep_view()[j] == b.deep_view()[j],
        decreases n - i,
    {
        if !(a[i] == b[i]) {
            proof {
                assert(a.deep_view()[i as int] != b.deep_view()[i as int]);
            }
            return false;
        }
        i += 1;
    }
    proof {
        assert(a.deep_view() =~= b.deep_view());
    }
    true
}

/// Whether the first `root.len()` components of `p` spell `root`.
pub fn path_starts_with(p: &Vec<String>, root: &Vec<String>) -> (r: bool)
    ensures
        r == (p@.len() >= root@.len() && p.deep_view().take(root@.len() as int)
            == root.deep_view()),
{
    let rl = root.len();
    if p.len() < rl {
        return false;
    }
    let mut k: usize = 0;
    while k < rl
        invariant
            k <= rl,
            rl == root@.len(),
            rl <= p@.len(),
            forall|t: int| 0 <= t < k ==> p.deep_view()[t] == root.deep_view()[t],
        decreases rl - k,
    {
        if !(p[k] == root[k]) {
            proof {
                let ki = k as int;
                assert(p.deep_view().take(rl as int)[ki] == p.deep_view()[ki]);
                assert(p.deep_view()[ki] != root.deep_view()[ki]);
            }
            return false;
        }
        k += 1;
    }
    proof {
        assert(p.deep_view().take(rl as int) =~= root.deep_view());
    }
    true
}

impl FsModel {
    /// The path of entry `i`.
    pub open spec fn path_at(self, i: int) -> Seq<Seq<char>> {
        self.entries[i].pv()
    }

    /// The node of entry `i`.
    pub open spec fn node_v(self, i: int) -> NodeV {
        self.entries[i].node.nv()
    }

    /// Whether path `p` exists.
    pub open spec fn has(self, p: Seq<Seq<char>>) -> bool {
        exists|i: int| 0 <= i < self.entries.len() && self.path_at(i) == p
    }

    /// The index of the entry at path `p` (meaningful under `wf`).
    pub open spec fn index_of(self, p: Seq<Seq<char>>) -> int {
        choose|i: int| 0 <= i < self.entries.len() && self.path_at(i) == p
    }

    /// The node at path `p` (meaningful when `has(p)`).
    pub open spec fn node_at(self, p: Seq<Seq<char>>) -> NodeV {
        self.node_v(self.index_of(p))
    }

    /// Whether `p` is a directory. The empty path is the filesystem root,
    /// always a directory.
    pub open spec fn dir_at(self, p: Seq<Seq<char>>) -> bool {
        p.len() == 0 || (self.has(p) && self.node_at(p) is Dir)
    }

    /// Whether `p` is a file holding exactly `c`.
    pub open spec fn file_at(self, p: Seq<Seq<char>>, c: Seq<u8>) -> bool {
        self.has(p) && self.node_at(p) == NodeV::File(c)
    }

    /// Well-formedness: paths are unique, never empty, and closed under
    /// taking directory prefixes.
    pub open spec fn wf(self) -> bool {
        &&& forall|i: int, j: int|
            0 <= i < j < self.entries.len() ==> self.path_at(i) != self.path_at(j)
        &&& forall|i: int|
            0 <= i < self.entries.len() ==> (#[trigger] self.path_at(i)).len() >= 1
        &&& forall|i: int, k: int|
            0 <= i < self.entries.len() && 1 <= k < self.path_at(i).len() ==> self.dir_at(
                #[trigger] self.path_at(i).take(k),
            )
    }

    /// A model with no entries: only the implicit root exists.
    pub fn empty() -> (r: FsModel)
        ensures
            r.wf(),
            forall|p: Seq<Seq<char>>| !r.has(p),
    {
        FsModel { entries: Vec::new() }
    }

    /// Finds the entry index of path `p`, if any.
    pub fn find(&self, p: &Vec<String>) -> (r: Option<usize>)
        requires
            self.wf(),
        ensures
            match r {
                Some(i) => i < self.entries.len() && self.path_at(
                    i as int,
                ) == p.deep_view() && self.has(p.deep_view()) && self.index_of(
                    p.deep_view(),
                ) == i as int,
                None => !self.has(p.deep_view()),
            },
    {
        let n = self.entries.len();
        let mut i: usize = 0;
        while i < n
            invariant
                self.wf(),
                n == self.entries.len(),
                i <= n,
                forall|j: int| 0 <= j < i ==> self.path_at(j) != p.deep_view(),
            decreases n - i,
        {
            if path_eq(&self.entries[i].path, p) {
                proof {
                    self.lemma_entry_resolves(i as int);
                }
                return Some(i);
            }
            i += 1;
        }
        None
    }

    /// Whether path `p` exists.
    pub fn exists_path(&self, p: &Vec<String>) -> (r: bool)
        requires
            self.wf(),
        ensures
            r == self.has(p.deep_view()),
    {
        self.find(p).is_some()
    }

    /// The content of the file at `p`, when `p` is a file.
    pub fn read_file(&self, p: &Vec<String>) -> (r: Option<&Vec<u8>>)
        requires
            self.wf(),
        ensures
            match r {
                Some(c) => self.file_at(p.deep_view(), c@),
                None => !(exists|c: Seq<u8>| self.file_at(p.deep_view(), c)),
            },
    {
        match self.find(p) {
            Some(i) => {
                match &self.entries[i].node {
                    FsNode::File(c) => Some(c),
                    FsNode::Dir => {
                        proof {
                            assert(self.node_at(p.deep_view()) is Dir);
                        }
                        None
                    },
                }
            },
            None => None,
        }
    }

    /// Entry `i` is found at its own path: `index_of` resolves back to `i`.
    pub proof fn lemma_entry_resolves(self, i: int)
        requires
            self.wf(),
            0 <= i < self.entries.len(),
        ensures
            self.has(self.path_at(i)),
            self.index_of(self.path_at(i)) == i,
            self.node_at(self.path_at(i)) == self.node_v(i),
    {
        assert(self.has(self.path_at(i)));
        let j = self.index_of(self.path_at(i));
        assert(0 <= j < self.entries.len() && self.path_at(j) == self.path_at(i));
        if i < j {
            assert(self.path_at(i) != self.path_at(j));
        } else if j < i {
            assert(self.path_at(j) != self.path_at(i));
        }
    }

    /// Two entries with the same path are the same entry.
    pub proof fn lemma_unique(self, i: int, j: int)
        requires
            self.wf(),
            0 <= i < self.entries.len(),
            0 <= j < self.entries.len(),
            self.path_at(i) == self.path_at(j),
        ensures
            i == j,
    {
        if i < j {
            assert(self.path_at(i) != self.path_at(j));
        } else if j < i {
            assert(self.path_at(j) != self.path_at(i));
        }
    }

    /// A batch of new entries that a well-formed model can absorb: paths
    /// never empty, pairwise distinct, absent from the model, and every
    /// proper prefix a directory either of the model or of the batch.
    pub open spec fn adds_ok(self, adds: Seq<FsEntry>) -> bool {
        &&& forall|t: int| 0 <= t < adds.len() ==> (#[trigger] adds[t].pv()).len() >= 1
        &&& forall|t: int, u: int| 0 <= t < u < adds.len() ==> adds[t].pv() != adds[u].pv()
        &&& forall|t: int| 0 <= t < adds.len() ==> !self.has(#[trigger] adds[t].pv())
        &&& forall|t: int, k: int|
            0 <= t < adds.len() && 1 <= k < adds[t].pv().len() ==> self.dir_at(
                #[trigger] adds[t].pv().take(k),
            ) || (exists|u: int|
                0 <= u < adds.len() && (#[trigger] adds[u].pv()) == adds[t].pv().take(k)
                    && adds[u].node.nv() is Dir)
    }

    /// Appends a batch of fresh entries, keeping the model well-formed.
    pub(crate) fn add_entries(&mut self, adds: Vec<FsEntry>)
        requires
            old(self).wf(),
            old(self).adds_ok(adds@),
        ensures
            final (self).wf(),
            forall|q: Seq<Seq<char>>|
                final (self).has(q) <==> old(self).has(q) || (exists|t: int|
                    0 <= t < adds@.len() && (#[trigger] adds@[t].pv()) == q),
            forall|q: Seq<Seq<char>>|
                old(self).has(q) ==> final (self).node_at(q) == old(self).node_at(q),
            forall|t: int|
                0 <= t < adds@.len() ==> final (self).node_at(#[trigger] adds@[t].pv())
                    == adds@[t].node.nv(),
    {
        let ghost o = self.entries@;
        let ghost oldm = *self;
        let ghost a = adds@;
        let mut adds = adds;
        self.entries.append(&mut adds);
        proof {
            let olen = o.len() as int;
            let m = *self;
            assert(m.entries@ == o + a);
            assert forall|i: int| 0 <= i < olen implies m.path_at(i) == oldm.path_at(i)
                && m.node_v(i) == oldm.node_v(i) by {
                assert(m.entries@[i] == o[i]);
            }
            assert forall|t: int| 0 <= t < a.len() implies m.path_at(olen + t) == a[t].pv()
                && m.node_v(olen + t) == a[t].node.nv() by {
                assert(m.entries@[olen + t] == a[t]);
            }
            // Uniqueness of paths in the combined sequence.
            assert forall|i: int, j: int|
                0 <= i < j < m.entries.len() implies m.path_at(i) != m.path_at(j) by {
                if j < olen {
                    assert(oldm.path_at(i) != oldm.path_at(j));
                } else if i < olen <= j {
                    if m.path_at(i) == m.path_at(j) {
                        assert(oldm.has(a[j - olen].pv()));
                    }
                } else {
                    assert(a[i - olen].pv() != a[j - olen].pv());
                }
            }
            // Everything the old model had is still there, with its node.
            assert forall|q: Seq<Seq<char>>| oldm.has(q) implies m.has(q) && m.node_at(q)
                == oldm.node_at(q) by {
                oldm.lemma_entry_resolves(oldm.index_of(q));
                let w = oldm.index_of(q);
                assert(m.path_at(w) == q);
                assert(m.has(q));
                let j = m.index_of(q);
                assert(0 <= j < m.entries.len() && m.path_at(j) == q);
                if j >= olen {
                    assert(!oldm.has(a[j - olen].pv()));
                } else {
                    oldm.lemma_unique(j, w);
                }
            }
            // Each added entry is found with its node.
            assert forall|t: int| 0 <= t < a.len() implies m.has(a[t].pv()) && m.node_at(
                #[trigger] a[t].pv(),
            ) == a[t].node.nv() by {
                assert(m.path_at(olen + t) == a[t].pv());
                assert(m.has(a[t].pv()));
                let j = m.index_of(a[t].pv());
                assert(0 <= j < m.entries.len() && m.path_at(j) == a[t].pv());
                if j < olen {
                    assert(oldm.path_at(j) == a[t].pv());
                    assert(oldm.has(a[t].pv()));
                } else {
                    if j - olen != t {
                        assert(a[j - olen].pv() != a[t].pv() || a[t].pv() != a[j - olen].pv());
                    }
                }
            }
            // Nothing beyond the union exists.
            assert forall|q: Seq<Seq<char>>|
                m.has(q) implies oldm.has(q) || (exists|t: int|
                    0 <= t < a.len() && (#[trigger] a[t].pv()) == q) by {
                let j = choose|j: int|
                    0 <= j < m.entries.len() && m.path_at(j) == q;
                if j < olen {
                    assert(oldm.path_at(j) == q);
                } else {
                    assert(a[j - olen].pv() == q);
                }
            }
            // Prefix closure.
            assert forall|i: int, k: int|
                0 <= i < m.entries.len() && 1 <= k < m.path_at(i).len() implies m.dir_at(
                    #[trigger] m.path_at(i).take(k),
                ) by {
                let pre = m.path_at(i).take(k);
                if pre.len() == 0 {
                } else if i < olen {
                    assert(oldm.dir_at(oldm.path_at(i).take(k)));
                    assert(oldm.has(pre) && oldm.node_at(pre) is Dir);
                } else {
                    let t = i - olen;
                    assert(oldm.dir_at(a[t].pv().take(k)) || (exists|u: int|
                        0 <= u < a.len() && (#[trigger] a[u].pv()) == a[t].pv().take(k)
                            && a[u].node.nv() is Dir));
                    if oldm.dir_at(pre) {
                        assert(oldm.has(pre) && oldm.node_at(pre) is Dir);
                    } else {
                        let u = choose|u: int|
                            0 <= u < a.len() && (#[trigger] a[u].pv()) == pre && a[u].node.nv()
                                is Dir;
                        assert(m.node_at(a[u].pv()) == a[u].node.nv());
                        assert(m.has(pre) && m.node_at(pre) is Dir);
                    }
                }
            }
        }
    }

    /// Creates the directory `p`. Fails with `TargetExists` when `p`
    /// already exists, and with `IoError` when `p` is the root or its
    /// parent is not a directory; a failure changes nothing.
    pub fn create_dir(&mut self, p: Vec<String>) -> (r: Result<(), SyncError>)
        requires
            old(self).wf(),
        ensures
            final (self).wf(),
            r is Ok <==> (p.deep_view().len() >= 1 && !old(self).has(p.deep_view()) && old(
                self,
            ).dir_at(p.deep_view().drop_last())),
            match r {
                Ok(()) => {
                    &&& final (self).has(p.deep_view())
                    &&& final (self).node_at(p.deep_view()) == NodeV::Dir
                    &&& forall|q: Seq<Seq<char>>|
                        old(self).has(q) ==> final (self).node_at(q) == old(self).node_at(q)
                    &&& forall|q: Seq<Seq<char>>|
                        final (self).has(q) <==> old(self).has(q) || q == p.deep_view()
                },
                Err(e) => {
                    &&& *final (self) == *old(self)
                    &&& if p.deep_view().len() == 0 {
                        e is IoError
                    } else if old(self).has(p.deep_view()) {
                        e is TargetExists
                    } else {
                        e is IoError
                    }
                },
            },
    {
        if p.len() == 0 {
            return Err(SyncError::IoError);
        }
        if self.find(&p).is_some() {
            return Err(SyncError::TargetExists);
        }
        let mut parent = clone_path(&p);
        parent.pop();
        proof {
            assert(parent.deep_view() =~= p.deep_view().drop_last());
        }
        if parent.len() > 0 {
            match self.find(&parent) {
                Some(i) => {
                    match &self.entries[i].node {
                        FsNode::Dir => {
                            proof {
                                self.lemma_entry_resolves(i as int);
                            }
                        },
                        FsNode::File(_) => {
                            proof {
                                self.lemma_entry_resolves(i as int);
                                assert(!self.dir_at(p.deep_view().drop_last()));
                            }
                            return Err(SyncError::IoError);
                        },
                    }
                },
                None => {
                    return Err(SyncError::IoError);
                },
            }
        }
        let ghost dp = p.deep_view();
        let mut adds: Vec<FsEntry> = Vec::new();
        adds.push(FsEntry { path: p, node: FsNode::Dir });
        proof {
            assert(adds@[0].pv() == dp);
            assert forall|t: int, k: int|
                0 <= t < adds@.len() && 1 <= k < adds@[t].pv().len() implies self.dir_at(
                    #[trigger] adds@[t].pv().take(k),
                ) || (exists|u: int|
                    0 <= u < adds@.len() && (#[trigger] adds@[u].pv()) == adds@[t].pv().take(k)
                        && adds@[u].node.nv() is Dir) by {
                if k == dp.len() - 1 {
                    assert(dp.take(k) =~= dp.drop_last());
                } else {
                    let par = dp.drop_last();
                    assert(self.has(par));
                    let w = self.index_of(par);
                    self.lemma_entry_resolves(w);
                    assert(self.path_at(w).take(k) =~= dp.take(k));
                }
            }
        }
        self.add_entries(adds);
        Ok(())
    }

    /// Writes the file `p` with `content`, replacing any previous file at
    /// `p`. Fails with `IoError` — changing nothing — when `p` is the
    /// root, an existing directory, or a path whose parent is not a
    /// directory.
    pub fn write_file(&mut self, p: Vec<String>, content: Vec<u8>) -> (r: Result<(), SyncError>)
        requires
            old(self).wf(),
        ensures
            final (self).wf(),
            r is Ok <==> (p.deep_view().len() >= 1 && (if old(self).has(p.deep_view()) {
                old(self).node_at(p.deep_view()) is File
            } else {
                old(self).dir_at(p.deep_view().drop_last())
            })),
            match r {
                Ok(()) => {
                    &&& final (self).file_at(p.deep_view(), content@)
                    &&& forall|q: Seq<Seq<char>>|
                        old(self).has(q) && q != p.deep_view() ==> final (self).node_at(q) == old(
                            self,
                        ).node_at(q)
                    &&& forall|q: Seq<Seq<char>>|
                        final (self).has(q) <==> old(self).has(q) || q == p.deep_view()
                },
                Err(e) => *final (self) == *old(self) && e is IoError,
            },
    {
        let ghost dp = p.deep_view();
        if p.len() == 0 {
            return Err(SyncError::IoError);
        }
        match self.find(&p) {
            Some(i) => {
                proof {
                    self.lemma_entry_resolves(i as int);
                }
                match &self.entries[i].node {
                    FsNode::Dir => {
                        return Err(SyncError::IoError);
                    },
                    FsNode::File(_) => {
                        let ghost oldm = *self;
                        self.entries[i] = FsEntry { path: p, node: FsNode::File(content) };
                        proof {
                            let m = *self;
                            assert(m.entries@ == oldm.entries@.update(
                                i as int,
                                FsEntry { path: p, node: FsNode::File(content) },
                            ));
                            assert forall|j: int|
                                0 <= j < m.entries.len() implies m.path_at(j) == oldm.path_at(
                                j,
                            ) by {
                                if j != i {
                                    assert(m.entries@[j] == oldm.entries@[j]);
                                }
                            }
                            assert forall|j: int|
                                0 <= j < m.entries.len() && j != i implies m.node_v(j)
                                    == oldm.node_v(j) by {
                                assert(m.entries@[j] == oldm.entries@[j]);
                            }
                            assert forall|q: Seq<Seq<char>>| m.has(q) <==> oldm.has(q) by {
                                if m.has(q) {
                                    let w = choose|w: int|
                                        0 <= w < m.entries.len() && m.path_at(w) == q;
                                    assert(oldm.path_at(w) == q);
                                } else if oldm.has(q) {
                                    let w = choose|w: int|
                                        0 <= w < oldm.entries.len() && oldm.path_at(w) == q;
                                    assert(m.path_at(w) == q);
                                }
                            }
                            assert(m.wf()) by {
                                assert forall|a: int, b: int|
                                    0 <= a < b < m.entries.len() implies m.path_at(a)
                                        != m.path_at(b) by {
                                    assert(oldm.path_at(a) != oldm.path_at(b));
                                }
                                assert forall|a: int, k: int|
                                    0 <= a < m.entries.len() && 1 <= k < m.path_at(a).len()
                                        implies m.dir_at(#[trigger] m.path_at(a).take(k)) by {
                                    let pre = oldm.path_at(a).take(k);
                                    assert(oldm.dir_at(pre));
                                    if pre.len() != 0 {
                                        let w = oldm.index_of(pre);
                                        oldm.lemma_entry_resolves(w);
                                        oldm.lemma_unique_node(w, i as int);
                                        assert(m.path_at(w) == pre);
                                        assert(m.has(pre));
                                        m.lemma_entry_resolves(w);
                                    }
                                }
                            }
                            assert forall|q: Seq<Seq<char>>|
                                oldm.has(q) && q != dp implies m.node_at(q) == oldm.node_at(
                                q,
                            ) by {
                                let w = oldm.index_of(q);
                                oldm.lemma_entry_resolves(w);
                                assert(m.path_at(w) == q);
                                m.lemma_entry_resolves(w);
                                oldm.lemma_unique(w, oldm.index_of(q));
                                if w == i {
                                    assert(q == dp);
                                }
                            }
                            assert(m.path_at(i as int) == dp);
                            m.lemma_entry_resolves(i as int);
                            assert(m.file_at(dp, content@));
                        }
                        return Ok(());
                    },
                }
            },
            None => {
                let mut parent = clone_path(&p);
                parent.pop();
                proof {
                    assert(parent.deep_view() =~= p.deep_view().drop_last());
                }
                if parent.len() > 0 {
                    match self.find(&parent) {
                        Some(i) => {
                            match &self.entries[i].node {
                                FsNode::Dir => {
                                    proof {
                                        self.lemma_entry_resolves(i as int);
                                    }
                                },
                                FsNode::File(_) => {
                                    proof {
                                        self.lemma_entry_resolves(i as int);
                                        assert(!self.dir_at(p.deep_view().drop_last()));
                                    }
                                    return Err(SyncError::IoError);
                                },
                            }
                        },
                        None => {
                            return Err(SyncError::IoError);
                        },
                    }
                }
                let mut adds: Vec<FsEntry> = Vec::new();
                adds.push(FsEntry { path: p, node: FsNode::File(content) });
                proof {
                    assert(adds@[0].pv() == dp);
                    assert forall|t: int, k: int|
                        0 <= t < adds@.len() && 1 <= k < adds@[t].pv().len() implies self.dir_at(
                            #[trigger] adds@[t].pv().take(k),
                        ) || (exists|u: int|
                            0 <= u < adds@.len() && (#[trigger] adds@[u].pv()) == adds@[t].pv()
                                .take(k) && adds@[u].node.nv() is Dir) by {
                        if k == dp.len() - 1 {
                            assert(dp.take(k) =~= dp.drop_last());
                        } else {
                            let par = dp.drop_last();
                            assert(self.has(par));
                            let w = self.index_of(par);
                            self.lemma_entry_resolves(w);
                            assert(self.path_at(w).take(k) =~= dp.take(k));
                        }
                    }
                }
                self.add_entries(adds);
                proof {
                    assert(final (self).file_at(dp, content@));
                }
                Ok(())
            },
        }
    }

    /// A directory entry and a file entry never share a path.
    pub proof fn lemma_unique_node(self, i: int, j: int)
        requires
            self.wf(),
            0 <= i < self.entries.len(),
            0 <= j < self.entries.len(),
            self.node_v(i) is Dir,
            self.node_v(j) is File,
        ensures
            self.path_at(i) != self.path_at(j),
    {
        if self.path_at(i) == self.path_at(j) {
            self.lemma_unique(i, j);
        }
    }
}

/// Whether `q` lies strictly under `root` on a branch other than the one
/// named `keep`: the paths a wipe of `root` removes.
pub open spec fn under_except(root: Seq<Seq<char>>, keep: Seq<char>, q: Seq<Seq<char>>) -> bool {
    &&& q.len() > root.len()
    &&& q.take(root.len() as int) == root
    &&& q[root.len() as int] != keep
}

impl FsModel {
    /// Removes everything strictly under `root` except the subtree whose
    /// first component under `root` is `keep_name`.
    pub fn remove_children_except(&mut self, root: &Vec<String>, keep_name: &String)
        requires
            old(self).wf(),
        ensures
            final (self).wf(),
            forall|q: Seq<Seq<char>>|
                final (self).has(q) <==> (old(self).has(q) && !under_except(
                    root.deep_view(),
                    keep_name@,
                    q,
                )),
            forall|q: Seq<Seq<char>>|
                final (self).has(q) ==> final (self).node_at(q) == old(self).node_at(q),
    {
        let ghost oldm = *self;
        let ghost o = self.entries@;
        let ghost rootv = root.deep_view();
        let ghost keep = keep_name@;
        let rl = root.len();
        let mut kept: Vec<FsEntry> = Vec::new();
        let ghost mut src: Seq<int> = Seq::empty();
        loop
            invariant
                oldm.wf(),
                rl == root@.len(),
                rootv == root.deep_view(),
                keep == keep_name@,
                self.entries@ == o.take(self.entries@.len() as int),
                self.entries@.len() <= o.len(),
                src.len() == kept@.len(),
                forall|j: int|
                    0 <= j < src.len() ==> self.entries@.len() <= #[trigger] src[j] < o.len(),
                forall|j1: int, j2: int| 0 <= j1 < j2 < src.len() ==> src[j1] > src[j2],
                forall|j: int| 0 <= j < src.len() ==> kept@[j] == o[#[trigger] src[j]],
                forall|j: int|
                    0 <= j < src.len() ==> !under_except(rootv, keep, o[#[trigger] src[j]].pv()),
                forall|i: int|
                    self.entries@.len() <= i < o.len() && !under_except(
                        rootv,
                        keep,
                        #[trigger] o[i].pv(),
                    ) ==> exists|j: int| 0 <= j < src.len() && src[j] == i,
            ensures
                self.entries@.len() == 0,
            decreases self.entries.len(),
        {
            let n = self.entries.len();
            if n == 0 {
                break ;
            }
            match self.entries.pop() {
                Some(e) => {
                    proof {
                        assert(o.take(n as int).last() == o[n - 1]);
                        assert(self.entries@ =~= o.take(n - 1));
                    }
                    let ghost i = n - 1;
                    // Decide whether the entry lies under root on a branch
                    // other than keep_name.
                    let mut drop_it = false;
                    if e.path.len() > rl {
                        if path_starts_with(&e.path, root) {
                            if !(e.path[rl] == *keep_name) {
                                drop_it = true;
                                proof {
                                    assert(under_except(rootv, keep, e.pv()));
                                }
                            } else {
                                proof {
                                    assert(!under_except(rootv, keep, e.pv()));
                                }
                            }
                        } else {
                            proof {
                                assert(!under_except(rootv, keep, e.pv()));
                            }
                        }
                    } else {
                        proof {
                            assert(!under_except(rootv, keep, e.pv()));
                        }
                    }
                    proof {
                        assert(e == o[i]);
                    }
                    if !drop_it {
                        kept.push(e);
                        proof {
                            let src0 = src;
                            src = src.push(i);
                            assert forall|ii: int|
                                self.entries@.len() <= ii < o.len() && !under_except(
                                    rootv,
                                    keep,
                                    #[trigger] o[ii].pv(),
                                ) implies exists|j: int|
                                0 <= j < src.len() && src[j] == ii by {
                                if ii == i {
                                    assert(src[src.len() - 1] == ii);
                                } else {
                                    let j = choose|j: int|
                                        0 <= j < src0.len() && src0[j] == ii;
                                    assert(src[j] == ii);
                                }
                            }
                        }
                    } else {
                        proof {
                            assert forall|ii: int|
                                self.entries@.len() <= ii < o.len() && !under_except(
                                    rootv,
                                    keep,
                                    #[trigger] o[ii].pv(),
                                ) implies exists|j: int|
                                0 <= j < src.len() && src[j] == ii by {
                                assert(ii != i);
                                let j = choose|j: int| 0 <= j < src.len() && src[j] == ii;
                                assert(src[j] == ii);
                            }
                        }
                    }
                },
                None => {
                    proof {
                        assert(false);
                    }
                    break ;
                },
            }
        }
        self.entries = kept;
        proof {
            let m = *self;
            assert forall|j: int| 0 <= j < src.len() implies m.path_at(j) == o[src[j]].pv()
                && m.node_v(j) == o[src[j]].node.nv() by {
                assert(m.entries@[j] == o[src[j]]);
            }
            assert forall|j: int| 0 <= j < src.len() implies oldm.path_at(src[j]) == m.path_at(j)
                && oldm.node_v(src[j]) == m.node_v(j) by {
                assert(o[src[j]] == oldm.entries@[src[j]]);
            }
            // Uniqueness carries over through the injective source map.
            assert forall|a: int, b: int|
                0 <= a < b < m.entries.len() implies m.path_at(a) != m.path_at(b) by {
                if m.path_at(a) == m.path_at(b) {
                    oldm.lemma_unique(src[a], src[b]);
                }
            }
            // Membership in the final model.
            assert forall|q: Seq<Seq<char>>|
                m.has(q) implies oldm.has(q) && !under_except(rootv, keep, q) by {
                let j = choose|j: int| 0 <= j < m.entries.len() && m.path_at(j) == q;
                assert(oldm.path_at(src[j]) == q);
            }
            assert forall|q: Seq<Seq<char>>|
                oldm.has(q) && !under_except(rootv, keep, q) implies m.has(q) by {
                let w = choose|w: int| 0 <= w < oldm.entries.len() && oldm.path_at(w) == q;
                assert(!under_except(rootv, keep, o[w].pv()));
                let j = choose|j: int| 0 <= j < src.len() && src[j] == w;
                assert(m.path_at(j) == q);
            }
            // Nodes are preserved.
            assert forall|q: Seq<Seq<char>>|
                m.has(q) implies m.node_at(q) == oldm.node_at(q) by {
                let j = m.index_of(q);
                assert(0 <= j < m.entries.len() && m.path_at(j) == q);
                assert(oldm.path_at(src[j]) == q);
                oldm.lemma_entry_resolves(src[j]);
                oldm.lemma_unique(oldm.index_of(q), src[j]);
            }
            // Prefix closure: a prefix of a kept path is itself kept.
            assert forall|a: int, k: int|
                0 <= a < m.entries.len() && 1 <= k < m.path_at(a).len() implies m.dir_at(
                    #[trigger] m.path_at(a).take(k),
                ) by {
                let q = m.path_at(a);
                let pre = q.take(k);
                assert(oldm.path_at(src[a]) == q);
                assert(oldm.dir_at(oldm.path_at(src[a]).take(k)));
                assert(oldm.has(pre) && oldm.node_at(pre) is Dir);
                assert(!under_except(rootv, keep, q));
                if under_except(rootv, keep, pre) {
                    let rlv = rootv.len() as int;
                    assert(pre.take(rlv) =~= q.take(rlv));
                    assert(q.take(rlv) == rootv);
                    assert(q[rlv] == pre[rlv]);
                    assert(under_except(rootv, keep, q));
                }
                assert(m.has(pre));
            }
        }
    }
}

} // verus!
