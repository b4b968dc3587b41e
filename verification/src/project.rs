//! Project identities and lookup in a remote listing.

use vstd::prelude::*;

use crate::errors::SyncError;

verus! {

/// The identity of a remote project: a stable opaque id and a display
/// name. Exactly one identity is associated with one local repository.
pub struct Project {
    pub id: String,
    pub name: String,
}

impl Project {
    /// A copy with the same id and name.
    pub fn duplicate(&self) -> (r: Project)
        ensures
            r.id@ == self.id@,
            r.name@ == self.name@,
    {
        Project { id: self.id.clone(), name: self.name.clone() }
    }
}

/// The index of the last project in `projects` whose name reads `name`,
/// if any: when several projects share a name, the last one in listing
/// order wins.
pub open spec fn last_name_match(projects: Seq<Project>, name: Seq<char>) -> Option<int> {
    if exists|i: int| 0 <= i < projects.len() && projects[i].name@ == name {
        Some(choose|i: int|
            0 <= i < projects.len() && projects[i].name@ == name && (forall|j: int|
                i < j < projects.len() ==> projects[j].name@ != name))
    } else {
        None
    }
}

/// The index of the last project in `projects` whose id reads `id`.
pub open spec fn last_id_match(projects: Seq<Project>, id: Seq<char>) -> Option<int> {
    if exists|i: int| 0 <= i < projects.len() && projects[i].id@ == id {
        Some(choose|i: int|
            0 <= i < projects.len() && projects[i].id@ == id && (forall|j: int|
                i < j < projects.len() ==> projects[j].id@ != id))
    } else {
        None
    }
}

/// Resolves a project by display name: the last exact match in listing
/// order wins; no match is `ProjectNotFound`.
pub fn find_project_by_name(projects: &Vec<Project>, name: &String) -> (r: Result<
    Project,
    SyncError,
>)
    ensures
        match r {
            Ok(p) => {
                &&& last_name_match(projects@, name@) matches Some(i)
                    && projects@[i].id@ == p.id@ && projects@[i].name@ == p.name@
                &&& p.name@ == name@
            },
            Err(e) => (e matches SyncError::ProjectNotFound { query } && query@ == name@)
                && last_name_match(projects@, name@) is None,
        },
{
    let mut best: Option<usize> = None;
    let n = projects.len();
    let mut i: usize = 0;
    while i < n
        invariant
            n == projects@.len(),
            i <= n,
            match best {
                Some(b) => b < i && projects@[b as int].name@ == name@ && (forall|j: int|
                    b < j < i ==> projects@[j].name@ != name@),
                None => forall|j: int| 0 <= j < i ==> projects@[j].name@ != name@,
            },
        decreases n - i,
    {
        if projects[i].name == *name {
            best = Some(i);
        }
        i += 1;
    }
    match best {
        Some(b) => {
            proof {
                lemma_last_match_names(projects@, name@, b as int);
            }
            Ok(projects[b].duplicate())
        },
        None => Err(SyncError::ProjectNotFound { query: name.clone() }),
    }
}

/// Resolves a project by id: the last exact match in listing order wins.
pub fn find_project_by_id(projects: &Vec<Project>, id: &String) -> (r: Result<Project, SyncError>)
    ensures
        match r {
            Ok(p) => {
                &&& last_id_match(projects@, id@) matches Some(i) && projects@[
                    i
                ].id@ == p.id@ && projects@[i].name@ == p.name@
                &&& p.id@ == id@
            },
            Err(e) => (e matches SyncError::ProjectNotFound { query } && query@ == id@)
                && last_id_match(projects@, id@) is None,
        },
{
    let mut best: Option<usize> = None;
    let n = projects.len();
    let mut i: usize = 0;
    while i < n
        invariant
            n == projects@.len(),
            i <= n,
            match best {
                Some(b) => b < i && projects@[b as int].id@ == id@ && (forall|j: int|
                    b < j < i ==> projects@[j].id@ != id@),
                None => forall|j: int| 0 <= j < i ==> projects@[j].id@ != id@,
            },
        decreases n - i,
    {
        if projects[i].id == *id {
            best = Some(i);
        }
        i += 1;
    }
    match best {
        Some(b) => {
            proof {
                lemma_last_match_ids(projects@, id@, b as int);
            }
            Ok(projects[b].duplicate())
        },
        None => Err(SyncError::ProjectNotFound { query: id.clone() }),
    }
}

/// The display names of a listing, in listing order.
pub fn project_names(projects: &Vec<Project>) -> (r: Vec<String>)
    ensures
        r@.len() == projects@.len(),
        forall|i: int| 0 <= i < r@.len() ==> r@[i]@ == projects@[i].name@,
{
    let mut names: Vec<String> = Vec::new();
    let n = projects.len();
    let mut i: usize = 0;
    while i < n
        invariant
            n == projects@.len(),
            i <= n,
            names@.len() == i,
            forall|j: int| 0 <= j < i ==> names@[j]@ == projects@[j].name@,
        decreases n - i,
    {
        names.push(projects[i].name.clone());
        i += 1;
    }
    names
}

/// An index that matches and is followed by no match is the one that
/// `last_name_match` picks.
proof fn lemma_last_match_names(projects: Seq<Project>, name: Seq<char>, b: int)
    requires
        0 <= b < projects.len(),
        projects[b].name@ == name,
        forall|j: int| b < j < projects.len() ==> projects[j].name@ != name,
    ensures
        last_name_match(projects, name) == Some(b),
{
    let c = choose|i: int|
        0 <= i < projects.len() && projects[i].name@ == name && (forall|j: int|
            i < j < projects.len() ==> projects[j].name@ != name);
    if c < b {
        assert(projects[b].name@ != name);
    } else if b < c {
        assert(projects[c].name@ != name);
    }
}

/// An index that matches and is followed by no match is the one that
/// `last_id_match` picks.
proof fn lemma_last_match_ids(projects: Seq<Project>, id: Seq<char>, b: int)
    requires
        0 <= b < projects.len(),
        projects[b].id@ == id,
        forall|j: int| b < j < projects.len() ==> projects[j].id@ != id,
    ensures
        last_id_match(projects, id) == Some(b),
{
    let c = choose|i: int|
        0 <= i < projects.len() && projects[i].id@ == id && (forall|j: int|
            i < j < projects.len() ==> projects[j].id@ != id);
    if c < b {
        assert(projects[b].id@ != id);
    } else if b < c {
        assert(projects[c].id@ != id);
    }
}

} // verus!
