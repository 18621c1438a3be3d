//! The trusted task manifest: the operator's declaration of what a task may
//! do, and the checks that a manifest must pass before authority is minted
//! from it.

use vstd::prelude::*;
use crate::path::{is_safe_absolute, path_is_safe_absolute, paths_equal, same_path};

verus! {

/// The operator-authored declaration of a task's authority.
#[derive(Debug)]
pub struct TaskManifest {
    pub task_id: u128,
    pub repo_root: String,
    pub ttl_seconds: u64,
    pub filesystem: FilesystemPolicy,
    pub exec_policy: ExecPolicy,
    pub network: NetworkPolicy,
}

/// The filesystem roots a task may read and write below.
#[derive(Debug)]
pub struct FilesystemPolicy {
    pub readable_roots: Vec<String>,
    pub writable_roots: Vec<String>,
}

/// The binaries a task may execute.
#[derive(Debug)]
pub struct ExecPolicy {
    pub allowed_binaries: Vec<String>,
}

/// What network egress a task may perform.
#[derive(Clone, Copy, Debug, PartialEq, Eq, Structural)]
#[non_exhaustive]
pub enum NetworkPolicy {
    DenyAll,
}

/// Why a manifest was refused.
#[derive(Debug, PartialEq, Eq)]
pub enum ManifestError {
    /// The manifest grants no time at all.
    EmptyTtl,
    /// A path is not absolute or holds a `..` component.
    UnsafePath(String),
    /// The repository root is not among the readable roots.
    RepoRootNotReadable,
}

/// The first path of `v` that is not a safe absolute path, if any.
pub open spec fn first_unsafe(v: Seq<String>) -> Option<String>
    decreases v.len(),
{
    if v.len() == 0 {
        None
    } else if !is_safe_absolute(v[0]@) {
        Some(v[0])
    } else {
        first_unsafe(v.drop_first())
    }
}

/// Whether `root` names the same path as one of the paths of `v`.
pub open spec fn names_one_of(v: Seq<String>, root: Seq<char>) -> bool {
    exists|i: int| 0 <= i < v.len() && same_path(#[trigger] v[i]@, root)
}

/// The verdict on a manifest: the TTL is checked first, then the repository
/// root, the readable roots and the writable roots (each in order, the first
/// unsafe path is reported), and last that the repository root is readable.
pub open spec fn manifest_verdict(m: TaskManifest) -> Result<(), ManifestError> {
    if m.ttl_seconds == 0 {
        Err(ManifestError::EmptyTtl)
    } else if !is_safe_absolute(m.repo_root@) {
        Err(ManifestError::UnsafePath(m.repo_root))
    } else if first_unsafe(m.filesystem.readable_roots@) is Some {
        Err(ManifestError::UnsafePath(first_unsafe(m.filesystem.readable_roots@)->0))
    } else if first_unsafe(m.filesystem.writable_roots@) is Some {
        Err(ManifestError::UnsafePath(first_unsafe(m.filesystem.writable_roots@)->0))
    } else if !names_one_of(m.filesystem.readable_roots@, m.repo_root@) {
        Err(ManifestError::RepoRootNotReadable)
    } else {
        Ok(())
    }
}

/// Whether a manifest grants some time and holds only safe absolute paths
/// (its repository root, its readable roots and its writable roots).
pub open spec fn manifest_paths_fine(m: TaskManifest) -> bool {
    &&& m.ttl_seconds != 0
    &&& is_safe_absolute(m.repo_root@)
    &&& forall|i: int|
        0 <= i < m.filesystem.readable_roots@.len() ==> is_safe_absolute(#[trigger] m.filesystem.readable_roots@[i]@)
    &&& forall|i: int|
        0 <= i < m.filesystem.writable_roots@.len() ==> is_safe_absolute(#[trigger] m.filesystem.writable_roots@[i]@)
}

/// A list of paths has no unsafe path exactly when every path is safe.
pub proof fn lemma_first_unsafe_none(v: Seq<String>)
    ensures
        first_unsafe(v) is None <==> forall|i: int| 0 <= i < v.len() ==> is_safe_absolute(#[trigger] v[i]@),
    decreases v.len(),
{
    if v.len() > 0 {
        lemma_first_unsafe_none(v.drop_first());
        assert forall|i: int| 1 <= i < v.len() implies #[trigger] v[i]@ == v.drop_first()[i - 1]@ by {}
        if forall|i: int| 0 <= i < v.len() ==> is_safe_absolute(#[trigger] v[i]@) {
            assert forall|i: int| 0 <= i < v.drop_first().len() implies is_safe_absolute(
                #[trigger] v.drop_first()[i]@,
            ) by {
                assert(v.drop_first()[i] == v[i + 1]);
            }
        }
        if first_unsafe(v) is None {
            assert forall|i: int| 0 <= i < v.len() implies is_safe_absolute(#[trigger] v[i]@) by {
                if i > 0 {
                    assert(v[i] == v.drop_first()[i - 1]);
                }
            }
        }
    }
}

/// The repository root may stand anywhere among the readable roots: a
/// manifest that grants some time, holds only safe absolute paths, and
/// lists its repository root (as the same path) at any position among its
/// readable roots passes its checks; one whose repository root names none
/// of its readable roots does not.
pub proof fn lemma_repo_root_readable_anywhere(m: TaskManifest)
    ensures
        manifest_paths_fine(m) ==> (manifest_verdict(m) is Ok <==> exists|i: int|
            0 <= i < m.filesystem.readable_roots@.len() && same_path(
                #[trigger] m.filesystem.readable_roots@[i]@,
                m.repo_root@,
            )),
{
    lemma_first_unsafe_none(m.filesystem.readable_roots@);
    lemma_first_unsafe_none(m.filesystem.writable_roots@);
}

/// The first unsafe path of `v[i..]` is `v[i]` where that is unsafe, and
/// otherwise the first unsafe path of `v[i+1..]`.
pub proof fn lemma_first_unsafe_step(v: Seq<String>, i: int)
    requires
        0 <= i < v.len(),
    ensures
        first_unsafe(v.subrange(i, v.len() as int)) == if !is_safe_absolute(v[i]@) {
            Some(v[i])
        } else {
            first_unsafe(v.subrange(i + 1, v.len() as int))
        },
{
    let rest = v.subrange(i, v.len() as int);
    assert(rest[0] == v[i]);
    assert(rest.drop_first() =~= v.subrange(i + 1, v.len() as int));
}

/// The first path of `v` that is not a safe absolute path, if any.
pub fn first_unsafe_path(v: &Vec<String>) -> (r: Option<String>)
    ensures
        r == first_unsafe(v@),
{
    let mut i: usize = 0;
    assert(v@.subrange(0, v@.len() as int) =~= v@);
    while i < v.len()
        invariant
            i <= v@.len(),
            first_unsafe(v@) == first_unsafe(v@.subrange(i as int, v@.len() as int)),
        decreases v@.len() - i,
    {
        proof {
            lemma_first_unsafe_step(v@, i as int);
        }
        if !path_is_safe_absolute(v[i].as_str()) {
            return Some(v[i].clone());
        }
        i = i + 1;
    }
    assert(v@.subrange(i as int, v@.len() as int) =~= Seq::<String>::empty());
    None
}

/// Whether `root` names the same path as one of the paths of `v`.
pub fn contains_path(v: &Vec<String>, root: &str) -> (r: bool)
    ensures
        r == names_one_of(v@, root@),
        forall|i: int| 0 <= i < v@.len() && same_path(#[trigger] v@[i]@, root@) ==> r,
        r ==> exists|i: int| 0 <= i < v@.len() && same_path(#[trigger] v@[i]@, root@),
{
    let mut i: usize = 0;
    while i < v.len()
        invariant
            i <= v@.len(),
            forall|j: int| 0 <= j < i ==> !same_path(#[trigger] v@[j]@, root@),
        decreases v@.len() - i,
    {
        if paths_equal(v[i].as_str(), root) {
            return true;
        }
        i = i + 1;
    }
    false
}

/// A safe absolute path, or the error naming it.
pub fn validate_safe_absolute_path(path: &String) -> (r: Result<(), ManifestError>)
    ensures
        r == if is_safe_absolute(path@) {
            Ok::<(), ManifestError>(())
        } else {
            Err(ManifestError::UnsafePath(*path))
        },
{
    if path_is_safe_absolute(path.as_str()) {
        Ok(())
    } else {
        Err(ManifestError::UnsafePath(path.clone()))
    }
}

impl TaskManifest {
    /// Checks the manifest: a non-zero TTL, safe absolute paths throughout,
    /// and a repository root that is itself readable.
    pub fn validate(&self) -> (r: Result<(), ManifestError>)
        ensures
            r == manifest_verdict(*self),
            r is Ok ==> exists|i: int|
                0 <= i < self.filesystem.readable_roots@.len() && same_path(
                    #[trigger] self.filesystem.readable_roots@[i]@,
                    self.repo_root@,
                ),
            forall|i: int|
                0 <= i < self.filesystem.readable_roots@.len() && same_path(
                    #[trigger] self.filesystem.readable_roots@[i]@,
                    self.repo_root@,
                ) ==> (r is Ok <==> manifest_paths_fine(*self)),
    {
        proof {
            lemma_repo_root_readable_anywhere(*self);
            lemma_first_unsafe_none(self.filesystem.readable_roots@);
            lemma_first_unsafe_none(self.filesystem.writable_roots@);
        }
        if self.ttl_seconds == 0 {
            return Err(ManifestError::EmptyTtl);
        }
        let checked = validate_safe_absolute_path(&self.repo_root);
        if checked.is_err() {
            return checked;
        }
        match first_unsafe_path(&self.filesystem.readable_roots) {
            Some(p) => return Err(ManifestError::UnsafePath(p)),
            None => {},
        }
        match first_unsafe_path(&self.filesystem.writable_roots) {
            Some(p) => return Err(ManifestError::UnsafePath(p)),
            None => {},
        }
        if !contains_path(&self.filesystem.readable_roots, self.repo_root.as_str()) {
            return Err(ManifestError::RepoRootNotReadable);
        }
        Ok(())
    }
}

/// The message that describes a manifest error.
pub open spec fn manifest_error_text(e: ManifestError) -> Seq<char> {
    match e {
        ManifestError::EmptyTtl => "task manifest must have a non-zero TTL"@,
        ManifestError::UnsafePath(p) => "manifest path must be absolute and must not contain . or .. components: "@
            + p@,
        ManifestError::RepoRootNotReadable => "repo root must be present in readable roots"@,
    }
}

impl ManifestError {
    /// The message that describes this error.
    pub fn message(&self) -> (r: String)
        ensures
            r@ == manifest_error_text(*self),
    {
        match self {
            ManifestError::EmptyTtl => "task manifest must have a non-zero TTL".to_owned(),
            ManifestError::UnsafePath(p) => crate::text::concat(
                "manifest path must be absolute and must not contain . or .. components: ",
                p.as_str(),
            ),
            ManifestError::RepoRootNotReadable => "repo root must be present in readable roots".to_owned(),
        }
    }
}

} // verus!
