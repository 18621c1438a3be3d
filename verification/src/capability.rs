//! Capabilities: the authority minted from a trusted manifest (the root) and
//! the children derived from it by attenuation, which can only narrow it.

use vstd::prelude::*;
use crate::manifest::{first_unsafe, manifest_verdict, ManifestError, NetworkPolicy, TaskManifest};
use crate::path::{
    is_safe_absolute, path_is_safe_absolute, path_starts_with, paths_equal, resolution_of,
    resolve_existing_ancestor, same_path, starts_with, components, segments, is_absolute,
    root_marker, cur_dir_marker, leading_cur_dir,
};
use crate::text::{copy_str, str_eq};
use crate::time::{max_delta_secs, max_timestamp_secs, Timestamp};
use crate::codec::CodecError;
use crate::token::{
    append_block, block_reads_back, blocks_read_back, build_root_token, decode_state,
    four_digit_year, keypair_public_bytes, keypair_public_key, lemma_extended_token_holds,
    lemma_recorded_state_is_latest_block, new_keypair, token_accepted, token_holds, token_records,
    BlockState, DecodedState, DecodedView,
};
use crate::digest::{be_bytes, be_bytes_of, blake3_digest, blake3_hash, push_bytes};
use vstd::utf8::encode_utf8;

verus! {

/// The texts of a vector of strings.
pub open spec fn texts(v: Seq<String>) -> Seq<Seq<char>> {
    Seq::new(v.len(), |i: int| v[i]@)
}

/// Whether `path` lies at or below one of `roots`.
pub open spec fn under_any_root(path: Seq<char>, roots: Seq<Seq<char>>) -> bool {
    exists|i: int| 0 <= i < roots.len() && starts_with(path, #[trigger] roots[i])
}

/// Whether no two of `v` name the same path.
pub open spec fn distinct_paths(v: Seq<Seq<char>>) -> bool {
    forall|i: int, j: int| 0 <= i < j < v.len() ==> !same_path(#[trigger] v[i], #[trigger] v[j])
}

/// Whether no two of `v` are equal.
pub open spec fn distinct_texts(v: Seq<Seq<char>>) -> bool {
    forall|i: int, j: int| 0 <= i < j < v.len() ==> #[trigger] v[i] != #[trigger] v[j]
}

/// Whether `v` is a resolved form of the paths `paths`, as witnessed by
/// `w` (for each path, the position in `v` of a path resolving it) and `u`
/// (for each path of `v`, the position of a path it resolves); and no path
/// appears twice in `v`.
pub open spec fn resolved_with(
    paths: Seq<Seq<char>>,
    v: Seq<Seq<char>>,
    w: Seq<int>,
    u: Seq<int>,
) -> bool {
    &&& w.len() == paths.len()
    &&& u.len() == v.len()
    &&& forall|i: int|
        #![trigger w[i]]
        0 <= i < paths.len() ==> 0 <= w[i] < v.len() && resolution_of(paths[i], v[w[i]])
    &&& forall|j: int|
        #![trigger u[j]]
        0 <= j < v.len() ==> 0 <= u[j] < paths.len() && resolution_of(paths[u[j]], v[j])
    &&& distinct_paths(v)
}

/// Whether `v` is a resolved form of the paths `paths`: every path of `v`
/// resolves one of `paths`, every one of `paths` is resolved by a path of
/// `v`, and no path appears twice.
pub open spec fn resolved_set(paths: Seq<Seq<char>>, v: Seq<Seq<char>>) -> bool {
    exists|w: Seq<int>, u: Seq<int>| resolved_with(paths, v, w, u)
}

/// Whether every one of `paths` is a safe absolute path all of whose
/// possible resolutions lie below one of `roots`.
pub open spec fn all_within(paths: Seq<Seq<char>>, roots: Seq<Seq<char>>) -> bool {
    forall|i: int|
        #![trigger paths[i]]
        0 <= i < paths.len() ==> is_safe_absolute(paths[i]) && forall|q: Seq<char>|
            #![trigger resolution_of(paths[i], q)]
            resolution_of(paths[i], q) ==> under_any_root(q, roots)
}

/// Whether `r` is the answer to "may `path` be used under `roots`": `false`
/// for a path that is not safe and absolute, and otherwise the containment
/// check on some resolution of the path against the filesystem.
pub open spec fn answers_for_path(path: Seq<char>, roots: Seq<Seq<char>>, r: bool) -> bool {
    if is_safe_absolute(path) {
        exists|q: Seq<char>| resolution_of(path, q) && r == under_any_root(q, roots)
    } else {
        !r
    }
}

/// Whether the set `set` holds exactly the distinct members of `v`.
pub open spec fn same_members(v: Seq<Seq<char>>, set: Seq<Seq<char>>) -> bool {
    &&& forall|i: int| 0 <= i < v.len() ==> set.contains(#[trigger] v[i])
    &&& forall|j: int| 0 <= j < set.len() ==> v.contains(#[trigger] set[j])
    &&& distinct_texts(set)
}

/// A narrowed set of permissions carried by a root or child capability.
#[derive(Debug)]
pub struct PermissionSet {
    readable_roots: Vec<String>,
    writable_roots: Vec<String>,
    exec_binaries: Vec<String>,
    network: NetworkPolicy,
}

/// The abstract content of a permission set.
pub struct PermissionView {
    pub readable: Seq<Seq<char>>,
    pub writable: Seq<Seq<char>>,
    pub binaries: Seq<Seq<char>>,
    pub network: NetworkPolicy,
}

impl PermissionSet {
    /// No root is held twice and no binary is listed twice.
    #[verifier::type_invariant]
    spec fn held_once(self) -> bool {
        &&& distinct_paths(texts(self.readable_roots@))
        &&& distinct_paths(texts(self.writable_roots@))
        &&& distinct_texts(texts(self.exec_binaries@))
    }
}

/// A resolved form of some paths holds no path twice.
proof fn lemma_resolved_set_distinct(paths: Seq<Seq<char>>, v: Seq<Seq<char>>)
    requires
        resolved_set(paths, v),
    ensures
        distinct_paths(v),
{
    let (w, u) = choose|w: Seq<int>, u: Seq<int>| resolved_with(paths, v, w, u);
}

impl View for PermissionSet {
    type V = PermissionView;

    closed spec fn view(&self) -> PermissionView {
        PermissionView {
            readable: texts(self.readable_roots@),
            writable: texts(self.writable_roots@),
            binaries: texts(self.exec_binaries@),
            network: self.network,
        }
    }
}

/// Why a capability could not be minted or attenuated.
#[derive(Debug, PartialEq, Eq)]
pub enum CapabilityError {
    /// The manifest failed its checks.
    InvalidManifest(ManifestError),
    /// A path is not absolute or holds a `..` component.
    UnsafePath(String),
    /// The requested readable roots reach beyond the parent's.
    ReadScopeWidened,
    /// The requested writable roots reach beyond the parent's.
    WriteScopeWidened,
    /// The requested binaries are not all allowed by the parent.
    ExecScopeWidened,
    /// The requested lifetime ends after the parent's.
    TtlWidened,
    /// The requested lifetime cannot be represented.
    TtlOverflow,
    /// The token could not be written or read back.
    Token(CodecError),
    /// The capability's own record of its state disagrees with its token.
    TokenStateMismatch,
}

/// Two path texts that name the same path resolve the same paths.
proof fn lemma_same_path_resolution(p: Seq<char>, q: Seq<char>, q2: Seq<char>)
    requires
        resolution_of(p, q),
        same_path(q2, q),
    ensures
        resolution_of(p, q2),
{
    reveal(same_path);
    reveal(resolution_of);
    assert(components(q)[0] == root_marker());
    assert(components(q2)[0] == root_marker());
    assert(is_absolute(q2)) by {
        if !is_absolute(q2) {
            if leading_cur_dir(q2) {
                assert(components(q2)[0] == cur_dir_marker());
                assert(root_marker()[0] != cur_dir_marker()[0]);
            } else {
                assert(components(q2) == segments(q2));
                lemma_segment_not_root(q2);
            }
        }
    }
    assert(segments(q) =~= components(q).drop_first());
    assert(segments(q2) =~= components(q2).drop_first());
}

/// No segment is the root marker.
proof fn lemma_segment_not_root(s: Seq<char>)
    requires
        segments(s).len() > 0,
    ensures
        segments(s)[0] != root_marker(),
{
    crate::path::lemma_segments_have_no_separator(s);
    assert(segments(s).contains(segments(s)[0]));
    assert(root_marker().contains('/')) by {
        assert(root_marker()[0] == '/');
    }
}

/// Whether `path` lies at or below one of `roots`.
pub fn is_under_any_root(path: &str, roots: &Vec<String>) -> (r: bool)
    ensures
        r == under_any_root(path@, texts(roots@)),
{
    let mut i: usize = 0;
    while i < roots.len()
        invariant
            i <= roots@.len(),
            forall|j: int| 0 <= j < i ==> !starts_with(path@, #[trigger] texts(roots@)[j]),
        decreases roots@.len() - i,
    {
        if path_starts_with(path, roots[i].as_str()) {
            assert(starts_with(path@, texts(roots@)[i as int]));
            return true;
        }
        i = i + 1;
    }
    false
}

/// A safe absolute path resolved against the filesystem, or the error
/// naming the path that is not safe.
pub fn checked_path(path: &str) -> (r: Result<String, CapabilityError>)
    ensures
        is_safe_absolute(path@) ==> (r matches Ok(q) && resolution_of(path@, q@)),
        !is_safe_absolute(path@) ==> (r matches Err(CapabilityError::UnsafePath(p)) && p@ == path@),
{
    if !path_is_safe_absolute(path) {
        return Err(CapabilityError::UnsafePath(copy_str(path)));
    }
    Ok(resolve_existing_ancestor(path))
}

/// The position of a path of `set` that names the same path as `p`, if any.
pub fn find_same_path(set: &Vec<String>, p: &str) -> (r: Option<usize>)
    ensures
        r matches Some(j) ==> j < set@.len() && same_path(texts(set@)[j as int], p@),
        r is None ==> forall|k: int| 0 <= k < set@.len() ==> !same_path(#[trigger] texts(set@)[k], p@),
{
    let mut j: usize = 0;
    while j < set.len()
        invariant
            j <= set@.len(),
            forall|k: int| 0 <= k < j ==> !same_path(#[trigger] texts(set@)[k], p@),
        decreases set@.len() - j,
    {
        if paths_equal(set[j].as_str(), p) {
            return Some(j);
        }
        j = j + 1;
    }
    None
}

/// The paths `paths`, each resolved against the filesystem, without
/// repeats; or the error naming the first path that is not safe.
pub fn checked_paths(paths: &Vec<String>) -> (r: Result<Vec<String>, CapabilityError>)
    ensures
        first_unsafe(paths@) is Some ==> r == Err::<Vec<String>, CapabilityError>(
            CapabilityError::UnsafePath(first_unsafe(paths@)->0),
        ),
        first_unsafe(paths@) is None ==> (r matches Ok(v) && resolved_set(texts(paths@), texts(v@))),
{
    let mut out: Vec<String> = Vec::new();
    let mut i: usize = 0;
    let ghost mut w: Seq<int> = Seq::empty();
    let ghost mut u: Seq<int> = Seq::empty();
    assert(paths@.subrange(0, paths@.len() as int) =~= paths@);
    while i < paths.len()
        invariant
            i <= paths@.len(),
            first_unsafe(paths@) == first_unsafe(paths@.subrange(i as int, paths@.len() as int)),
            w.len() == i,
            u.len() == out@.len(),
            forall|k: int|
                #![trigger w[k]]
                0 <= k < i ==> 0 <= w[k] < out@.len() && resolution_of(
                    paths@[k]@,
                    out@[w[k]]@,
                ),
            forall|m: int|
                #![trigger u[m]]
                0 <= m < out@.len() ==> 0 <= u[m] < i && resolution_of(
                    paths@[u[m]]@,
                    out@[m]@,
                ),
            distinct_paths(texts(out@)),
        decreases paths@.len() - i,
    {
        proof {
            crate::manifest::lemma_first_unsafe_step(paths@, i as int);
        }
        if !path_is_safe_absolute(paths[i].as_str()) {
            return Err(CapabilityError::UnsafePath(paths[i].clone()));
        }
        let q = resolve_existing_ancestor(paths[i].as_str());
        let ghost before = out@;
        let ghost qv = q@;
        let ghost pi = paths@[i as int]@;
        let found_at = find_same_path(&out, q.as_str());
        if let Some(j) = found_at {
            proof {
                assert(same_path(texts(out@)[j as int], qv));
                lemma_same_path_resolution(pi, qv, out@[j as int]@);
                w = w.push(j as int);
            }
        } else {
            proof {
                w = w.push(out@.len() as int);
                u = u.push(i as int);
            }
            out.push(q);
            proof {
                assert forall|a: int, b: int|
                    0 <= a < b < texts(out@).len() implies !same_path(
                    #[trigger] texts(out@)[a],
                    #[trigger] texts(out@)[b],
                ) by {
                    assert(texts(out@)[a] == texts(before)[a]);
                    if b < before.len() {
                        assert(texts(out@)[b] == texts(before)[b]);
                    } else {
                        assert(texts(out@)[b] == qv);
                    }
                }
            }
        }
        proof {
            assert forall|k: int| #![trigger w[k]] 0 <= k < i + 1 implies 0 <= w[k] < out@.len()
                && resolution_of(paths@[k]@, out@[w[k]]@) by {
                if k < i {
                    assert(out@[w[k]] == before[w[k]]);
                }
            }
            assert forall|m: int| #![trigger u[m]] 0 <= m < out@.len() implies 0 <= u[m] < i + 1
                && resolution_of(paths@[u[m]]@, out@[m]@) by {
                if m < before.len() {
                    assert(out@[m] == before[m]);
                }
            }
        }
        i = i + 1;
    }
    assert(paths@.subrange(i as int, paths@.len() as int) =~= Seq::<String>::empty());
    proof {
        let ps = texts(paths@);
        let vs = texts(out@);
        assert(resolved_with(ps, vs, w, u));
    }
    Ok(out)
}

/// The paths of `s` with every path that names the same path as an
/// earlier one left out.
pub open spec fn path_dedup(s: Seq<Seq<char>>) -> Seq<Seq<char>>
    decreases s.len(),
{
    if s.len() == 0 {
        s
    } else {
        let prev = path_dedup(s.drop_last());
        if names_member(s.last(), prev) {
            prev
        } else {
            prev.push(s.last())
        }
    }
}

/// The texts of `s` with every repeated text left out.
pub open spec fn text_dedup(s: Seq<Seq<char>>) -> Seq<Seq<char>>
    decreases s.len(),
{
    if s.len() == 0 {
        s
    } else {
        let prev = text_dedup(s.drop_last());
        if prev.contains(s.last()) {
            prev
        } else {
            prev.push(s.last())
        }
    }
}

/// Leaving out repeated paths keeps no two that name the same path, keeps
/// only paths of `s`, and names every path of `s`.
pub proof fn lemma_path_dedup(s: Seq<Seq<char>>)
    ensures
        distinct_paths(path_dedup(s)),
        forall|i: int| 0 <= i < path_dedup(s).len() ==> s.contains(#[trigger] path_dedup(s)[i]),
        forall|i: int| 0 <= i < s.len() ==> names_member(#[trigger] s[i], path_dedup(s)),
    decreases s.len(),
{
    if s.len() > 0 {
        let init = s.drop_last();
        lemma_path_dedup(init);
        let prev = path_dedup(init);
        let d = path_dedup(s);
        assert forall|i: int| 0 <= i < d.len() implies s.contains(#[trigger] d[i]) by {
            if i < prev.len() {
                assert(d[i] == prev[i]);
                let k = choose|k: int| 0 <= k < init.len() && init[k] == prev[i];
                assert(s[k] == init[k]);
            } else {
                assert(d[i] == s[s.len() - 1]);
            }
        }
        assert forall|i: int| 0 <= i < s.len() implies names_member(#[trigger] s[i], d) by {
            if i < s.len() - 1 {
                assert(s[i] == init[i]);
                assert(names_member(init[i], prev));
                let j = choose|j: int| 0 <= j < prev.len() && same_path(#[trigger] prev[j], init[i]);
                assert(d[j] == prev[j]);
            } else if names_member(s.last(), prev) {
                let j = choose|j: int| 0 <= j < prev.len() && same_path(#[trigger] prev[j], s.last());
                assert(d[j] == prev[j]);
            } else {
                reveal(same_path);
                assert(d[prev.len() as int] == s.last());
                assert(same_path(d[prev.len() as int], s[i]));
            }
        }
        if !names_member(s.last(), prev) {
            assert forall|i: int, j: int| 0 <= i < j < d.len() implies !same_path(#[trigger] d[i], #[trigger] d[j]) by {
                if j < prev.len() {
                    assert(d[i] == prev[i] && d[j] == prev[j]);
                } else {
                    assert(d[i] == prev[i]);
                    assert(d[j] == s.last());
                    reveal(same_path);
                    if same_path(d[i], d[j]) {
                        assert(same_path(prev[i], s.last()));
                    }
                }
            }
        }
    }
}

/// Leaving out repeated texts keeps each text once and keeps exactly the
/// texts of `s`.
pub proof fn lemma_text_dedup(s: Seq<Seq<char>>)
    ensures
        distinct_texts(text_dedup(s)),
        text_dedup(s).to_set() == s.to_set(),
    decreases s.len(),
{
    if s.len() > 0 {
        let init = s.drop_last();
        lemma_text_dedup(init);
        let prev = text_dedup(init);
        let d = text_dedup(s);
        assert(s =~= init.push(s.last()));
        assert forall|x: Seq<char>| #[trigger] d.to_set().contains(x) == s.to_set().contains(x) by {
            if d.contains(x) {
                let i = choose|i: int| 0 <= i < d.len() && d[i] == x;
                if i < prev.len() {
                    assert(d[i] == prev[i]);
                    assert(prev.to_set().contains(x));
                    assert(init.contains(x));
                    let k = choose|k: int| 0 <= k < init.len() && init[k] == x;
                    assert(s[k] == x);
                } else {
                    assert(s[s.len() - 1] == x);
                }
            }
            if s.contains(x) {
                let k = choose|k: int| 0 <= k < s.len() && s[k] == x;
                if k < s.len() - 1 {
                    assert(init[k] == x);
                    assert(init.to_set().contains(x));
                    assert(prev.contains(x));
                    let i = choose|i: int| 0 <= i < prev.len() && prev[i] == x;
                    assert(d[i] == x);
                } else if prev.contains(x) {
                    let i = choose|i: int| 0 <= i < prev.len() && prev[i] == x;
                    assert(d[i] == x);
                } else {
                    assert(d[prev.len() as int] == x);
                }
            }
        }
        assert(d.to_set() =~= s.to_set());
        if !prev.contains(s.last()) {
            assert forall|i: int, j: int| 0 <= i < j < d.len() implies #[trigger] d[i] != #[trigger] d[j] by {
                if j < prev.len() {
                    assert(d[i] == prev[i] && d[j] == prev[j]);
                } else {
                    assert(d[i] == prev[i]);
                    if d[i] == d[j] {
                        assert(prev.contains(s.last()));
                    }
                }
            }
        }
    }
}

/// The paths of `v` with every path that names the same path as an earlier
/// one left out (see [`path_dedup`]).
pub fn distinct_path_strings(v: &Vec<String>) -> (r: Vec<String>)
    ensures
        texts(r@) == path_dedup(texts(v@)),
{
    let mut out: Vec<String> = Vec::new();
    let mut i: usize = 0;
    while i < v.len()
        invariant
            i <= v@.len(),
            texts(out@) == path_dedup(texts(v@).subrange(0, i as int)),
        decreases v@.len() - i,
    {
        let ghost before = out@;
        proof {
            let next = texts(v@).subrange(0, i + 1);
            assert(next.drop_last() =~= texts(v@).subrange(0, i as int));
            assert(next.last() == v@[i as int]@);
        }
        match find_same_path(&out, v[i].as_str()) {
            Some(j) => {
                assert(names_member(v@[i as int]@, texts(out@)));
            },
            None => {
                assert(!names_member(v@[i as int]@, texts(out@)));
                out.push(v[i].clone());
                assert(texts(out@) =~= texts(before).push(v@[i as int]@));
            },
        }
        i = i + 1;
    }
    assert(texts(v@).subrange(0, v@.len() as int) =~= texts(v@));
    out
}

/// The texts of `v` with every repeated text left out (see
/// [`text_dedup`]).
pub fn distinct_text_strings(v: &Vec<String>) -> (r: Vec<String>)
    ensures
        texts(r@) == text_dedup(texts(v@)),
{
    let mut out: Vec<String> = Vec::new();
    let mut i: usize = 0;
    while i < v.len()
        invariant
            i <= v@.len(),
            texts(out@) == text_dedup(texts(v@).subrange(0, i as int)),
        decreases v@.len() - i,
    {
        let ghost before = out@;
        proof {
            let next = texts(v@).subrange(0, i + 1);
            assert(next.drop_last() =~= texts(v@).subrange(0, i as int));
            assert(next.last() == v@[i as int]@);
        }
        if crate::text::contains_str(&out, v[i].as_str()) {
            let ghost j = choose|j: int| 0 <= j < out@.len() && #[trigger] out@[j]@ == v@[i as int]@;
            assert(texts(out@)[j] == v@[i as int]@);
        } else {
            proof {
                if texts(out@).contains(v@[i as int]@) {
                    let j = choose|j: int| 0 <= j < texts(out@).len() && texts(out@)[j] == v@[i as int]@;
                    assert(out@[j]@ == v@[i as int]@);
                }
            }
            out.push(v[i].clone());
            assert(texts(out@) =~= texts(before).push(v@[i as int]@));
        }
        i = i + 1;
    }
    assert(texts(v@).subrange(0, v@.len() as int) =~= texts(v@));
    out
}

/// The distinct strings of `v`, in the order of their first appearance.
pub fn distinct_strings(v: &Vec<String>) -> (r: Vec<String>)
    ensures
        same_members(texts(v@), texts(r@)),
{
    let mut out: Vec<String> = Vec::new();
    let mut i: usize = 0;
    while i < v.len()
        invariant
            i <= v@.len(),
            forall|k: int| 0 <= k < i ==> texts(out@).contains(#[trigger] texts(v@)[k]),
            forall|m: int| 0 <= m < out@.len() ==> texts(v@).contains(#[trigger] texts(out@)[m]),
            distinct_texts(texts(out@)),
        decreases v@.len() - i,
    {
        let ghost before = texts(out@);
        if !crate::text::contains_str(&out, v[i].as_str()) {
            out.push(v[i].clone());
            proof {
                let after = texts(out@);
                assert(after =~= before.push(v@[i as int]@));
                assert forall|k: int| 0 <= k < i + 1 implies after.contains(#[trigger] texts(v@)[k]) by {
                    if k < i {
                        let m = choose|m: int| 0 <= m < before.len() && before[m] == texts(v@)[k];
                        assert(after[m] == before[m]);
                    } else {
                        assert(after[before.len() as int] == texts(v@)[k]);
                    }
                }
                assert forall|m: int| 0 <= m < after.len() implies texts(v@).contains(#[trigger] after[m]) by {
                    if m < before.len() {
                        assert(after[m] == before[m]);
                    } else {
                        assert(texts(v@)[i as int] == after[m]);
                    }
                }
                assert forall|a: int, b: int| 0 <= a < b < after.len() implies #[trigger] after[a] != #[trigger] after[b] by {
                    assert(after[a] == before[a]);
                    if b == before.len() {
                        if after[a] == after[b] {
                            assert(out@[a]@ == v@[i as int]@);
                        }
                    } else {
                        assert(after[b] == before[b]);
                    }
                }
            }
        } else {
            proof {
                let j = choose|j: int| 0 <= j < out@.len() && #[trigger] out@[j]@ == v@[i as int]@;
                assert(texts(out@)[j] == texts(v@)[i as int]);
                assert forall|k: int| 0 <= k < i + 1 implies texts(out@).contains(#[trigger] texts(v@)[k]) by {
                    if k == i {
                        assert(texts(out@)[j] == texts(v@)[k]);
                    }
                }
            }
        }
        i = i + 1;
    }
    out
}

impl PermissionSet {
    /// The permissions a validated manifest grants: its roots resolved
    /// against the filesystem, its distinct binaries, and its network policy.
    pub fn from_manifest(manifest: &TaskManifest) -> (r: Result<PermissionSet, CapabilityError>)
        ensures
            first_unsafe(manifest.filesystem.readable_roots@) is Some ==> r == Err::<
                PermissionSet,
                CapabilityError,
            >(CapabilityError::UnsafePath(first_unsafe(manifest.filesystem.readable_roots@)->0)),
            first_unsafe(manifest.filesystem.readable_roots@) is None && first_unsafe(
                manifest.filesystem.writable_roots@,
            ) is Some ==> r == Err::<PermissionSet, CapabilityError>(
                CapabilityError::UnsafePath(first_unsafe(manifest.filesystem.writable_roots@)->0),
            ),
            first_unsafe(manifest.filesystem.readable_roots@) is None && first_unsafe(
                manifest.filesystem.writable_roots@,
            ) is None ==> (r matches Ok(p) && resolved_set(
                texts(manifest.filesystem.readable_roots@),
                p@.readable,
            ) && resolved_set(texts(manifest.filesystem.writable_roots@), p@.writable)
                && same_members(texts(manifest.exec_policy.allowed_binaries@), p@.binaries)
                && p@.network == manifest.network),
    {
        let readable_roots = match checked_paths(&manifest.filesystem.readable_roots) {
            Ok(v) => v,
            Err(e) => return Err(e),
        };
        let writable_roots = match checked_paths(&manifest.filesystem.writable_roots) {
            Ok(v) => v,
            Err(e) => return Err(e),
        };
        let exec_binaries = distinct_strings(&manifest.exec_policy.allowed_binaries);
        proof {
            lemma_resolved_set_distinct(texts(manifest.filesystem.readable_roots@), texts(readable_roots@));
            lemma_resolved_set_distinct(texts(manifest.filesystem.writable_roots@), texts(writable_roots@));
        }
        Ok(PermissionSet { readable_roots, writable_roots, exec_binaries, network: manifest.network })
    }

    /// The permission set holding the given roots, binaries and network
    /// policy, each kept once: a root that names the same path as an
    /// earlier one, and a repeated binary, are left out.
    pub fn from_parts(
        readable_roots: Vec<String>,
        writable_roots: Vec<String>,
        exec_binaries: Vec<String>,
        network: NetworkPolicy,
    ) -> (r: PermissionSet)
        ensures
            r@.readable == path_dedup(texts(readable_roots@)),
            r@.writable == path_dedup(texts(writable_roots@)),
            r@.binaries == text_dedup(texts(exec_binaries@)),
            r@.network == network,
    {
        proof {
            lemma_path_dedup(texts(readable_roots@));
            lemma_path_dedup(texts(writable_roots@));
            lemma_text_dedup(texts(exec_binaries@));
        }
        PermissionSet {
            readable_roots: distinct_path_strings(&readable_roots),
            writable_roots: distinct_path_strings(&writable_roots),
            exec_binaries: distinct_text_strings(&exec_binaries),
            network,
        }
    }

    /// The readable roots, no two naming the same path.
    pub fn readable_roots(&self) -> (r: &Vec<String>)
        ensures
            texts(r@) == self@.readable,
            distinct_paths(self@.readable),
    {
        proof {
            use_type_invariant(self);
        }
        &self.readable_roots
    }

    /// The writable roots, no two naming the same path.
    pub fn writable_roots(&self) -> (r: &Vec<String>)
        ensures
            texts(r@) == self@.writable,
            distinct_paths(self@.writable),
    {
        proof {
            use_type_invariant(self);
        }
        &self.writable_roots
    }

    /// The binaries that may be executed, each listed once.
    pub fn exec_binaries(&self) -> (r: &Vec<String>)
        ensures
            texts(r@) == self@.binaries,
            distinct_texts(self@.binaries),
    {
        proof {
            use_type_invariant(self);
        }
        &self.exec_binaries
    }

    /// Whether `path` may be read: it must be a safe absolute path whose
    /// resolution against the filesystem lies below a readable root.
    pub fn allows_read(&self, path: &str) -> (r: bool)
        ensures
            answers_for_path(path@, self@.readable, r),
    {
        match checked_path(path) {
            Ok(q) => is_under_any_root(q.as_str(), &self.readable_roots),
            Err(_) => false,
        }
    }

    /// Whether `path` may be written: it must be a safe absolute path whose
    /// resolution against the filesystem lies below a writable root.
    pub fn allows_write(&self, path: &str) -> (r: bool)
        ensures
            answers_for_path(path@, self@.writable, r),
    {
        match checked_path(path) {
            Ok(q) => is_under_any_root(q.as_str(), &self.writable_roots),
            Err(_) => false,
        }
    }

    /// Whether `binary` is on the exec allowlist.
    pub fn allows_exec(&self, binary: &str) -> (r: bool)
        ensures
            r == self@.binaries.contains(binary@),
    {
        let r = crate::text::contains_str(&self.exec_binaries, binary);
        proof {
            if r {
                let i = choose|i: int| 0 <= i < self.exec_binaries@.len() && #[trigger] self.exec_binaries@[i]@ == binary@;
                assert(self@.binaries[i] == binary@);
            } else if self@.binaries.contains(binary@) {
                let i = choose|i: int| 0 <= i < self@.binaries.len() && self@.binaries[i] == binary@;
                assert(self.exec_binaries@[i]@ == binary@);
            }
        }
        r
    }

    /// The network policy.
    pub fn network(&self) -> (r: NetworkPolicy)
        ensures
            r == self@.network,
    {
        self.network
    }

    /// The requested roots resolved against the filesystem, where each of
    /// them is a safe absolute path whose resolution lies below one of this
    /// set's writable (`writable`) or readable roots; `None` otherwise.
    pub fn contains_all_roots(&self, requested: &Vec<String>, writable: bool) -> (r: Option<
        Vec<String>,
    >)
        ensures
            r matches Some(v) ==> resolved_set(texts(requested@), texts(v@)) && forall|j: int|
                0 <= j < v@.len() ==> under_any_root(
                    #[trigger] texts(v@)[j],
                    if writable {
                        self@.writable
                    } else {
                        self@.readable
                    },
                ),
            r is None ==> !all_within(
                texts(requested@),
                if writable {
                    self@.writable
                } else {
                    self@.readable
                },
            ),
            !all_safe(texts(requested@)) ==> r is None,
    {
        let parent_roots = if writable {
            &self.writable_roots
        } else {
            &self.readable_roots
        };
        let ghost parent = texts(parent_roots@);
        let resolved = match checked_paths(requested) {
            Ok(v) => v,
            Err(_) => {
                proof {
                    lemma_unsafe_not_within(texts(requested@), requested@, parent);
                }
                return None;
            },
        };
        proof {
            if first_unsafe(requested@) is None {
                lemma_no_unsafe_all_safe(requested@);
            }
        }
        let ghost (w, u) = choose|w: Seq<int>, u: Seq<int>|
            resolved_with(texts(requested@), texts(resolved@), w, u);
        let mut j: usize = 0;
        while j < resolved.len()
            invariant
                j <= resolved@.len(),
                parent == texts(parent_roots@),
                parent == if writable {
                    self@.writable
                } else {
                    self@.readable
                },
                resolved_with(texts(requested@), texts(resolved@), w, u),
                forall|k: int| 0 <= k < j ==> under_any_root(#[trigger] texts(resolved@)[k], parent),
            decreases resolved@.len() - j,
        {
            if !is_under_any_root(resolved[j].as_str(), parent_roots) {
                proof {
                    let i = u[j as int];
                    assert(resolution_of(texts(requested@)[i], texts(resolved@)[j as int]));
                    assert(!under_any_root(texts(resolved@)[j as int], parent));
                }
                return None;
            }
            j = j + 1;
        }
        Some(resolved)
    }

    /// Whether every requested binary is on this set's allowlist.
    pub fn contains_all_exec(&self, requested: &Vec<String>) -> (r: bool)
        ensures
            r == forall|i: int| 0 <= i < requested@.len() ==> self@.binaries.contains(#[trigger] texts(requested@)[i]),
    {
        let mut i: usize = 0;
        while i < requested.len()
            invariant
                i <= requested@.len(),
                forall|k: int| 0 <= k < i ==> self@.binaries.contains(#[trigger] texts(requested@)[k]),
            decreases requested@.len() - i,
        {
            if !self.allows_exec(requested[i].as_str()) {
                assert(!self@.binaries.contains(texts(requested@)[i as int]));
                return false;
            }
            i = i + 1;
        }
        true
    }
}

/// A list that holds a path that is not safe is not within any roots.
proof fn lemma_unsafe_not_within(paths: Seq<Seq<char>>, v: Seq<String>, roots: Seq<Seq<char>>)
    requires
        paths == texts(v),
        first_unsafe(v) is Some,
    ensures
        !all_within(paths, roots),
    decreases v.len(),
{
    if is_safe_absolute(v[0]@) {
        lemma_unsafe_not_within(texts(v.drop_first()), v.drop_first(), roots);
        let i = choose|i: int|
            0 <= i < texts(v.drop_first()).len() && !(is_safe_absolute(texts(v.drop_first())[i]) && forall|q: Seq<char>|
                #![trigger resolution_of(texts(v.drop_first())[i], q)]
                resolution_of(texts(v.drop_first())[i], q) ==> under_any_root(q, roots));
        assert(paths[i + 1] == texts(v.drop_first())[i]);
    } else {
        assert(paths[0] == v[0]@);
    }
}

/// Binds a child capability to one exact tool invocation.
#[derive(Debug, PartialEq, Eq)]
pub struct RequestBinding {
    pub tool_name: String,
    pub argument_hash: [u8; 32],
    pub nonce: u128,
}

/// The abstract content of a request binding.
pub struct BindingView {
    pub tool_name: Seq<char>,
    pub argument_hash: Seq<u8>,
    pub nonce: u128,
}

impl View for RequestBinding {
    type V = BindingView;

    open spec fn view(&self) -> BindingView {
        BindingView {
            tool_name: self.tool_name@,
            argument_hash: self.argument_hash@,
            nonce: self.nonce,
        }
    }
}

/// The abstract content of an optional request binding.
pub open spec fn binding_view(b: Option<RequestBinding>) -> Option<BindingView> {
    match b {
        Some(x) => Some(x@),
        None => None,
    }
}

/// Whether two byte arrays hold the same bytes.
pub fn same_hash(a: &[u8; 32], b: &[u8; 32]) -> (r: bool)
    ensures
        r == (a@ == b@),
{
    let mut i: usize = 0;
    while i < 32
        invariant
            i <= 32,
            a@.len() == 32,
            b@.len() == 32,
            forall|k: int| 0 <= k < i ==> a@[k] == b@[k],
        decreases 32 - i,
    {
        if a[i] != b[i] {
            return false;
        }
        i = i + 1;
    }
    assert(a@ =~= b@);
    true
}

impl RequestBinding {
    /// Whether two bindings name the same tool, argument hash and nonce.
    pub fn same_as(&self, other: &RequestBinding) -> (r: bool)
        ensures
            r == (self@ == other@),
    {
        str_eq(self.tool_name.as_str(), other.tool_name.as_str()) && same_hash(
            &self.argument_hash,
            &other.argument_hash,
        ) && self.nonce == other.nonce
    }

    /// A copy of this binding.
    pub fn duplicate(&self) -> (r: RequestBinding)
        ensures
            r@ == self@,
    {
        RequestBinding {
            tool_name: self.tool_name.clone(),
            argument_hash: self.argument_hash,
            nonce: self.nonce,
        }
    }
}

/// A request to append a child caveat. Every field must be equal to or
/// narrower than the parent.
#[derive(Debug)]
pub struct AttenuationRequest {
    pub readable_roots: Vec<String>,
    pub writable_roots: Vec<String>,
    pub exec_binaries: Vec<String>,
    pub network: NetworkPolicy,
    pub ttl_seconds: u64,
    pub request_binding: Option<RequestBinding>,
}

/// Whether `ttl` is a lifetime the time arithmetic accepts without fault:
/// either too large for a signed count of seconds (refused as an overflow)
/// or within the range of a `chrono` duration.
pub open spec fn ttl_in_domain(ttl: u64) -> bool {
    ttl > i64::MAX || ttl <= max_delta_secs()
}

/// The moment `ttl` seconds after `now`, if it can be represented.
pub open spec fn expiry_after(now: Timestamp, ttl: u64) -> Option<Timestamp> {
    if ttl > i64::MAX {
        None
    } else if now.secs + ttl <= max_timestamp_secs() {
        Some(Timestamp { secs: (now.secs + ttl) as i64, nanos: now.nanos })
    } else {
        None
    }
}

/// The moment `ttl_seconds` after `now`, or `TtlOverflow` where it cannot be
/// represented.
pub fn checked_expires_at(now: Timestamp, ttl_seconds: u64) -> (r: Result<Timestamp, CapabilityError>)
    requires
        now.wf(),
        ttl_in_domain(ttl_seconds),
    ensures
        r == match expiry_after(now, ttl_seconds) {
            Some(t) => Ok::<Timestamp, CapabilityError>(t),
            None => Err(CapabilityError::TtlOverflow),
        },
{
    if ttl_seconds > i64::MAX as u64 {
        return Err(CapabilityError::TtlOverflow);
    }
    match now.checked_add_seconds(ttl_seconds as i64) {
        Some(t) => Ok(t),
        None => Err(CapabilityError::TtlOverflow),
    }
}

/// Whether every one of `requested` is on the allowlist `allowed`.
pub open spec fn binaries_within(requested: Seq<Seq<char>>, allowed: Seq<Seq<char>>) -> bool {
    forall|i: int| 0 <= i < requested.len() ==> allowed.contains(#[trigger] requested[i])
}

/// Whether every root of `v` lies below one of `parent`.
pub open spec fn roots_below(v: Seq<Seq<char>>, parent: Seq<Seq<char>>) -> bool {
    forall|j: int| 0 <= j < v.len() ==> under_any_root(#[trigger] v[j], parent)
}

/// Whether `child` grants nothing that `parent` does not: every readable and
/// writable root lies below one of the parent's, every binary is one of the
/// parent's, and the network policy is one the parent could hand on.
pub open spec fn narrows(child: PermissionView, parent: PermissionView) -> bool {
    &&& roots_below(child.readable, parent.readable)
    &&& roots_below(child.writable, parent.writable)
    &&& binaries_within(child.binaries, parent.binaries)
}

/// Whether every one of `paths` is a safe absolute path.
pub open spec fn all_safe(paths: Seq<Seq<char>>) -> bool {
    forall|i: int| 0 <= i < paths.len() ==> is_safe_absolute(#[trigger] paths[i])
}

/// Whether some resolution of `paths` against the filesystem lies wholly
/// below `roots`: the containment check can pass.
pub open spec fn passes_roots(paths: Seq<Seq<char>>, roots: Seq<Seq<char>>) -> bool {
    exists|v: Seq<Seq<char>>| #[trigger] resolved_set(paths, v) && roots_below(v, roots)
}

/// The outcome that attenuation owes. The checks run in the order read,
/// write, exec, lifetime, and the first that fails decides the error. The
/// containment of the roots is checked on one resolution of them against
/// the filesystem: an error names a check that could fail, a later error
/// comes only after the earlier checks could pass, and where every
/// resolution passes (or a path is not safe at all) the outcome is fixed.
pub open spec fn attenuation_verdict_ok(
    parent: PermissionView,
    parent_expires_at: Timestamp,
    request_readable: Seq<Seq<char>>,
    request_writable: Seq<Seq<char>>,
    request_binaries: Seq<Seq<char>>,
    ttl: u64,
    now: Timestamp,
    r: Result<(Seq<Seq<char>>, Seq<Seq<char>>, Timestamp), CapabilityError>,
) -> bool {
    let roots_pass = passes_roots(request_readable, parent.readable) && passes_roots(
        request_writable,
        parent.writable,
    );
    let exec_ok = binaries_within(request_binaries, parent.binaries);
    &&& r matches Ok((rd, wr, t)) ==> {
        &&& resolved_set(request_readable, rd)
        &&& roots_below(rd, parent.readable)
        &&& resolved_set(request_writable, wr)
        &&& roots_below(wr, parent.writable)
        &&& exec_ok
        &&& expiry_after(now, ttl) == Some(t)
        &&& !t.after(parent_expires_at)
    }
    &&& r matches Err(e) ==> {
        ||| e == CapabilityError::ReadScopeWidened && !all_within(request_readable, parent.readable)
        ||| e == CapabilityError::WriteScopeWidened && passes_roots(
            request_readable,
            parent.readable,
        ) && !all_within(request_writable, parent.writable)
        ||| e == CapabilityError::ExecScopeWidened && roots_pass && !exec_ok
        ||| e == CapabilityError::TtlOverflow && roots_pass && exec_ok && expiry_after(now, ttl) is None
        ||| e == CapabilityError::TtlWidened && roots_pass && exec_ok && expiry_after(now, ttl) is Some
            && expiry_after(now, ttl)->0.after(parent_expires_at)
    }
    &&& !all_safe(request_readable) ==> r == Err::<
        (Seq<Seq<char>>, Seq<Seq<char>>, Timestamp),
        CapabilityError,
    >(CapabilityError::ReadScopeWidened)
    &&& all_within(request_readable, parent.readable) && !all_safe(request_writable) ==> r
        == Err::<(Seq<Seq<char>>, Seq<Seq<char>>, Timestamp), CapabilityError>(
        CapabilityError::WriteScopeWidened,
    )
    &&& all_within(request_readable, parent.readable) && all_within(
        request_writable,
        parent.writable,
    ) ==> {
        &&& !exec_ok ==> r == Err::<
            (Seq<Seq<char>>, Seq<Seq<char>>, Timestamp),
            CapabilityError,
        >(CapabilityError::ExecScopeWidened)
        &&& exec_ok && expiry_after(now, ttl) is None ==> r == Err::<
            (Seq<Seq<char>>, Seq<Seq<char>>, Timestamp),
            CapabilityError,
        >(CapabilityError::TtlOverflow)
        &&& exec_ok && expiry_after(now, ttl) is Some ==> if expiry_after(now, ttl)->0.after(
            parent_expires_at,
        ) {
            r == Err::<(Seq<Seq<char>>, Seq<Seq<char>>, Timestamp), CapabilityError>(
                CapabilityError::TtlWidened,
            )
        } else {
            r is Ok
        }
    }
}

/// A list of path strings with no unsafe path holds only safe paths.
proof fn lemma_no_unsafe_all_safe(v: Seq<String>)
    requires
        first_unsafe(v) is None,
    ensures
        all_safe(texts(v)),
    decreases v.len(),
{
    if v.len() > 0 {
        lemma_no_unsafe_all_safe(v.drop_first());
        assert forall|i: int| 0 <= i < texts(v).len() implies is_safe_absolute(#[trigger] texts(v)[i]) by {
            if i > 0 {
                assert(texts(v)[i] == texts(v.drop_first())[i - 1]);
            }
        }
    }
}

/// The outcome of a validation, with the resolved roots taken by their texts.
pub open spec fn grant_view(r: Result<(Vec<String>, Vec<String>, Timestamp), CapabilityError>) -> Result<
    (Seq<Seq<char>>, Seq<Seq<char>>, Timestamp),
    CapabilityError,
> {
    match r {
        Ok((rd, wr, t)) => Ok((texts(rd@), texts(wr@), t)),
        Err(e) => Err(e),
    }
}

/// Whether the requested roots `paths`, as resolved against the filesystem,
/// came out as `res`: nothing where one of them is not a safe absolute
/// path, and otherwise a resolved form of them (see [`resolved_set`]).
pub open spec fn resolved_or_none(paths: Seq<Seq<char>>, res: Option<Seq<Seq<char>>>) -> bool {
    match res {
        None => !all_safe(paths),
        Some(v) => all_safe(paths) && resolved_set(paths, v),
    }
}

/// Whether resolved roots `res` were all found and all lie below `roots`.
pub open spec fn roots_pass_given(res: Option<Seq<Seq<char>>>, roots: Seq<Seq<char>>) -> bool {
    match res {
        Some(v) => roots_below(v, roots),
        None => false,
    }
}

/// The verdict of attenuation once the requested roots are resolved (as
/// `readable` and `writable`): the readable roots must all lie below the
/// parent's, then the writable roots below the parent's writable roots,
/// then every binary must be the parent's, then the expiry `ttl` seconds
/// after `now` must be representable and no later than the parent's. The
/// first check that fails names the error; otherwise the child's expiry.
pub open spec fn verdict_given(
    parent: PermissionView,
    parent_expires_at: Timestamp,
    readable: Option<Seq<Seq<char>>>,
    writable: Option<Seq<Seq<char>>>,
    binaries: Seq<Seq<char>>,
    ttl: u64,
    now: Timestamp,
) -> Result<Timestamp, CapabilityError> {
    if !roots_pass_given(readable, parent.readable) {
        Err(CapabilityError::ReadScopeWidened)
    } else if !roots_pass_given(writable, parent.writable) {
        Err(CapabilityError::WriteScopeWidened)
    } else if !binaries_within(binaries, parent.binaries) {
        Err(CapabilityError::ExecScopeWidened)
    } else {
        match expiry_after(now, ttl) {
            None => Err(CapabilityError::TtlOverflow),
            Some(t) => if t.after(parent_expires_at) {
                Err(CapabilityError::TtlWidened)
            } else {
                Ok(t)
            },
        }
    }
}

/// The texts of optional resolved roots.
pub open spec fn opt_texts(v: Option<Vec<String>>) -> Option<Seq<Seq<char>>> {
    match v {
        Some(x) => Some(texts(x@)),
        None => None,
    }
}

/// Whether every one of `v` lies below one of `roots`.
fn all_under(v: &Vec<String>, roots: &Vec<String>) -> (r: bool)
    ensures
        r == roots_below(texts(v@), texts(roots@)),
{
    let mut j: usize = 0;
    while j < v.len()
        invariant
            j <= v@.len(),
            forall|k: int| 0 <= k < j ==> under_any_root(#[trigger] texts(v@)[k], texts(roots@)),
        decreases v@.len() - j,
    {
        if !is_under_any_root(v[j].as_str(), roots) {
            assert(!under_any_root(texts(v@)[j as int], texts(roots@)));
            return false;
        }
        j = j + 1;
    }
    true
}

/// Whether resolved roots were all found and all lie below `roots`.
fn passes_given(res: &Option<Vec<String>>, roots: &Vec<String>) -> (r: bool)
    ensures
        r == roots_pass_given(opt_texts(*res), texts(roots@)),
{
    match res {
        Some(v) => all_under(v, roots),
        None => false,
    }
}

/// The verdict of attenuating `parent` (valid until `parent_expires_at`)
/// to the resolved roots `readable` and `writable` (`None` where a
/// requested root is not a safe absolute path), the binaries `binaries`
/// and a lifetime of `ttl_seconds` from `now` (see [`verdict_given`]).
pub fn attenuation_verdict_given(
    parent: &PermissionSet,
    parent_expires_at: Timestamp,
    readable: &Option<Vec<String>>,
    writable: &Option<Vec<String>>,
    binaries: &Vec<String>,
    ttl_seconds: u64,
    now: Timestamp,
) -> (r: Result<Timestamp, CapabilityError>)
    requires
        now.wf(),
        ttl_in_domain(ttl_seconds),
    ensures
        r == verdict_given(
            parent@,
            parent_expires_at,
            opt_texts(*readable),
            opt_texts(*writable),
            texts(binaries@),
            ttl_seconds,
            now,
        ),
{
    if !passes_given(readable, parent.readable_roots()) {
        return Err(CapabilityError::ReadScopeWidened);
    }
    if !passes_given(writable, parent.writable_roots()) {
        return Err(CapabilityError::WriteScopeWidened);
    }
    if !parent.contains_all_exec(binaries) {
        return Err(CapabilityError::ExecScopeWidened);
    }
    let expires_at = match checked_expires_at(now, ttl_seconds) {
        Ok(t) => t,
        Err(e) => return Err(e),
    };
    if expires_at.is_after(&parent_expires_at) {
        return Err(CapabilityError::TtlWidened);
    }
    Ok(expires_at)
}

/// The requested roots resolved against the filesystem, or nothing where
/// one of them is not a safe absolute path.
fn resolve_requested(paths: &Vec<String>) -> (r: Option<Vec<String>>)
    ensures
        resolved_or_none(texts(paths@), opt_texts(r)),
{
    match checked_paths(paths) {
        Ok(v) => {
            proof {
                lemma_no_unsafe_all_safe(paths@);
            }
            Some(v)
        },
        Err(_) => {
            proof {
                lemma_unsafe_not_all_safe(paths@);
            }
            None
        },
    }
}

/// A list of path strings with an unsafe path does not hold only safe paths.
proof fn lemma_unsafe_not_all_safe(v: Seq<String>)
    requires
        first_unsafe(v) is Some,
    ensures
        !all_safe(texts(v)),
    decreases v.len(),
{
    if is_safe_absolute(v[0]@) {
        lemma_unsafe_not_all_safe(v.drop_first());
        let i = choose|i: int| 0 <= i < texts(v.drop_first()).len() && !is_safe_absolute(#[trigger] texts(v.drop_first())[i]);
        assert(texts(v)[i + 1] == texts(v.drop_first())[i]);
    } else {
        assert(texts(v)[0] == v[0]@);
    }
}

/// A resolved form of paths lies below `roots` where all resolutions of the
/// paths do, and a resolved form that does not shows a path that is not
/// within them.
proof fn lemma_resolved_within(paths: Seq<Seq<char>>, v: Seq<Seq<char>>, roots: Seq<Seq<char>>)
    requires
        resolved_set(paths, v),
    ensures
        all_within(paths, roots) ==> roots_below(v, roots),
        !roots_below(v, roots) ==> !all_within(paths, roots),
{
    let (w, u) = choose|w: Seq<int>, u: Seq<int>| resolved_with(paths, v, w, u);
    if all_within(paths, roots) {
        assert forall|j: int| 0 <= j < v.len() implies under_any_root(#[trigger] v[j], roots) by {
            let i = u[j];
            assert(resolution_of(paths[i], v[j]));
            assert(is_safe_absolute(paths[i]));
        }
    }
}

/// Checks that `request` narrows `parent` (valid until `parent_expires_at`)
/// and answers the requested roots resolved against the filesystem and the
/// requested expiry: the roots are resolved, and the verdict on them is
/// [`attenuation_verdict_given`]'s.
fn validate_attenuation(
    parent: &PermissionSet,
    parent_expires_at: Timestamp,
    request: &AttenuationRequest,
    now: Timestamp,
) -> (r: Result<(Vec<String>, Vec<String>, Timestamp), CapabilityError>)
    requires
        now.wf(),
        ttl_in_domain(request.ttl_seconds),
    ensures
        attenuation_verdict_ok(
            parent@,
            parent_expires_at,
            texts(request.readable_roots@),
            texts(request.writable_roots@),
            texts(request.exec_binaries@),
            request.ttl_seconds,
            now,
            grant_view(r),
        ),
        exists|rd: Option<Seq<Seq<char>>>, wr: Option<Seq<Seq<char>>>|
            #![trigger verdict_given(parent@, parent_expires_at, rd, wr, texts(request.exec_binaries@), request.ttl_seconds, now)]
            resolved_or_none(texts(request.readable_roots@), rd) && resolved_or_none(
                texts(request.writable_roots@),
                wr,
            ) && granted(
                verdict_given(parent@, parent_expires_at, rd, wr, texts(request.exec_binaries@), request.ttl_seconds, now),
                rd,
                wr,
                grant_view(r),
            ),
{
    let readable = resolve_requested(&request.readable_roots);
    let writable = resolve_requested(&request.writable_roots);
    let ghost rd = opt_texts(readable);
    let ghost wr = opt_texts(writable);
    let ghost pr = texts(request.readable_roots@);
    let ghost pw = texts(request.writable_roots@);
    let verdict = attenuation_verdict_given(
        parent,
        parent_expires_at,
        &readable,
        &writable,
        &request.exec_binaries,
        request.ttl_seconds,
        now,
    );
    proof {
        if let Some(v) = rd {
            lemma_resolved_within(pr, v, parent@.readable);
        }
        if let Some(v) = wr {
            lemma_resolved_within(pw, v, parent@.writable);
        }
        if rd is None {
            lemma_none_not_within(pr, parent@.readable);
        }
        if wr is None {
            lemma_none_not_within(pw, parent@.writable);
        }
    }
    match verdict {
        Ok(expires_at) => match (readable, writable) {
            (Some(rv), Some(wv)) => Ok((rv, wv, expires_at)),
            _ => {
                proof {
                    assert(false);
                }
                Err(CapabilityError::ReadScopeWidened)
            },
        },
        Err(e) => Err(e),
    }
}

/// Paths that are not all safe are not within any roots.
proof fn lemma_none_not_within(paths: Seq<Seq<char>>, roots: Seq<Seq<char>>)
    requires
        !all_safe(paths),
    ensures
        !all_within(paths, roots),
{
    let i = choose|i: int| 0 <= i < paths.len() && !is_safe_absolute(#[trigger] paths[i]);
    assert(!(is_safe_absolute(paths[i])));
}

/// Whether the attenuation outcome `r` follows the verdict `v` on the
/// resolved roots `rd` and `wr`: the verdict's error; or, where the verdict
/// passes, a child with exactly those roots and the verdict's expiry, unless
/// the token library refused to append the child's block.
pub open spec fn follows_verdict(
    v: Result<Timestamp, CapabilityError>,
    rd: Option<Seq<Seq<char>>>,
    wr: Option<Seq<Seq<char>>>,
    r: Result<ChildCapability, CapabilityError>,
) -> bool {
    match v {
        Err(e) => outcome_of(r) == Err::<(), CapabilityError>(e),
        Ok(t) => match r {
            Ok(c) => c@.permissions.readable == rd->0 && c@.permissions.writable == wr->0 && c@.expires_at == t,
            Err(e) => e is Token,
        },
    }
}

/// Whether the grant `g` of an attenuation follows the verdict `v` on the
/// resolved roots `rd` and `wr`: the verdict's error, or those roots with
/// the verdict's expiry.
pub open spec fn granted(
    v: Result<Timestamp, CapabilityError>,
    rd: Option<Seq<Seq<char>>>,
    wr: Option<Seq<Seq<char>>>,
    g: Result<(Seq<Seq<char>>, Seq<Seq<char>>, Timestamp), CapabilityError>,
) -> bool {
    match v {
        Err(e) => g == Err::<(Seq<Seq<char>>, Seq<Seq<char>>, Timestamp), CapabilityError>(e),
        Ok(t) => g == Ok::<(Seq<Seq<char>>, Seq<Seq<char>>, Timestamp), CapabilityError>((rd->0, wr->0, t)),
    }
}

/// Roots that passed the check do not refute that the request is within.
proof fn lemma_within_after_check(req: Seq<Seq<char>>, v: Seq<Seq<char>>, parent: Seq<Seq<char>>)
    requires
        resolved_set(req, v),
        forall|j: int| 0 <= j < v.len() ==> under_any_root(#[trigger] v[j], parent),
    ensures
        roots_below(v, parent),
{
}

/// One appended restriction: the permissions, lifetime and binding that a
/// child capability was narrowed to.
#[derive(Debug)]
pub struct Caveat {
    permissions: PermissionSet,
    expires_at: Timestamp,
    request_binding: Option<RequestBinding>,
}

/// The abstract content of a caveat.
pub struct CaveatView {
    pub permissions: PermissionView,
    pub expires_at: Timestamp,
    pub request_binding: Option<BindingView>,
}

impl View for Caveat {
    type V = CaveatView;

    closed spec fn view(&self) -> CaveatView {
        CaveatView {
            permissions: self.permissions@,
            expires_at: self.expires_at,
            request_binding: binding_view(self.request_binding),
        }
    }
}

/// The state of the one block a root capability's token was written with:
/// its permissions and expiry, bound to nothing.
pub open spec fn root_block(r: RootView) -> BlockState {
    (r.permissions, r.expires_at, None)
}

/// The states of the blocks that a child's caveats record, oldest first.
pub open spec fn caveat_blocks(caveats: Seq<CaveatView>) -> Seq<BlockState> {
    Seq::new(caveats.len(), |i: int| (caveats[i].permissions, caveats[i].expires_at, caveats[i].request_binding))
}

/// Whether a root capability's token is accepted under its root key and
/// records exactly its task and its state (see [`token_holds`]), in texts
/// that read back.
pub open spec fn root_token_faithful(r: RootView) -> bool {
    &&& token_accepted(r.token, r.root_public_key)
    &&& token_holds(r.token, r.root_public_key, r.task_id, seq![root_block(r)])
    &&& blocks_read_back(r.task_id, seq![root_block(r)])
}

/// Whether a child capability's token is accepted under its root key and
/// records exactly its task, a first block and one block per caveat (see
/// [`token_holds`]), in texts that read back.
pub open spec fn child_token_faithful(c: ChildView) -> bool {
    exists|first: BlockState|
        #![trigger token_holds(c.token, c.root_public_key, c.task_id, seq![first] + caveat_blocks(c.caveats))]
        {
            &&& token_accepted(c.token, c.root_public_key)
            &&& token_holds(c.token, c.root_public_key, c.task_id, seq![first] + caveat_blocks(c.caveats))
            &&& blocks_read_back(c.task_id, seq![first] + caveat_blocks(c.caveats))
        }
}

/// Whether a child is one whose token a verifier can trust to record it: the
/// token faithfully records its caveats, its newest caveat records its
/// current permissions, expiry and binding, and its expiry falls in a year
/// of four digits.
pub open spec fn faithful_child(c: ChildView) -> bool {
    &&& child_token_faithful(c)
    &&& 0 < c.caveats.len() < i64::MAX
    &&& c.caveats.last().permissions == c.permissions
    &&& c.caveats.last().expires_at == c.expires_at
    &&& c.caveats.last().request_binding == latest_binding(c.caveats)
    &&& four_digit_year(c.expires_at)
}

/// A faithful child agrees with every state its token records: enforcement
/// that reads the token reads the child's own state, so an honest child is
/// never found tampered.
pub proof fn lemma_faithful_child_mirrors(c: ChildView, s: DecodedView)
    requires
        faithful_child(c),
        token_records(c.token, c.root_public_key, s),
    ensures
        mirrors(c, s),
{
    let first = choose|first: BlockState|
        #![trigger token_holds(c.token, c.root_public_key, c.task_id, seq![first] + caveat_blocks(c.caveats))]
        {
            &&& token_accepted(c.token, c.root_public_key)
            &&& token_holds(c.token, c.root_public_key, c.task_id, seq![first] + caveat_blocks(c.caveats))
            &&& blocks_read_back(c.task_id, seq![first] + caveat_blocks(c.caveats))
        };
    let blocks = seq![first] + caveat_blocks(c.caveats);
    let last = blocks.last();
    assert(last == blocks[blocks.len() - 1]);
    assert(last == (c.permissions, c.expires_at, latest_binding(c.caveats)));
    assert(block_reads_back(blocks[blocks.len() - 1]));
    lemma_recorded_state_is_latest_block(c.token, c.root_public_key, c.task_id, blocks, s);
    assert forall|i: int| 0 <= i < s.permissions.binaries.len() implies c.permissions.binaries.contains(
        #[trigger] s.permissions.binaries[i],
    ) by {
        assert(s.permissions.binaries.to_set().contains(s.permissions.binaries[i]));
    }
    assert forall|i: int| 0 <= i < c.permissions.binaries.len() implies s.permissions.binaries.contains(
        #[trigger] c.permissions.binaries[i],
    ) by {
        assert(c.permissions.binaries.to_set().contains(c.permissions.binaries[i]));
    }
}

/// The views of a sequence of caveats.
pub open spec fn caveat_views(v: Seq<Caveat>) -> Seq<CaveatView> {
    Seq::new(v.len(), |i: int| v[i]@)
}

/// The binding of the latest caveat that carries one.
pub open spec fn latest_binding(caveats: Seq<CaveatView>) -> Option<BindingView>
    decreases caveats.len(),
{
    if caveats.len() == 0 {
        None
    } else if caveats.last().request_binding is Some {
        caveats.last().request_binding
    } else {
        latest_binding(caveats.drop_last())
    }
}

/// The authority minted from the trusted task manifest.
#[derive(Debug)]
pub struct RootCapability {
    task_id: u128,
    permissions: PermissionSet,
    expires_at: Timestamp,
    token: Vec<u8>,
    root_public_key: [u8; 32],
}

/// The abstract content of a root capability.
pub struct RootView {
    pub task_id: u128,
    pub permissions: PermissionView,
    pub expires_at: Timestamp,
    pub token: Seq<u8>,
    pub root_public_key: Seq<u8>,
}

impl View for RootCapability {
    type V = RootView;

    closed spec fn view(&self) -> RootView {
        RootView {
            task_id: self.task_id,
            permissions: self.permissions@,
            expires_at: self.expires_at,
            token: self.token@,
            root_public_key: self.root_public_key@,
        }
    }
}

/// A child capability, created only by appending caveats that narrow its
/// parent.
#[derive(Debug)]
pub struct ChildCapability {
    task_id: u128,
    permissions: PermissionSet,
    expires_at: Timestamp,
    caveats: Vec<Caveat>,
    token: Vec<u8>,
    root_public_key: [u8; 32],
}

/// The abstract content of a child capability.
pub struct ChildView {
    pub task_id: u128,
    pub permissions: PermissionView,
    pub expires_at: Timestamp,
    pub caveats: Seq<CaveatView>,
    pub token: Seq<u8>,
    pub root_public_key: Seq<u8>,
}

impl View for ChildCapability {
    type V = ChildView;

    closed spec fn view(&self) -> ChildView {
        ChildView {
            task_id: self.task_id,
            permissions: self.permissions@,
            expires_at: self.expires_at,
            caveats: caveat_views(self.caveats@),
            token: self.token@,
            root_public_key: self.root_public_key@,
        }
    }
}

/// What a successful attenuation of a capability with permissions `parent`
/// (valid until `parent_expires_at`) by `request` at `now` gives the child:
/// the requested roots resolved and lying below the parent's, the requested
/// binaries (all the parent's), the requested network policy, the requested
/// lifetime (ending no later than the parent's), and a newest caveat that
/// records exactly these with the requested binding.
pub open spec fn attenuated(
    parent: PermissionView,
    parent_expires_at: Timestamp,
    request: AttenuationRequest,
    now: Timestamp,
    child: PermissionView,
    child_expires_at: Timestamp,
    newest: CaveatView,
) -> bool {
    &&& resolved_set(texts(request.readable_roots@), child.readable)
    &&& resolved_set(texts(request.writable_roots@), child.writable)
    &&& same_members(texts(request.exec_binaries@), child.binaries)
    &&& child.network == request.network
    &&& narrows(child, parent)
    &&& expiry_after(now, request.ttl_seconds) == Some(child_expires_at)
    &&& !child_expires_at.after(parent_expires_at)
    &&& newest.permissions == child
    &&& newest.expires_at == child_expires_at
    &&& newest.request_binding == binding_view(request.request_binding)
}

/// What attenuation owes on failure and when it owes success (see
/// [`attenuation_verdict_ok`]), with the grant reduced to success or error;
/// where the checks pass, the token library may still refuse to append the
/// child's block.
pub open spec fn attenuation_error_ok(
    parent: PermissionView,
    parent_expires_at: Timestamp,
    request: AttenuationRequest,
    now: Timestamp,
    r: Result<(), CapabilityError>,
) -> bool {
    exists|g: Result<(Seq<Seq<char>>, Seq<Seq<char>>, Timestamp), CapabilityError>|
        #![trigger attenuation_verdict_ok(parent, parent_expires_at, texts(request.readable_roots@), texts(request.writable_roots@), texts(request.exec_binaries@), request.ttl_seconds, now, g)]
        attenuation_verdict_ok(
            parent,
            parent_expires_at,
            texts(request.readable_roots@),
            texts(request.writable_roots@),
            texts(request.exec_binaries@),
            request.ttl_seconds,
            now,
            g,
        ) && match g {
            Ok(_) => match r {
                Ok(_) => true,
                Err(e) => e is Token,
            },
            Err(e) => r == Err::<(), CapabilityError>(e),
        }
}

/// The outcome of an attenuation reduced to success or error.
pub open spec fn outcome_of<T>(r: Result<T, CapabilityError>) -> Result<(), CapabilityError> {
    match r {
        Ok(_) => Ok(()),
        Err(e) => Err(e),
    }
}

/// The narrowed permissions and caveat for a validated request.
fn grant_caveat(
    readable_roots: Vec<String>,
    writable_roots: Vec<String>,
    request: AttenuationRequest,
    expires_at: Timestamp,
) -> (r: (PermissionSet, Caveat))
    requires
        distinct_paths(texts(readable_roots@)),
        distinct_paths(texts(writable_roots@)),
    ensures
        r.0@.readable == texts(readable_roots@),
        r.0@.writable == texts(writable_roots@),
        same_members(texts(request.exec_binaries@), r.0@.binaries),
        r.0@.network == request.network,
        r.1@.permissions == r.0@,
        r.1@.expires_at == expires_at,
        r.1@.request_binding == binding_view(request.request_binding),
{
    let exec_binaries = distinct_strings(&request.exec_binaries);
    let exec_copy = copy_strings(&exec_binaries);
    let permissions = PermissionSet {
        readable_roots: copy_strings(&readable_roots),
        writable_roots: copy_strings(&writable_roots),
        exec_binaries,
        network: request.network,
    };
    let mirror = PermissionSet {
        readable_roots,
        writable_roots,
        exec_binaries: exec_copy,
        network: request.network,
    };
    (permissions, Caveat { permissions: mirror, expires_at, request_binding: request.request_binding })
}

/// A vector holding strings with the same texts as `v`.
pub fn copy_strings(v: &Vec<String>) -> (r: Vec<String>)
    ensures
        texts(r@) == texts(v@),
{
    let mut out: Vec<String> = Vec::new();
    let mut i: usize = 0;
    while i < v.len()
        invariant
            i <= v@.len(),
            texts(out@) == texts(v@).subrange(0, i as int),
        decreases v@.len() - i,
    {
        let ghost before = out@;
        out.push(v[i].clone());
        proof {
            assert(texts(out@) =~= texts(before).push(v@[i as int]@));
            assert(texts(v@).subrange(0, i + 1) =~= texts(v@).subrange(0, i as int).push(
                texts(v@)[i as int],
            ));
        }
        i = i + 1;
    }
    assert(texts(v@).subrange(0, v@.len() as int) =~= texts(v@));
    out
}

impl PermissionSet {
    /// A copy of this permission set.
    pub fn duplicate(&self) -> (r: PermissionSet)
        ensures
            r@ == self@,
    {
        proof {
            use_type_invariant(self);
        }
        PermissionSet {
            readable_roots: copy_strings(&self.readable_roots),
            writable_roots: copy_strings(&self.writable_roots),
            exec_binaries: copy_strings(&self.exec_binaries),
            network: self.network,
        }
    }
}

/// A copy of an optional binding.
fn duplicate_binding(b: &Option<RequestBinding>) -> (r: Option<RequestBinding>)
    ensures
        binding_view(r) == binding_view(*b),
{
    match b {
        Some(x) => Some(x.duplicate()),
        None => None,
    }
}

impl Caveat {
    /// A copy of this caveat.
    fn duplicate(&self) -> (r: Caveat)
        ensures
            r@ == self@,
    {
        Caveat {
            permissions: self.permissions.duplicate(),
            expires_at: self.expires_at,
            request_binding: duplicate_binding(&self.request_binding),
        }
    }
}

/// Copies of the caveats `v`, in order.
fn copy_caveats(v: &Vec<Caveat>) -> (r: Vec<Caveat>)
    ensures
        caveat_views(r@) == caveat_views(v@),
{
    let mut out: Vec<Caveat> = Vec::new();
    let mut i: usize = 0;
    while i < v.len()
        invariant
            i <= v@.len(),
            caveat_views(out@) == caveat_views(v@).subrange(0, i as int),
        decreases v@.len() - i,
    {
        let ghost before = out@;
        out.push(v[i].duplicate());
        proof {
            assert(caveat_views(out@) =~= caveat_views(before).push(v@[i as int]@));
            assert(caveat_views(v@).subrange(0, i + 1) =~= caveat_views(v@).subrange(
                0,
                i as int,
            ).push(caveat_views(v@)[i as int]));
        }
        i = i + 1;
    }
    assert(caveat_views(v@).subrange(0, v@.len() as int) =~= caveat_views(v@));
    out
}

/// What minting from `manifest` at `now` owes: the manifest's own verdict
/// first, then a lifetime that can be represented; then either the token
/// library refused to sign the first block, or the root carries the
/// manifest's task, its roots resolved against the filesystem, its distinct
/// binaries, its network policy and its lifetime.
pub open spec fn mint_ok(manifest: TaskManifest, now: Timestamp, r: Result<RootView, CapabilityError>) -> bool {
    match manifest_verdict(manifest) {
        Err(e) => r == Err::<RootView, CapabilityError>(CapabilityError::InvalidManifest(e)),
        Ok(_) => match expiry_after(now, manifest.ttl_seconds) {
            None => r == Err::<RootView, CapabilityError>(CapabilityError::TtlOverflow),
            Some(t) => match r {
                Err(e) => e is Token,
                Ok(c) => {
                    &&& c.task_id == manifest.task_id
                    &&& c.expires_at == t
                    &&& resolved_set(texts(manifest.filesystem.readable_roots@), c.permissions.readable)
                    &&& resolved_set(texts(manifest.filesystem.writable_roots@), c.permissions.writable)
                    &&& same_members(texts(manifest.exec_policy.allowed_binaries@), c.permissions.binaries)
                    &&& c.permissions.network == manifest.network
                },
            },
        },
    }
}

/// The view of a minted root, or the error.
pub open spec fn root_outcome(r: Result<RootCapability, CapabilityError>) -> Result<RootView, CapabilityError> {
    match r {
        Ok(c) => Ok(c@),
        Err(e) => Err(e),
    }
}

impl RootCapability {
    /// Mints the root authority of a task from its manifest at `now`.
    pub fn mint(manifest: &TaskManifest, now: Timestamp) -> (r: Result<RootCapability, CapabilityError>)
        requires
            now.wf(),
            ttl_in_domain(manifest.ttl_seconds),
        ensures
            mint_ok(*manifest, now, root_outcome(r)),
            r matches Ok(c) ==> root_token_faithful(c@),
    {
        match manifest.validate() {
            Ok(()) => {},
            Err(e) => return Err(CapabilityError::InvalidManifest(e)),
        }
        let expires_at = match checked_expires_at(now, manifest.ttl_seconds) {
            Ok(t) => t,
            Err(e) => return Err(e),
        };
        let permissions = match PermissionSet::from_manifest(manifest) {
            Ok(p) => p,
            Err(e) => return Err(e),
        };
        let keypair = new_keypair();
        let root_public_key = keypair_public_bytes(&keypair);
        let token = match build_root_token(manifest.task_id, &permissions, expires_at, &keypair) {
            Ok(t) => t,
            Err(e) => return Err(CapabilityError::Token(e)),
        };
        let root = RootCapability { task_id: manifest.task_id, permissions, expires_at, token, root_public_key };
        assert(root_block(root@) == (root@.permissions, expires_at, None::<BindingView>));
        Ok(root)
    }

    /// The permissions of this capability.
    pub fn permissions(&self) -> (r: &PermissionSet)
        ensures
            r@ == self@.permissions,
    {
        &self.permissions
    }

    /// The task this capability belongs to.
    pub fn task_id(&self) -> (r: u128)
        ensures
            r == self@.task_id,
    {
        self.task_id
    }

    /// When this capability expires.
    pub fn expires_at(&self) -> (r: Timestamp)
        ensures
            r == self@.expires_at,
    {
        self.expires_at
    }

    /// Derives a child capability narrowed to `request`, valid from `now`.
    pub fn attenuate(&self, request: AttenuationRequest, now: Timestamp) -> (r: Result<
        ChildCapability,
        CapabilityError,
    >)
        requires
            now.wf(),
            ttl_in_domain(request.ttl_seconds),
        ensures
            attenuation_error_ok(self@.permissions, self@.expires_at, request, now, outcome_of(r)),
            exists|rd: Option<Seq<Seq<char>>>, wr: Option<Seq<Seq<char>>>|
                #![trigger verdict_given(self@.permissions, self@.expires_at, rd, wr, texts(request.exec_binaries@), request.ttl_seconds, now)]
                resolved_or_none(texts(request.readable_roots@), rd) && resolved_or_none(
                    texts(request.writable_roots@),
                    wr,
                ) && follows_verdict(
                    verdict_given(self@.permissions, self@.expires_at, rd, wr, texts(request.exec_binaries@), request.ttl_seconds, now),
                    rd,
                    wr,
                    r,
                ),
            r matches Ok(c) ==> (root_token_faithful(self@) ==> child_token_faithful(c@)),
            r matches Ok(c) ==> {
                &&& c@.task_id == self@.task_id
                &&& c@.root_public_key == self@.root_public_key
                &&& c@.caveats.len() == 1
                &&& attenuated(
                    self@.permissions,
                    self@.expires_at,
                    request,
                    now,
                    c@.permissions,
                    c@.expires_at,
                    c@.caveats[0],
                )
            },
    {
        let checked = validate_attenuation(&self.permissions, self.expires_at, &request, now);
        let ghost g = grant_view(checked);
        let ghost (rd, wr) = choose|rd: Option<Seq<Seq<char>>>, wr: Option<Seq<Seq<char>>>|
            resolved_or_none(texts(request.readable_roots@), rd) && resolved_or_none(
                texts(request.writable_roots@),
                wr,
            ) && granted(
                verdict_given(self@.permissions, self@.expires_at, rd, wr, texts(request.exec_binaries@), request.ttl_seconds, now),
                rd,
                wr,
                g,
            );
        let ghost v = verdict_given(self@.permissions, self@.expires_at, rd, wr, texts(request.exec_binaries@), request.ttl_seconds, now);
        let (readable, writable, expires_at) = match checked {
            Ok(x) => x,
            Err(e) => {
                assert(attenuation_verdict_ok(
                    self@.permissions,
                    self@.expires_at,
                    texts(request.readable_roots@),
                    texts(request.writable_roots@),
                    texts(request.exec_binaries@),
                    request.ttl_seconds,
                    now,
                    g,
                ));
                assert(follows_verdict(v, rd, wr, Err::<ChildCapability, CapabilityError>(e)));
                return Err(e);
            },
        };
        let ghost req = request;
        proof {
            assert(attenuation_verdict_ok(
                self@.permissions,
                self@.expires_at,
                texts(request.readable_roots@),
                texts(request.writable_roots@),
                texts(request.exec_binaries@),
                request.ttl_seconds,
                now,
                g,
            ));
            lemma_resolved_set_distinct(texts(request.readable_roots@), texts(readable@));
            lemma_resolved_set_distinct(texts(request.writable_roots@), texts(writable@));
        }
        let (permissions, caveat) = grant_caveat(readable, writable, request, expires_at);
        let token = match append_block(
            self.token.as_slice(),
            &self.root_public_key,
            1,
            &permissions,
            expires_at,
            caveat.request_binding.as_ref(),
        ) {
            Ok(t) => t,
            Err(e) => {
                assert(follows_verdict(v, rd, wr, Err::<ChildCapability, CapabilityError>(CapabilityError::Token(e))));
                return Err(CapabilityError::Token(e));
            },
        };
        let mut caveats: Vec<Caveat> = Vec::new();
        caveats.push(caveat);
        let child = ChildCapability {
            task_id: self.task_id,
            permissions,
            expires_at,
            caveats,
            token,
            root_public_key: self.root_public_key,
        };
        proof {
            assert(attenuation_verdict_ok(
                self@.permissions,
                self@.expires_at,
                texts(req.readable_roots@),
                texts(req.writable_roots@),
                texts(req.exec_binaries@),
                req.ttl_seconds,
                now,
                g,
            ));
            assert(child@.caveats[0] == caveats@[0]@);
            if root_token_faithful(self@) {
                let st: BlockState = (child@.permissions, child@.expires_at, child@.caveats[0].request_binding);
                let blocks = seq![root_block(self@)];
                lemma_extended_token_holds(child@.token, self@.token, self@.root_public_key, self@.task_id, blocks, st);
                assert(blocks.push(st) =~= seq![root_block(self@)] + caveat_blocks(child@.caveats));
                assert forall|i: int| 0 <= i < blocks.push(st).len() implies block_reads_back(#[trigger] blocks.push(st)[i]) by {
                    if i == 0 {
                        assert(blocks[0] == blocks.push(st)[i]);
                    }
                }
                assert(token_holds(child@.token, child@.root_public_key, child@.task_id, seq![root_block(self@)] + caveat_blocks(child@.caveats)));
            }
            lemma_same_members_within(texts(req.exec_binaries@), child@.permissions.binaries, self@.permissions.binaries);
            assert(follows_verdict(v, rd, wr, Ok::<ChildCapability, CapabilityError>(child)));
        }
        Ok(child)
    }
}

/// The distinct members of a list of binaries within an allowlist are
/// within it too.
proof fn lemma_same_members_within(v: Seq<Seq<char>>, set: Seq<Seq<char>>, allowed: Seq<Seq<char>>)
    requires
        same_members(v, set),
        binaries_within(v, allowed),
    ensures
        binaries_within(set, allowed),
{
    assert forall|j: int| 0 <= j < set.len() implies allowed.contains(#[trigger] set[j]) by {
        assert(v.contains(set[j]));
        let i = choose|i: int| 0 <= i < v.len() && v[i] == set[j];
        assert(allowed.contains(v[i]));
    }
}

impl ChildCapability {
    /// Derives a further child narrowed to `request`, valid from `now`; the
    /// caveats of this capability are kept and the new one appended.
    pub fn attenuate(&self, request: AttenuationRequest, now: Timestamp) -> (r: Result<
        ChildCapability,
        CapabilityError,
    >)
        requires
            now.wf(),
            ttl_in_domain(request.ttl_seconds),
        ensures
            attenuation_error_ok(self@.permissions, self@.expires_at, request, now, outcome_of(r)),
            exists|rd: Option<Seq<Seq<char>>>, wr: Option<Seq<Seq<char>>>|
                #![trigger verdict_given(self@.permissions, self@.expires_at, rd, wr, texts(request.exec_binaries@), request.ttl_seconds, now)]
                resolved_or_none(texts(request.readable_roots@), rd) && resolved_or_none(
                    texts(request.writable_roots@),
                    wr,
                ) && follows_verdict(
                    verdict_given(self@.permissions, self@.expires_at, rd, wr, texts(request.exec_binaries@), request.ttl_seconds, now),
                    rd,
                    wr,
                    r,
                ),
            r matches Ok(c) ==> (child_token_faithful(self@) && self@.caveats.len() < i64::MAX
                ==> child_token_faithful(c@)),
            r matches Ok(c) ==> {
                &&& c@.task_id == self@.task_id
                &&& c@.root_public_key == self@.root_public_key
                &&& c@.caveats.len() == self@.caveats.len() + 1
                &&& c@.caveats.drop_last() == self@.caveats
                &&& attenuated(
                    self@.permissions,
                    self@.expires_at,
                    request,
                    now,
                    c@.permissions,
                    c@.expires_at,
                    c@.caveats.last(),
                )
            },
    {
        let checked = validate_attenuation(&self.permissions, self.expires_at, &request, now);
        let ghost g = grant_view(checked);
        let ghost (rd, wr) = choose|rd: Option<Seq<Seq<char>>>, wr: Option<Seq<Seq<char>>>|
            resolved_or_none(texts(request.readable_roots@), rd) && resolved_or_none(
                texts(request.writable_roots@),
                wr,
            ) && granted(
                verdict_given(self@.permissions, self@.expires_at, rd, wr, texts(request.exec_binaries@), request.ttl_seconds, now),
                rd,
                wr,
                g,
            );
        let ghost v = verdict_given(self@.permissions, self@.expires_at, rd, wr, texts(request.exec_binaries@), request.ttl_seconds, now);
        let (readable, writable, expires_at) = match checked {
            Ok(x) => x,
            Err(e) => {
                assert(attenuation_verdict_ok(
                    self@.permissions,
                    self@.expires_at,
                    texts(request.readable_roots@),
                    texts(request.writable_roots@),
                    texts(request.exec_binaries@),
                    request.ttl_seconds,
                    now,
                    g,
                ));
                assert(follows_verdict(v, rd, wr, Err::<ChildCapability, CapabilityError>(e)));
                return Err(e);
            },
        };
        let ghost req = request;
        proof {
            assert(attenuation_verdict_ok(
                self@.permissions,
                self@.expires_at,
                texts(request.readable_roots@),
                texts(request.writable_roots@),
                texts(request.exec_binaries@),
                request.ttl_seconds,
                now,
                g,
            ));
            lemma_resolved_set_distinct(texts(request.readable_roots@), texts(readable@));
            lemma_resolved_set_distinct(texts(request.writable_roots@), texts(writable@));
        }
        let (permissions, caveat) = grant_caveat(readable, writable, request, expires_at);
        let block_id = (self.caveats.len() as u64).saturating_add(1);
        let token = match append_block(
            self.token.as_slice(),
            &self.root_public_key,
            block_id,
            &permissions,
            expires_at,
            caveat.request_binding.as_ref(),
        ) {
            Ok(t) => t,
            Err(e) => {
                assert(follows_verdict(v, rd, wr, Err::<ChildCapability, CapabilityError>(CapabilityError::Token(e))));
                return Err(CapabilityError::Token(e));
            },
        };
        let mut caveats = copy_caveats(&self.caveats);
        let ghost before = caveats@;
        caveats.push(caveat);
        let child = ChildCapability {
            task_id: self.task_id,
            permissions,
            expires_at,
            caveats,
            token,
            root_public_key: self.root_public_key,
        };
        proof {
            assert(attenuation_verdict_ok(
                self@.permissions,
                self@.expires_at,
                texts(req.readable_roots@),
                texts(req.writable_roots@),
                texts(req.exec_binaries@),
                req.ttl_seconds,
                now,
                g,
            ));
            assert(caveat_views(caveats@) =~= caveat_views(before).push(caveats@.last()@));
            assert(child@.caveats.drop_last() =~= self@.caveats);
            if child_token_faithful(self@) && self@.caveats.len() < i64::MAX {
                let first = choose|first: BlockState|
                    #![trigger token_holds(self@.token, self@.root_public_key, self@.task_id, seq![first] + caveat_blocks(self@.caveats))]
                    {
                        &&& token_accepted(self@.token, self@.root_public_key)
                        &&& token_holds(self@.token, self@.root_public_key, self@.task_id, seq![first] + caveat_blocks(self@.caveats))
                        &&& blocks_read_back(self@.task_id, seq![first] + caveat_blocks(self@.caveats))
                    };
                let blocks = seq![first] + caveat_blocks(self@.caveats);
                let st: BlockState = (child@.permissions, child@.expires_at, child@.caveats.last().request_binding);
                lemma_extended_token_holds(child@.token, self@.token, self@.root_public_key, self@.task_id, blocks, st);
                assert(blocks.push(st) =~= seq![first] + caveat_blocks(child@.caveats));
                assert forall|i: int| 0 <= i < blocks.push(st).len() implies block_reads_back(#[trigger] blocks.push(st)[i]) by {
                    if i < blocks.len() {
                        assert(blocks[i] == blocks.push(st)[i]);
                    }
                }
                assert(token_holds(child@.token, child@.root_public_key, child@.task_id, seq![first] + caveat_blocks(child@.caveats)));
            }
            lemma_same_members_within(texts(req.exec_binaries@), child@.permissions.binaries, self@.permissions.binaries);
            assert(follows_verdict(v, rd, wr, Ok::<ChildCapability, CapabilityError>(child)));
        }
        Ok(child)
    }

    /// The permissions of this capability.
    pub fn permissions(&self) -> (r: &PermissionSet)
        ensures
            r@ == self@.permissions,
    {
        &self.permissions
    }

    /// When this capability expires.
    pub fn expires_at(&self) -> (r: Timestamp)
        ensures
            r == self@.expires_at,
    {
        self.expires_at
    }

    /// The task this capability belongs to.
    pub fn task_id(&self) -> (r: u128)
        ensures
            r == self@.task_id,
    {
        self.task_id
    }

    /// The binding of the newest caveat that carries one.
    pub fn request_binding(&self) -> (r: Option<&RequestBinding>)
        ensures
            match r {
                Some(b) => latest_binding(self@.caveats) == Some(b@),
                None => latest_binding(self@.caveats) is None,
            },
    {
        let mut i: usize = self.caveats.len();
        assert(self@.caveats.subrange(0, self@.caveats.len() as int) =~= self@.caveats);
        while i > 0
            invariant
                i <= self.caveats@.len(),
                latest_binding(self@.caveats) == latest_binding(self@.caveats.subrange(0, i as int)),
            decreases i,
        {
            let ghost prefix = self@.caveats.subrange(0, i as int);
            assert(prefix.last() == self.caveats@[i - 1]@);
            assert(prefix.drop_last() =~= self@.caveats.subrange(0, i - 1));
            match &self.caveats[i - 1].request_binding {
                Some(b) => return Some(b),
                None => {},
            }
            i = i - 1;
        }
        None
    }
}

/// A path below a root that lies below one of `parent` lies below one of
/// `parent` itself: what a narrowed capability's roots admit, its parent's
/// roots admit too.
pub proof fn lemma_narrowed_roots_admit_less(
    q: Seq<char>,
    child: Seq<Seq<char>>,
    parent: Seq<Seq<char>>,
)
    requires
        under_any_root(q, child),
        roots_below(child, parent),
    ensures
        under_any_root(q, parent),
{
    let i = choose|i: int| 0 <= i < child.len() && starts_with(q, #[trigger] child[i]);
    assert(under_any_root(child[i], parent));
    let k = choose|k: int| 0 <= k < parent.len() && starts_with(child[i], #[trigger] parent[k]);
    crate::path::lemma_starts_with_trans(q, child[i], parent[k]);
}

/// Capabilities only narrow: where attenuation gave a child, every path
/// resolution its readable (writable) roots admit, the parent's admit too,
/// so the child's read and write checks answer yes only where the parent's
/// would on the same filesystem; every binary it may run the parent may
/// run; its lifetime is the requested one from `now` and ends no later than
/// the parent's; and its newest caveat carries the requested binding.
pub proof fn lemma_attenuated_child_within_parent(
    parent: PermissionView,
    parent_expires_at: Timestamp,
    request: AttenuationRequest,
    now: Timestamp,
    child: PermissionView,
    child_expires_at: Timestamp,
    newest: CaveatView,
)
    requires
        attenuated(parent, parent_expires_at, request, now, child, child_expires_at, newest),
    ensures
        forall|q: Seq<char>| #[trigger] under_any_root(q, child.readable) ==> under_any_root(q, parent.readable),
        forall|q: Seq<char>| #[trigger] under_any_root(q, child.writable) ==> under_any_root(q, parent.writable),
        forall|path: Seq<char>|
            #[trigger] answers_for_path(path, child.readable, true) ==> answers_for_path(path, parent.readable, true),
        forall|path: Seq<char>|
            #[trigger] answers_for_path(path, child.writable, true) ==> answers_for_path(path, parent.writable, true),
        forall|b: Seq<char>| #[trigger] child.binaries.contains(b) ==> parent.binaries.contains(b),
        expiry_after(now, request.ttl_seconds) == Some(child_expires_at),
        !child_expires_at.after(parent_expires_at),
        newest.request_binding == binding_view(request.request_binding),
{
    assert forall|q: Seq<char>| #[trigger] under_any_root(q, child.readable) implies under_any_root(q, parent.readable) by {
        lemma_narrowed_roots_admit_less(q, child.readable, parent.readable);
    }
    assert forall|q: Seq<char>| #[trigger] under_any_root(q, child.writable) implies under_any_root(q, parent.writable) by {
        lemma_narrowed_roots_admit_less(q, child.writable, parent.writable);
    }
    assert forall|path: Seq<char>| #[trigger] answers_for_path(path, child.readable, true) implies answers_for_path(
        path,
        parent.readable,
        true,
    ) by {
        let q = choose|q: Seq<char>| resolution_of(path, q) && true == under_any_root(q, child.readable);
        lemma_narrowed_roots_admit_less(q, child.readable, parent.readable);
    }
    assert forall|path: Seq<char>| #[trigger] answers_for_path(path, child.writable, true) implies answers_for_path(
        path,
        parent.writable,
        true,
    ) by {
        let q = choose|q: Seq<char>| resolution_of(path, q) && true == under_any_root(q, child.writable);
        lemma_narrowed_roots_admit_less(q, child.writable, parent.writable);
    }
    assert forall|b: Seq<char>| #[trigger] child.binaries.contains(b) implies parent.binaries.contains(b) by {
        let i = choose|i: int| 0 <= i < child.binaries.len() && child.binaries[i] == b;
        assert(parent.binaries.contains(child.binaries[i]));
    }
}

/// Narrowing is transitive: a capability attenuated from one that was
/// attenuated from a parent grants nothing the parent does not.
pub proof fn lemma_narrows_transitive(a: PermissionView, b: PermissionView, c: PermissionView)
    requires
        narrows(a, b),
        narrows(b, c),
    ensures
        narrows(a, c),
{
    assert forall|j: int| 0 <= j < a.readable.len() implies under_any_root(#[trigger] a.readable[j], c.readable) by {
        lemma_narrowed_roots_admit_less(a.readable[j], b.readable, c.readable);
    }
    assert forall|j: int| 0 <= j < a.writable.len() implies under_any_root(#[trigger] a.writable[j], c.writable) by {
        lemma_narrowed_roots_admit_less(a.writable[j], b.writable, c.writable);
    }
}

/// Narrowing allows equality: a permission set narrows itself, so a child
/// may carry its parent's whole scope.
pub proof fn lemma_narrows_reflexive(p: PermissionView)
    ensures
        narrows(p, p),
{
    assert forall|j: int| 0 <= j < p.readable.len() implies under_any_root(#[trigger] p.readable[j], p.readable) by {
        let c = components(p.readable[j]);
        assert(c.subrange(0, c.len() as int) =~= c);
    }
    assert forall|j: int| 0 <= j < p.writable.len() implies under_any_root(#[trigger] p.writable[j], p.writable) by {
        let c = components(p.writable[j]);
        assert(c.subrange(0, c.len() as int) =~= c);
    }
}

/// A chain of attenuations ends no later than where it started: a lifetime
/// no later than one that is no later than the parent's is no later than
/// the parent's.
pub proof fn lemma_expiry_transitive(a: Timestamp, b: Timestamp, c: Timestamp)
    requires
        !a.after(b),
        !b.after(c),
    ensures
        !a.after(c),
{
}

/// The bytes that bind one tool invocation: the tool name in UTF-8, a zero
/// byte, the canonical arguments, a zero byte, and the nonce's sixteen bytes
/// (most significant first).
pub open spec fn argument_preimage(tool_name: Seq<char>, arguments: Seq<u8>, nonce: u128) -> Seq<u8> {
    encode_utf8(tool_name) + seq![0u8] + arguments + seq![0u8] + be_bytes(nonce as nat, 16)
}

/// The BLAKE3 digest that binds a capability to one invocation of
/// `tool_name` with `canonical_arguments` under `nonce`.
pub fn hash_tool_arguments(tool_name: &str, canonical_arguments: &[u8], nonce: u128) -> (r: [u8; 32])
    ensures
        r@ == blake3_digest(argument_preimage(tool_name@, canonical_arguments@, nonce)),
{
    let mut preimage: Vec<u8> = Vec::new();
    push_bytes(&mut preimage, tool_name.as_bytes());
    preimage.push(0);
    push_bytes(&mut preimage, canonical_arguments);
    preimage.push(0);
    let nonce_bytes = be_bytes_of(nonce, 16);
    push_bytes(&mut preimage, nonce_bytes.as_slice());
    assert(preimage@ =~= argument_preimage(tool_name@, canonical_arguments@, nonce));
    blake3_hash(preimage.as_slice())
}

/// `256` to the power `k`: the numbers that `k` bytes can hold.
pub open spec fn byte_range(k: nat) -> nat
    decreases k,
{
    if k == 0 {
        1
    } else {
        256 * byte_range((k - 1) as nat)
    }
}

/// Numbers that `k` bytes hold are told apart by their `k` bytes.
pub proof fn lemma_be_bytes_injective(a: nat, b: nat, k: nat)
    requires
        a < byte_range(k),
        b < byte_range(k),
        be_bytes(a, k) == be_bytes(b, k),
    ensures
        a == b,
    decreases k,
{
    if k > 0 {
        let pa = be_bytes(a / 256, (k - 1) as nat);
        let pb = be_bytes(b / 256, (k - 1) as nat);
        assert(be_bytes(a, k).last() == (a % 256) as u8);
        assert(be_bytes(b, k).last() == (b % 256) as u8);
        assert(be_bytes(a, k).drop_last() =~= pa);
        assert(be_bytes(b, k).drop_last() =~= pb);
        let r = byte_range((k - 1) as nat);
        assert(a / 256 < r) by (nonlinear_arith)
            requires
                a < 256 * r,
        ;
        assert(b / 256 < r) by (nonlinear_arith)
            requires
                b < 256 * r,
        ;
        lemma_be_bytes_injective(a / 256, b / 256, (k - 1) as nat);
    }
}

/// The binding is tied to its nonce: the same tool and arguments under two
/// different nonces give two different byte strings to hash.
pub proof fn lemma_preimage_binds_nonce(tool_name: Seq<char>, arguments: Seq<u8>, n1: u128, n2: u128)
    requires
        n1 != n2,
    ensures
        argument_preimage(tool_name, arguments, n1) != argument_preimage(tool_name, arguments, n2),
{
    let p1 = argument_preimage(tool_name, arguments, n1);
    let p2 = argument_preimage(tool_name, arguments, n2);
    let head = encode_utf8(tool_name) + seq![0u8] + arguments + seq![0u8];
    assert(byte_range(16) == 0x1_0000_0000_0000_0000_0000_0000_0000_0000) by {
        reveal_with_fuel(byte_range, 17);
    }
    if p1 == p2 {
        assert(p1.subrange(head.len() as int, p1.len() as int) =~= be_bytes(n1 as nat, 16));
        assert(p2.subrange(head.len() as int, p2.len() as int) =~= be_bytes(n2 as nat, 16));
        lemma_be_bytes_injective(n1 as nat, n2 as nat, 16);
    }
}

/// Whether `p` names the same path as one of `set`.
pub open spec fn names_member(p: Seq<char>, set: Seq<Seq<char>>) -> bool {
    exists|j: int| 0 <= j < set.len() && same_path(#[trigger] set[j], p)
}

/// Whether `a` and `b` name the same paths.
pub open spec fn same_path_sets(a: Seq<Seq<char>>, b: Seq<Seq<char>>) -> bool {
    &&& forall|i: int| 0 <= i < a.len() ==> names_member(#[trigger] a[i], b)
    &&& forall|j: int| 0 <= j < b.len() ==> names_member(#[trigger] b[j], a)
}

/// Whether `a` and `b` hold the same texts.
pub open spec fn same_text_sets(a: Seq<Seq<char>>, b: Seq<Seq<char>>) -> bool {
    &&& forall|i: int| 0 <= i < a.len() ==> b.contains(#[trigger] a[i])
    &&& forall|j: int| 0 <= j < b.len() ==> a.contains(#[trigger] b[j])
}

/// Whether two permission views grant the same: the same paths, the same
/// binaries and the same network policy.
pub open spec fn same_permissions(a: PermissionView, b: PermissionView) -> bool {
    &&& same_path_sets(a.readable, b.readable)
    &&& same_path_sets(a.writable, b.writable)
    &&& same_text_sets(a.binaries, b.binaries)
    &&& a.network == b.network
}

/// Whether a child's own record of its state agrees with the state decoded
/// from its token: the same task, permissions and expiry, and the binding
/// its caveats record (that of the newest caveat carrying one). A child
/// whose newest block drops a binding that an earlier caveat set does not
/// agree with its token, so that a binding is never lost by attenuation.
pub open spec fn mirrors(c: ChildView, d: DecodedView) -> bool {
    &&& d.task_id == c.task_id
    &&& same_permissions(d.permissions, c.permissions)
    &&& d.expires_at == c.expires_at
    &&& d.request_binding == latest_binding(c.caveats)
}

/// A state that agrees with a child's record grants exactly what the record
/// grants: the same task, the same binaries (each binary of one is a binary
/// of the other), read and write roots that admit the same paths, the same
/// network policy, expiry and binding.
pub proof fn lemma_agreeing_state_grants_alike(c: ChildView, d: DecodedView)
    requires
        mirrors(c, d),
    ensures
        d.task_id == c.task_id,
        forall|b: Seq<char>| #[trigger] c.permissions.binaries.contains(b) <==> d.permissions.binaries.contains(b),
        forall|q: Seq<char>|
            #[trigger] under_any_root(q, c.permissions.readable) <==> under_any_root(q, d.permissions.readable),
        forall|q: Seq<char>|
            #[trigger] under_any_root(q, c.permissions.writable) <==> under_any_root(q, d.permissions.writable),
        d.permissions.network == c.permissions.network,
        d.expires_at == c.expires_at,
        d.request_binding == latest_binding(c.caveats),
{
    let cp = c.permissions;
    let dp = d.permissions;
    assert forall|b: Seq<char>| #[trigger] cp.binaries.contains(b) <==> dp.binaries.contains(b) by {
        if cp.binaries.contains(b) {
            let i = choose|i: int| 0 <= i < cp.binaries.len() && cp.binaries[i] == b;
            assert(dp.binaries.contains(cp.binaries[i]));
        }
        if dp.binaries.contains(b) {
            let i = choose|i: int| 0 <= i < dp.binaries.len() && dp.binaries[i] == b;
            assert(cp.binaries.contains(dp.binaries[i]));
        }
    }
    lemma_same_path_sets_admit_alike(cp.readable, dp.readable);
    lemma_same_path_sets_admit_alike(cp.writable, dp.writable);
}

/// Roots that name the same paths admit the same paths.
proof fn lemma_same_path_sets_admit_alike(a: Seq<Seq<char>>, b: Seq<Seq<char>>)
    requires
        same_path_sets(b, a),
    ensures
        forall|q: Seq<char>| #[trigger] under_any_root(q, a) <==> under_any_root(q, b),
{
    assert forall|q: Seq<char>| #[trigger] under_any_root(q, a) <==> under_any_root(q, b) by {
        if under_any_root(q, a) {
            let i = choose|i: int| 0 <= i < a.len() && starts_with(q, #[trigger] a[i]);
            assert(names_member(a[i], b));
            let j = choose|j: int| 0 <= j < b.len() && same_path(#[trigger] b[j], a[i]);
            reveal(same_path);
            assert(starts_with(q, b[j]));
        }
        if under_any_root(q, b) {
            let j = choose|j: int| 0 <= j < b.len() && starts_with(q, #[trigger] b[j]);
            assert(names_member(b[j], a));
            let i = choose|i: int| 0 <= i < a.len() && same_path(#[trigger] a[i], b[j]);
            reveal(same_path);
            assert(starts_with(q, a[i]));
        }
    }
}

/// Whether every path of `a` names the same path as one of `b`.
fn paths_covered(a: &Vec<String>, b: &Vec<String>) -> (r: bool)
    ensures
        r == forall|i: int| 0 <= i < a@.len() ==> names_member(#[trigger] texts(a@)[i], texts(b@)),
{
    let mut i: usize = 0;
    while i < a.len()
        invariant
            i <= a@.len(),
            forall|k: int| 0 <= k < i ==> names_member(#[trigger] texts(a@)[k], texts(b@)),
        decreases a@.len() - i,
    {
        match find_same_path(b, a[i].as_str()) {
            Some(j) => {
                assert(same_path(texts(b@)[j as int], texts(a@)[i as int]));
            },
            None => {
                assert(!names_member(texts(a@)[i as int], texts(b@)));
                return false;
            },
        }
        i = i + 1;
    }
    true
}

/// Whether every text of `a` is one of `b`.
fn texts_covered(a: &Vec<String>, b: &Vec<String>) -> (r: bool)
    ensures
        r == forall|i: int| 0 <= i < a@.len() ==> texts(b@).contains(#[trigger] texts(a@)[i]),
{
    let mut i: usize = 0;
    while i < a.len()
        invariant
            i <= a@.len(),
            forall|k: int| 0 <= k < i ==> texts(b@).contains(#[trigger] texts(a@)[k]),
        decreases a@.len() - i,
    {
        if crate::text::contains_str(b, a[i].as_str()) {
            let ghost j = choose|j: int| 0 <= j < b@.len() && #[trigger] b@[j]@ == a@[i as int]@;
            assert(texts(b@)[j] == texts(a@)[i as int]);
        } else {
            proof {
                if texts(b@).contains(texts(a@)[i as int]) {
                    let j = choose|j: int| 0 <= j < texts(b@).len() && texts(b@)[j] == texts(a@)[i as int];
                    assert(b@[j]@ == a@[i as int]@);
                }
            }
            return false;
        }
        i = i + 1;
    }
    true
}

/// Whether two optional bindings are equal.
fn same_binding(a: Option<&RequestBinding>, b: Option<&RequestBinding>) -> (r: bool)
    ensures
        r == (crate::token::ref_binding_view(a) == crate::token::ref_binding_view(b)),
{
    match (a, b) {
        (Some(x), Some(y)) => x.same_as(y),
        (None, None) => true,
        _ => false,
    }
}

/// The state of a capability as recovered from its signed token, after it
/// was found to agree with the capability's own record.
#[derive(Debug)]
pub struct VerifiedState {
    state: DecodedState,
}

impl View for VerifiedState {
    type V = DecodedView;

    closed spec fn view(&self) -> DecodedView {
        self.state@
    }
}

impl VerifiedState {
    /// The task of the token.
    pub fn task_id(&self) -> (r: u128)
        ensures
            r == self@.task_id,
    {
        self.state.task_id
    }

    /// The permissions recorded in the token's latest block.
    pub fn permissions(&self) -> (r: &PermissionSet)
        ensures
            r@ == self@.permissions,
    {
        &self.state.permissions
    }

    /// The expiry recorded in the token's latest block.
    pub fn expires_at(&self) -> (r: Timestamp)
        ensures
            r == self@.expires_at,
    {
        self.state.expires_at
    }

    /// The request binding recorded in the token's latest block.
    pub fn request_binding(&self) -> (r: Option<&RequestBinding>)
        ensures
            crate::token::ref_binding_view(r) == self@.request_binding,
    {
        self.state.request_binding.as_ref()
    }

    /// The number of the token's latest block.
    pub fn block_id(&self) -> (r: i64)
        ensures
            r == self@.block_id,
    {
        self.state.block_id
    }
}

impl ChildCapability {
    /// A child capability from its parts, as read back from a serialized
    /// form.
    pub fn from_parts(
        task_id: u128,
        permissions: PermissionSet,
        expires_at: Timestamp,
        caveats: Vec<Caveat>,
        token: Vec<u8>,
        root_public_key: [u8; 32],
    ) -> (r: ChildCapability)
        ensures
            r@.task_id == task_id,
            r@.permissions == permissions@,
            r@.expires_at == expires_at,
            r@.caveats == caveat_views(caveats@),
            r@.token == token@,
            r@.root_public_key == root_public_key@,
    {
        ChildCapability { task_id, permissions, expires_at, caveats, token, root_public_key }
    }

    /// The caveats appended so far, oldest first.
    pub fn caveats(&self) -> (r: &Vec<Caveat>)
        ensures
            caveat_views(r@) == self@.caveats,
    {
        &self.caveats
    }

    /// The signed token.
    pub fn token(&self) -> (r: &Vec<u8>)
        ensures
            r@ == self@.token,
    {
        &self.token
    }

    /// The root public key the token is checked against.
    pub fn root_public_key(&self) -> (r: [u8; 32])
        ensures
            r@ == self@.root_public_key,
    {
        self.root_public_key
    }

    /// Checks the token's signature chain against the root public key.
    pub fn verify_signature(&self) -> (r: Result<(), CapabilityError>)
        ensures
            r matches Err(e) ==> e is Token,
            r is Ok <==> crate::token::token_accepted(self@.token, self@.root_public_key),
    {
        match crate::token::verify_signature(self.token.as_slice(), &self.root_public_key) {
            Ok(()) => Ok(()),
            Err(e) => Err(CapabilityError::Token(e)),
        }
    }

    /// The state decoded from the token, accepted only where it agrees with
    /// this capability's own record; `TokenStateMismatch` otherwise.
    pub fn check_mirror(&self, decoded: DecodedState) -> (r: Result<VerifiedState, CapabilityError>)
        ensures
            r is Ok ==> forall|b: Seq<char>|
                #[trigger] self@.permissions.binaries.contains(b) <==> decoded@.permissions.binaries.contains(b),
            (exists|b: Seq<char>|
                #[trigger] self@.permissions.binaries.contains(b) && !decoded@.permissions.binaries.contains(b))
                ==> r == Err::<VerifiedState, CapabilityError>(CapabilityError::TokenStateMismatch),
            r is Ok ==> decoded@.task_id == self@.task_id && decoded@.expires_at == self@.expires_at
                && decoded@.permissions.network == self@.permissions.network,
            mirrors(self@, decoded@) ==> (r matches Ok(s) && s@ == decoded@),
            !mirrors(self@, decoded@) ==> r == Err::<VerifiedState, CapabilityError>(
                CapabilityError::TokenStateMismatch,
            ),
    {
        let recorded = self.request_binding();
        let agrees = decoded.task_id == self.task_id
            && paths_covered(decoded.permissions.readable_roots(), self.permissions.readable_roots())
            && paths_covered(self.permissions.readable_roots(), decoded.permissions.readable_roots())
            && paths_covered(decoded.permissions.writable_roots(), self.permissions.writable_roots())
            && paths_covered(self.permissions.writable_roots(), decoded.permissions.writable_roots())
            && texts_covered(decoded.permissions.exec_binaries(), self.permissions.exec_binaries())
            && texts_covered(self.permissions.exec_binaries(), decoded.permissions.exec_binaries())
            && decoded.permissions.network() == self.permissions.network()
            && decoded.expires_at == self.expires_at
            && same_binding(decoded.request_binding.as_ref(), recorded);
        if agrees {
            proof {
                lemma_agreeing_state_grants_alike(self@, decoded@);
            }
            Ok(VerifiedState { state: decoded })
        } else {
            Err(CapabilityError::TokenStateMismatch)
        }
    }

    /// Verifies the token's signature chain, decodes the state of its latest
    /// block, and accepts it only where it agrees with this capability's own
    /// record. Whatever the token holds, an accepted state agrees with the
    /// record and is the decoding of the token's rows.
    pub fn verify_and_decode(&self) -> (r: Result<VerifiedState, CapabilityError>)
        ensures
            r matches Ok(s) ==> mirrors(self@, s@) && exists|rows: crate::token::RowsView|
                #[trigger] crate::token::decoded(rows) == Ok::<DecodedView, CodecError>(s@),
            r matches Ok(s) ==> forall|b: Seq<char>|
                #[trigger] self@.permissions.binaries.contains(b) <==> s@.permissions.binaries.contains(b),
            r matches Err(e) ==> e is Token || e is TokenStateMismatch,
            r matches Ok(s) ==> crate::token::token_records(self@.token, self@.root_public_key, s@),
            !crate::token::token_accepted(self@.token, self@.root_public_key) ==> r matches Err(
                CapabilityError::Token(CodecError::Biscuit(_)),
            ),
            r matches Err(CapabilityError::TokenStateMismatch) ==> exists|s: DecodedView|
                !mirrors(self@, s) && #[trigger] crate::token::token_records(self@.token, self@.root_public_key, s),
    {
        let decoded = match decode_state(self.token.as_slice(), &self.root_public_key) {
            Ok(d) => d,
            Err(e) => return Err(CapabilityError::Token(e)),
        };
        self.check_mirror(decoded)
    }
}

impl Caveat {
    /// A caveat from its parts, as read back from a serialized form.
    pub fn from_parts(
        permissions: PermissionSet,
        expires_at: Timestamp,
        request_binding: Option<RequestBinding>,
    ) -> (r: Caveat)
        ensures
            r@.permissions == permissions@,
            r@.expires_at == expires_at,
            r@.request_binding == binding_view(request_binding),
    {
        Caveat { permissions, expires_at, request_binding }
    }

    /// The permissions this caveat narrowed to.
    pub fn permissions(&self) -> (r: &PermissionSet)
        ensures
            r@ == self@.permissions,
    {
        &self.permissions
    }

    /// The expiry this caveat narrowed to.
    pub fn expires_at(&self) -> (r: Timestamp)
        ensures
            r == self@.expires_at,
    {
        self.expires_at
    }

    /// The binding this caveat carries.
    pub fn request_binding(&self) -> (r: Option<&RequestBinding>)
        ensures
            crate::token::ref_binding_view(r) == self@.request_binding,
    {
        self.request_binding.as_ref()
    }
}

impl RootCapability {
    /// The signed token.
    pub fn token(&self) -> (r: &Vec<u8>)
        ensures
            r@ == self@.token,
    {
        &self.token
    }

    /// The root public key the token is checked against.
    pub fn root_public_key(&self) -> (r: [u8; 32])
        ensures
            r@ == self@.root_public_key,
    {
        self.root_public_key
    }
}

/// The message that describes a capability error.
pub open spec fn capability_error_text(e: CapabilityError) -> Seq<char> {
    match e {
        CapabilityError::InvalidManifest(m) => "invalid task manifest: "@ + crate::manifest::manifest_error_text(m),
        CapabilityError::UnsafePath(p) => "path must be absolute and must not contain . or .. components: "@ + p@,
        CapabilityError::ReadScopeWidened => "requested filesystem read authority widens parent capability"@,
        CapabilityError::WriteScopeWidened => "requested filesystem write authority widens parent capability"@,
        CapabilityError::ExecScopeWidened => "requested exec authority widens parent capability"@,
        CapabilityError::TtlWidened => "requested TTL widens parent capability"@,
        CapabilityError::TtlOverflow => "requested TTL cannot be represented safely"@,
        CapabilityError::Token(c) => crate::codec::codec_error_text(c),
        CapabilityError::TokenStateMismatch => "capability state disagrees with its signed token"@,
    }
}

impl CapabilityError {
    /// The message that describes this error.
    pub fn message(&self) -> (r: String)
        ensures
            r@ == capability_error_text(*self),
    {
        match self {
            CapabilityError::InvalidManifest(m) => {
                let inner = m.message();
                crate::text::concat("invalid task manifest: ", inner.as_str())
            },
            CapabilityError::UnsafePath(p) => crate::text::concat(
                "path must be absolute and must not contain . or .. components: ",
                p.as_str(),
            ),
            CapabilityError::ReadScopeWidened => "requested filesystem read authority widens parent capability".to_owned(),
            CapabilityError::WriteScopeWidened => "requested filesystem write authority widens parent capability".to_owned(),
            CapabilityError::ExecScopeWidened => "requested exec authority widens parent capability".to_owned(),
            CapabilityError::TtlWidened => "requested TTL widens parent capability".to_owned(),
            CapabilityError::TtlOverflow => "requested TTL cannot be represented safely".to_owned(),
            CapabilityError::Token(c) => c.message(),
            CapabilityError::TokenStateMismatch => "capability state disagrees with its signed token".to_owned(),
        }
    }
}

} // verus!
