//! The policy decision point: a default-deny decision over a permission set
//! and the shape of a tool request, and a linter that flags grants that
//! allow everything.

use vstd::prelude::*;
use crate::capability::{answers_for_path, PermissionSet, PermissionView};
use crate::manifest::NetworkPolicy;
use crate::path::{paths_equal, same_path};
use crate::text::copy_str;

verus! {

/// The authorization view of a tool call: what it touches, not its payload.
#[derive(Debug, PartialEq, Eq)]
pub enum ToolRequest {
    Read { path: String },
    Write { path: String },
    Exec { binary: String },
    Network,
}

/// The decision on a request.
#[derive(Debug, PartialEq, Eq)]
pub enum Decision {
    Allow,
    Deny { reason: String },
}

impl ToolRequest {
    /// A copy of this request.
    pub fn duplicate(&self) -> (r: ToolRequest)
        ensures
            r == *self,
    {
        match self {
            ToolRequest::Read { path } => ToolRequest::Read { path: path.clone() },
            ToolRequest::Write { path } => ToolRequest::Write { path: path.clone() },
            ToolRequest::Exec { binary } => ToolRequest::Exec { binary: binary.clone() },
            ToolRequest::Network => ToolRequest::Network,
        }
    }
}

/// Whether `d` denies with the reason `reason`.
pub open spec fn denies_with(d: Decision, reason: Seq<char>) -> bool {
    d matches Decision::Deny { reason: r } && r@ == reason
}

/// The decision owed on `request` under `permissions`. A read or write is
/// allowed exactly when the path is a safe absolute path whose resolution
/// against the filesystem lies below a readable (writable) root; an exec
/// exactly when the binary is on the allowlist; a network request never.
/// Every other request is denied with the reason that names the check.
pub open spec fn decision_ok(permissions: PermissionView, request: ToolRequest, d: Decision) -> bool {
    match request {
        ToolRequest::Read { path } => if d is Allow {
            answers_for_path(path@, permissions.readable, true)
        } else {
            answers_for_path(path@, permissions.readable, false) && denies_with(
                d,
                "read path is outside capability scope"@,
            )
        },
        ToolRequest::Write { path } => if d is Allow {
            answers_for_path(path@, permissions.writable, true)
        } else {
            answers_for_path(path@, permissions.writable, false) && denies_with(
                d,
                "write path is outside capability scope"@,
            )
        },
        ToolRequest::Exec { binary } => if permissions.binaries.contains(binary@) {
            d is Allow
        } else {
            denies_with(d, "binary is outside capability exec allowlist"@)
        },
        ToolRequest::Network => match permissions.network {
            NetworkPolicy::DenyAll => denies_with(d, "network policy denies all egress"@),
        },
    }
}

/// Decides `request` under `permissions`, denying by default.
pub fn decide(permissions: &PermissionSet, request: &ToolRequest) -> (r: Decision)
    ensures
        decision_ok(permissions@, *request, r),
{
    match request {
        ToolRequest::Read { path } => {
            if permissions.allows_read(path.as_str()) {
                Decision::Allow
            } else {
                Decision::Deny { reason: "read path is outside capability scope".to_owned() }
            }
        },
        ToolRequest::Write { path } => {
            if permissions.allows_write(path.as_str()) {
                Decision::Allow
            } else {
                Decision::Deny { reason: "write path is outside capability scope".to_owned() }
            }
        },
        ToolRequest::Exec { binary } => {
            if permissions.allows_exec(binary.as_str()) {
                Decision::Allow
            } else {
                Decision::Deny { reason: "binary is outside capability exec allowlist".to_owned() }
            }
        },
        ToolRequest::Network => match permissions.network() {
            NetworkPolicy::DenyAll => Decision::Deny {
                reason: "network policy denies all egress".to_owned(),
            },
        },
    }
}

/// A read is decided as the read check answers: allowed where the check
/// answers yes, and otherwise denied as outside the scope (for the same
/// resolution of the path against the filesystem).
pub proof fn lemma_read_decision_is_read_check(permissions: PermissionView, path: String, d: Decision)
    ensures
        decision_ok(permissions, ToolRequest::Read { path }, d) <==> exists|allowed: bool|
            #[trigger] answers_for_path(path@, permissions.readable, allowed) && (if allowed {
                d is Allow
            } else {
                denies_with(d, "read path is outside capability scope"@)
            }),
{
    if decision_ok(permissions, ToolRequest::Read { path }, d) {
        let allowed = d is Allow;
        assert(answers_for_path(path@, permissions.readable, allowed));
    }
}

/// A write is decided as the write check answers: allowed where the check
/// answers yes, and otherwise denied as outside the scope (for the same
/// resolution of the path against the filesystem).
pub proof fn lemma_write_decision_is_write_check(permissions: PermissionView, path: String, d: Decision)
    ensures
        decision_ok(permissions, ToolRequest::Write { path }, d) <==> exists|allowed: bool|
            #[trigger] answers_for_path(path@, permissions.writable, allowed) && (if allowed {
                d is Allow
            } else {
                denies_with(d, "write path is outside capability scope"@)
            }),
{
    if decision_ok(permissions, ToolRequest::Write { path }, d) {
        let allowed = d is Allow;
        assert(answers_for_path(path@, permissions.writable, allowed));
    }
}

/// Default deny: a decision that allows a read (write) comes only with a
/// resolution of the path below a readable (writable) root, one that allows
/// an exec only with the binary on the allowlist, and no decision allows a
/// network request.
pub proof fn lemma_allow_needs_grant(permissions: PermissionView, request: ToolRequest, d: Decision)
    requires
        decision_ok(permissions, request, d),
        d is Allow,
    ensures
        match request {
            ToolRequest::Read { path } => crate::path::is_safe_absolute(path@) && exists|q: Seq<char>|
                crate::path::resolution_of(path@, q) && crate::capability::under_any_root(
                    q,
                    permissions.readable,
                ),
            ToolRequest::Write { path } => crate::path::is_safe_absolute(path@) && exists|q: Seq<char>|
                crate::path::resolution_of(path@, q) && crate::capability::under_any_root(
                    q,
                    permissions.writable,
                ),
            ToolRequest::Exec { binary } => permissions.binaries.contains(binary@),
            ToolRequest::Network => false,
        },
{
}

/// A finding of the policy linter.
#[derive(Debug, PartialEq, Eq)]
pub enum LintFinding {
    /// A readable root that is the filesystem root: every read is allowed.
    AlwaysAllowRead { root: String },
}

/// The readable roots among `roots` that name the filesystem root.
pub open spec fn root_findings(roots: Seq<Seq<char>>) -> Seq<Seq<char>>
    decreases roots.len(),
{
    if roots.len() == 0 {
        Seq::empty()
    } else {
        let prev = root_findings(roots.drop_last());
        if same_path(roots.last(), "/"@) {
            prev.push(roots.last())
        } else {
            prev
        }
    }
}

/// The roots that findings name.
pub open spec fn finding_roots(v: Seq<LintFinding>) -> Seq<Seq<char>> {
    Seq::new(
        v.len(),
        |i: int|
            match v[i] {
                LintFinding::AlwaysAllowRead { root } => root@,
            },
    )
}

/// Roots that name no path twice hold the filesystem root at most once;
/// where a finding is made, it is a root that names the filesystem root.
pub proof fn lemma_root_found_once(roots: Seq<Seq<char>>)
    requires
        crate::capability::distinct_paths(roots),
    ensures
        root_findings(roots).len() <= 1,
        root_findings(roots).len() == 1 ==> exists|k: int|
            0 <= k < roots.len() && #[trigger] roots[k] == root_findings(roots)[0] && same_path(
                roots[k],
                "/"@,
            ),
    decreases roots.len(),
{
    if roots.len() > 0 {
        let init = roots.drop_last();
        assert(crate::capability::distinct_paths(init)) by {
            assert forall|i: int, j: int| 0 <= i < j < init.len() implies !same_path(
                #[trigger] init[i],
                #[trigger] init[j],
            ) by {
                assert(init[i] == roots[i] && init[j] == roots[j]);
            }
        }
        lemma_root_found_once(init);
        let prev = root_findings(init);
        if same_path(roots.last(), "/"@) && prev.len() == 1 {
            let k = choose|k: int| 0 <= k < init.len() && #[trigger] init[k] == prev[0] && same_path(init[k], "/"@);
            assert(roots[k] == init[k]);
            reveal(same_path);
            assert(same_path(roots[k], roots[roots.len() - 1]));
            assert(false);
        }
        if same_path(roots.last(), "/"@) {
            assert(root_findings(roots)[0] == roots[roots.len() - 1]);
        } else if prev.len() == 1 {
            let k = choose|k: int| 0 <= k < init.len() && #[trigger] init[k] == prev[0] && same_path(init[k], "/"@);
            assert(roots[k] == init[k]);
        }
    }
}

/// Flags every readable root that is the filesystem root, in order; a
/// permission set holds that root at most once, so at most one finding
/// is made.
pub fn lint(permissions: &PermissionSet) -> (r: Vec<LintFinding>)
    ensures
        finding_roots(r@) == root_findings(permissions@.readable),
        r@.len() <= 1,
{
    let roots = permissions.readable_roots();
    proof {
        lemma_root_found_once(permissions@.readable);
    }
    let mut findings: Vec<LintFinding> = Vec::new();
    let mut i: usize = 0;
    while i < roots.len()
        invariant
            i <= roots@.len(),
            crate::capability::texts(roots@) == permissions@.readable,
            finding_roots(findings@) == root_findings(crate::capability::texts(roots@).subrange(0, i as int)),
        decreases roots@.len() - i,
    {
        let ghost before = findings@;
        proof {
            let next = crate::capability::texts(roots@).subrange(0, i + 1);
            assert(next.drop_last() =~= crate::capability::texts(roots@).subrange(0, i as int));
            assert(next.last() == roots@[i as int]@);
        }
        if paths_equal(roots[i].as_str(), "/") {
            findings.push(LintFinding::AlwaysAllowRead { root: copy_str(roots[i].as_str()) });
            assert(finding_roots(findings@) =~= finding_roots(before).push(roots@[i as int]@));
        }
        i = i + 1;
    }
    assert(crate::capability::texts(roots@).subrange(0, roots@.len() as int) =~= crate::capability::texts(roots@));
    findings
}

} // verus!
