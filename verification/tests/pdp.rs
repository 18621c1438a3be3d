use warden::capability::{PermissionSet, RootCapability};
use warden::manifest::{ExecPolicy, FilesystemPolicy, NetworkPolicy, TaskManifest};
use warden::pdp::{decide, lint, Decision, LintFinding, ToolRequest};
use warden::time::Timestamp;

fn root_manifest() -> TaskManifest {
    TaskManifest {
        task_id: 0,
        repo_root: "/repo".to_string(),
        ttl_seconds: 60,
        filesystem: FilesystemPolicy {
            readable_roots: vec!["/repo".to_string()],
            writable_roots: vec!["/repo/src".to_string()],
        },
        exec_policy: ExecPolicy {
            allowed_binaries: vec!["python".to_string(), "pytest".to_string()],
        },
        network: NetworkPolicy::DenyAll,
    }
}

fn permissions() -> PermissionSet {
    RootCapability::mint(&root_manifest(), current_time())
        .unwrap()
        .permissions()
        .duplicate()
}

fn manifest_with_readable_roots(roots: Vec<String>) -> TaskManifest {
    TaskManifest {
        task_id: 0,
        repo_root: roots.first().cloned().unwrap_or_else(|| "/".to_string()),
        ttl_seconds: 60,
        filesystem: FilesystemPolicy {
            readable_roots: roots,
            writable_roots: vec![],
        },
        exec_policy: ExecPolicy {
            allowed_binaries: vec![],
        },
        network: NetworkPolicy::DenyAll,
    }
}

fn is_allow(d: &Decision) -> bool {
    matches!(d, Decision::Allow)
}

fn is_deny(d: &Decision) -> bool {
    matches!(d, Decision::Deny { .. })
}

const SUFFIXES: [&str; 4] = ["a", "lib", "module", "abcdefghijkl"];

#[test]
fn read_decision_matches_allows_read() {
    let perms = permissions();
    for suffix in SUFFIXES {
        let path = format!("/repo/{suffix}");
        let decision = decide(&perms, &ToolRequest::Read { path: path.clone() });
        assert_eq!(is_allow(&decision), perms.allows_read(&path));
    }
}

#[test]
fn read_outside_roots_is_denied() {
    let perms = permissions();
    for suffix in SUFFIXES {
        let path = format!("/outside/{suffix}");
        let decision = decide(&perms, &ToolRequest::Read { path });
        assert!(is_deny(&decision));
    }
}

#[test]
fn write_decision_matches_allows_write() {
    let perms = permissions();
    for suffix in SUFFIXES {
        let path = format!("/repo/src/{suffix}");
        let decision = decide(&perms, &ToolRequest::Write { path: path.clone() });
        assert_eq!(is_allow(&decision), perms.allows_write(&path));
    }
}

#[test]
fn write_outside_roots_is_denied() {
    let perms = permissions();
    for suffix in SUFFIXES {
        let path = format!("/repo/{suffix}");
        let decision = decide(&perms, &ToolRequest::Write { path });
        assert!(is_deny(&decision));
    }
}

#[test]
fn exec_decision_matches_allows_exec() {
    let perms = permissions();
    for binary in ["python", "pytest", "py", "bash"] {
        let decision = decide(&perms, &ToolRequest::Exec { binary: binary.to_string() });
        assert_eq!(is_allow(&decision), perms.allows_exec(binary));
    }
}

#[test]
fn exec_outside_allowlist_is_denied() {
    let perms = permissions();
    for binary in ["curl", "wget1", "nc", "bash", "sh22", "rm", "dd", "ssh9"] {
        let decision = decide(&perms, &ToolRequest::Exec { binary: binary.to_string() });
        assert!(is_deny(&decision));
    }
}

#[test]
fn network_request_is_always_denied() {
    let perms = permissions();
    let decision = decide(&perms, &ToolRequest::Network);
    assert!(is_deny(&decision));
    assert_eq!(
        decision,
        Decision::Deny { reason: "network policy denies all egress".to_string() }
    );
}

#[test]
fn denials_name_the_failed_check() {
    let perms = permissions();
    assert_eq!(
        decide(&perms, &ToolRequest::Read { path: "/etc/passwd".to_string() }),
        Decision::Deny { reason: "read path is outside capability scope".to_string() }
    );
    assert_eq!(
        decide(&perms, &ToolRequest::Write { path: "/repo/README".to_string() }),
        Decision::Deny { reason: "write path is outside capability scope".to_string() }
    );
    assert_eq!(
        decide(&perms, &ToolRequest::Exec { binary: "curl".to_string() }),
        Decision::Deny { reason: "binary is outside capability exec allowlist".to_string() }
    );
    assert_eq!(
        decide(&perms, &ToolRequest::Read { path: "/repo/src/lib.rs".to_string() }),
        Decision::Allow
    );
}

#[test]
fn flags_filesystem_root_as_always_allow_read() {
    let manifest = manifest_with_readable_roots(vec!["/".to_string()]);
    let root = RootCapability::mint(&manifest, current_time()).unwrap();

    let findings = lint(root.permissions());
    assert_eq!(
        findings,
        vec![LintFinding::AlwaysAllowRead {
            root: "/".to_string()
        }]
    );
}

#[test]
fn does_not_flag_scoped_readable_roots() {
    let manifest = manifest_with_readable_roots(vec!["/repo".to_string()]);
    let root = RootCapability::mint(&manifest, current_time()).unwrap();

    assert!(lint(root.permissions()).is_empty());
}

#[test]
fn repeated_filesystem_root_is_flagged_once() {
    let perms = PermissionSet::from_parts(
        vec!["/".to_string(), "//".to_string(), "/repo".to_string(), "/".to_string()],
        vec![],
        vec![],
        NetworkPolicy::DenyAll,
    );
    assert_eq!(perms.readable_roots(), &vec!["/".to_string(), "/repo".to_string()]);
    assert_eq!(
        lint(&perms),
        vec![LintFinding::AlwaysAllowRead {
            root: "/".to_string()
        }]
    );
}

#[test]
fn permission_set_keeps_each_root_and_binary_once() {
    let perms = PermissionSet::from_parts(
        vec!["/repo".to_string(), "/repo/".to_string(), "/tmp".to_string()],
        vec!["/repo/src".to_string(), "/repo/./src".to_string()],
        vec!["python".to_string(), "pytest".to_string(), "python".to_string()],
        NetworkPolicy::DenyAll,
    );
    assert_eq!(perms.readable_roots(), &vec!["/repo".to_string(), "/tmp".to_string()]);
    assert_eq!(perms.writable_roots(), &vec!["/repo/src".to_string()]);
    assert_eq!(perms.exec_binaries(), &vec!["python".to_string(), "pytest".to_string()]);
}

fn current_time() -> Timestamp {
    let now = chrono::Utc::now();
    Timestamp::new(now.timestamp(), now.timestamp_subsec_nanos())
}
