use warden::capability::{
    attenuation_verdict_given, hash_tool_arguments, AttenuationRequest, CapabilityError,
    RootCapability,
};
use warden::manifest::{ExecPolicy, FilesystemPolicy, ManifestError, NetworkPolicy, TaskManifest};
use warden::time::Timestamp;

fn new_year_2026() -> Timestamp {
    Timestamp::new(1_767_225_600, 0)
}

fn root_manifest() -> TaskManifest {
    TaskManifest {
        task_id: 0,
        repo_root: "/repo".to_string(),
        ttl_seconds: 60,
        filesystem: FilesystemPolicy {
            readable_roots: vec!["/repo".to_string()],
            writable_roots: vec!["/repo/src".to_string()],
        },
        exec_policy: ExecPolicy {
            allowed_binaries: vec!["python".to_string(), "pytest".to_string()],
        },
        network: NetworkPolicy::DenyAll,
    }
}

fn attenuation_request(
    readable_roots: &[&str],
    writable_roots: &[&str],
    exec_binaries: &[&str],
    ttl_seconds: u64,
) -> AttenuationRequest {
    AttenuationRequest {
        readable_roots: readable_roots.iter().map(|p| p.to_string()).collect(),
        writable_roots: writable_roots.iter().map(|p| p.to_string()).collect(),
        exec_binaries: exec_binaries.iter().map(|b| b.to_string()).collect(),
        network: NetworkPolicy::DenyAll,
        ttl_seconds,
        request_binding: None,
    }
}

#[test]
fn mint_validates_manifest() {
    let now = new_year_2026();
    let mut manifest = root_manifest();
    manifest.ttl_seconds = 0;

    assert!(matches!(
        RootCapability::mint(&manifest, now),
        Err(CapabilityError::InvalidManifest(ManifestError::EmptyTtl))
    ));
}

#[test]
fn rejects_paths_with_parent_components() {
    let now = new_year_2026();
    let root = RootCapability::mint(&root_manifest(), now).unwrap();

    assert!(!root.permissions().allows_read("/repo/../secret"));
    assert_eq!(
        root.attenuate(attenuation_request(&["/repo/../secret"], &[], &[], 1), now)
            .unwrap_err(),
        CapabilityError::ReadScopeWidened
    );
}

#[test]
fn accepts_trailing_slash_root_variants() {
    let now = new_year_2026();
    let root = RootCapability::mint(&root_manifest(), now).unwrap();

    assert!(root
        .attenuate(attenuation_request(&["/repo/"], &[], &[], 1), now)
        .is_ok());
}

#[test]
fn rejects_write_scope_widening() {
    let now = new_year_2026();
    let root = RootCapability::mint(&root_manifest(), now).unwrap();

    assert_eq!(
        root.attenuate(attenuation_request(&[], &["/repo"], &[], 1), now)
            .unwrap_err(),
        CapabilityError::WriteScopeWidened
    );
}

#[test]
fn accepts_write_scope_narrowing() {
    let now = new_year_2026();
    let root = RootCapability::mint(&root_manifest(), now).unwrap();

    assert!(root
        .attenuate(attenuation_request(&[], &["/repo/src/module"], &[], 1), now)
        .is_ok());
}

#[test]
fn rejects_exec_scope_widening() {
    let now = new_year_2026();
    let root = RootCapability::mint(&root_manifest(), now).unwrap();

    assert_eq!(
        root.attenuate(attenuation_request(&[], &[], &["curl"], 1), now)
            .unwrap_err(),
        CapabilityError::ExecScopeWidened
    );
}

#[test]
fn rejects_ttl_widening_and_overflow() {
    let now = new_year_2026();
    let root = RootCapability::mint(&root_manifest(), now).unwrap();

    assert_eq!(
        root.attenuate(attenuation_request(&[], &[], &[], 61), now)
            .unwrap_err(),
        CapabilityError::TtlWidened
    );
    assert_eq!(
        root.attenuate(attenuation_request(&[], &[], &[], u64::MAX), now)
            .unwrap_err(),
        CapabilityError::TtlOverflow
    );
}

#[test]
fn chained_child_attenuation_remains_monotonic() {
    let now = new_year_2026();
    let root = RootCapability::mint(&root_manifest(), now).unwrap();
    let child = root
        .attenuate(attenuation_request(&["/repo/pkg"], &[], &[], 30), now)
        .unwrap();

    assert!(child
        .attenuate(attenuation_request(&["/repo/pkg/src"], &[], &[], 10), now)
        .is_ok());
    assert_eq!(
        child
            .attenuate(attenuation_request(&["/repo"], &[], &[], 10), now)
            .unwrap_err(),
        CapabilityError::ReadScopeWidened
    );
}

#[test]
fn hash_tool_arguments_is_deterministic_and_nonce_bound() {
    let nonce = 0u128;
    let first = hash_tool_arguments("fs_read", br#"{"path":"/repo/src/lib.rs"}"#, nonce);
    let second = hash_tool_arguments("fs_read", br#"{"path":"/repo/src/lib.rs"}"#, nonce);
    let different_nonce = hash_tool_arguments(
        "fs_read",
        br#"{"path":"/repo/src/lib.rs"}"#,
        uuid::Uuid::new_v4().as_u128(),
    );

    assert_eq!(first, second);
    assert_ne!(first, different_nonce);
}

#[test]
fn attenuation_rejects_read_scope_widening() {
    let now = new_year_2026();
    let root = RootCapability::mint(&root_manifest(), now).unwrap();
    for suffix in ["a", "etc", "secret", "zzzzzzzzzzzz"] {
        let path = format!("/outside/{suffix}");
        let request = attenuation_request(&[path.as_str()], &[], &[], 1);
        assert_eq!(
            root.attenuate(request, now).unwrap_err(),
            CapabilityError::ReadScopeWidened
        );
    }
}

#[test]
fn attenuation_accepts_read_scope_narrowing() {
    let now = new_year_2026();
    let root = RootCapability::mint(&root_manifest(), now).unwrap();
    for suffix in ["a", "pkg", "src", "abcdefghijkl"] {
        let path = format!("/repo/{suffix}");
        let request = attenuation_request(&[path.as_str()], &[], &[], 1);
        assert!(root.attenuate(request, now).is_ok());
    }
}

#[test]
fn hash_tool_arguments_hashes_the_framed_invocation() {
    let nonce = 0x0102_0304_0506_0708_090a_0b0c_0d0e_0f10u128;
    let mut hasher = blake3::Hasher::new();
    hasher.update(b"fs_read");
    hasher.update(&[0]);
    hasher.update(br#"{"path":"/repo"}"#);
    hasher.update(&[0]);
    hasher.update(uuid::Uuid::from_u128(nonce).as_bytes());
    let expected = *hasher.finalize().as_bytes();

    assert_eq!(hash_tool_arguments("fs_read", br#"{"path":"/repo"}"#, nonce), expected);
    assert_ne!(hash_tool_arguments("fs_write", br#"{"path":"/repo"}"#, nonce), expected);
}

#[test]
fn child_records_requested_scope_and_lifetime() {
    let now = new_year_2026();
    let root = RootCapability::mint(&root_manifest(), now).unwrap();
    let child = root
        .attenuate(attenuation_request(&["/repo/pkg", "/repo/pkg/"], &["/repo/src/a"], &["python", "python"], 30), now)
        .unwrap();

    assert_eq!(child.permissions().readable_roots(), &vec!["/repo/pkg".to_string()]);
    assert_eq!(child.permissions().writable_roots(), &vec!["/repo/src/a".to_string()]);
    assert_eq!(child.permissions().exec_binaries(), &vec!["python".to_string()]);
    assert_eq!(child.expires_at(), Timestamp::new(1_767_225_630, 0));
    assert_eq!(child.caveats().len(), 1);
    assert!(child.request_binding().is_none());
    assert_eq!(root.expires_at(), Timestamp::new(1_767_225_660, 0));
}

#[test]
fn unsafe_manifest_paths_are_reported() {
    let now = new_year_2026();
    let mut manifest = root_manifest();
    manifest.filesystem.writable_roots = vec!["relative/src".to_string()];
    assert_eq!(
        RootCapability::mint(&manifest, now).unwrap_err(),
        CapabilityError::InvalidManifest(ManifestError::UnsafePath("relative/src".to_string()))
    );

    let mut manifest = root_manifest();
    manifest.filesystem.readable_roots = vec!["/elsewhere".to_string()];
    assert_eq!(
        RootCapability::mint(&manifest, now).unwrap_err(),
        CapabilityError::InvalidManifest(ManifestError::RepoRootNotReadable)
    );
}

#[test]
fn unsafe_requested_write_root_is_write_widening() {
    let now = new_year_2026();
    let root = RootCapability::mint(&root_manifest(), now).unwrap();
    assert_eq!(
        root.attenuate(attenuation_request(&["/repo"], &["/repo/src/../x"], &[], 1), now)
            .unwrap_err(),
        CapabilityError::WriteScopeWidened
    );
    assert!(root
        .attenuate(attenuation_request(&[], &["/repo/src/./x"], &[], 1), now)
        .is_ok());
}

#[test]
fn capability_error_messages_name_the_cause() {
    assert_eq!(
        CapabilityError::TtlWidened.message(),
        "requested TTL widens parent capability"
    );
    assert_eq!(
        CapabilityError::InvalidManifest(ManifestError::EmptyTtl).message(),
        "invalid task manifest: task manifest must have a non-zero TTL"
    );
}

fn repo_parent() -> warden::capability::PermissionSet {
    warden::capability::PermissionSet::from_parts(
        vec!["/repo".to_string()],
        vec!["/repo/src".to_string()],
        vec!["python".to_string()],
        NetworkPolicy::DenyAll,
    )
}

fn roots(paths: &[&str]) -> Option<Vec<String>> {
    Some(paths.iter().map(|p| p.to_string()).collect())
}

#[test]
fn verdict_on_resolved_roots_follows_the_checks_in_order() {
    let parent = repo_parent();
    let now = new_year_2026();
    let expires = Timestamp::new(now.secs + 60, 0);
    let none: Vec<String> = Vec::new();
    let python = vec!["python".to_string()];
    let bash = vec!["bash".to_string()];

    assert_eq!(
        attenuation_verdict_given(&parent, expires, &roots(&["/repo/pkg", "/repo/"]), &roots(&[]), &python, 30, now),
        Ok(Timestamp::new(now.secs + 30, 0))
    );
    assert_eq!(
        attenuation_verdict_given(&parent, expires, &roots(&["/repository/x"]), &roots(&[]), &none, 30, now),
        Err(CapabilityError::ReadScopeWidened)
    );
    assert_eq!(
        attenuation_verdict_given(&parent, expires, &None, &roots(&[]), &none, 30, now),
        Err(CapabilityError::ReadScopeWidened)
    );
    assert_eq!(
        attenuation_verdict_given(&parent, expires, &roots(&["/repo"]), &roots(&["/repo"]), &none, 30, now),
        Err(CapabilityError::WriteScopeWidened)
    );
    assert_eq!(
        attenuation_verdict_given(&parent, expires, &roots(&[]), &None, &none, 30, now),
        Err(CapabilityError::WriteScopeWidened)
    );
    assert_eq!(
        attenuation_verdict_given(&parent, expires, &roots(&[]), &roots(&["/repo/src/a"]), &bash, 30, now),
        Err(CapabilityError::ExecScopeWidened)
    );
    assert_eq!(
        attenuation_verdict_given(&parent, expires, &roots(&[]), &roots(&[]), &none, 120, now),
        Err(CapabilityError::TtlWidened)
    );
    assert_eq!(
        attenuation_verdict_given(&parent, expires, &roots(&[]), &roots(&[]), &none, u64::MAX, now),
        Err(CapabilityError::TtlOverflow)
    );
}
