use warden::capability::{
    AttenuationRequest, Caveat, ChildCapability, PermissionSet, RootCapability,
};
use warden::manifest::{ExecPolicy, FilesystemPolicy, NetworkPolicy, TaskManifest};
use warden::pep::{verify, VerificationError};
use warden::time::Timestamp;

fn new_year_2026() -> Timestamp {
    Timestamp::new(1_767_225_600, 0)
}

fn manifest() -> TaskManifest {
    TaskManifest {
        task_id: 0,
        repo_root: "/repo".to_string(),
        ttl_seconds: 60,
        filesystem: FilesystemPolicy {
            readable_roots: vec!["/repo".to_string()],
            writable_roots: vec!["/repo/src".to_string()],
        },
        exec_policy: ExecPolicy {
            allowed_binaries: vec!["python".to_string()],
        },
        network: NetworkPolicy::DenyAll,
    }
}

fn attenuation_request() -> AttenuationRequest {
    AttenuationRequest {
        readable_roots: vec!["/repo/pkg".to_string()],
        writable_roots: vec![],
        exec_binaries: vec![],
        network: NetworkPolicy::DenyAll,
        ttl_seconds: 30,
        request_binding: None,
    }
}

fn copy_caveats(child: &ChildCapability) -> Vec<Caveat> {
    child
        .caveats()
        .iter()
        .map(|c| {
            Caveat::from_parts(
                c.permissions().duplicate(),
                c.expires_at(),
                c.request_binding().map(|b| b.duplicate()),
            )
        })
        .collect()
}

fn with_root_key(child: &ChildCapability, key: [u8; 32]) -> ChildCapability {
    ChildCapability::from_parts(
        child.task_id(),
        child.permissions().duplicate(),
        child.expires_at(),
        copy_caveats(child),
        child.token().clone(),
        key,
    )
}

fn with_permissions(child: &ChildCapability, permissions: PermissionSet) -> ChildCapability {
    ChildCapability::from_parts(
        child.task_id(),
        permissions,
        child.expires_at(),
        copy_caveats(child),
        child.token().clone(),
        child.root_public_key(),
    )
}

#[test]
fn verify_accepts_valid_signature_chain() {
    let now = new_year_2026();
    let root = RootCapability::mint(&manifest(), now).unwrap();
    let child = root.attenuate(attenuation_request(), now).unwrap();

    let verified = verify(child, now, None).unwrap();
    assert_eq!(verified.expires_at(), Timestamp::new(1_767_225_630, 0));
}

#[test]
fn verify_rejects_token_signed_with_different_root_key() {
    let now = new_year_2026();
    let root = RootCapability::mint(&manifest(), now).unwrap();
    let child = root.attenuate(attenuation_request(), now).unwrap();

    let other_pubkey: [u8; 32] = biscuit_auth::KeyPair::new().public().to_bytes();
    let tampered = with_root_key(&child, other_pubkey);

    let err = verify(tampered, now, None).unwrap_err();
    assert!(
        matches!(err, VerificationError::SignatureChain(_)),
        "expected SignatureChain error, got {err:?}"
    );
}

#[test]
fn verify_rejects_struct_permissions_widened_after_signing() {
    let now = new_year_2026();
    let root = RootCapability::mint(&manifest(), now).unwrap();
    let child = root.attenuate(attenuation_request(), now).unwrap();

    let widened = PermissionSet::from_parts(
        vec!["/repo".to_string()],
        vec!["/repo/src".to_string()],
        vec!["python".to_string()],
        NetworkPolicy::DenyAll,
    );
    let tampered = with_permissions(&child, widened);

    assert!(tampered.verify_signature().is_ok());

    let err = verify(tampered, now, None).unwrap_err();
    assert_eq!(err, VerificationError::StateTampered);

    let honest = root.attenuate(attenuation_request(), now).unwrap();
    let verified = verify(honest, now, None).unwrap();
    assert!(verified.permissions().allows_read("/repo/pkg/file"));
    assert!(!verified.permissions().allows_read("/repo/other"));
    assert!(!verified.permissions().allows_write("/repo/src/x"));
}

#[test]
fn verify_rejects_expired_capability() {
    let mint_time = new_year_2026();
    let root = RootCapability::mint(&manifest(), mint_time).unwrap();
    let child = root.attenuate(attenuation_request(), mint_time).unwrap();

    let later = Timestamp::new(1_767_225_631, 0);
    assert_eq!(
        verify(child, later, None).unwrap_err(),
        VerificationError::Expired
    );
}

#[test]
fn verified_state_comes_from_the_latest_block() {
    let now = new_year_2026();
    let root = RootCapability::mint(&manifest(), now).unwrap();
    let child = root.attenuate(attenuation_request(), now).unwrap();
    let grandchild = child
        .attenuate(
            AttenuationRequest {
                readable_roots: vec!["/repo/pkg/src".to_string()],
                writable_roots: vec![],
                exec_binaries: vec![],
                network: NetworkPolicy::DenyAll,
                ttl_seconds: 10,
                request_binding: None,
            },
            now,
        )
        .unwrap();

    let verified = verify(grandchild, now, None).unwrap();
    assert_eq!(verified.state().block_id(), 2);
    assert_eq!(verified.state().task_id(), 0);
    assert_eq!(verified.permissions().readable_roots(), &vec!["/repo/pkg/src".to_string()]);
    assert_eq!(verified.expires_at(), Timestamp::new(1_767_225_610, 0));
}

#[test]
fn expiry_at_the_exact_moment_is_expired() {
    let now = new_year_2026();
    let root = RootCapability::mint(&manifest(), now).unwrap();
    let child = root.attenuate(attenuation_request(), now).unwrap();
    assert_eq!(
        verify(child, Timestamp::new(1_767_225_630, 0), None).unwrap_err(),
        VerificationError::Expired
    );
}

#[test]
fn verification_error_messages_name_the_cause() {
    assert_eq!(VerificationError::Expired.message(), "capability is expired");
    assert_eq!(
        VerificationError::SignatureChain("bad".to_string()).message(),
        "biscuit signature chain failed to verify: bad"
    );
}

#[test]
fn dropping_a_binding_by_attenuation_fails_closed() {
    let now = new_year_2026();
    let root = RootCapability::mint(&manifest(), now).unwrap();
    let request = warden::pdp::ToolRequest::Read { path: "/repo/pkg/a".to_string() };
    let mut bound_request = attenuation_request();
    bound_request.request_binding = Some(warden::tools::request_binding_for(&request, 1));
    let bound = root.attenuate(bound_request, now).unwrap();
    assert!(bound.request_binding().is_some());

    let mut unbound_request = attenuation_request();
    unbound_request.ttl_seconds = 10;
    let unbound = bound.attenuate(unbound_request, now).unwrap();
    assert!(unbound.request_binding().is_some());
    assert_eq!(
        verify(unbound, now, None).unwrap_err(),
        VerificationError::StateTampered
    );

    let mut rebound_request = attenuation_request();
    rebound_request.ttl_seconds = 10;
    rebound_request.request_binding = Some(warden::tools::request_binding_for(&request, 1));
    let rebound = bound.attenuate(rebound_request, now).unwrap();
    let actual = warden::tools::request_binding_for(&request, 1);
    assert!(verify(rebound, now, Some(&actual)).is_ok());
}
