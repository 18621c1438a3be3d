use warden::capability::{AttenuationRequest, ChildCapability, RootCapability};
use warden::manifest::{ExecPolicy, FilesystemPolicy, NetworkPolicy, TaskManifest};
use warden::pdp::ToolRequest;
use warden::pep::VerificationError;
use warden::tools::{
    authorize_at, authorize_only, request_binding_for, request_json_text, tool_name, ToolCall,
    ToolError,
};
use warden::time::Timestamp;

fn bound_read_capability(request: &ToolRequest, nonce: u128) -> ChildCapability {
    let now = current_time();
    let manifest = TaskManifest {
        task_id: 0,
        repo_root: "/repo".to_string(),
        ttl_seconds: 60,
        filesystem: FilesystemPolicy {
            readable_roots: vec!["/repo".to_string()],
            writable_roots: vec![],
        },
        exec_policy: ExecPolicy {
            allowed_binaries: vec![],
        },
        network: NetworkPolicy::DenyAll,
    };
    let root = RootCapability::mint(&manifest, now).unwrap();
    let binding = request_binding_for(request, nonce);

    root.attenuate(
        AttenuationRequest {
            readable_roots: vec!["/repo".to_string()],
            writable_roots: vec![],
            exec_binaries: vec![],
            network: NetworkPolicy::DenyAll,
            ttl_seconds: 30,
            request_binding: Some(binding),
        },
        now,
    )
    .unwrap()
}

fn read_request() -> ToolRequest {
    ToolRequest::Read {
        path: "/repo/src/lib.rs".to_string(),
    }
}

#[test]
fn authorizes_matching_request_binding() {
    let request = read_request();
    let nonce = uuid::Uuid::new_v4().as_u128();
    let capability = bound_read_capability(&request, nonce);

    assert!(authorize_only(capability, request, Some(nonce)).is_ok());
}

#[test]
fn rejects_replayed_request_binding_with_different_nonce() {
    let request = read_request();
    let capability = bound_read_capability(&request, uuid::Uuid::new_v4().as_u128());

    assert!(matches!(
        authorize_only(capability, request, Some(uuid::Uuid::new_v4().as_u128())),
        Err(ToolError::Verification(
            VerificationError::RequestBindingMismatch
        ))
    ));
}

#[test]
fn bound_capability_refuses_other_request_and_missing_binding() {
    let request = read_request();
    let nonce = 5;
    let other = ToolRequest::Read { path: "/repo/Cargo.toml".to_string() };
    assert_eq!(
        authorize_only(bound_read_capability(&request, nonce), other, Some(nonce)),
        Err(ToolError::Verification(VerificationError::RequestBindingMismatch))
    );
    assert_eq!(
        authorize_only(bound_read_capability(&request, nonce), read_request(), None),
        Err(ToolError::Verification(VerificationError::RequestBindingMismatch))
    );
}

#[test]
fn authorized_binding_still_needs_the_decision_point() {
    let request = ToolRequest::Read { path: "/etc/passwd".to_string() };
    let nonce = 9;
    let capability = bound_read_capability(&request, nonce);
    assert_eq!(
        authorize_at(capability, request, Some(nonce), current_time()),
        Err(ToolError::Denied("read path is outside capability scope".to_string()))
    );
}

#[test]
fn request_json_matches_serde_json() {
    let requests = [
        (ToolRequest::Read { path: "/repo/a \"b\"\\c\n\t\u{1}\u{7f}é".to_string() }, "Read", "path"),
        (ToolRequest::Write { path: "/repo/src/x".to_string() }, "Write", "path"),
        (ToolRequest::Exec { binary: "python".to_string() }, "Exec", "binary"),
    ];
    for (request, variant, field) in requests {
        let value = match &request {
            ToolRequest::Read { path } | ToolRequest::Write { path } => path.clone(),
            ToolRequest::Exec { binary } => binary.clone(),
            ToolRequest::Network => unreachable!(),
        };
        let mut inner = serde_json::Map::new();
        inner.insert(field.to_string(), serde_json::Value::String(value));
        let mut outer = serde_json::Map::new();
        outer.insert(variant.to_string(), serde_json::Value::Object(inner));
        let expected = serde_json::to_string(&serde_json::Value::Object(outer)).unwrap();
        assert_eq!(request_json_text(&request), expected);
    }
    assert_eq!(request_json_text(&ToolRequest::Network), "\"Network\"");
}

#[test]
fn binding_hashes_the_canonical_request() {
    let request = read_request();
    let binding = request_binding_for(&request, 3);
    assert_eq!(binding.tool_name, "fs_read");
    assert_eq!(binding.nonce, 3);
    assert_eq!(
        binding.argument_hash,
        warden::capability::hash_tool_arguments(
            "fs_read",
            br#"{"Read":{"path":"/repo/src/lib.rs"}}"#,
            3
        )
    );
    assert_ne!(binding.argument_hash, request_binding_for(&request, 4).argument_hash);
}

#[test]
fn calls_project_to_requests() {
    let call = ToolCall::FsWrite { path: "/repo/x".to_string(), contents: "hi".to_string() };
    assert_eq!(call.to_request(), ToolRequest::Write { path: "/repo/x".to_string() });
    assert_eq!(call.tool_name(), "fs_write");
    let call = ToolCall::Network { host: "h".to_string(), port: 1, payload: "p".to_string() };
    assert_eq!(call.to_request(), ToolRequest::Network);
    assert_eq!(tool_name(&ToolRequest::Exec { binary: "b".to_string() }), "exec");
    assert_eq!(
        ToolError::Denied("no".to_string()).message(),
        "tool request denied: no"
    );
}

fn current_time() -> Timestamp {
    let now = chrono::Utc::now();
    Timestamp::new(now.timestamp(), now.timestamp_subsec_nanos())
}

#[test]
fn request_json_escapes_path_characters() {
    let request = ToolRequest::Read { path: "/a\"b\\c\nd\u{1}e\u{1f}\té".to_string() };
    assert_eq!(
        request_json_text(&request),
        "{\"Read\":{\"path\":\"/a\\\"b\\\\c\\nd\\u0001e\\u001f\\té\"}}"
    );
    assert_eq!(request_json_text(&ToolRequest::Network), "\"Network\"");
}
