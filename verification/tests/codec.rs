use warden::codec::{
    decode_hex32, encode_hex, escape, network_to_str, parse_network, CodecError, FactName,
};
use warden::manifest::NetworkPolicy;
use warden::token::{decode_rows, state_facts, StateRows};
use warden::capability::{PermissionSet, RequestBinding};
use warden::time::Timestamp;

#[test]
fn escape_quotes_and_backslashes() {
    assert_eq!(escape(r#"a"b\c"#), r#"a\"b\\c"#);
    assert_eq!(escape("plain/path"), "plain/path");
}

#[test]
fn hex_round_trips_thirty_two_bytes() {
    let bytes: [u8; 32] = core::array::from_fn(|i| (i * 37 + 5) as u8);
    let text = encode_hex(&bytes);
    assert_eq!(text.len(), 64);
    assert_eq!(&text[..6], "052a4f");
    assert_eq!(decode_hex32(&text), Some(bytes));
    assert_eq!(decode_hex32(&text.to_uppercase()), Some(bytes));
    assert_eq!(decode_hex32(&text[..62]), None);
    assert_eq!(decode_hex32(&format!("{}zz", &text[..62])), None);
}

#[test]
fn network_policy_round_trips() {
    assert_eq!(network_to_str(NetworkPolicy::DenyAll), "deny_all");
    assert_eq!(parse_network(network_to_str(NetworkPolicy::DenyAll)), Ok(NetworkPolicy::DenyAll));
    assert_eq!(
        parse_network("allow_all"),
        Err(CodecError::InvalidValue(FactName::Network))
    );
}

#[test]
fn state_facts_spell_the_block() {
    let permissions = PermissionSet::from_parts(
        vec!["/repo/a\"b".to_string()],
        vec![],
        vec!["python".to_string()],
        NetworkPolicy::DenyAll,
    );
    let binding = RequestBinding { tool_name: "fs_read".to_string(), argument_hash: [0xab; 32], nonce: 1 };
    let facts = state_facts(3, &permissions, Timestamp::new(1_767_225_600, 0), Some(&binding));
    assert_eq!(
        facts,
        vec![
            "expires_at(3, \"2026-01-01T00:00:00+00:00\")".to_string(),
            "read_root(3, \"/repo/a\\\"b\")".to_string(),
            "exec_binary(3, \"python\")".to_string(),
            "network(3, \"deny_all\")".to_string(),
            "binding_tool(3, \"fs_read\")".to_string(),
            format!("binding_arg_hash(3, \"{}\")", "ab".repeat(32)),
            "binding_nonce(3, \"00000000-0000-0000-0000-000000000001\")".to_string(),
        ]
    );
}

fn rows() -> StateRows {
    StateRows {
        task: vec!["00000000-0000-0000-0000-000000000007".to_string()],
        expires: vec![
            (0, "2026-01-01T00:01:00+00:00".to_string()),
            (1, "2026-01-01T00:00:30+00:00".to_string()),
        ],
        read: vec![(0, "/repo".to_string()), (1, "/repo/pkg".to_string())],
        write: vec![(0, "/repo/src".to_string())],
        binaries: vec![(0, "python".to_string())],
        network: vec![(0, "deny_all".to_string()), (1, "deny_all".to_string())],
        tool: vec![],
        hash: vec![],
        nonce: vec![],
    }
}

#[test]
fn decoding_reads_the_latest_block_only() {
    let state = decode_rows(&rows()).unwrap();
    assert_eq!(state.task_id, 7);
    assert_eq!(state.block_id, 1);
    assert_eq!(state.expires_at, Timestamp::new(1_767_225_630, 0));
    assert_eq!(state.permissions.readable_roots(), &vec!["/repo/pkg".to_string()]);
    assert!(state.permissions.writable_roots().is_empty());
    assert!(state.permissions.exec_binaries().is_empty());
    assert!(state.request_binding.is_none());
}

#[test]
fn decoding_reports_missing_and_invalid_facts() {
    let mut r = rows();
    r.task.clear();
    assert_eq!(decode_rows(&r).unwrap_err(), CodecError::MissingFact(FactName::TaskId));
    let mut r = rows();
    r.network = vec![(0, "deny_all".to_string())];
    assert_eq!(decode_rows(&r).unwrap_err(), CodecError::MissingFact(FactName::Network));
    let mut r = rows();
    r.tool = vec![(1, "fs_read".to_string())];
    assert_eq!(decode_rows(&r).unwrap_err(), CodecError::MissingFact(FactName::BindingArgHash));
    r.hash = vec![(1, "xyz".to_string())];
    assert_eq!(decode_rows(&r).unwrap_err(), CodecError::InvalidValue(FactName::BindingArgHash));
    r.hash = vec![(1, "cd".repeat(32))];
    r.nonce = vec![(1, "00000000-0000-0000-0000-000000000002".to_string())];
    let state = decode_rows(&r).unwrap();
    let binding = state.request_binding.unwrap();
    assert_eq!(binding.argument_hash, [0xcd; 32]);
    assert_eq!(binding.nonce, 2);
    let mut r = rows();
    r.expires.push((1, "not a time".to_string()));
    assert_eq!(decode_rows(&r).unwrap_err(), CodecError::InvalidValue(FactName::ExpiresAt));
}

#[test]
fn token_round_trip_decodes_the_latest_block() {
    let kp = biscuit_auth::KeyPair::new();
    let public = kp.public().to_bytes();
    let t0 = warden::time::Timestamp::new(1_767_225_600, 0);
    let p0 = warden::capability::PermissionSet::from_parts(
        vec!["/repo".to_string()],
        vec![],
        vec![],
        warden::manifest::NetworkPolicy::DenyAll,
    );
    let p1 = warden::capability::PermissionSet::from_parts(
        vec!["/repo/pkg".to_string()],
        vec![],
        vec![],
        warden::manifest::NetworkPolicy::DenyAll,
    );
    let root = warden::token::build_root_token(0, &p0, warden::time::Timestamp::new(t0.secs + 60, 0), &kp)
        .unwrap();
    let root_state = warden::token::decode_state(&root, &public).unwrap();
    assert_eq!(root_state.block_id, 0);
    assert_eq!(root_state.permissions.readable_roots(), &vec!["/repo".to_string()]);

    let token = warden::token::append_block(
        &root,
        &public,
        1,
        &p1,
        warden::time::Timestamp::new(t0.secs + 30, 0),
        None,
    )
    .unwrap();
    let state = warden::token::decode_state(&token, &public).unwrap();
    assert_eq!(state.block_id, 1);
    assert_eq!(state.task_id, 0);
    assert_eq!(state.permissions.readable_roots(), &vec!["/repo/pkg".to_string()]);
    assert!(state.permissions.writable_roots().is_empty());
    assert!(state.permissions.exec_binaries().is_empty());
    assert_eq!(state.expires_at, warden::time::Timestamp::new(t0.secs + 30, 0));
    assert!(state.request_binding.is_none());

    let other = biscuit_auth::KeyPair::new().public().to_bytes();
    assert!(warden::token::decode_state(&token, &other).is_err());
}
