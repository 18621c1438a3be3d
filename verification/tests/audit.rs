use warden::audit::{chain_entry, chain_entry_with_id, verify_chain, AuditError, AuditEvent};
use warden::time::Timestamp;

#[test]
fn verifies_chain_continuity() {
    let first = chain_entry([0; 32], current_time(), AuditEvent::RootMinted { task_id: 0 }).unwrap();
    let second = chain_entry(
        first.entry_hash,
        current_time(),
        AuditEvent::ToolAllowed { tool_name: "fs_read".to_string() },
    )
    .unwrap();

    assert!(verify_chain(&[first, second]).is_ok());
}

#[test]
fn rejects_broken_chain_continuity() {
    let first = chain_entry([0; 32], current_time(), AuditEvent::RootMinted { task_id: 0 }).unwrap();
    let second = chain_entry(
        [1; 32],
        current_time(),
        AuditEvent::ToolAllowed { tool_name: "fs_read".to_string() },
    )
    .unwrap();

    assert!(matches!(
        verify_chain(&[first, second]),
        Err(AuditError::BrokenChain { index: 1 })
    ));
}

#[test]
fn detects_an_edited_entry() {
    let first = chain_entry([0; 32], current_time(), AuditEvent::RootMinted { task_id: 7 }).unwrap();
    let mut second = chain_entry(
        first.entry_hash,
        current_time(),
        AuditEvent::ToolDenied { tool_name: "fs_read".to_string(), reason: "outside".to_string() },
    )
    .unwrap();
    second.event = AuditEvent::ToolAllowed { tool_name: "fs_read".to_string() };
    assert_eq!(
        verify_chain(&[first, second]),
        Err(AuditError::HashMismatch { index: 1 })
    );
}

#[test]
fn detects_a_rehashed_entry_where_it_was_changed() {
    let first = chain_entry([0; 32], current_time(), AuditEvent::RootMinted { task_id: 7 }).unwrap();
    let second = chain_entry(
        first.entry_hash,
        current_time(),
        AuditEvent::ToolAllowed { tool_name: "fs_read".to_string() },
    )
    .unwrap();
    let mut third = chain_entry(
        second.entry_hash,
        current_time(),
        AuditEvent::ToolAllowed { tool_name: "exec".to_string() },
    )
    .unwrap();
    third.entry_hash[0] ^= 1;
    assert_eq!(
        verify_chain(&[first, second, third]),
        Err(AuditError::HashMismatch { index: 2 })
    );
}

#[test]
fn entry_hash_covers_the_framed_fields() {
    let when = Timestamp::new(-5, 7);
    let entry = chain_entry_with_id(
        0x42,
        [9; 32],
        when,
        AuditEvent::ToolDenied { tool_name: "exec".to_string(), reason: "no".to_string() },
    );
    let mut hasher = blake3::Hasher::new();
    hasher.update(uuid::Uuid::from_u128(0x42).as_bytes());
    hasher.update(&(-5i64).to_be_bytes());
    hasher.update(&7u32.to_be_bytes());
    hasher.update(b"tool_denied");
    hasher.update(&4u64.to_be_bytes());
    hasher.update(b"exec");
    hasher.update(&2u64.to_be_bytes());
    hasher.update(b"no");
    hasher.update(&[9; 32]);
    assert_eq!(entry.entry_hash, *hasher.finalize().as_bytes());
    assert!(verify_chain(&[entry]).is_ok());
}

#[test]
fn events_and_errors_describe_themselves() {
    assert_eq!(
        AuditEvent::ToolDenied { tool_name: "fs_read".to_string(), reason: "no".to_string() }.describe(),
        "DENIED        fs_read  — no"
    );
    assert_eq!(
        AuditEvent::RootMinted { task_id: 0 }.describe(),
        "ROOT MINTED   task=00000000-0000-0000-0000-000000000000"
    );
    assert_eq!(
        AuditError::BrokenChain { index: 12 }.message(),
        "audit chain is broken at entry 12"
    );
}

fn current_time() -> Timestamp {
    let now = chrono::Utc::now();
    Timestamp::new(now.timestamp(), now.timestamp_subsec_nanos())
}
