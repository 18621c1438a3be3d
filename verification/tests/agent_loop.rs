use warden::agent::{
    call_from_fields, AuthzMode, JsonField, StepDecision, StepOutcome, TurnOutcome,
};
use warden::agent_loop::{
    after_turn, loop_next, LoopAction, LoopEnd, LoopEvent, LoopState, RetryAction,
};
use warden::audit::{verify_chain, AuditEvent};
use warden::manifest::{ExecPolicy, FilesystemPolicy, NetworkPolicy, TaskManifest};
use warden::orchestrator::{Orchestrator, StepAction, MAX_UNPARSEABLE_RETRIES};
use warden::path::{longest_existing, resolution_given, resolve_at};
use warden::pep::VerificationError;
use warden::time::Timestamp;
use warden::token::{state_rule, StatePredicate};
use warden::tools::{ToolCall, ToolError};

fn current_time() -> Timestamp {
    let now = chrono::Utc::now();
    Timestamp::new(now.timestamp(), now.timestamp_subsec_nanos())
}

fn read_call(path: &str) -> ToolCall {
    ToolCall::FsRead {
        path: path.to_string(),
    }
}

fn manifest_with_ttl(ttl_seconds: u64) -> TaskManifest {
    TaskManifest {
        task_id: 0,
        repo_root: "/repo".to_string(),
        ttl_seconds,
        filesystem: FilesystemPolicy {
            readable_roots: vec!["/repo".to_string()],
            writable_roots: vec![],
        },
        exec_policy: ExecPolicy {
            allowed_binaries: vec![],
        },
        network: NetworkPolicy::DenyAll,
    }
}

fn last_event(orchestrator: &Orchestrator) -> &AuditEvent {
    &orchestrator.audit_log().last().unwrap().event
}

#[test]
fn loop_with_no_turns_stops_at_once() {
    let (state, action) = loop_next(LoopState::new(0), LoopEvent::Continue);
    assert!(matches!(action, LoopAction::Stop(LoopEnd::Finished)));
    assert_eq!(state.turns_left(), 0);
}

#[test]
fn loop_spends_a_turn_to_ask() {
    let (state, action) = loop_next(LoopState::new(2), LoopEvent::Continue);
    assert!(matches!(action, LoopAction::AskPrincipal));
    assert_eq!(state.turns_left(), 1);
    let (state, action) = loop_next(state, LoopEvent::Batch(Vec::new()));
    assert!(matches!(action, LoopAction::Stop(LoopEnd::Finished)));
    assert_eq!(state.turns_left(), 1);
}

#[test]
fn loop_steps_a_batch_in_order_and_feeds_back() {
    let (state, _) = loop_next(LoopState::new(1), LoopEvent::Continue);
    let batch = vec![
        (read_call("/repo/a"), "call-1".to_string()),
        (read_call("/repo/b"), "call-2".to_string()),
    ];
    let (state, action) = loop_next(state, LoopEvent::Batch(batch));
    match action {
        LoopAction::Step { call, call_id } => {
            assert_eq!(call, read_call("/repo/a"));
            assert_eq!(call_id, "call-1");
        }
        other => panic!("expected a step, got {:?}", other),
    }
    assert_eq!(state.pending_len(), 1);

    let outcome = StepOutcome {
        call: read_call("/repo/a"),
        decision: StepDecision::Denied("outside".to_string()),
    };
    let (state, action) = loop_next(
        state,
        LoopEvent::Stepped {
            call_id: "call-1".to_string(),
            outcome,
        },
    );
    match action {
        LoopAction::Feed {
            call_id,
            feedback,
            outcome,
        } => {
            assert_eq!(call_id, "call-1");
            assert_eq!(feedback, "DENIED by authorization policy: outside");
            assert_eq!(outcome.call, read_call("/repo/a"));
        }
        other => panic!("expected feedback, got {:?}", other),
    }

    let (state, action) = loop_next(state, LoopEvent::Continue);
    match action {
        LoopAction::Step { call, call_id } => {
            assert_eq!(call, read_call("/repo/b"));
            assert_eq!(call_id, "call-2");
        }
        other => panic!("expected a step, got {:?}", other),
    }
    assert_eq!(state.pending_len(), 0);

    let (_, action) = loop_next(state, LoopEvent::Continue);
    assert!(matches!(action, LoopAction::Stop(LoopEnd::Finished)));
}

#[test]
fn loop_asks_no_more_than_its_turns() {
    let mut state = LoopState::new(2);
    let mut event = LoopEvent::Continue;
    let mut asks = 0;
    let mut actions = 0;
    loop {
        let (next, action) = loop_next(state, event);
        state = next;
        actions += 1;
        assert!(actions < 50);
        event = match action {
            LoopAction::AskPrincipal => {
                asks += 1;
                LoopEvent::Batch(vec![(read_call("/repo/a"), format!("call-{asks}"))])
            }
            LoopAction::Step { call, call_id } => LoopEvent::Stepped {
                call_id,
                outcome: StepOutcome { call, decision: StepDecision::Denied("outside".to_string()) },
            },
            LoopAction::Feed { .. } => LoopEvent::Continue,
            LoopAction::Stop(end) => {
                assert_eq!(end, LoopEnd::Finished);
                break;
            }
        };
    }
    assert_eq!(asks, 2);
    assert_eq!(state.turns_left(), 0);
}

#[test]
fn loop_stops_on_principal_failure() {
    let (state, _) = loop_next(LoopState::new(3), LoopEvent::Continue);
    let (state, action) = loop_next(state, LoopEvent::PrincipalFailed);
    assert!(matches!(action, LoopAction::Stop(LoopEnd::PrincipalFailed)));
    assert_eq!(state.turns_left(), 2);
}

#[test]
fn live_principal_returns_calls_and_stops_when_done() {
    let calls = vec![(read_call("/repo/a"), "c".to_string())];
    match after_turn(0, TurnOutcome::Calls(calls)) {
        RetryAction::Return(v) => assert_eq!(v.len(), 1),
        RetryAction::AskAgain => panic!("calls must be returned"),
    }
    match after_turn(0, TurnOutcome::Done) {
        RetryAction::Return(v) => assert!(v.is_empty()),
        RetryAction::AskAgain => panic!("a finished model is not asked again"),
    }
}

#[test]
fn live_principal_retries_unparseable_turns_up_to_the_budget() {
    assert_eq!(MAX_UNPARSEABLE_RETRIES, 3);
    assert!(matches!(
        after_turn(0, TurnOutcome::RetryAfterUnparseable),
        RetryAction::AskAgain
    ));
    assert!(matches!(
        after_turn(1, TurnOutcome::RetryAfterUnparseable),
        RetryAction::AskAgain
    ));
    match after_turn(2, TurnOutcome::RetryAfterUnparseable) {
        RetryAction::Return(v) => assert!(v.is_empty()),
        RetryAction::AskAgain => panic!("the retry budget is spent"),
    }
}

#[test]
fn step_for_runs_an_authorized_call_without_recording() {
    let mut orchestrator = Orchestrator::new(&manifest_with_ttl(60), AuthzMode::Enforced).unwrap();
    let before = orchestrator.audit_log().len();
    match orchestrator.step_for(read_call("/repo/a"), Ok(())) {
        StepAction::Execute(call) => assert_eq!(call, read_call("/repo/a")),
        other => panic!("expected execution, got {:?}", other),
    }
    assert_eq!(orchestrator.audit_log().len(), before);
}

#[test]
fn step_for_denies_with_each_reason() {
    let mut orchestrator = Orchestrator::new(&manifest_with_ttl(60), AuthzMode::Enforced).unwrap();
    let cases = vec![
        (ToolError::Denied("nope".to_string()), "nope"),
        (
            ToolError::Verification(VerificationError::Expired),
            "capability is expired",
        ),
        (
            ToolError::Serialize("bad".to_string()),
            "argument serialization failed: bad",
        ),
    ];
    for (error, expected) in cases {
        let before = orchestrator.audit_log().len();
        match orchestrator.step_for(read_call("/repo/a"), Err(error)) {
            StepAction::Finished(outcome) => {
                assert!(matches!(&outcome.decision, StepDecision::Denied(r) if r == expected));
            }
            other => panic!("expected a denial, got {:?}", other),
        }
        assert_eq!(orchestrator.audit_log().len(), before + 1);
        assert_eq!(
            last_event(&orchestrator),
            &AuditEvent::ToolDenied {
                tool_name: "fs_read".to_string(),
                reason: expected.to_string(),
            }
        );
    }
    assert!(verify_chain(orchestrator.audit_log()).is_ok());
}

#[test]
fn step_for_reports_an_io_failure_as_an_error() {
    let mut orchestrator = Orchestrator::new(&manifest_with_ttl(60), AuthzMode::Enforced).unwrap();
    match orchestrator.step_for(read_call("/repo/a"), Err(ToolError::Io("boom".to_string()))) {
        StepAction::Finished(outcome) => {
            assert!(matches!(&outcome.decision, StepDecision::Errored(m) if m == "boom"));
        }
        other => panic!("expected an error, got {:?}", other),
    }
    assert_eq!(
        last_event(&orchestrator),
        &AuditEvent::ToolDenied {
            tool_name: "fs_read".to_string(),
            reason: "execution error: boom".to_string(),
        }
    );
}

#[test]
fn enforced_step_denies_when_no_child_can_be_derived() {
    let mut orchestrator = Orchestrator::new(&manifest_with_ttl(1), AuthzMode::Enforced).unwrap();
    let before = orchestrator.audit_log().len();
    let reason = "capability not mintable: requested TTL widens parent capability";
    match orchestrator.begin_enforced_step_at(read_call("/repo/a"), current_time(), 7) {
        StepAction::Finished(outcome) => {
            assert!(matches!(&outcome.decision, StepDecision::Denied(r) if r == reason));
        }
        other => panic!("expected a denial, got {:?}", other),
    }
    assert_eq!(orchestrator.audit_log().len(), before + 1);
    assert_eq!(
        last_event(&orchestrator),
        &AuditEvent::ToolDenied {
            tool_name: "fs_read".to_string(),
            reason: reason.to_string(),
        }
    );
}

#[test]
fn enforced_step_denies_a_read_outside_the_roots() {
    let mut orchestrator = Orchestrator::new(&manifest_with_ttl(60), AuthzMode::Enforced).unwrap();
    let before = orchestrator.audit_log().len();
    match orchestrator.begin_enforced_step_at(read_call("/etc/passwd"), current_time(), 7) {
        StepAction::Finished(outcome) => {
            assert!(matches!(outcome.decision, StepDecision::Denied(_)));
        }
        other => panic!("expected a denial, got {:?}", other),
    }
    assert_eq!(orchestrator.audit_log().len(), before + 2);
    assert!(matches!(
        orchestrator.audit_log()[before].event,
        AuditEvent::CapabilityAttenuated { task_id: 0 }
    ));
}

#[test]
fn state_rules_name_each_predicate() {
    assert_eq!(state_rule(StatePredicate::TaskId), "data($id) <- task_id($id)");
    assert_eq!(
        state_rule(StatePredicate::ReadRoot),
        "data($id, $val) <- read_root($id, $val)"
    );
    assert_eq!(
        state_rule(StatePredicate::WriteRoot),
        "data($id, $val) <- write_root($id, $val)"
    );
    assert_eq!(
        state_rule(StatePredicate::BindingNonce),
        "data($id, $val) <- binding_nonce($id, $val)"
    );
}

#[test]
fn calls_from_parsed_fields() {
    let fields = vec![("path".to_string(), JsonField::Str("/repo/a".to_string()))];
    assert_eq!(
        call_from_fields("fs_read", Some(fields)),
        Some(read_call("/repo/a"))
    );
    let network = vec![
        ("host".to_string(), JsonField::Str("example.com".to_string())),
        ("port".to_string(), JsonField::Number(Some(70000))),
        ("payload".to_string(), JsonField::Str("x".to_string())),
    ];
    assert_eq!(call_from_fields("network", Some(network)), None);
    assert_eq!(call_from_fields("fs_read", None), None);
    let args = vec![
        ("binary".to_string(), JsonField::Str("python".to_string())),
        (
            "args".to_string(),
            JsonField::Array(vec![Some("-c".to_string()), None, Some("1".to_string())]),
        ),
    ];
    assert_eq!(
        call_from_fields("exec", Some(args)),
        Some(ToolCall::Exec {
            binary: "python".to_string(),
            args: vec!["-c".to_string(), "1".to_string()],
        })
    );
}

#[test]
fn resolution_replaces_the_found_ancestor() {
    assert_eq!(
        resolve_at("/repo/src/x", 1, Some("/real/repo".to_string())),
        "/real/repo/src/x"
    );
    assert_eq!(resolve_at("/repo/src/x", 0, None), "/repo/src/x");
    assert_eq!(resolve_at("/repo//src/", 2, None), "/repo/src");
    assert_eq!(resolve_at("/repo/src", 2, Some("/".to_string())), "/");
}

#[test]
fn longest_existing_ancestor_from_answers() {
    assert_eq!(longest_existing(&vec![true, false, true, false]), Some(2));
    assert_eq!(longest_existing(&vec![true, false, false]), Some(0));
    assert_eq!(longest_existing(&vec![false, false]), None);
}

#[test]
fn resolution_from_the_filesystem_answers() {
    assert_eq!(
        resolution_given(
            "/repo/src/x",
            &vec![true, true, false, false],
            Some("/real/repo".to_string())
        ),
        "/real/repo/src/x"
    );
    assert_eq!(
        resolution_given("/repo/link/secret.txt", &vec![true, true, true, false], Some("/outside".to_string())),
        "/outside/secret.txt"
    );
    assert_eq!(
        resolution_given("/repo//src/", &vec![false, false, false], None),
        "/repo/src"
    );
    assert_eq!(
        resolution_given("/repo/x", &vec![true, false, false], Some("/".to_string())),
        "/repo/x"
    );
}
