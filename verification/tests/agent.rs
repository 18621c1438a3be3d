use warden::agent::{
    build_demo_initial_messages, decision_feedback, executable_tool_calls, parse_raw_tool_call, truncate_for_feedback,
    AssistantMessage, AuthzMode, OpenAiPrincipalClient, RawFunctionCall, RawToolCall,
    StepDecision, TurnOutcome, MAX_FEEDBACK_CHARS,
};
use warden::agent_loop::{loop_next, LoopAction, LoopEnd, LoopEvent, LoopState};
use warden::audit::verify_chain;
use warden::manifest::{ExecPolicy, FilesystemPolicy, NetworkPolicy, TaskManifest};
use warden::orchestrator::{Orchestrator, ScriptedPrincipal, StepAction};
use warden::tools::{ToolCall, ToolOutput};

fn live_client() -> OpenAiPrincipalClient {
    OpenAiPrincipalClient::new(
        "http://unused",
        "test-model",
        None,
        build_demo_initial_messages("task"),
    )
}

fn raw(name: &str, args: &str, id: &str) -> RawToolCall {
    RawToolCall {
        kind: "function".to_string(),
        id: id.to_string(),
        function: RawFunctionCall {
            name: name.to_string(),
            arguments: args.to_string(),
        },
    }
}

fn repo_scoped_manifest() -> TaskManifest {
    TaskManifest {
        task_id: 0,
        repo_root: "/repo".to_string(),
        ttl_seconds: 60,
        filesystem: FilesystemPolicy {
            readable_roots: vec!["/repo".to_string()],
            writable_roots: vec![],
        },
        exec_policy: ExecPolicy {
            allowed_binaries: vec![],
        },
        network: NetworkPolicy::DenyAll,
    }
}

/// Drives the orchestrator through the agentic loop over the turns that
/// `next_turn` hands out, without running any tool: an authorized call is
/// reported back as a failed side effect. A failing principal ends the run
/// with its error.
fn drive_principal(
    orchestrator: &mut Orchestrator,
    mut next_turn: impl FnMut() -> Result<Vec<(ToolCall, String)>, String>,
    max_turns: usize,
) -> Result<(Vec<StepDecision>, Vec<String>), String> {
    let mut decisions = Vec::new();
    let mut feedback = Vec::new();
    let mut failure = None;
    let mut state = LoopState::new(max_turns);
    let mut event = LoopEvent::Continue;
    loop {
        let (next, action) = loop_next(state, event);
        state = next;
        event = match action {
            LoopAction::AskPrincipal => match next_turn() {
                Ok(calls) => LoopEvent::Batch(calls),
                Err(e) => {
                    failure = Some(e);
                    LoopEvent::PrincipalFailed
                }
            },
            LoopAction::Step { call, call_id } => {
                let outcome = match orchestrator.begin_step(call) {
                    StepAction::Finished(outcome) => outcome,
                    StepAction::Execute(call) => {
                        orchestrator.complete_step(call, Err("not run here".to_string()))
                    }
                };
                LoopEvent::Stepped { call_id, outcome }
            }
            LoopAction::Feed { feedback: text, outcome, .. } => {
                feedback.push(text);
                decisions.push(outcome.decision);
                LoopEvent::Continue
            }
            LoopAction::Stop(LoopEnd::Finished) => return Ok((decisions, feedback)),
            LoopAction::Stop(LoopEnd::PrincipalFailed) => {
                return Err(failure.unwrap_or_default())
            }
        };
    }
}

/// Drives the loop over scripted turns (see [`drive_principal`]).
fn drive(
    orchestrator: &mut Orchestrator,
    turns: Vec<Vec<(ToolCall, String)>>,
    max_turns: usize,
) -> (Vec<StepDecision>, Vec<String>) {
    let mut turns = turns.into_iter();
    drive_principal(orchestrator, move || Ok(turns.next().unwrap_or_default()), max_turns)
        .expect("scripted turns never fail")
}

#[test]
fn loop_surfaces_principal_error() {
    let mut orchestrator =
        Orchestrator::new(&repo_scoped_manifest(), AuthzMode::Enforced).unwrap();
    let result = drive_principal(
        &mut orchestrator,
        || Err("simulated transport failure".to_string()),
        8,
    );
    assert!(
        result.is_err(),
        "a principal error must propagate to the caller, not be swallowed"
    );
}

#[test]
fn ingest_assistant_answers_unparseable_calls_to_keep_history_valid() {
    let mut client = live_client();
    let assistant = AssistantMessage {
        content: None,
        tool_calls: vec![
            raw("fs_read", r#"{"path":"/repo/x"}"#, "good"),
            raw("fs_read", "not json", "bad"),
        ],
    };

    let calls = client.ingest_assistant(assistant);

    assert_eq!(calls.len(), 1);
    assert_eq!(calls[0].1, "good");

    let msgs = client.messages();
    assert!(msgs
        .iter()
        .any(|m| m.role == "assistant" && m.tool_calls.is_some()));
    assert!(
        msgs.iter()
            .any(|m| m.role == "tool" && m.tool_call_id.as_deref() == Some("bad")),
        "unparseable tool_call id must receive an error tool result"
    );
    assert!(!msgs
        .iter()
        .any(|m| m.role == "tool" && m.tool_call_id.as_deref() == Some("good")));
}

#[test]
fn classify_returns_executable_calls() {
    let mut client = live_client();
    let assistant = AssistantMessage {
        content: None,
        tool_calls: vec![raw("fs_read", r#"{"path":"/repo/x"}"#, "id1")],
    };
    match client.classify_assistant(assistant) {
        TurnOutcome::Calls(calls) => assert_eq!(calls.len(), 1),
        _ => panic!("expected Calls"),
    }
}

#[test]
fn classify_mixed_batch_returns_only_parseable() {
    let mut client = live_client();
    let assistant = AssistantMessage {
        content: None,
        tool_calls: vec![
            raw("fs_read", r#"{"path":"/repo/x"}"#, "good"),
            raw("fs_read", "not json", "bad"),
        ],
    };
    match client.classify_assistant(assistant) {
        TurnOutcome::Calls(calls) => {
            assert_eq!(calls.len(), 1);
            assert_eq!(calls[0].1, "good");
        }
        _ => panic!("expected Calls"),
    }
}

#[test]
fn executable_tool_calls_keeps_parseable_calls_in_order() {
    let raws = vec![
        raw("fs_read", r#"{"path":"/repo/a"}"#, "first"),
        raw("fs_read", "not json", "broken"),
        raw("teleport", "{}", "unknown"),
        raw("exec", r#"{"binary":"pytest","args":["-q"]}"#, "second"),
    ];
    let calls = executable_tool_calls(&raws);
    assert_eq!(calls.len(), 2);
    assert_eq!(calls[0].0, ToolCall::FsRead { path: "/repo/a".to_string() });
    assert_eq!(calls[0].1, "first");
    assert_eq!(calls[1].1, "second");
    assert!(executable_tool_calls(&vec![]).is_empty());
}

#[test]
fn classify_all_unparseable_requests_retry() {
    let mut client = live_client();
    let assistant = AssistantMessage {
        content: None,
        tool_calls: vec![raw("fs_read", "not json", "bad")],
    };
    assert!(matches!(
        client.classify_assistant(assistant),
        TurnOutcome::RetryAfterUnparseable
    ));
}

#[test]
fn classify_content_only_is_done() {
    let mut client = live_client();
    let assistant = AssistantMessage {
        content: Some("all done, the test passes".to_string()),
        tool_calls: vec![],
    };
    assert!(matches!(
        client.classify_assistant(assistant),
        TurnOutcome::Done
    ));
}

#[test]
fn feedback_truncates_large_read_content() {
    let big = "x".repeat(MAX_FEEDBACK_CHARS + 500);
    let decision = StepDecision::Allowed(ToolOutput::Read { content: big });
    let fed = decision_feedback(&decision);
    assert!(fed.contains("truncated"));
    assert!(fed.chars().count() < MAX_FEEDBACK_CHARS + 200);
}

#[test]
fn loop_denies_out_of_scope_call_and_feeds_denial_back() {
    let mut orchestrator =
        Orchestrator::new(&repo_scoped_manifest(), AuthzMode::Enforced).unwrap();
    let turns = vec![vec![(
        ToolCall::FsRead {
            path: "/etc/passwd".to_string(),
        },
        "call-1".to_string(),
    )]];

    let (decisions, feedback) = drive(&mut orchestrator, turns, 8);

    assert_eq!(decisions.len(), 1);
    assert!(matches!(decisions[0], StepDecision::Denied(_)));
    assert_eq!(feedback.len(), 1);
    assert!(
        feedback[0].contains("DENIED"),
        "principal should be told it was denied, got: {}",
        feedback[0]
    );
    assert!(verify_chain(orchestrator.audit_log()).is_ok());
    assert_eq!(orchestrator.audit_log().len(), 3);
}

#[test]
fn loop_stops_when_principal_emits_no_calls() {
    let mut orchestrator =
        Orchestrator::new(&repo_scoped_manifest(), AuthzMode::Enforced).unwrap();
    let (decisions, feedback) = drive(&mut orchestrator, Vec::new(), 8);
    assert!(decisions.is_empty());
    assert!(feedback.is_empty());
}

#[test]
fn parse_fs_read_valid() {
    let func = RawFunctionCall {
        name: "fs_read".to_string(),
        arguments: r#"{"path":"/tmp/test.txt"}"#.to_string(),
    };
    let call = parse_raw_tool_call(&func).expect("valid");
    match call {
        ToolCall::FsRead { path } => assert_eq!(path, "/tmp/test.txt"),
        _ => panic!("wrong variant"),
    }
}

#[test]
fn parse_fs_write_valid() {
    let func = RawFunctionCall {
        name: "fs_write".to_string(),
        arguments: r#"{"path":"/tmp/out.txt","contents":"hello"}"#.to_string(),
    };
    let call = parse_raw_tool_call(&func).expect("valid");
    match call {
        ToolCall::FsWrite { path, contents } => {
            assert_eq!(path, "/tmp/out.txt");
            assert_eq!(contents, "hello");
        }
        _ => panic!("wrong variant"),
    }
}

#[test]
fn parse_exec_valid() {
    let func = RawFunctionCall {
        name: "exec".to_string(),
        arguments: r#"{"binary":"echo","args":["hi","there"]}"#.to_string(),
    };
    let call = parse_raw_tool_call(&func).expect("valid");
    match call {
        ToolCall::Exec { binary, args } => {
            assert_eq!(binary, "echo");
            assert_eq!(args, vec!["hi".to_string(), "there".to_string()]);
        }
        _ => panic!("wrong variant"),
    }
}

#[test]
fn parse_network_valid() {
    let func = RawFunctionCall {
        name: "network".to_string(),
        arguments: r#"{"host":"127.0.0.1","port":9999,"payload":"secret"}"#.to_string(),
    };
    let call = parse_raw_tool_call(&func).expect("valid");
    match call {
        ToolCall::Network {
            host,
            port,
            payload,
        } => {
            assert_eq!(host, "127.0.0.1");
            assert_eq!(port, 9999);
            assert_eq!(payload, "secret");
        }
        _ => panic!("wrong variant"),
    }
}

#[test]
fn parse_unknown_tool() {
    let func = RawFunctionCall {
        name: "unknown".to_string(),
        arguments: "{}".to_string(),
    };
    assert!(parse_raw_tool_call(&func).is_none());
}

#[test]
fn parse_malformed_args() {
    let func = RawFunctionCall {
        name: "fs_read".to_string(),
        arguments: "not json".to_string(),
    };
    assert!(parse_raw_tool_call(&func).is_none());
}

#[test]
fn parse_network_bad_port() {
    let func = RawFunctionCall {
        name: "network".to_string(),
        arguments: r#"{"host":"127.0.0.1","port":999999,"payload":"x"}"#.to_string(),
    };
    assert!(parse_raw_tool_call(&func).is_none());
}

#[test]
fn parse_exec_keeps_only_string_args() {
    let func = RawFunctionCall {
        name: "exec".to_string(),
        arguments: r#"{"binary":"ls","args":["-l",3,null,"/repo"]}"#.to_string(),
    };
    assert_eq!(
        parse_raw_tool_call(&func),
        Some(ToolCall::Exec { binary: "ls".to_string(), args: vec!["-l".to_string(), "/repo".to_string()] })
    );
    let func = RawFunctionCall {
        name: "exec".to_string(),
        arguments: r#"{"binary":"ls","args":"-l"}"#.to_string(),
    };
    assert!(parse_raw_tool_call(&func).is_none());
}

#[test]
fn authz_mode_fails_closed() {
    for value in ["off", " OFF ", "0", "False", "no", "\tbypass\n", "ByPaSs"] {
        assert_eq!(AuthzMode::from_env_value(value), AuthzMode::Bypassed, "{value:?}");
    }
    for value in ["on", "", "offf", "yes", "1", "o ff", "true"] {
        assert_eq!(AuthzMode::from_env_value(value), AuthzMode::Enforced, "{value:?}");
    }
}

#[test]
fn truncation_reports_byte_length() {
    assert_eq!(truncate_for_feedback("short"), "short");
    let text = "é".repeat(MAX_FEEDBACK_CHARS + 1);
    let fed = truncate_for_feedback(&text);
    let expected = format!(
        "{}\n... (truncated; {} bytes total)",
        "é".repeat(MAX_FEEDBACK_CHARS),
        2 * (MAX_FEEDBACK_CHARS + 1)
    );
    assert_eq!(fed, expected);
}

#[test]
fn feedback_texts_for_each_decision() {
    assert_eq!(
        decision_feedback(&StepDecision::Allowed(ToolOutput::Write { bytes_written: 12 })),
        "ok: wrote 12 bytes"
    );
    assert_eq!(
        decision_feedback(&StepDecision::Allowed(ToolOutput::Exec {
            status: Some(-3),
            stdout: "out".to_string(),
            stderr: String::new(),
        })),
        "exit=Some(-3)\n--- stdout ---\nout\n--- stderr ---\n"
    );
    assert_eq!(
        decision_feedback(&StepDecision::Allowed(ToolOutput::Exec {
            status: None,
            stdout: String::new(),
            stderr: String::new(),
        })),
        "exit=None\n--- stdout ---\n\n--- stderr ---\n"
    );
    assert_eq!(
        decision_feedback(&StepDecision::Denied("nope".to_string())),
        "DENIED by authorization policy: nope"
    );
    assert_eq!(
        decision_feedback(&StepDecision::Errored("boom".to_string())),
        "ERROR executing tool: boom"
    );
}

#[test]
fn scripted_principal_replays_one_call_per_turn() {
    let mut principal = ScriptedPrincipal::new(vec![
        ToolCall::FsRead { path: "/a".to_string() },
        ToolCall::FsRead { path: "/b".to_string() },
    ]);
    assert_eq!(principal.turn_budget(), 3);
    let first = principal.next_calls();
    assert_eq!(first.len(), 1);
    assert_eq!(first[0].1, "scripted-0");
    let second = principal.next_calls();
    assert_eq!(second[0].1, "scripted-1");
    assert_eq!(second[0].0, ToolCall::FsRead { path: "/b".to_string() });
    assert!(principal.next_calls().is_empty());
    assert_eq!(principal.turn_budget(), 1);
}

#[test]
fn enforced_step_hands_back_an_authorized_call() {
    let mut orchestrator =
        Orchestrator::new(&repo_scoped_manifest(), AuthzMode::Enforced).unwrap();
    let call = ToolCall::FsRead { path: "/repo/README.md".to_string() };
    match orchestrator.begin_step(call) {
        StepAction::Execute(call) => {
            let outcome = orchestrator.complete_step(
                call,
                Ok(ToolOutput::Read { content: "hello".to_string() }),
            );
            assert_eq!(decision_feedback(&outcome.decision), "hello");
        }
        StepAction::Finished(outcome) => panic!("unexpected {:?}", outcome.decision),
    }
    assert_eq!(orchestrator.audit_log().len(), 3);
    assert!(verify_chain(orchestrator.audit_log()).is_ok());
}

#[test]
fn bypassed_step_runs_everything() {
    let mut orchestrator =
        Orchestrator::new(&repo_scoped_manifest(), AuthzMode::Bypassed).unwrap();
    let call = ToolCall::FsRead { path: "/etc/passwd".to_string() };
    match orchestrator.begin_step(call) {
        StepAction::Execute(call) => {
            let outcome = orchestrator.complete_step(call, Err("gone".to_string()));
            assert!(matches!(outcome.decision, StepDecision::Errored(ref m) if m == "tool execution io error: gone"));
        }
        StepAction::Finished(_) => panic!("bypassed mode must not decide"),
    }
    assert_eq!(orchestrator.audit_log().len(), 2);
    assert!(verify_chain(orchestrator.audit_log()).is_ok());
}

#[test]
fn demo_conversation_opens_with_system_and_user() {
    let messages = build_demo_initial_messages("fix the bug");
    assert_eq!(messages.len(), 2);
    assert_eq!(messages[0].role, "system");
    assert_eq!(messages[1].role, "user");
    assert_eq!(messages[1].content.as_deref(), Some("fix the bug"));
}
