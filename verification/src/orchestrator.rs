//! The reference orchestrator's decisions: it mints a root capability from
//! the trusted manifest, and for every tool call the principal asks for it
//! either (enforced) derives a single-use, short-lived child bound to that
//! exact call and authorizes it before any side effect, or (bypassed) runs
//! the call with ambient authority. Every mint, attenuation and decision is
//! recorded in the hash-chained audit log, which stays valid throughout.
//! The side effects themselves are performed by the caller between
//! [`Orchestrator::begin_step`] and [`Orchestrator::complete_step`].

use vstd::prelude::*;
use crate::agent::{AuthzMode, CallView, StepDecision, StepOutcome};
use crate::audit::{chain_entry, chain_verdict, lemma_append_keeps_chain, AuditEntry, AuditError, AuditEvent};
use crate::capability::{
    attenuated, attenuation_error_ok, binding_view, capability_error_text, child_token_faithful, copy_strings,
    faithful_child, latest_binding, root_token_faithful,
    lemma_narrowed_roots_admit_less, mint_ok, names_member, narrows, texts, under_any_root,
    AttenuationRequest, CapabilityError, ChildView, PermissionView, RootCapability, RootView,
};
use crate::path::{same_path, starts_with};
use crate::pdp::{decision_ok, lemma_allow_needs_grant, Decision, ToolRequest};
use crate::pep::{admits, token_state, verification_error_text};
use crate::token::{four_digit_year, DecodedView};
use crate::manifest::TaskManifest;
use crate::time::{current_time, Timestamp};
use crate::tools::{
    authorization_ok, authorize_only, binding_for, call_tool_name, presented_binding,
    request_binding_for, request_of, ToolCall, ToolError, ToolOutput,
};

verus! {

/// How long each per-call child capability lives, in seconds.
pub const CHILD_TTL_SECONDS: u64 = 5;

/// How many model turns the agentic loop runs before it stops.
pub const DEFAULT_MAX_TURNS: usize = 16;

/// How many turns of only unparseable tool calls a live principal retries
/// before it gives up.
pub const MAX_UNPARSEABLE_RETRIES: usize = 3;

/// A principal that replays a fixed list of tool calls, one per turn.
#[derive(Debug)]
pub struct ScriptedPrincipal {
    pending: Vec<ToolCall>,
    taken: usize,
}

/// The abstract content of a scripted principal: the calls still to replay
/// and how many were replayed.
pub struct ScriptView {
    pub remaining: Seq<CallView>,
    pub taken: nat,
}

/// The views of tool calls.
pub open spec fn call_views(v: Seq<ToolCall>) -> Seq<CallView> {
    Seq::new(v.len(), |i: int| v[i]@)
}

/// One replay of a script: its next call under the id `scripted-<n>` (with
/// `n` the calls replayed so far) and the rest of the script, or nothing
/// once every call was replayed.
pub open spec fn script_step(v: ScriptView) -> (Seq<(CallView, Seq<char>)>, ScriptView) {
    if v.remaining.len() == 0 {
        (Seq::empty(), v)
    } else {
        (
            seq![(v.remaining[0], "scripted-"@ + crate::codec::decimal_text(v.taken))],
            ScriptView { remaining: v.remaining.drop_first(), taken: v.taken + 1 },
        )
    }
}

/// A script after `i` replays.
pub open spec fn script_after(v: ScriptView, i: nat) -> ScriptView
    decreases i,
{
    if i == 0 {
        v
    } else {
        script_step(script_after(v, (i - 1) as nat)).1
    }
}

/// A script replays its calls in order: after `i` replays of a fresh script
/// of `calls` (`i` at most their number) the first `i` calls were handed
/// out and the rest remain; the next replay hands out call `i` under the id
/// `scripted-i`, or nothing once every call was replayed.
pub proof fn lemma_script_replays(calls: Seq<CallView>, i: nat)
    requires
        i <= calls.len(),
    ensures
        script_after(ScriptView { remaining: calls, taken: 0 }, i).remaining == calls.skip(i as int),
        script_after(ScriptView { remaining: calls, taken: 0 }, i).taken == i,
        i < calls.len() ==> script_step(script_after(ScriptView { remaining: calls, taken: 0 }, i)).0 == seq![
            (calls[i as int], "scripted-"@ + crate::codec::decimal_text(i)),
        ],
        i == calls.len() ==> script_step(script_after(ScriptView { remaining: calls, taken: 0 }, i)).0.len() == 0,
    decreases i,
{
    if i > 0 {
        lemma_script_replays(calls, (i - 1) as nat);
        assert(calls.skip(i - 1).drop_first() =~= calls.skip(i as int));
    } else {
        assert(calls.skip(0) =~= calls);
    }
}

impl View for ScriptedPrincipal {
    type V = ScriptView;

    closed spec fn view(&self) -> ScriptView {
        ScriptView {
            remaining: call_views(self.pending@).subrange(self.taken as int, self.pending@.len() as int),
            taken: self.taken as nat,
        }
    }
}

impl ScriptedPrincipal {
    #[verifier::type_invariant]
    spec fn within(self) -> bool {
        self.taken <= self.pending@.len() < usize::MAX
    }

    /// A principal that will replay `calls` in order.
    pub fn new(calls: Vec<ToolCall>) -> (r: Self)
        requires
            calls@.len() < usize::MAX,
        ensures
            r@.remaining == call_views(calls@),
            r@.taken == 0,
    {
        let r = ScriptedPrincipal { pending: calls, taken: 0 };
        assert(call_views(calls@).subrange(0, calls@.len() as int) =~= call_views(calls@));
        r
    }

    /// The turns needed to replay every remaining call plus the final empty
    /// turn that ends the loop.
    pub fn turn_budget(&self) -> (r: usize)
        ensures
            r == self@.remaining.len() + 1,
    {
        proof {
            use_type_invariant(self);
        }
        self.pending.len() - self.taken + 1
    }

    /// The next call with a fresh id `scripted-<n>`, or nothing once every
    /// call was replayed.
    pub fn next_calls(&mut self) -> (r: Vec<(ToolCall, String)>)
        ensures
            crate::agent::call_pairs(r@) == script_step(old(self)@).0,
            final(self)@.remaining == script_step(old(self)@).1.remaining,
            final(self)@.taken == script_step(old(self)@).1.taken,
            old(self)@.remaining.len() == 0 ==> r@.len() == 0 && final(self)@ == old(self)@,
            old(self)@.remaining.len() > 0 ==> {
                &&& crate::agent::call_pairs(r@) == seq![
                    (old(self)@.remaining[0], "scripted-"@ + crate::codec::decimal_text(old(self)@.taken)),
                ]
                &&& final(self)@.remaining == old(self)@.remaining.drop_first()
                &&& final(self)@.taken == old(self)@.taken + 1
            },
    {
        proof {
            use_type_invariant(&*self);
        }
        if self.taken >= self.pending.len() {
            return Vec::new();
        }
        let call = duplicate_call(&self.pending[self.taken]);
        let mut id: Vec<char> = Vec::new();
        crate::text::push_str(&mut id, "scripted-");
        crate::codec::push_decimal(&mut id, self.taken as u64);
        let name = crate::text::string_of(&id);
        let ghost old_view = self@;
        self.taken = self.taken + 1;
        assert(self@.remaining =~= old_view.remaining.drop_first());
        let mut out: Vec<(ToolCall, String)> = Vec::new();
        out.push((call, name));
        assert(crate::agent::call_pairs(out@) =~= seq![
            (old_view.remaining[0], "scripted-"@ + crate::codec::decimal_text(old_view.taken)),
        ]);
        out
    }
}

/// A copy of a tool call.
pub fn duplicate_call(call: &ToolCall) -> (r: ToolCall)
    ensures
        r@ == call@,
        request_of(r) == request_of(*call),
{
    match call {
        ToolCall::FsRead { path } => ToolCall::FsRead { path: path.clone() },
        ToolCall::FsWrite { path, contents } => ToolCall::FsWrite {
            path: path.clone(),
            contents: contents.clone(),
        },
        ToolCall::Exec { binary, args } => ToolCall::Exec {
            binary: binary.clone(),
            args: copy_strings(args),
        },
        ToolCall::Network { host, port, payload } => ToolCall::Network {
            host: host.clone(),
            port: *port,
            payload: payload.clone(),
        },
    }
}

/// Why the orchestrator could not start.
#[derive(Debug)]
pub enum OrchestratorError {
    /// The root capability could not be minted.
    Mint(CapabilityError),
    /// An audit entry could not be written.
    Audit(AuditError),
}

/// The abstract content of an audit event.
pub enum EventView {
    RootMinted(u128),
    CapabilityAttenuated(u128),
    ToolAllowed(Seq<char>),
    ToolDenied(Seq<char>, Seq<char>),
}

/// The view of an audit event.
pub open spec fn event_view(e: AuditEvent) -> EventView {
    match e {
        AuditEvent::RootMinted { task_id } => EventView::RootMinted(task_id),
        AuditEvent::CapabilityAttenuated { task_id } => EventView::CapabilityAttenuated(task_id),
        AuditEvent::ToolAllowed { tool_name } => EventView::ToolAllowed(tool_name@),
        AuditEvent::ToolDenied { tool_name, reason } => EventView::ToolDenied(tool_name@, reason@),
    }
}

/// Whether `new` is `old` with entries recording `events` appended.
pub open spec fn appended(old: Seq<AuditEntry>, new: Seq<AuditEntry>, events: Seq<EventView>) -> bool {
    &&& new.len() == old.len() + events.len()
    &&& new.subrange(0, old.len() as int) == old
    &&& forall|i: int| 0 <= i < events.len() ==> event_view(#[trigger] new[old.len() + i].event) == events[i]
}

/// Whether some child of `root`, narrowed from it, carries a token state
/// that at some time admits the invocation `call` under `nonce` and under
/// whose permissions the decision point allows the call.
pub open spec fn authorized(root: RootView, call: ToolCall, nonce: u128) -> bool {
    exists|c: ChildView|
        c.task_id == root.task_id && #[trigger] narrows(c.permissions, root.permissions) && exists|
            t: Timestamp,
        | #[trigger] authorization_ok(c, request_of(call), Some(nonce), t, Ok(()))
}

/// The hash that the first entry of a log carries: thirty-two zero bytes.
pub open spec fn zero_hash() -> Seq<u8> {
    Seq::new(32, |i: int| 0u8)
}

/// The hash a new entry after the log `log` must carry: the last entry's,
/// or zeros for the first entry.
pub open spec fn next_previous_hash(log: Seq<AuditEntry>) -> Seq<u8> {
    if log.len() == 0 {
        zero_hash()
    } else {
        log.last().entry_hash@
    }
}

/// What the orchestrator does next with a call.
#[derive(Debug)]
pub enum StepAction {
    /// The call was decided without running it.
    Finished(StepOutcome),
    /// The call may run; the caller performs it and reports the result to
    /// [`Orchestrator::complete_step`].
    Execute(ToolCall),
}

/// The orchestrator: its mode, the task and root capability it acts for,
/// and its audit log.
#[derive(Debug)]
pub struct Orchestrator {
    mode: AuthzMode,
    task_id: u128,
    root: RootCapability,
    audit_log: Vec<AuditEntry>,
}

/// The abstract content of an orchestrator.
pub struct OrchestratorView {
    pub mode: AuthzMode,
    pub task_id: u128,
    pub root: RootView,
    pub audit_log: Seq<AuditEntry>,
}

impl View for Orchestrator {
    type V = OrchestratorView;

    closed spec fn view(&self) -> OrchestratorView {
        OrchestratorView {
            mode: self.mode,
            task_id: self.task_id,
            root: self.root@,
            audit_log: self.audit_log@,
        }
    }
}

impl Orchestrator {
    #[verifier::type_invariant]
    spec fn log_verifies(self) -> bool {
        &&& chain_verdict(self.audit_log@) is Ok
        &&& root_token_faithful(self.root@)
    }

    /// Mints the root capability from `manifest` at the current time and
    /// records the mint.
    pub fn new(manifest: &TaskManifest, mode: AuthzMode) -> (r: Result<Self, OrchestratorError>)
        requires
            crate::capability::ttl_in_domain(manifest.ttl_seconds),
        ensures
            match r {
                Ok(o) => {
                    &&& o@.mode == mode
                    &&& o@.task_id == manifest.task_id
                    &&& exists|now: Timestamp| #[trigger] mint_ok(*manifest, now, Ok::<RootView, CapabilityError>(o@.root))
                    &&& appended(Seq::empty(), o@.audit_log, seq![EventView::RootMinted(manifest.task_id)])
                    &&& o@.audit_log[0].previous_hash@ == zero_hash()
                },
                Err(OrchestratorError::Mint(e)) => exists|now: Timestamp|
                    #[trigger] mint_ok(*manifest, now, Err::<RootView, CapabilityError>(e)),
                Err(OrchestratorError::Audit(_)) => false,
            },
    {
        let now = current_time();
        let root = match RootCapability::mint(manifest, now) {
            Ok(root) => root,
            Err(e) => return Err(OrchestratorError::Mint(e)),
        };
        let mut orchestrator = Orchestrator { mode, task_id: manifest.task_id, root, audit_log: Vec::new() };
        let ghost before = orchestrator@.audit_log;
        match orchestrator.record(AuditEvent::RootMinted { task_id: manifest.task_id }) {
            Ok(()) => {},
            Err(e) => return Err(e),
        }
        assert(mint_ok(*manifest, now, Ok::<RootView, CapabilityError>(orchestrator@.root)));
        Ok(orchestrator)
    }

    /// Whether tool calls are authorized.
    pub fn mode(&self) -> (r: AuthzMode)
        ensures
            r == self@.mode,
    {
        self.mode
    }

    /// The task this orchestrator acts for.
    pub fn task_id(&self) -> (r: u128)
        ensures
            r == self@.task_id,
    {
        self.task_id
    }

    /// The root capability.
    pub fn root(&self) -> (r: &RootCapability)
        ensures
            r@ == self@.root,
    {
        &self.root
    }

    /// The audit log so far; it always verifies.
    pub fn audit_log(&self) -> (r: &Vec<AuditEntry>)
        ensures
            r@ == self@.audit_log,
            chain_verdict(r@) is Ok,
    {
        proof {
            use_type_invariant(self);
        }
        &self.audit_log
    }

    /// The hash the next entry must carry: the last entry's, or zeros.
    fn last_hash(&self) -> (r: [u8; 32])
        ensures
            r@ == next_previous_hash(self.audit_log@),
    {
        if self.audit_log.len() == 0 {
            let zeros = [0u8; 32];
            assert(zeros@ =~= zero_hash());
            zeros
        } else {
            self.audit_log[self.audit_log.len() - 1].entry_hash
        }
    }

    /// Records `event` in the audit log, chained to the last entry.
    fn record(&mut self, event: AuditEvent) -> (r: Result<(), OrchestratorError>)
        ensures
            r is Ok,
            appended(old(self)@.audit_log, final(self)@.audit_log, seq![event_view(event)]),
            final(self)@.audit_log.last().previous_hash@ == next_previous_hash(old(self)@.audit_log),
            final(self)@.mode == old(self)@.mode,
            final(self)@.task_id == old(self)@.task_id,
            final(self)@.root == old(self)@.root,
    {
        proof {
            use_type_invariant(&*self);
        }
        let previous_hash = self.last_hash();
        let ghost ev = event_view(event);
        let entry = match chain_entry(previous_hash, current_time(), event) {
            Ok(e) => e,
            Err(e) => return Err(OrchestratorError::Audit(e)),
        };
        let ghost before = self.audit_log@;
        proof {
            if before.len() > 0 {
                assert(previous_hash =~= before.last().entry_hash);
            }
            lemma_append_keeps_chain(before, entry);
        }
        let mut log: Vec<AuditEntry> = Vec::new();
        std::mem::swap(&mut log, &mut self.audit_log);
        log.push(entry);
        self.audit_log = log;
        assert(self.audit_log@.subrange(0, before.len() as int) =~= before);
        assert(self.audit_log@[before.len() as int] == entry);
        Ok(())
    }

    /// Refuses `call` for `reason` and records the denial.
    fn deny(&mut self, call: ToolCall, reason: String) -> (r: StepOutcome)
        ensures
            r.call == call,
            r.decision matches StepDecision::Denied(x) && x@ == reason@,
            appended(
                old(self)@.audit_log,
                final(self)@.audit_log,
                seq![EventView::ToolDenied(call_tool_name(call), reason@)],
            ),
            final(self)@.mode == old(self)@.mode,
            final(self)@.task_id == old(self)@.task_id,
            final(self)@.root == old(self)@.root,
    {
        let event = AuditEvent::ToolDenied { tool_name: call.tool_name().to_owned(), reason: reason.clone() };
        let _ = self.record(event);
        StepOutcome { call, decision: StepDecision::Denied(reason) }
    }

    /// The next thing to do with `call`. Bypassed, the call is run as it is,
    /// with nothing recorded yet. Enforced, a child capability is derived
    /// for it at the current time under a fresh nonce and the call is
    /// authorized (see [`Self::begin_enforced_step_at`]).
    pub fn begin_step(&mut self, call: ToolCall) -> (r: StepAction)
        ensures
            old(self)@.mode == AuthzMode::Bypassed ==> r == StepAction::Execute(call) && final(self)@
                == old(self)@,
            old(self)@.mode == AuthzMode::Enforced ==> exists|nonce: u128, now: Timestamp|
                now.wf() && #[trigger] enforced_step_ok(old(self)@, final(self)@, call, nonce, now, r),
    {
        match self.mode {
            AuthzMode::Bypassed => StepAction::Execute(call),
            AuthzMode::Enforced => {
                let now = current_time();
                let nonce = crate::audit::random_uuid();
                self.begin_enforced_step_at(call, now, nonce)
            },
        }
    }

    /// The enforced step for `call` at `now` under `nonce`: the call's
    /// request is bound to this invocation, and a child with the root's
    /// scope, a lifetime of [`CHILD_TTL_SECONDS`] and that binding is
    /// derived from the root. A child that cannot be derived is denied as
    /// "capability not mintable" and the denial recorded. Otherwise its
    /// derivation is recorded, the child is authorized for the request at
    /// the enforcement and decision points, and the result is acted on by
    /// [`Self::step_for`].
    pub fn begin_enforced_step_at(&mut self, call: ToolCall, now: Timestamp, nonce: u128) -> (r: StepAction)
        requires
            now.wf(),
        ensures
            enforced_step_ok(old(self)@, final(self)@, call, nonce, now, r),
    {
        let request = call.to_request();
        let binding = request_binding_for(&request, nonce);
        let permissions = self.root.permissions();
        let attenuation = AttenuationRequest {
            readable_roots: copy_strings(permissions.readable_roots()),
            writable_roots: copy_strings(permissions.writable_roots()),
            exec_binaries: copy_strings(permissions.exec_binaries()),
            network: permissions.network(),
            ttl_seconds: CHILD_TTL_SECONDS,
            request_binding: Some(binding),
        };
        let ghost q = attenuation;
        assert(step_request_for(old(self)@.root, call, nonce, q));
        let child = match self.root.attenuate(attenuation, now) {
            Ok(child) => child,
            Err(e) => {
                let message = e.message();
                let reason = crate::text::concat("capability not mintable: ", message.as_str());
                let outcome = self.deny(call, reason);
                assert(attenuation_error_ok(
                    old(self)@.root.permissions,
                    old(self)@.root.expires_at,
                    q,
                    now,
                    Err::<(), CapabilityError>(e),
                ));
                return StepAction::Finished(outcome);
            },
        };
        let ghost c = child@;
        proof {
            use_type_invariant(&*self);
            assert(c.caveats.last() == c.caveats[0]);
            assert(c.caveats.drop_last().len() == 0);
            assert(latest_binding(c.caveats.drop_last()) == None::<crate::capability::BindingView>);
            assert(child_token_faithful(c));
        }
        let ghost before = self@.audit_log;
        assert(attenuation_error_ok(old(self)@.root.permissions, old(self)@.root.expires_at, q, now, Ok::<(), CapabilityError>(())));
        let _ = self.record(AuditEvent::CapabilityAttenuated { task_id: self.task_id });
        let ghost middle = self@.audit_log;
        let authorization = authorize_only(child, request, Some(nonce));
        let ghost a = authorization;
        let ghost t = choose|t: Timestamp| #[trigger] t.wf() && authorization_ok(c, request_of(call), Some(nonce), t, a);
        let r = self.step_for(call, authorization);
        proof {
            assert(authorization_ok(c, request_of(call), Some(nonce), t, a));
            lemma_appended_concat(
                before,
                middle,
                self@.audit_log,
                seq![EventView::CapabilityAttenuated(old(self)@.task_id)],
                step_events(call, a),
            );
            if a is Ok {
                assert(narrows(c.permissions, old(self)@.root.permissions));
                assert(authorization_ok(c, request_of(call), Some(nonce), t, Ok(())));
                assert(authorized(old(self)@.root, call, nonce));
            }
        }
        r
    }

    /// Acts on the authorization result `a` for `call`: an authorized call
    /// is handed back to run with nothing recorded; a refused one is denied
    /// with the decision point's reason, the enforcement point's message, or
    /// the serialization failure, and the denial recorded; an I/O failure is
    /// an error of the call, recorded as an execution error.
    pub fn step_for(&mut self, call: ToolCall, a: Result<(), ToolError>) -> (r: StepAction)
        ensures
            step_result(call, a, r),
            appended(old(self)@.audit_log, final(self)@.audit_log, step_events(call, a)),
            final(self)@.mode == old(self)@.mode,
            final(self)@.task_id == old(self)@.task_id,
            final(self)@.root == old(self)@.root,
    {
        match a {
            Ok(()) => {
                assert(self@.audit_log.subrange(0, self@.audit_log.len() as int) =~= self@.audit_log);
                StepAction::Execute(call)
            },
            Err(ToolError::Denied(reason)) => StepAction::Finished(self.deny(call, reason)),
            Err(ToolError::Verification(e)) => StepAction::Finished(self.deny(call, e.message())),
            Err(ToolError::Serialize(m)) => {
                let reason = crate::text::concat("argument serialization failed: ", m.as_str());
                StepAction::Finished(self.deny(call, reason))
            },
            Err(ToolError::Io(m)) => {
                let reason = crate::text::concat("execution error: ", m.as_str());
                let _ = self.record(AuditEvent::ToolDenied { tool_name: call.tool_name().to_owned(), reason });
                StepAction::Finished(StepOutcome { call, decision: StepDecision::Errored(m) })
            },
        }
    }

    /// Records what became of a call that was run: its output (allowed) or
    /// the message of the I/O error that stopped it (errored, reported as a
    /// tool I/O error when bypassed).
    pub fn complete_step(&mut self, call: ToolCall, result: Result<ToolOutput, String>) -> (r: StepOutcome)
        ensures
            appended(old(self)@.audit_log, final(self)@.audit_log, completion_events(old(self)@.mode, call, result)),
            r.call == call,
            final(self)@.mode == old(self)@.mode,
            final(self)@.task_id == old(self)@.task_id,
            final(self)@.root == old(self)@.root,
            match result {
                Ok(output) => r.decision == StepDecision::Allowed(output) && appended(
                    old(self)@.audit_log,
                    final(self)@.audit_log,
                    seq![EventView::ToolAllowed(call_tool_name(call))],
                ),
                Err(m) => r.decision matches StepDecision::Errored(shown) && shown@ == (
                    if old(self)@.mode == AuthzMode::Enforced {
                        m@
                    } else {
                        crate::tools::tool_error_text(ToolError::Io(m))
                    }) && appended(
                    old(self)@.audit_log,
                    final(self)@.audit_log,
                    seq![EventView::ToolDenied(call_tool_name(call), "execution error: "@ + shown@)],
                ),
            },
    {
        match result {
            Ok(output) => {
                let _ = self.record(AuditEvent::ToolAllowed { tool_name: call.tool_name().to_owned() });
                StepOutcome { call, decision: StepDecision::Allowed(output) }
            },
            Err(m) => {
                let shown = match self.mode {
                    AuthzMode::Enforced => m,
                    AuthzMode::Bypassed => ToolError::Io(m).message(),
                };
                let reason = crate::text::concat("execution error: ", shown.as_str());
                let _ = self.record(AuditEvent::ToolDenied { tool_name: call.tool_name().to_owned(), reason });
                StepOutcome { call, decision: StepDecision::Errored(shown) }
            },
        }
    }
}

/// Two appends in a row are one append of both runs of events.
proof fn lemma_appended_concat(
    a: Seq<AuditEntry>,
    b: Seq<AuditEntry>,
    c: Seq<AuditEntry>,
    e1: Seq<EventView>,
    e2: Seq<EventView>,
)
    requires
        appended(a, b, e1),
        appended(b, c, e2),
    ensures
        appended(a, c, e1 + e2),
{
    assert(c.subrange(0, a.len() as int) =~= b.subrange(0, a.len() as int));
    let events = e1 + e2;
    assert forall|i: int| 0 <= i < events.len() implies event_view(#[trigger] c[a.len() + i].event)
        == events[i] by {
        if i < e1.len() {
            assert(c[a.len() + i] == c.subrange(0, b.len() as int)[a.len() + i]);
            assert(event_view(b[a.len() + i].event) == e1[i]);
        } else {
            let j = i - e1.len();
            assert(a.len() + i == b.len() + j);
            assert(event_view(c[b.len() + j].event) == e2[j]);
        }
    }
}

/// The audit event that completing a call which was run records: its
/// allowance where it produced `result`'s output, else its execution error
/// (the I/O error's message, reported as a tool I/O error when bypassed).
pub open spec fn completion_events(mode: AuthzMode, call: ToolCall, result: Result<ToolOutput, String>) -> Seq<EventView> {
    match result {
        Ok(_) => seq![EventView::ToolAllowed(call_tool_name(call))],
        Err(m) => seq![
            EventView::ToolDenied(
                call_tool_name(call),
                "execution error: "@ + if mode == AuthzMode::Enforced {
                    m@
                } else {
                    crate::tools::tool_error_text(ToolError::Io(m))
                },
            ),
        ],
    }
}

/// An enforced call that is handed back to run and then completed was
/// authorized, and it leaves in the audit log the derivation of its child
/// followed by its completion, and nothing else.
pub proof fn lemma_enforced_step_then_completion(
    o0: OrchestratorView,
    o1: OrchestratorView,
    o2: OrchestratorView,
    call: ToolCall,
    nonce: u128,
    now: Timestamp,
    result: Result<ToolOutput, String>,
)
    requires
        enforced_step_ok(o0, o1, call, nonce, now, StepAction::Execute(call)),
        appended(o1.audit_log, o2.audit_log, completion_events(o1.mode, call, result)),
    ensures
        authorized(o0.root, call, nonce),
        appended(
            o0.audit_log,
            o2.audit_log,
            seq![EventView::CapabilityAttenuated(o0.task_id)] + completion_events(o0.mode, call, result),
        ),
{
    let root = o0.root;
    let (q, c, t, a) = choose|q: AttenuationRequest, c: ChildView, t: Timestamp, a: Result<(), ToolError>|
        #![trigger step_request_for(root, call, nonce, q), authorization_ok(c, request_of(call), Some(nonce), t, a)]
        {
            &&& step_request_for(root, call, nonce, q)
            &&& attenuation_error_ok(root.permissions, root.expires_at, q, now, Ok::<(), CapabilityError>(()))
            &&& c.task_id == root.task_id
            &&& c.caveats.len() == 1
            &&& attenuated(root.permissions, root.expires_at, q, now, c.permissions, c.expires_at, c.caveats[0])
            &&& authorization_ok(c, request_of(call), Some(nonce), t, a)
            &&& step_result(call, a, StepAction::Execute(call))
            &&& appended(
                o0.audit_log,
                o1.audit_log,
                seq![EventView::CapabilityAttenuated(o0.task_id)] + step_events(call, a),
            )
            &&& (a is Ok ==> authorized(root, call, nonce))
        };
    assert(a is Ok);
    assert(seq![EventView::CapabilityAttenuated(o0.task_id)] + step_events(call, a) =~= seq![
        EventView::CapabilityAttenuated(o0.task_id),
    ]);
    lemma_appended_concat(
        o0.audit_log,
        o1.audit_log,
        o2.audit_log,
        seq![EventView::CapabilityAttenuated(o0.task_id)],
        completion_events(o1.mode, call, result),
    );
}

/// An enforced step only appends to the audit log, and always records
/// something: the log before it is a proper prefix of the log after it;
/// what it hands back names the call it was given.
pub proof fn lemma_step_extends_log(
    before: OrchestratorView,
    after: OrchestratorView,
    call: ToolCall,
    nonce: u128,
    now: Timestamp,
    r: StepAction,
)
    requires
        enforced_step_ok(before, after, call, nonce, now, r),
    ensures
        before.audit_log.len() < after.audit_log.len(),
        after.audit_log.subrange(0, before.audit_log.len() as int) == before.audit_log,
        r matches StepAction::Finished(o) ==> o.call == call,
        r matches StepAction::Execute(c) ==> c == call,
{
}

/// Completing a call that was run only appends to the audit log, one entry
/// recording what became of it.
pub proof fn lemma_completion_extends_log(
    before: Seq<AuditEntry>,
    after: Seq<AuditEntry>,
    mode: AuthzMode,
    call: ToolCall,
    result: Result<ToolOutput, String>,
)
    requires
        appended(before, after, completion_events(mode, call, result)),
    ensures
        after.len() == before.len() + 1,
        after.subrange(0, before.len() as int) == before,
{
}

/// The attenuation an enforced step asks of the root for `call` under
/// `nonce`: the root's own roots, binaries and network policy, a lifetime
/// of [`CHILD_TTL_SECONDS`], and the binding of the call's request to the
/// nonce.
pub open spec fn step_request_for(root: RootView, call: ToolCall, nonce: u128, q: AttenuationRequest) -> bool {
    &&& texts(q.readable_roots@) == root.permissions.readable
    &&& texts(q.writable_roots@) == root.permissions.writable
    &&& texts(q.exec_binaries@) == root.permissions.binaries
    &&& q.network == root.permissions.network
    &&& q.ttl_seconds == CHILD_TTL_SECONDS
    &&& binding_view(q.request_binding) == Some(binding_for(request_of(call), nonce))
}

/// The reason a step gives for refusing a call whose authorization failed
/// with `e`.
pub open spec fn denial_text(e: ToolError) -> Seq<char> {
    match e {
        ToolError::Denied(reason) => reason@,
        ToolError::Verification(v) => verification_error_text(v),
        ToolError::Serialize(m) => "argument serialization failed: "@ + m@,
        ToolError::Io(m) => m@,
    }
}

/// The audit events a step records for `call` once its authorization came
/// out as `a`: none for an authorized call, else its denial or execution
/// error.
pub open spec fn step_events(call: ToolCall, a: Result<(), ToolError>) -> Seq<EventView> {
    match a {
        Ok(()) => Seq::empty(),
        Err(ToolError::Io(m)) => seq![EventView::ToolDenied(call_tool_name(call), "execution error: "@ + m@)],
        Err(e) => seq![EventView::ToolDenied(call_tool_name(call), denial_text(e))],
    }
}

/// What a step does with `call` once its authorization came out as `a`:
/// an authorized call is run; an I/O failure is the call's error; any other
/// failure denies the call (see [`denial_text`]).
pub open spec fn step_result(call: ToolCall, a: Result<(), ToolError>, r: StepAction) -> bool {
    match a {
        Ok(()) => r == StepAction::Execute(call),
        Err(ToolError::Io(m)) => finished_with(call, r, |d: StepDecision| d matches StepDecision::Errored(x) && x@ == m@),
        Err(e) => finished_with(call, r, |d: StepDecision| d matches StepDecision::Denied(x) && x@ == denial_text(e)),
    }
}

/// Whether `r` finishes `call` with a decision that meets `p`.
pub open spec fn finished_with(call: ToolCall, r: StepAction, p: spec_fn(StepDecision) -> bool) -> bool {
    match r {
        StepAction::Finished(o) => o.call == call && p(o.decision),
        StepAction::Execute(_) => false,
    }
}

/// The reason an enforced step gives where no child could be derived for
/// the call because attenuation failed with `e`.
pub open spec fn refusal_text(e: CapabilityError) -> Seq<char> {
    "capability not mintable: "@ + capability_error_text(e)
}

/// What an enforced step at `now` under `nonce` owes: the mode, task and
/// root are kept; and either the root refuses the step's attenuation (see
/// [`step_request_for`]) with some error `e`, the call is denied as "capability
/// not mintable: " and `e`'s message, and only that denial is recorded; or
/// a child with the task's id is derived by exactly that attenuation, its
/// derivation is recorded, the child's authorization for the call's request
/// under the nonce comes out as some `a`, and the step acts on `a` (see
/// [`step_result`] and [`step_events`]).
pub open spec fn enforced_step_ok(
    before: OrchestratorView,
    after: OrchestratorView,
    call: ToolCall,
    nonce: u128,
    now: Timestamp,
    r: StepAction,
) -> bool {
    let root = before.root;
    &&& after.mode == before.mode
    &&& after.task_id == before.task_id
    &&& after.root == before.root
    &&& {
        ||| exists|q: AttenuationRequest, e: CapabilityError|
            #[trigger] step_request_for(root, call, nonce, q) && #[trigger] attenuation_error_ok(
                root.permissions,
                root.expires_at,
                q,
                now,
                Err::<(), CapabilityError>(e),
            ) && finished_with(
                call,
                r,
                |d: StepDecision| d matches StepDecision::Denied(x) && x@ == refusal_text(e),
            ) && appended(
                before.audit_log,
                after.audit_log,
                seq![EventView::ToolDenied(call_tool_name(call), refusal_text(e))],
            )
        ||| exists|q: AttenuationRequest, c: ChildView, t: Timestamp, a: Result<(), ToolError>|
            #![trigger step_request_for(root, call, nonce, q), authorization_ok(c, request_of(call), Some(nonce), t, a)]
            {
                &&& step_request_for(root, call, nonce, q)
                &&& attenuation_error_ok(root.permissions, root.expires_at, q, now, Ok::<(), CapabilityError>(()))
                &&& c.task_id == root.task_id
                &&& c.caveats.len() == 1
                &&& attenuated(root.permissions, root.expires_at, q, now, c.permissions, c.expires_at, c.caveats[0])
                &&& authorization_ok(c, request_of(call), Some(nonce), t, a)
                &&& step_result(call, a, r)
                &&& appended(
                    before.audit_log,
                    after.audit_log,
                    seq![EventView::CapabilityAttenuated(before.task_id)] + step_events(call, a),
                )
                &&& (a is Ok ==> authorized(root, call, nonce))
                &&& (root_token_faithful(root) && four_digit_year(c.expires_at) ==> !(a matches Err(
                    ToolError::Verification(crate::pep::VerificationError::StateTampered),
                )))
            }
    }
}

/// Whether `request` lies within `permissions`: a read (write) of a safe
/// absolute path some resolution of which lies below one of the readable
/// (writable) roots, an exec of one of the binaries, and never a network
/// request.
pub open spec fn request_within(permissions: PermissionView, request: ToolRequest) -> bool {
    match request {
        ToolRequest::Read { path } => crate::path::is_safe_absolute(path@) && exists|q: Seq<char>|
            crate::path::resolution_of(path@, q) && #[trigger] under_any_root(q, permissions.readable),
        ToolRequest::Write { path } => crate::path::is_safe_absolute(path@) && exists|q: Seq<char>|
            crate::path::resolution_of(path@, q) && #[trigger] under_any_root(q, permissions.writable),
        ToolRequest::Exec { binary } => permissions.binaries.contains(binary@),
        ToolRequest::Network => false,
    }
}

/// A path below a root that names the same path as one of `other` lies
/// below that one of `other`.
proof fn lemma_under_same_paths(q: Seq<char>, roots: Seq<Seq<char>>, other: Seq<Seq<char>>)
    requires
        under_any_root(q, roots),
        forall|i: int| 0 <= i < roots.len() ==> names_member(#[trigger] roots[i], other),
    ensures
        under_any_root(q, other),
{
    let i = choose|i: int| 0 <= i < roots.len() && starts_with(q, #[trigger] roots[i]);
    assert(names_member(roots[i], other));
    let j = choose|j: int| 0 <= j < other.len() && same_path(#[trigger] other[j], roots[i]);
    reveal(same_path);
    assert(starts_with(q, other[j]));
}

/// What a token state that agrees with a child narrowed from `root` allows
/// lies within the root's permissions.
proof fn lemma_allowed_within(
    root: PermissionView,
    child: PermissionView,
    state: PermissionView,
    request: ToolRequest,
)
    requires
        narrows(child, root),
        crate::capability::same_permissions(state, child),
        decision_ok(state, request, Decision::Allow),
    ensures
        request_within(root, request),
{
    lemma_allow_needs_grant(state, request, Decision::Allow);
    match request {
        ToolRequest::Read { path } => {
            let q = choose|q: Seq<char>| crate::path::resolution_of(path@, q) && under_any_root(q, state.readable);
            lemma_under_same_paths(q, state.readable, child.readable);
            lemma_narrowed_roots_admit_less(q, child.readable, root.readable);
        },
        ToolRequest::Write { path } => {
            let q = choose|q: Seq<char>| crate::path::resolution_of(path@, q) && under_any_root(q, state.writable);
            lemma_under_same_paths(q, state.writable, child.writable);
            lemma_narrowed_roots_admit_less(q, child.writable, root.writable);
        },
        ToolRequest::Exec { binary } => {
            let i = choose|i: int| 0 <= i < state.binaries.len() && state.binaries[i] == binary@;
            assert(child.binaries.contains(state.binaries[i]));
            let k = choose|k: int| 0 <= k < child.binaries.len() && child.binaries[k] == binary@;
            assert(root.binaries.contains(child.binaries[k]));
        },
        ToolRequest::Network => {},
    }
}

/// An enforced call runs only within the root's authority: a call that some
/// child narrowed from the root authorizes lies within the root's scope,
/// and no network call is ever authorized.
pub proof fn lemma_authorized_within_root(root: RootView, call: ToolCall, nonce: u128)
    requires
        authorized(root, call, nonce),
    ensures
        request_within(root.permissions, request_of(call)),
{
    let request = request_of(call);
    let c = choose|c: ChildView|
        c.task_id == root.task_id && #[trigger] narrows(c.permissions, root.permissions) && exists|t: Timestamp|
            #[trigger] authorization_ok(c, request, Some(nonce), t, Ok(()));
    let t = choose|t: Timestamp| #[trigger] authorization_ok(c, request, Some(nonce), t, Ok(()));
    let s = choose|s: DecodedView|
        #[trigger] token_state(c, s) && admits(s, t, presented_binding(request, Some(nonce))) && decision_ok(
            s.permissions,
            request,
            Decision::Allow,
        );
    lemma_allowed_within(root.permissions, c.permissions, s.permissions, request);
}

} // verus!
