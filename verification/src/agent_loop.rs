//! The decisions of the agentic loop. Each turn the loop asks the principal
//! for a batch of tool calls, steps them one at a time in the order given,
//! and feeds each call's decision back to the principal under the call's
//! id. It stops cleanly on an empty batch or once its turns are spent, and
//! stops with the principal's failure where the principal fails.
//!
//! The caller runs the loop: it performs each [`LoopAction`] (asking the
//! principal, stepping a call through the orchestrator, feeding a result
//! back) and hands what happened back to [`loop_next`] as a [`LoopEvent`].

use vstd::prelude::*;
use crate::agent::{call_pairs, decision_feedback, decision_text, CallView, StepOutcome, TurnOutcome};
use crate::orchestrator::{duplicate_call, MAX_UNPARSEABLE_RETRIES};
use crate::tools::ToolCall;

verus! {

/// Where the loop stands: the turns it may still take and the calls of the
/// current batch not yet stepped.
#[derive(Debug)]
pub struct LoopState {
    turns_left: usize,
    batch: Vec<(ToolCall, String)>,
    next: usize,
}

/// The abstract content of a loop state.
pub struct LoopView {
    pub turns_left: nat,
    pub pending: Seq<(CallView, Seq<char>)>,
}

impl View for LoopState {
    type V = LoopView;

    closed spec fn view(&self) -> LoopView {
        LoopView {
            turns_left: self.turns_left as nat,
            pending: call_pairs(self.batch@).subrange(self.next as int, self.batch@.len() as int),
        }
    }
}

/// How a run of the loop ended.
#[derive(Debug, Clone, Copy, PartialEq, Eq, Structural)]
pub enum LoopEnd {
    /// The principal had nothing more to ask, or the turns were spent.
    Finished,
    /// The principal failed; the caller reports its error.
    PrincipalFailed,
}

/// What happened since the loop's last action.
#[derive(Debug)]
pub enum LoopEvent {
    /// The loop starts, or the last feedback was delivered.
    Continue,
    /// The principal answered with this batch of `(call, call_id)`.
    Batch(Vec<(ToolCall, String)>),
    /// The principal could not answer.
    PrincipalFailed,
    /// The call with this id was stepped, with this outcome.
    Stepped { call_id: String, outcome: StepOutcome },
}

/// What the caller does next.
#[derive(Debug)]
pub enum LoopAction {
    /// Ask the principal for its next batch of calls.
    AskPrincipal,
    /// Step this call through the orchestrator.
    Step { call: ToolCall, call_id: String },
    /// Feed `feedback` back to the principal for the call `call_id`, and
    /// keep `outcome`.
    Feed { call_id: String, feedback: String, outcome: StepOutcome },
    /// The loop is over.
    Stop(LoopEnd),
}

/// The loop's answer when nothing is in flight: step the next pending call;
/// with none pending, stop once the turns are spent, else spend a turn
/// asking the principal.
pub open spec fn continued(s: LoopView, next: LoopView, a: LoopAction) -> bool {
    if s.pending.len() > 0 {
        &&& a matches LoopAction::Step { call, call_id } && (call@, call_id@) == s.pending[0]
        &&& next.turns_left == s.turns_left
        &&& next.pending == s.pending.drop_first()
    } else if s.turns_left == 0 {
        &&& a == LoopAction::Stop(LoopEnd::Finished)
        &&& next == s
    } else {
        &&& a == LoopAction::AskPrincipal
        &&& next.turns_left == s.turns_left - 1
        &&& next.pending.len() == 0
    }
}

/// What the loop does on `event` from the state `s`, ending in the state
/// `next` with the action `a`.
pub open spec fn loop_step(s: LoopView, event: LoopEvent, next: LoopView, a: LoopAction) -> bool {
    match event {
        LoopEvent::Continue => continued(s, next, a),
        LoopEvent::Batch(calls) => if calls@.len() == 0 {
            &&& a == LoopAction::Stop(LoopEnd::Finished)
            &&& next == s
        } else {
            &&& a matches LoopAction::Step { call, call_id } && (call@, call_id@) == call_pairs(calls@)[0]
            &&& next.turns_left == s.turns_left
            &&& next.pending == call_pairs(calls@).drop_first()
        },
        LoopEvent::PrincipalFailed => {
            &&& a == LoopAction::Stop(LoopEnd::PrincipalFailed)
            &&& next == s
        },
        LoopEvent::Stepped { call_id, outcome } => {
            &&& a matches LoopAction::Feed { call_id: fed_id, feedback, outcome: kept }
                && fed_id == call_id && kept == outcome && feedback@ == decision_text(outcome.decision)
            &&& next == s
        },
    }
}

/// The loop never gains turns: every step keeps or spends them, each ask of
/// the principal spends exactly one, and no ask comes once they are spent.
pub proof fn lemma_turns_only_spent(s: LoopView, event: LoopEvent, next: LoopView, a: LoopAction)
    requires
        loop_step(s, event, next, a),
    ensures
        next.turns_left <= s.turns_left,
        a == LoopAction::AskPrincipal ==> s.turns_left > 0 && next.turns_left + 1 == s.turns_left,
{
}

/// Whether `states`, `events` and `actions` make a run of the loop: the
/// `i`-th event takes the loop from `states[i]` to `states[i + 1]` with the
/// `i`-th action.
pub open spec fn is_run(states: Seq<LoopView>, events: Seq<LoopEvent>, actions: Seq<LoopAction>) -> bool {
    &&& states.len() == events.len() + 1
    &&& actions.len() == events.len()
    &&& forall|i: int| 0 <= i < events.len() ==> #[trigger] loop_step(states[i], events[i], states[i + 1], actions[i])
}

/// How many of `actions` ask the principal.
pub open spec fn asks(actions: Seq<LoopAction>) -> nat
    decreases actions.len(),
{
    if actions.len() == 0 {
        0
    } else {
        asks(actions.drop_last()) + if actions.last() == LoopAction::AskPrincipal {
            1nat
        } else {
            0nat
        }
    }
}

/// A run of the loop asks the principal at most as many times as it had
/// turns: the asks and the turns left at the end add up to no more than
/// the turns at the start.
pub proof fn lemma_run_asks_within_turns(states: Seq<LoopView>, events: Seq<LoopEvent>, actions: Seq<LoopAction>)
    requires
        is_run(states, events, actions),
    ensures
        asks(actions) + states.last().turns_left <= states[0].turns_left,
    decreases events.len(),
{
    let n = events.len();
    if n > 0 {
        let ps = states.drop_last();
        let pe = events.drop_last();
        let pa = actions.drop_last();
        assert forall|i: int| 0 <= i < pe.len() implies #[trigger] loop_step(ps[i], pe[i], ps[i + 1], pa[i]) by {
            assert(loop_step(states[i], events[i], states[i + 1], actions[i]));
        }
        lemma_run_asks_within_turns(ps, pe, pa);
        assert(loop_step(states[n - 1], events[n - 1], states[n as int], actions[n - 1]));
        lemma_turns_only_spent(states[n - 1], events[n - 1], states[n as int], actions[n - 1]);
        assert(ps.last() == states[n - 1]);
    }
}

impl LoopState {
    #[verifier::type_invariant]
    spec fn within(self) -> bool {
        self.next <= self.batch@.len()
    }

    /// A loop that may ask the principal `max_turns` times.
    pub fn new(max_turns: usize) -> (r: Self)
        ensures
            r@.turns_left == max_turns,
            r@.pending.len() == 0,
    {
        LoopState { turns_left: max_turns, batch: Vec::new(), next: 0 }
    }

    /// The turns the loop may still take.
    pub fn turns_left(&self) -> (r: usize)
        ensures
            r == self@.turns_left,
    {
        self.turns_left
    }

    /// How many calls of the current batch are still to be stepped.
    pub fn pending_len(&self) -> (r: usize)
        ensures
            r == self@.pending.len(),
    {
        proof {
            use_type_invariant(self);
        }
        self.batch.len() - self.next
    }

    /// Hands out the next pending call, or decides between stopping and
    /// asking again.
    fn resume(self) -> (r: (LoopState, LoopAction))
        ensures
            continued(self@, r.0@, r.1),
    {
        proof {
            use_type_invariant(&self);
        }
        let LoopState { turns_left, batch, next } = self;
        if next < batch.len() {
            let call = duplicate_call(&batch[next].0);
            let call_id = batch[next].1.clone();
            let state = LoopState { turns_left, batch, next: next + 1 };
            assert(state@.pending =~= self@.pending.drop_first());
            (state, LoopAction::Step { call, call_id })
        } else if turns_left == 0 {
            let state = LoopState { turns_left, batch, next };
            (state, LoopAction::Stop(LoopEnd::Finished))
        } else {
            let state = LoopState { turns_left: turns_left - 1, batch: Vec::new(), next: 0 };
            assert(state@.pending.len() == 0);
            (state, LoopAction::AskPrincipal)
        }
    }
}

/// The loop's next state and action on `event`: on a continue, the next
/// pending call is stepped, or (none pending) the loop stops once its turns
/// are spent and otherwise spends a turn asking the principal; an empty
/// batch stops the loop and a batch of calls starts stepping them in order;
/// a principal failure stops the loop with that failure; a stepped call's
/// decision is fed back under its id (see [`decision_feedback`]).
pub fn loop_next(state: LoopState, event: LoopEvent) -> (r: (LoopState, LoopAction))
    ensures
        loop_step(state@, event, r.0@, r.1),
{
    match event {
        LoopEvent::Continue => state.resume(),
        LoopEvent::Batch(calls) => {
            if calls.len() == 0 {
                (state, LoopAction::Stop(LoopEnd::Finished))
            } else {
                let turns_left = state.turns_left();
                let fresh = LoopState { turns_left, batch: calls, next: 0 };
                assert(fresh@.pending =~= call_pairs(calls@));
                fresh.resume()
            }
        },
        LoopEvent::PrincipalFailed => (state, LoopAction::Stop(LoopEnd::PrincipalFailed)),
        LoopEvent::Stepped { call_id, outcome } => {
            let feedback = decision_feedback(&outcome.decision);
            (state, LoopAction::Feed { call_id, feedback, outcome })
        },
    }
}

/// What a live principal does after classifying a model turn.
#[derive(Debug)]
pub enum RetryAction {
    /// Hand these calls to the loop (none: the principal is done).
    Return(Vec<(ToolCall, String)>),
    /// Ask the model again.
    AskAgain,
}

/// The live principal's decision after its `attempt`-th turn (counted from
/// zero): executable calls are returned; a turn with no tool calls returns
/// none; a turn of only unparseable calls is retried while fewer than
/// [`MAX_UNPARSEABLE_RETRIES`] turns were spent, and returns none after.
pub fn after_turn(attempt: usize, outcome: TurnOutcome) -> (r: RetryAction)
    ensures
        match outcome {
            TurnOutcome::Calls(calls) => r == RetryAction::Return(calls),
            TurnOutcome::Done => r matches RetryAction::Return(v) && v@.len() == 0,
            TurnOutcome::RetryAfterUnparseable => if attempt + 1 < MAX_UNPARSEABLE_RETRIES {
                r == RetryAction::AskAgain
            } else {
                r matches RetryAction::Return(v) && v@.len() == 0
            },
        },
{
    match outcome {
        TurnOutcome::Calls(calls) => RetryAction::Return(calls),
        TurnOutcome::Done => RetryAction::Return(Vec::new()),
        TurnOutcome::RetryAfterUnparseable => {
            if attempt < MAX_UNPARSEABLE_RETRIES - 1 {
                RetryAction::AskAgain
            } else {
                RetryAction::Return(Vec::new())
            }
        },
    }
}

} // verus!
