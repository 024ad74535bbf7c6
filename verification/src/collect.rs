//! Collection of the persisted events of a world: every durable fact, keyed by Session and by
//! its identity within the Session, with entity references replaced by stable IDs.
use vstd::prelude::*;

use crate::events::{event_key, Event, EventView, StoredTurnFailure, StoredTurnFailureKind};
use crate::ids::{Entity, SessionId};
use crate::text::{concat, decimal, str_eq, with_decimal};
use crate::world::{
    get, lemma_find, position, AssistantMessage, BranchSelection, Compaction, ContextCamera,
    ModelChange, ModelRequest, ModelResponse, Recovery, Session, ToolOutcome, ToolUse, Turn,
    TurnCancelled, TurnCompleted, TurnFailed, TurnFailure, TurnInterrupted, UserMessage, World,
};

verus! {

/// What one row contributes to the collection.
pub enum RowEvent {
    /// The row holds no durable fact.
    Skip,
    /// The row references something that is missing.
    Fail,
    /// The row is this event of this Session.
    Emit(SessionId, EventView),
}

/// The events that `f` emits for `rows`, in order.
pub open spec fn emits<T>(rows: Seq<T>, f: spec_fn(T) -> RowEvent) -> Seq<(SessionId, EventView)>
    decreases rows.len(),
{
    if rows.len() == 0 {
        Seq::empty()
    } else {
        let prev = emits(rows.drop_last(), f);
        match f(rows.last()) {
            RowEvent::Emit(s, e) => prev.push((s, e)),
            _ => prev,
        }
    }
}

/// Some row fails under `f`.
pub open spec fn fails<T>(rows: Seq<T>, f: spec_fn(T) -> RowEvent) -> bool {
    exists|i: int| 0 <= i < rows.len() && #[trigger] f(rows[i]) is Fail
}

/// The stable ID of Turn entity `t`.
pub open spec fn turn_id_of(w: World, t: Entity) -> Option<u64> {
    match get(w.turns@, t) {
        Some(x) => Some(x.id.0),
        None => None,
    }
}

/// The SessionId of Session entity `s`.
pub open spec fn session_id_of(w: World, s: Entity) -> Option<SessionId> {
    match get(w.sessions@, s) {
        Some(x) => Some(x.id),
        None => None,
    }
}

/// The SessionId and stable Turn ID of Turn entity `t`.
pub open spec fn turn_context(w: World, t: Entity) -> Option<(SessionId, u64)> {
    match get(w.turns@, t) {
        Some(x) => match session_id_of(w, x.session) {
            Some(sid) => Some((sid, x.id.0)),
            None => None,
        },
        None => None,
    }
}

/// The model ID and ProviderId of Model entity `m`.
pub open spec fn model_ref(w: World, m: Entity) -> Option<(Seq<char>, u64)> {
    match get(w.models@, m) {
        Some(x) => match get(w.providers@, x.provider) {
            Some(p) => Some((x.model_id@, p.provider_id.0)),
            None => None,
        },
        None => None,
    }
}

/// The persisted form of a Turn failure.
pub open spec fn failure_view(f: TurnFailure) -> (StoredTurnFailureKind, Seq<char>) {
    match f {
        TurnFailure::Provider(p) => (StoredTurnFailureKind::Provider, p.message@),
        TurnFailure::Tool(t) => (StoredTurnFailureKind::Tool, t.message@),
        TurnFailure::Recovery(r) => (StoredTurnFailureKind::Recovery, r.message@),
    }
}

pub open spec fn session_event(w: World) -> spec_fn((Entity, Session)) -> RowEvent {
    |r: (Entity, Session)|
        match r.1.active_head {
            None => RowEvent::Emit(r.1.id, EventView::Session { id: r.1.id.0, active_head: None }),
            Some(h) => match turn_id_of(w, h) {
                Some(t) => RowEvent::Emit(r.1.id, EventView::Session { id: r.1.id.0, active_head: Some(t) }),
                None => RowEvent::Fail,
            },
        }
}

pub open spec fn camera_event(w: World) -> spec_fn((Entity, ContextCamera)) -> RowEvent {
    |r: (Entity, ContextCamera)|
        if !r.1.persistent {
            RowEvent::Skip
        } else {
            match session_id_of(w, r.1.session) {
                Some(sid) => RowEvent::Emit(sid, EventView::ContextCamera { budget: r.1.budget }),
                None => RowEvent::Fail,
            }
        }
}

pub open spec fn turn_event(w: World) -> spec_fn((Entity, Turn)) -> RowEvent {
    |r: (Entity, Turn)|
        match session_id_of(w, r.1.session) {
            None => RowEvent::Fail,
            Some(sid) => match r.1.parent {
                None => RowEvent::Emit(sid, EventView::Turn {
                    id: r.1.id.0,
                    parent: None,
                    sequence: r.1.sequence.0,
                    generation: r.1.generation,
                }),
                Some(p) => match turn_id_of(w, p) {
                    Some(pid) => RowEvent::Emit(sid, EventView::Turn {
                        id: r.1.id.0,
                        parent: Some(pid),
                        sequence: r.1.sequence.0,
                        generation: r.1.generation,
                    }),
                    None => RowEvent::Fail,
                },
            },
        }
}

pub open spec fn user_message_event(w: World) -> spec_fn((Entity, UserMessage)) -> RowEvent {
    |r: (Entity, UserMessage)|
        match turn_context(w, r.1.turn) {
            Some(c) => RowEvent::Emit(c.0, EventView::UserMessage {
                id: r.1.id.0,
                turn: c.1,
                sequence: r.1.sequence.0,
                text: r.1.text@,
            }),
            None => RowEvent::Fail,
        }
}

pub open spec fn assistant_message_event(w: World) -> spec_fn((Entity, AssistantMessage)) -> RowEvent {
    |r: (Entity, AssistantMessage)|
        match turn_context(w, r.1.turn) {
            Some(c) => RowEvent::Emit(c.0, EventView::AssistantMessage {
                id: r.1.id.0,
                turn: c.1,
                sequence: r.1.sequence.0,
                text: r.1.text@,
            }),
            None => RowEvent::Fail,
        }
}

/// The stable ToolCallId that a request's previous ToolUse reference resolves to; a dangling
/// reference is dropped.
pub open spec fn previous_call_id(w: World, previous: Option<Entity>) -> Option<u64> {
    match previous {
        Some(e) => match get(w.tool_uses@, e) {
            Some(u) => Some(u.id.0),
            None => None,
        },
        None => None,
    }
}

pub open spec fn request_event(w: World) -> spec_fn((Entity, ModelRequest)) -> RowEvent {
    |r: (Entity, ModelRequest)|
        match (turn_context(w, r.1.turn), model_ref(w, r.1.model)) {
            (Some(c), Some(m)) => RowEvent::Emit(c.0, EventView::ModelRequest {
                id: r.1.id.0,
                turn: c.1,
                model_id: m.0,
                provider_id: m.1,
                generation: r.1.generation,
                previous_tool_use: previous_call_id(w, r.1.previous_tool_use),
                status: r.1.status,
                sequence: r.1.sequence.0,
            }),
            _ => RowEvent::Fail,
        }
}

pub open spec fn response_event(w: World) -> spec_fn((Entity, ModelResponse)) -> RowEvent {
    |r: (Entity, ModelResponse)|
        match (turn_context(w, r.1.turn), model_ref(w, r.1.model), get(w.model_requests@, r.1.request)) {
            (Some(c), Some(m), Some(q)) => RowEvent::Emit(c.0, EventView::ModelResponse {
                request: q.id.0,
                turn: c.1,
                model_id: m.0,
                provider_id: m.1,
                generation: r.1.generation,
                response_id: r.1.response_id@,
                api: r.1.api,
                input_tokens: r.1.usage.input_tokens,
                output_tokens: r.1.usage.output_tokens,
                stop_reason: r.1.stop_reason,
                opaque_replay: r.1.opaque_replay@,
                sequence: r.1.sequence.0,
            }),
            _ => RowEvent::Fail,
        }
}

pub open spec fn tool_use_event(w: World) -> spec_fn((Entity, ToolUse)) -> RowEvent {
    |r: (Entity, ToolUse)|
        match (turn_context(w, r.1.turn), model_ref(w, r.1.model), get(w.tools@, r.1.tool)) {
            (Some(c), Some(m), Some(d)) => RowEvent::Emit(c.0, EventView::ToolUse {
                id: r.1.id.0,
                turn: c.1,
                tool_id: d.tool_id.0,
                model_id: m.0,
                provider_id: m.1,
                generation: r.1.generation,
                input: r.1.input@,
                status: r.1.status,
                sequence: r.1.sequence.0,
            }),
            _ => RowEvent::Fail,
        }
}

pub open spec fn tool_outcome_event(w: World) -> spec_fn((Entity, ToolOutcome)) -> RowEvent {
    |r: (Entity, ToolOutcome)|
        match (turn_context(w, r.1.turn), get(w.tool_uses@, r.1.tool_use)) {
            (Some(c), Some(u)) => RowEvent::Emit(c.0, EventView::ToolOutcome {
                tool_use: u.id.0,
                tool_call_id: r.1.tool_call_id.0,
                turn: c.1,
                generation: r.1.generation,
                output: r.1.output@,
                sequence: r.1.sequence.0,
            }),
            _ => RowEvent::Fail,
        }
}

pub open spec fn completed_event(w: World) -> spec_fn((Entity, TurnCompleted)) -> RowEvent {
    |r: (Entity, TurnCompleted)|
        match turn_context(w, r.1.turn) {
            Some(c) => RowEvent::Emit(c.0, EventView::TurnCompleted { turn: c.1, generation: r.1.generation, sequence: r.1.sequence.0 }),
            None => RowEvent::Fail,
        }
}

pub open spec fn cancelled_event(w: World) -> spec_fn((Entity, TurnCancelled)) -> RowEvent {
    |r: (Entity, TurnCancelled)|
        match turn_context(w, r.1.turn) {
            Some(c) => RowEvent::Emit(c.0, EventView::TurnCancelled { turn: c.1, generation: r.1.generation, sequence: r.1.sequence.0 }),
            None => RowEvent::Fail,
        }
}

pub open spec fn interrupted_event(w: World) -> spec_fn((Entity, TurnInterrupted)) -> RowEvent {
    |r: (Entity, TurnInterrupted)|
        match turn_context(w, r.1.turn) {
            Some(c) => RowEvent::Emit(c.0, EventView::TurnInterrupted { turn: c.1, generation: r.1.generation, sequence: r.1.sequence.0 }),
            None => RowEvent::Fail,
        }
}

pub open spec fn failed_event(w: World) -> spec_fn((Entity, TurnFailed)) -> RowEvent {
    |r: (Entity, TurnFailed)|
        match turn_context(w, r.1.turn) {
            Some(c) => RowEvent::Emit(c.0, EventView::TurnFailed {
                turn: c.1,
                generation: r.1.generation,
                kind: failure_view(r.1.failure).0,
                message: failure_view(r.1.failure).1,
                sequence: r.1.sequence.0,
            }),
            None => RowEvent::Fail,
        }
}

pub open spec fn branch_event(w: World) -> spec_fn((Entity, BranchSelection)) -> RowEvent {
    |r: (Entity, BranchSelection)|
        match (session_id_of(w, r.1.session), turn_id_of(w, r.1.head)) {
            (Some(sid), Some(h)) => RowEvent::Emit(sid, EventView::BranchSelection { head: h, sequence: r.1.sequence.0 }),
            _ => RowEvent::Fail,
        }
}

pub open spec fn model_change_event(w: World) -> spec_fn((Entity, ModelChange)) -> RowEvent {
    |r: (Entity, ModelChange)|
        match (turn_context(w, r.1.turn), model_ref(w, r.1.model)) {
            (Some(c), Some(m)) => RowEvent::Emit(c.0, EventView::ModelChange {
                turn: c.1,
                model_id: m.0,
                provider_id: m.1,
                sequence: r.1.sequence.0,
            }),
            _ => RowEvent::Fail,
        }
}

pub open spec fn compaction_event(w: World) -> spec_fn((Entity, Compaction)) -> RowEvent {
    |r: (Entity, Compaction)|
        match turn_context(w, r.1.turn) {
            Some(c) => RowEvent::Emit(c.0, EventView::Compaction { turn: c.1, summary: r.1.summary@, sequence: r.1.sequence.0 }),
            None => RowEvent::Fail,
        }
}

pub open spec fn recovery_event(w: World) -> spec_fn((Entity, Recovery)) -> RowEvent {
    |r: (Entity, Recovery)|
        match turn_context(w, r.1.turn) {
            Some(c) => RowEvent::Emit(c.0, EventView::Recovery { turn: c.1, text: r.1.text@, sequence: r.1.sequence.0 }),
            None => RowEvent::Fail,
        }
}

/// Some row of the world references something missing.
#[verifier::opaque]
pub open spec fn collection_fails(w: World) -> bool {
    ||| fails(w.sessions@, session_event(w))
    ||| fails(w.context_cameras@, camera_event(w))
    ||| fails(w.turns@, turn_event(w))
    ||| fails(w.user_messages@, user_message_event(w))
    ||| fails(w.assistant_messages@, assistant_message_event(w))
    ||| fails(w.model_requests@, request_event(w))
    ||| fails(w.model_responses@, response_event(w))
    ||| fails(w.tool_uses@, tool_use_event(w))
    ||| fails(w.tool_outcomes@, tool_outcome_event(w))
    ||| fails(w.turns_completed@, completed_event(w))
    ||| fails(w.turns_cancelled@, cancelled_event(w))
    ||| fails(w.turns_interrupted@, interrupted_event(w))
    ||| fails(w.turns_failed@, failed_event(w))
    ||| fails(w.branch_selections@, branch_event(w))
    ||| fails(w.model_changes@, model_change_event(w))
    ||| fails(w.compactions@, compaction_event(w))
    ||| fails(w.recoveries@, recovery_event(w))
}

/// Every event of the world, table by table, each table in row order.
#[verifier::opaque]
pub open spec fn raw_events(w: World) -> Seq<(SessionId, EventView)> {
    emits(w.sessions@, session_event(w)) + emits(w.context_cameras@, camera_event(w)) + emits(w.turns@, turn_event(w))
        + emits(w.user_messages@, user_message_event(w)) + emits(w.assistant_messages@, assistant_message_event(w))
        + emits(w.model_requests@, request_event(w)) + emits(w.model_responses@, response_event(w)) + emits(
        w.tool_uses@,
        tool_use_event(w),
    ) + emits(w.tool_outcomes@, tool_outcome_event(w)) + emits(w.turns_completed@, completed_event(w)) + emits(
        w.turns_cancelled@,
        cancelled_event(w),
    ) + emits(w.turns_interrupted@, interrupted_event(w)) + emits(w.turns_failed@, failed_event(w)) + emits(
        w.branch_selections@,
        branch_event(w),
    ) + emits(w.model_changes@, model_change_event(w)) + emits(w.compactions@, compaction_event(w)) + emits(
        w.recoveries@,
        recovery_event(w),
    )
}

/// What one row contributes, as the collector computes it.
pub enum Emitted {
    Skip,
    Fail(String),
    Emit(SessionId, Event),
}

impl Emitted {
    pub open spec fn view(&self) -> RowEvent {
        match self {
            Emitted::Skip => RowEvent::Skip,
            Emitted::Fail(_) => RowEvent::Fail,
            Emitted::Emit(s, e) => RowEvent::Emit(*s, e.view()),
        }
    }
}

fn turn_id_exec(world: &World, t: Entity) -> (r: Option<u64>)
    ensures
        r == turn_id_of(*world, t),
{
    match position(&world.turns, t) {
        Some(k) => {
            proof {
                lemma_find(world.turns@, t);
            }
            Some(world.turns[k].1.id.0)
        },
        None => None,
    }
}

fn session_id_exec(world: &World, s: Entity) -> (r: Option<SessionId>)
    ensures
        r == session_id_of(*world, s),
{
    match position(&world.sessions, s) {
        Some(k) => {
            proof {
                lemma_find(world.sessions@, s);
            }
            Some(world.sessions[k].1.id)
        },
        None => None,
    }
}

fn turn_context_exec(world: &World, t: Entity) -> (r: Option<(SessionId, u64)>)
    ensures
        r == turn_context(*world, t),
{
    match position(&world.turns, t) {
        Some(k) => {
            proof {
                lemma_find(world.turns@, t);
            }
            match session_id_exec(world, world.turns[k].1.session) {
                Some(sid) => Some((sid, world.turns[k].1.id.0)),
                None => None,
            }
        },
        None => None,
    }
}

fn model_ref_exec(world: &World, m: Entity) -> (r: Option<(String, u64)>)
    ensures
        match r {
            Some(x) => model_ref(*world, m) == Some((x.0@, x.1)),
            None => model_ref(*world, m) is None,
        },
{
    match position(&world.models, m) {
        Some(k) => {
            proof {
                lemma_find(world.models@, m);
            }
            let provider = world.models[k].1.provider;
            match position(&world.providers, provider) {
                Some(pk) => {
                    proof {
                        lemma_find(world.providers@, provider);
                    }
                    Some((world.models[k].1.model_id.clone(), world.providers[pk].1.provider_id.0))
                },
                None => None,
            }
        },
        None => None,
    }
}

/// The message of a reference to a missing entity: "entity ", its handle, " is missing ", and
/// what it should have been.
fn missing(what: &str, e: Entity) -> (s: String)
    ensures
        s@ == "entity "@ + decimal(e.0 as nat) + " is missing "@ + what@,
{
    let mut s = with_decimal("entity ", e.0);
    s.append(" is missing ");
    s.append(what);
    s
}

/// The message of a Turn reference that has no Session context: the Turn is missing, or its
/// Session is.
fn context_missing(world: &World, t: Entity) -> (s: String)
    ensures
        s@ == context_message(*world, t),
{
    if crate::world::contains(&world.turns, t) {
        let mut s = with_decimal("Turn ", t.0);
        s.append(" references missing Session");
        s
    } else {
        missing("Turn", t)
    }
}

/// The message naming entity `e`, which is missing as `what`.
pub open spec fn gone(what: Seq<char>, e: Entity) -> Seq<char> {
    "entity "@ + decimal(e.0 as nat) + " is missing "@ + what
}

/// The message of a row whose Turn `t` has no Session context: the Turn is missing, or its
/// Session is.
pub open spec fn context_message(w: World, t: Entity) -> Seq<char> {
    if crate::world::has_row(w.turns@, t) {
        "Turn "@ + decimal(t.0 as nat) + " references missing Session"@
    } else {
        gone("Turn"@, t)
    }
}

/// The message of the first row of `rows` that fails under `f`, as `msg` words it.
pub open spec fn first_failure<T>(rows: Seq<T>, f: spec_fn(T) -> RowEvent, msg: spec_fn(T) -> Seq<char>) -> Seq<char>
    decreases rows.len(),
{
    if rows.len() == 0 {
        Seq::empty()
    } else if fails(rows.drop_last(), f) {
        first_failure(rows.drop_last(), f, msg)
    } else {
        msg(rows.last())
    }
}

proof fn lemma_first_failure<T>(rows: Seq<T>, f: spec_fn(T) -> RowEvent, msg: spec_fn(T) -> Seq<char>, i: int)
    requires
        0 <= i < rows.len(),
        f(rows[i]) is Fail,
        !fails(rows.take(i), f),
    ensures
        first_failure(rows, f, msg) == msg(rows[i]),
    decreases rows.len(),
{
    if i < rows.len() - 1 {
        let d = rows.drop_last();
        assert(d[i] == rows[i]);
        assert(d.take(i) =~= rows.take(i));
        assert(fails(d, f));
        lemma_first_failure(d, f, msg, i);
    } else {
        assert(rows.drop_last() =~= rows.take(i));
    }
}

/// The message of a Session row that fails, naming the first reference that is missing.
pub open spec fn session_message(w: World) -> spec_fn((Entity, Session)) -> Seq<char> {
    |r: (Entity, Session)| gone("Turn"@, r.1.active_head.unwrap())
}

/// The message of a ContextCamera row that fails, naming the first reference that is missing.
pub open spec fn camera_message(w: World) -> spec_fn((Entity, ContextCamera)) -> Seq<char> {
    |r: (Entity, ContextCamera)| gone("Session"@, r.1.session)
}

/// The message of a Turn row that fails, naming the first reference that is missing.
pub open spec fn turn_message(w: World) -> spec_fn((Entity, Turn)) -> Seq<char> {
    |r: (Entity, Turn)| if session_id_of(w, r.1.session) is None { gone("Session"@, r.1.session) } else { gone("Turn"@, r.1.parent.unwrap()) }
}

/// The message of a UserMessage row that fails, naming the first reference that is missing.
pub open spec fn user_message_message(w: World) -> spec_fn((Entity, UserMessage)) -> Seq<char> {
    |r: (Entity, UserMessage)| context_message(w, r.1.turn)
}

/// The message of a AssistantMessage row that fails, naming the first reference that is missing.
pub open spec fn assistant_message_message(w: World) -> spec_fn((Entity, AssistantMessage)) -> Seq<char> {
    |r: (Entity, AssistantMessage)| context_message(w, r.1.turn)
}

/// The message of a ModelRequest row that fails, naming the first reference that is missing.
pub open spec fn request_message(w: World) -> spec_fn((Entity, ModelRequest)) -> Seq<char> {
    |r: (Entity, ModelRequest)| if turn_context(w, r.1.turn) is None { context_message(w, r.1.turn) } else { gone("Model capability"@, r.1.model) }
}

/// The message of a ModelResponse row that fails, naming the first reference that is missing.
pub open spec fn response_message(w: World) -> spec_fn((Entity, ModelResponse)) -> Seq<char> {
    |r: (Entity, ModelResponse)| if turn_context(w, r.1.turn) is None { context_message(w, r.1.turn) } else if model_ref(w, r.1.model) is None { gone("Model capability"@, r.1.model) } else { gone("ModelRequest"@, r.1.request) }
}

/// The message of a ToolUse row that fails, naming the first reference that is missing.
pub open spec fn tool_use_message(w: World) -> spec_fn((Entity, ToolUse)) -> Seq<char> {
    |r: (Entity, ToolUse)| if turn_context(w, r.1.turn) is None { context_message(w, r.1.turn) } else if model_ref(w, r.1.model) is None { gone("Model capability"@, r.1.model) } else { gone("ToolDefinition capability"@, r.1.tool) }
}

/// The message of a ToolOutcome row that fails, naming the first reference that is missing.
pub open spec fn tool_outcome_message(w: World) -> spec_fn((Entity, ToolOutcome)) -> Seq<char> {
    |r: (Entity, ToolOutcome)| if turn_context(w, r.1.turn) is None { context_message(w, r.1.turn) } else { gone("ToolUse"@, r.1.tool_use) }
}

/// The message of a TurnCompleted row that fails, naming the first reference that is missing.
pub open spec fn completed_message(w: World) -> spec_fn((Entity, TurnCompleted)) -> Seq<char> {
    |r: (Entity, TurnCompleted)| context_message(w, r.1.turn)
}

/// The message of a TurnCancelled row that fails, naming the first reference that is missing.
pub open spec fn cancelled_message(w: World) -> spec_fn((Entity, TurnCancelled)) -> Seq<char> {
    |r: (Entity, TurnCancelled)| context_message(w, r.1.turn)
}

/// The message of a TurnInterrupted row that fails, naming the first reference that is missing.
pub open spec fn interrupted_message(w: World) -> spec_fn((Entity, TurnInterrupted)) -> Seq<char> {
    |r: (Entity, TurnInterrupted)| context_message(w, r.1.turn)
}

/// The message of a TurnFailed row that fails, naming the first reference that is missing.
pub open spec fn failed_message(w: World) -> spec_fn((Entity, TurnFailed)) -> Seq<char> {
    |r: (Entity, TurnFailed)| context_message(w, r.1.turn)
}

/// The message of a BranchSelection row that fails, naming the first reference that is missing.
pub open spec fn branch_message(w: World) -> spec_fn((Entity, BranchSelection)) -> Seq<char> {
    |r: (Entity, BranchSelection)| if session_id_of(w, r.1.session) is None { gone("Session"@, r.1.session) } else { gone("Turn"@, r.1.head) }
}

/// The message of a ModelChange row that fails, naming the first reference that is missing.
pub open spec fn model_change_message(w: World) -> spec_fn((Entity, ModelChange)) -> Seq<char> {
    |r: (Entity, ModelChange)| if turn_context(w, r.1.turn) is None { context_message(w, r.1.turn) } else { gone("Model capability"@, r.1.model) }
}

/// The message of a Compaction row that fails, naming the first reference that is missing.
pub open spec fn compaction_message(w: World) -> spec_fn((Entity, Compaction)) -> Seq<char> {
    |r: (Entity, Compaction)| context_message(w, r.1.turn)
}

/// The message of a Recovery row that fails, naming the first reference that is missing.
pub open spec fn recovery_message(w: World) -> spec_fn((Entity, Recovery)) -> Seq<char> {
    |r: (Entity, Recovery)| context_message(w, r.1.turn)
}

/// The message of the first failing row of `w`, tables taken in collection order.
pub open spec fn raw_message(w: World) -> Seq<char> {
    if fails(w.sessions@, session_event(w)) {
        first_failure(w.sessions@, session_event(w), session_message(w))
    }     else if fails(w.context_cameras@, camera_event(w)) {
        first_failure(w.context_cameras@, camera_event(w), camera_message(w))
    }     else if fails(w.turns@, turn_event(w)) {
        first_failure(w.turns@, turn_event(w), turn_message(w))
    }     else if fails(w.user_messages@, user_message_event(w)) {
        first_failure(w.user_messages@, user_message_event(w), user_message_message(w))
    }     else if fails(w.assistant_messages@, assistant_message_event(w)) {
        first_failure(w.assistant_messages@, assistant_message_event(w), assistant_message_message(w))
    }     else if fails(w.model_requests@, request_event(w)) {
        first_failure(w.model_requests@, request_event(w), request_message(w))
    }     else if fails(w.model_responses@, response_event(w)) {
        first_failure(w.model_responses@, response_event(w), response_message(w))
    }     else if fails(w.tool_uses@, tool_use_event(w)) {
        first_failure(w.tool_uses@, tool_use_event(w), tool_use_message(w))
    }     else if fails(w.tool_outcomes@, tool_outcome_event(w)) {
        first_failure(w.tool_outcomes@, tool_outcome_event(w), tool_outcome_message(w))
    }     else if fails(w.turns_completed@, completed_event(w)) {
        first_failure(w.turns_completed@, completed_event(w), completed_message(w))
    }     else if fails(w.turns_cancelled@, cancelled_event(w)) {
        first_failure(w.turns_cancelled@, cancelled_event(w), cancelled_message(w))
    }     else if fails(w.turns_interrupted@, interrupted_event(w)) {
        first_failure(w.turns_interrupted@, interrupted_event(w), interrupted_message(w))
    }     else if fails(w.turns_failed@, failed_event(w)) {
        first_failure(w.turns_failed@, failed_event(w), failed_message(w))
    }     else if fails(w.branch_selections@, branch_event(w)) {
        first_failure(w.branch_selections@, branch_event(w), branch_message(w))
    }     else if fails(w.model_changes@, model_change_event(w)) {
        first_failure(w.model_changes@, model_change_event(w), model_change_message(w))
    }     else if fails(w.compactions@, compaction_event(w)) {
        first_failure(w.compactions@, compaction_event(w), compaction_message(w))
    }     else if fails(w.recoveries@, recovery_event(w)) {
        first_failure(w.recoveries@, recovery_event(w), recovery_message(w))
    } else {
        Seq::empty()
    }
}

/// The view of collected entries.
pub open spec fn entry_views(s: Seq<(SessionId, Event)>) -> Seq<(SessionId, EventView)> {
    s.map_values(|x: (SessionId, Event)| (x.0, x.1.view()))
}

fn session_row(world: &World, i: usize) -> (r: Emitted)
    requires
        i < world.sessions@.len(),
    ensures
        r.view() == session_event(*world)(world.sessions@[i as int]),
        r matches Emitted::Fail(m) ==> m@ == session_message(*world)(world.sessions@[i as int]),
{
        let r = &world.sessions[i].1;
        match r.active_head {
            None => Emitted::Emit(r.id, Event::Session { id: r.id.0, active_head: None }),
            Some(h) => match turn_id_exec(world, h) {
                Some(t) => Emitted::Emit(r.id, Event::Session { id: r.id.0, active_head: Some(t) }),
                None => {
                let m = missing("Turn", h);
                Emitted::Fail(m)
            },
            },
        }
}

fn collect_session(world: &World, out: &mut Vec<(SessionId, Event)>) -> (r: Result<(), String>)
    ensures
        r is Ok <==> !fails(world.sessions@, session_event(*world)),
        r matches Err(m) ==> m@ == first_failure(world.sessions@, session_event(*world), session_message(*world)),
        r is Ok ==> entry_views(final(out)@) == entry_views(old(out)@) + emits(world.sessions@, session_event(*world)),
{
    let ghost start = entry_views(out@);
    let ghost f = session_event(*world);
    let mut i: usize = 0;
    while i < world.sessions.len()
        invariant
            f == session_event(*world),
            i <= world.sessions@.len(),
            entry_views(out@) == start + emits(world.sessions@.take(i as int), f),
            !fails(world.sessions@.take(i as int), f),
        decreases world.sessions.len() - i,
    {
        let ghost rows = world.sessions@;
        proof {
            assert(rows.take(i + 1).drop_last() =~= rows.take(i as int));
            assert(rows.take(i + 1).last() == rows[i as int]);
        }
        match session_row(world, i) {
            Emitted::Fail(m) => {
                proof {
                    assert(f(rows[i as int]) is Fail);
                    lemma_first_failure(rows, f, session_message(*world), i as int);
                }
                return Err(m);
            },
            Emitted::Emit(sid, e) => {
                let ghost before = out@;
                out.push((sid, e));
                proof {
                    assert(entry_views(out@) =~= entry_views(before).push((sid, e.view())));
                }
            },
            Emitted::Skip => {},
        }
        proof {
            assert forall|j: int| 0 <= j < i + 1 implies !(#[trigger] f(rows.take(i + 1)[j]) is Fail) by {
                if j < i {
                    assert(rows.take(i + 1)[j] == rows.take(i as int)[j]);
                }
            }
        }
        i = i + 1;
    }
    proof {
        assert(world.sessions@.take(world.sessions@.len() as int) =~= world.sessions@);
    }
    Ok(())
}

fn camera_row(world: &World, i: usize) -> (r: Emitted)
    requires
        i < world.context_cameras@.len(),
    ensures
        r.view() == camera_event(*world)(world.context_cameras@[i as int]),
        r matches Emitted::Fail(m) ==> m@ == camera_message(*world)(world.context_cameras@[i as int]),
{
        let r = &world.context_cameras[i].1;
        if !r.persistent {
            Emitted::Skip
        } else {
            match session_id_exec(world, r.session) {
                Some(sid) => Emitted::Emit(sid, Event::ContextCamera { budget: r.budget }),
                None => {
                let m = missing("Session", r.session);
                Emitted::Fail(m)
            },
            }
        }
}

fn collect_camera(world: &World, out: &mut Vec<(SessionId, Event)>) -> (r: Result<(), String>)
    ensures
        r is Ok <==> !fails(world.context_cameras@, camera_event(*world)),
        r matches Err(m) ==> m@ == first_failure(world.context_cameras@, camera_event(*world), camera_message(*world)),
        r is Ok ==> entry_views(final(out)@) == entry_views(old(out)@) + emits(world.context_cameras@, camera_event(*world)),
{
    let ghost start = entry_views(out@);
    let ghost f = camera_event(*world);
    let mut i: usize = 0;
    while i < world.context_cameras.len()
        invariant
            f == camera_event(*world),
            i <= world.context_cameras@.len(),
            entry_views(out@) == start + emits(world.context_cameras@.take(i as int), f),
            !fails(world.context_cameras@.take(i as int), f),
        decreases world.context_cameras.len() - i,
    {
        let ghost rows = world.context_cameras@;
        proof {
            assert(rows.take(i + 1).drop_last() =~= rows.take(i as int));
            assert(rows.take(i + 1).last() == rows[i as int]);
        }
        match camera_row(world, i) {
            Emitted::Fail(m) => {
                proof {
                    assert(f(rows[i as int]) is Fail);
                    lemma_first_failure(rows, f, camera_message(*world), i as int);
                }
                return Err(m);
            },
            Emitted::Emit(sid, e) => {
                let ghost before = out@;
                out.push((sid, e));
                proof {
                    assert(entry_views(out@) =~= entry_views(before).push((sid, e.view())));
                }
            },
            Emitted::Skip => {},
        }
        proof {
            assert forall|j: int| 0 <= j < i + 1 implies !(#[trigger] f(rows.take(i + 1)[j]) is Fail) by {
                if j < i {
                    assert(rows.take(i + 1)[j] == rows.take(i as int)[j]);
                }
            }
        }
        i = i + 1;
    }
    proof {
        assert(world.context_cameras@.take(world.context_cameras@.len() as int) =~= world.context_cameras@);
    }
    Ok(())
}

fn turn_row(world: &World, i: usize) -> (r: Emitted)
    requires
        i < world.turns@.len(),
    ensures
        r.view() == turn_event(*world)(world.turns@[i as int]),
        r matches Emitted::Fail(m) ==> m@ == turn_message(*world)(world.turns@[i as int]),
{
        let r = &world.turns[i].1;
        match session_id_exec(world, r.session) {
            None => {
                let m = missing("Session", r.session);
                Emitted::Fail(m)
            },
            Some(sid) => match r.parent {
                None => Emitted::Emit(sid, Event::Turn { id: r.id.0, parent: None, sequence: r.sequence.0, generation: r.generation }),
                Some(p) => match turn_id_exec(world, p) {
                    Some(pid) => Emitted::Emit(sid, Event::Turn { id: r.id.0, parent: Some(pid), sequence: r.sequence.0, generation: r.generation }),
                    None => {
                let m = missing("Turn", p);
                Emitted::Fail(m)
            },
                },
            },
        }
}

fn collect_turn(world: &World, out: &mut Vec<(SessionId, Event)>) -> (r: Result<(), String>)
    ensures
        r is Ok <==> !fails(world.turns@, turn_event(*world)),
        r matches Err(m) ==> m@ == first_failure(world.turns@, turn_event(*world), turn_message(*world)),
        r is Ok ==> entry_views(final(out)@) == entry_views(old(out)@) + emits(world.turns@, turn_event(*world)),
{
    let ghost start = entry_views(out@);
    let ghost f = turn_event(*world);
    let mut i: usize = 0;
    while i < world.turns.len()
        invariant
            f == turn_event(*world),
            i <= world.turns@.len(),
            entry_views(out@) == start + emits(world.turns@.take(i as int), f),
            !fails(world.turns@.take(i as int), f),
        decreases world.turns.len() - i,
    {
        let ghost rows = world.turns@;
        proof {
            assert(rows.take(i + 1).drop_last() =~= rows.take(i as int));
            assert(rows.take(i + 1).last() == rows[i as int]);
        }
        match turn_row(world, i) {
            Emitted::Fail(m) => {
                proof {
                    assert(f(rows[i as int]) is Fail);
                    lemma_first_failure(rows, f, turn_message(*world), i as int);
                }
                return Err(m);
            },
            Emitted::Emit(sid, e) => {
                let ghost before = out@;
                out.push((sid, e));
                proof {
                    assert(entry_views(out@) =~= entry_views(before).push((sid, e.view())));
                }
            },
            Emitted::Skip => {},
        }
        proof {
            assert forall|j: int| 0 <= j < i + 1 implies !(#[trigger] f(rows.take(i + 1)[j]) is Fail) by {
                if j < i {
                    assert(rows.take(i + 1)[j] == rows.take(i as int)[j]);
                }
            }
        }
        i = i + 1;
    }
    proof {
        assert(world.turns@.take(world.turns@.len() as int) =~= world.turns@);
    }
    Ok(())
}

fn user_message_row(world: &World, i: usize) -> (r: Emitted)
    requires
        i < world.user_messages@.len(),
    ensures
        r.view() == user_message_event(*world)(world.user_messages@[i as int]),
        r matches Emitted::Fail(m) ==> m@ == user_message_message(*world)(world.user_messages@[i as int]),
{
        let r = &world.user_messages[i].1;
        match turn_context_exec(world, r.turn) {
            Some(c) => Emitted::Emit(c.0, Event::UserMessage { id: r.id.0, turn: c.1, sequence: r.sequence.0, text: r.text.clone() }),
            None => {
                let m = context_missing(world, r.turn);
                Emitted::Fail(m)
            },
        }
}

fn collect_user_message(world: &World, out: &mut Vec<(SessionId, Event)>) -> (r: Result<(), String>)
    ensures
        r is Ok <==> !fails(world.user_messages@, user_message_event(*world)),
        r matches Err(m) ==> m@ == first_failure(world.user_messages@, user_message_event(*world), user_message_message(*world)),
        r is Ok ==> entry_views(final(out)@) == entry_views(old(out)@) + emits(world.user_messages@, user_message_event(*world)),
{
    let ghost start = entry_views(out@);
    let ghost f = user_message_event(*world);
    let mut i: usize = 0;
    while i < world.user_messages.len()
        invariant
            f == user_message_event(*world),
            i <= world.user_messages@.len(),
            entry_views(out@) == start + emits(world.user_messages@.take(i as int), f),
            !fails(world.user_messages@.take(i as int), f),
        decreases world.user_messages.len() - i,
    {
        let ghost rows = world.user_messages@;
        proof {
            assert(rows.take(i + 1).drop_last() =~= rows.take(i as int));
            assert(rows.take(i + 1).last() == rows[i as int]);
        }
        match user_message_row(world, i) {
            Emitted::Fail(m) => {
                proof {
                    assert(f(rows[i as int]) is Fail);
                    lemma_first_failure(rows, f, user_message_message(*world), i as int);
                }
                return Err(m);
            },
            Emitted::Emit(sid, e) => {
                let ghost before = out@;
                out.push((sid, e));
                proof {
                    assert(entry_views(out@) =~= entry_views(before).push((sid, e.view())));
                }
            },
            Emitted::Skip => {},
        }
        proof {
            assert forall|j: int| 0 <= j < i + 1 implies !(#[trigger] f(rows.take(i + 1)[j]) is Fail) by {
                if j < i {
                    assert(rows.take(i + 1)[j] == rows.take(i as int)[j]);
                }
            }
        }
        i = i + 1;
    }
    proof {
        assert(world.user_messages@.take(world.user_messages@.len() as int) =~= world.user_messages@);
    }
    Ok(())
}

fn assistant_message_row(world: &World, i: usize) -> (r: Emitted)
    requires
        i < world.assistant_messages@.len(),
    ensures
        r.view() == assistant_message_event(*world)(world.assistant_messages@[i as int]),
        r matches Emitted::Fail(m) ==> m@ == assistant_message_message(*world)(world.assistant_messages@[i as int]),
{
        let r = &world.assistant_messages[i].1;
        match turn_context_exec(world, r.turn) {
            Some(c) => Emitted::Emit(c.0, Event::AssistantMessage { id: r.id.0, turn: c.1, sequence: r.sequence.0, text: r.text.clone() }),
            None => {
                let m = context_missing(world, r.turn);
                Emitted::Fail(m)
            },
        }
}

fn collect_assistant_message(world: &World, out: &mut Vec<(SessionId, Event)>) -> (r: Result<(), String>)
    ensures
        r is Ok <==> !fails(world.assistant_messages@, assistant_message_event(*world)),
        r matches Err(m) ==> m@ == first_failure(world.assistant_messages@, assistant_message_event(*world), assistant_message_message(*world)),
        r is Ok ==> entry_views(final(out)@) == entry_views(old(out)@) + emits(world.assistant_messages@, assistant_message_event(*world)),
{
    let ghost start = entry_views(out@);
    let ghost f = assistant_message_event(*world);
    let mut i: usize = 0;
    while i < world.assistant_messages.len()
        invariant
            f == assistant_message_event(*world),
            i <= world.assistant_messages@.len(),
            entry_views(out@) == start + emits(world.assistant_messages@.take(i as int), f),
            !fails(world.assistant_messages@.take(i as int), f),
        decreases world.assistant_messages.len() - i,
    {
        let ghost rows = world.assistant_messages@;
        proof {
            assert(rows.take(i + 1).drop_last() =~= rows.take(i as int));
            assert(rows.take(i + 1).last() == rows[i as int]);
        }
        match assistant_message_row(world, i) {
            Emitted::Fail(m) => {
                proof {
                    assert(f(rows[i as int]) is Fail);
                    lemma_first_failure(rows, f, assistant_message_message(*world), i as int);
                }
                return Err(m);
            },
            Emitted::Emit(sid, e) => {
                let ghost before = out@;
                out.push((sid, e));
                proof {
                    assert(entry_views(out@) =~= entry_views(before).push((sid, e.view())));
                }
            },
            Emitted::Skip => {},
        }
        proof {
            assert forall|j: int| 0 <= j < i + 1 implies !(#[trigger] f(rows.take(i + 1)[j]) is Fail) by {
                if j < i {
                    assert(rows.take(i + 1)[j] == rows.take(i as int)[j]);
                }
            }
        }
        i = i + 1;
    }
    proof {
        assert(world.assistant_messages@.take(world.assistant_messages@.len() as int) =~= world.assistant_messages@);
    }
    Ok(())
}

fn request_row(world: &World, i: usize) -> (r: Emitted)
    requires
        i < world.model_requests@.len(),
    ensures
        r.view() == request_event(*world)(world.model_requests@[i as int]),
        r matches Emitted::Fail(m) ==> m@ == request_message(*world)(world.model_requests@[i as int]),
{
        let r = &world.model_requests[i].1;
        let previous = match r.previous_tool_use {
            Some(e) => match position(&world.tool_uses, e) {
                Some(k) => {
                    proof {
                        lemma_find(world.tool_uses@, e);
                    }
                    Some(world.tool_uses[k].1.id.0)
                },
                None => None,
            },
            None => None,
        };
        match (turn_context_exec(world, r.turn), model_ref_exec(world, r.model)) {
            (Some(c), Some(m)) => Emitted::Emit(c.0, Event::ModelRequest {
                id: r.id.0,
                turn: c.1,
                model_id: m.0,
                provider_id: m.1,
                generation: r.generation,
                previous_tool_use: previous,
                status: r.status,
                sequence: r.sequence.0,
            }),
            (None, _) => {
                let m = context_missing(world, r.turn);
                Emitted::Fail(m)
            },
            (_, None) => {
                let m = missing("Model capability", r.model);
                Emitted::Fail(m)
            },
        }
}

fn collect_request(world: &World, out: &mut Vec<(SessionId, Event)>) -> (r: Result<(), String>)
    ensures
        r is Ok <==> !fails(world.model_requests@, request_event(*world)),
        r matches Err(m) ==> m@ == first_failure(world.model_requests@, request_event(*world), request_message(*world)),
        r is Ok ==> entry_views(final(out)@) == entry_views(old(out)@) + emits(world.model_requests@, request_event(*world)),
{
    let ghost start = entry_views(out@);
    let ghost f = request_event(*world);
    let mut i: usize = 0;
    while i < world.model_requests.len()
        invariant
            f == request_event(*world),
            i <= world.model_requests@.len(),
            entry_views(out@) == start + emits(world.model_requests@.take(i as int), f),
            !fails(world.model_requests@.take(i as int), f),
        decreases world.model_requests.len() - i,
    {
        let ghost rows = world.model_requests@;
        proof {
            assert(rows.take(i + 1).drop_last() =~= rows.take(i as int));
            assert(rows.take(i + 1).last() == rows[i as int]);
        }
        match request_row(world, i) {
            Emitted::Fail(m) => {
                proof {
                    assert(f(rows[i as int]) is Fail);
                    lemma_first_failure(rows, f, request_message(*world), i as int);
                }
                return Err(m);
            },
            Emitted::Emit(sid, e) => {
                let ghost before = out@;
                out.push((sid, e));
                proof {
                    assert(entry_views(out@) =~= entry_views(before).push((sid, e.view())));
                }
            },
            Emitted::Skip => {},
        }
        proof {
            assert forall|j: int| 0 <= j < i + 1 implies !(#[trigger] f(rows.take(i + 1)[j]) is Fail) by {
                if j < i {
                    assert(rows.take(i + 1)[j] == rows.take(i as int)[j]);
                }
            }
        }
        i = i + 1;
    }
    proof {
        assert(world.model_requests@.take(world.model_requests@.len() as int) =~= world.model_requests@);
    }
    Ok(())
}

fn response_row(world: &World, i: usize) -> (r: Emitted)
    requires
        i < world.model_responses@.len(),
    ensures
        r.view() == response_event(*world)(world.model_responses@[i as int]),
        r matches Emitted::Fail(m) ==> m@ == response_message(*world)(world.model_responses@[i as int]),
{
        let r = &world.model_responses[i].1;
        let request = match position(&world.model_requests, r.request) {
            Some(k) => {
                proof {
                    lemma_find(world.model_requests@, r.request);
                }
                Some(world.model_requests[k].1.id.0)
            },
            None => None,
        };
        match (turn_context_exec(world, r.turn), model_ref_exec(world, r.model), request) {
            (Some(c), Some(m), Some(q)) => Emitted::Emit(c.0, Event::ModelResponse {
                request: q,
                turn: c.1,
                model_id: m.0,
                provider_id: m.1,
                generation: r.generation,
                response_id: r.response_id.clone(),
                api: r.api,
                input_tokens: r.usage.input_tokens,
                output_tokens: r.usage.output_tokens,
                stop_reason: r.stop_reason,
                opaque_replay: r.opaque_replay.clone(),
                sequence: r.sequence.0,
            }),
            (None, _, _) => {
                let m = context_missing(world, r.turn);
                Emitted::Fail(m)
            },
            (_, None, _) => {
                let m = missing("Model capability", r.model);
                Emitted::Fail(m)
            },
            (_, _, None) => {
                let m = missing("ModelRequest", r.request);
                Emitted::Fail(m)
            },
        }
}

fn collect_response(world: &World, out: &mut Vec<(SessionId, Event)>) -> (r: Result<(), String>)
    ensures
        r is Ok <==> !fails(world.model_responses@, response_event(*world)),
        r matches Err(m) ==> m@ == first_failure(world.model_responses@, response_event(*world), response_message(*world)),
        r is Ok ==> entry_views(final(out)@) == entry_views(old(out)@) + emits(world.model_responses@, response_event(*world)),
{
    let ghost start = entry_views(out@);
    let ghost f = response_event(*world);
    let mut i: usize = 0;
    while i < world.model_responses.len()
        invariant
            f == response_event(*world),
            i <= world.model_responses@.len(),
            entry_views(out@) == start + emits(world.model_responses@.take(i as int), f),
            !fails(world.model_responses@.take(i as int), f),
        decreases world.model_responses.len() - i,
    {
        let ghost rows = world.model_responses@;
        proof {
            assert(rows.take(i + 1).drop_last() =~= rows.take(i as int));
            assert(rows.take(i + 1).last() == rows[i as int]);
        }
        match response_row(world, i) {
            Emitted::Fail(m) => {
                proof {
                    assert(f(rows[i as int]) is Fail);
                    lemma_first_failure(rows, f, response_message(*world), i as int);
                }
                return Err(m);
            },
            Emitted::Emit(sid, e) => {
                let ghost before = out@;
                out.push((sid, e));
                proof {
                    assert(entry_views(out@) =~= entry_views(before).push((sid, e.view())));
                }
            },
            Emitted::Skip => {},
        }
        proof {
            assert forall|j: int| 0 <= j < i + 1 implies !(#[trigger] f(rows.take(i + 1)[j]) is Fail) by {
                if j < i {
                    assert(rows.take(i + 1)[j] == rows.take(i as int)[j]);
                }
            }
        }
        i = i + 1;
    }
    proof {
        assert(world.model_responses@.take(world.model_responses@.len() as int) =~= world.model_responses@);
    }
    Ok(())
}

fn tool_use_row(world: &World, i: usize) -> (r: Emitted)
    requires
        i < world.tool_uses@.len(),
    ensures
        r.view() == tool_use_event(*world)(world.tool_uses@[i as int]),
        r matches Emitted::Fail(m) ==> m@ == tool_use_message(*world)(world.tool_uses@[i as int]),
{
        let r = &world.tool_uses[i].1;
        let tool = match position(&world.tools, r.tool) {
            Some(k) => {
                proof {
                    lemma_find(world.tools@, r.tool);
                }
                Some(world.tools[k].1.tool_id.0)
            },
            None => None,
        };
        match (turn_context_exec(world, r.turn), model_ref_exec(world, r.model), tool) {
            (Some(c), Some(m), Some(t)) => Emitted::Emit(c.0, Event::ToolUse {
                id: r.id.0,
                turn: c.1,
                tool_id: t,
                model_id: m.0,
                provider_id: m.1,
                generation: r.generation,
                input: r.input.clone(),
                status: r.status,
                sequence: r.sequence.0,
            }),
            (None, _, _) => {
                let m = context_missing(world, r.turn);
                Emitted::Fail(m)
            },
            (_, None, _) => {
                let m = missing("Model capability", r.model);
                Emitted::Fail(m)
            },
            (_, _, None) => {
                let m = missing("ToolDefinition capability", r.tool);
                Emitted::Fail(m)
            },
        }
}

fn collect_tool_use(world: &World, out: &mut Vec<(SessionId, Event)>) -> (r: Result<(), String>)
    ensures
        r is Ok <==> !fails(world.tool_uses@, tool_use_event(*world)),
        r matches Err(m) ==> m@ == first_failure(world.tool_uses@, tool_use_event(*world), tool_use_message(*world)),
        r is Ok ==> entry_views(final(out)@) == entry_views(old(out)@) + emits(world.tool_uses@, tool_use_event(*world)),
{
    let ghost start = entry_views(out@);
    let ghost f = tool_use_event(*world);
    let mut i: usize = 0;
    while i < world.tool_uses.len()
        invariant
            f == tool_use_event(*world),
            i <= world.tool_uses@.len(),
            entry_views(out@) == start + emits(world.tool_uses@.take(i as int), f),
            !fails(world.tool_uses@.take(i as int), f),
        decreases world.tool_uses.len() - i,
    {
        let ghost rows = world.tool_uses@;
        proof {
            assert(rows.take(i + 1).drop_last() =~= rows.take(i as int));
            assert(rows.take(i + 1).last() == rows[i as int]);
        }
        match tool_use_row(world, i) {
            Emitted::Fail(m) => {
                proof {
                    assert(f(rows[i as int]) is Fail);
                    lemma_first_failure(rows, f, tool_use_message(*world), i as int);
                }
                return Err(m);
            },
            Emitted::Emit(sid, e) => {
                let ghost before = out@;
                out.push((sid, e));
                proof {
                    assert(entry_views(out@) =~= entry_views(before).push((sid, e.view())));
                }
            },
            Emitted::Skip => {},
        }
        proof {
            assert forall|j: int| 0 <= j < i + 1 implies !(#[trigger] f(rows.take(i + 1)[j]) is Fail) by {
                if j < i {
                    assert(rows.take(i + 1)[j] == rows.take(i as int)[j]);
                }
            }
        }
        i = i + 1;
    }
    proof {
        assert(world.tool_uses@.take(world.tool_uses@.len() as int) =~= world.tool_uses@);
    }
    Ok(())
}

fn tool_outcome_row(world: &World, i: usize) -> (r: Emitted)
    requires
        i < world.tool_outcomes@.len(),
    ensures
        r.view() == tool_outcome_event(*world)(world.tool_outcomes@[i as int]),
        r matches Emitted::Fail(m) ==> m@ == tool_outcome_message(*world)(world.tool_outcomes@[i as int]),
{
        let r = &world.tool_outcomes[i].1;
        let tool_use = match position(&world.tool_uses, r.tool_use) {
            Some(k) => {
                proof {
                    lemma_find(world.tool_uses@, r.tool_use);
                }
                Some(world.tool_uses[k].1.id.0)
            },
            None => None,
        };
        match (turn_context_exec(world, r.turn), tool_use) {
            (Some(c), Some(u)) => Emitted::Emit(c.0, Event::ToolOutcome {
                tool_use: u,
                tool_call_id: r.tool_call_id.0,
                turn: c.1,
                generation: r.generation,
                output: r.output.clone(),
                sequence: r.sequence.0,
            }),
            (None, _) => {
                let m = context_missing(world, r.turn);
                Emitted::Fail(m)
            },
            (_, None) => {
                let m = missing("ToolUse", r.tool_use);
                Emitted::Fail(m)
            },
        }
}

fn collect_tool_outcome(world: &World, out: &mut Vec<(SessionId, Event)>) -> (r: Result<(), String>)
    ensures
        r is Ok <==> !fails(world.tool_outcomes@, tool_outcome_event(*world)),
        r matches Err(m) ==> m@ == first_failure(world.tool_outcomes@, tool_outcome_event(*world), tool_outcome_message(*world)),
        r is Ok ==> entry_views(final(out)@) == entry_views(old(out)@) + emits(world.tool_outcomes@, tool_outcome_event(*world)),
{
    let ghost start = entry_views(out@);
    let ghost f = tool_outcome_event(*world);
    let mut i: usize = 0;
    while i < world.tool_outcomes.len()
        invariant
            f == tool_outcome_event(*world),
            i <= world.tool_outcomes@.len(),
            entry_views(out@) == start + emits(world.tool_outcomes@.take(i as int), f),
            !fails(world.tool_outcomes@.take(i as int), f),
        decreases world.tool_outcomes.len() - i,
    {
        let ghost rows = world.tool_outcomes@;
        proof {
            assert(rows.take(i + 1).drop_last() =~= rows.take(i as int));
            assert(rows.take(i + 1).last() == rows[i as int]);
        }
        match tool_outcome_row(world, i) {
            Emitted::Fail(m) => {
                proof {
                    assert(f(rows[i as int]) is Fail);
                    lemma_first_failure(rows, f, tool_outcome_message(*world), i as int);
                }
                return Err(m);
            },
            Emitted::Emit(sid, e) => {
                let ghost before = out@;
                out.push((sid, e));
                proof {
                    assert(entry_views(out@) =~= entry_views(before).push((sid, e.view())));
                }
            },
            Emitted::Skip => {},
        }
        proof {
            assert forall|j: int| 0 <= j < i + 1 implies !(#[trigger] f(rows.take(i + 1)[j]) is Fail) by {
                if j < i {
                    assert(rows.take(i + 1)[j] == rows.take(i as int)[j]);
                }
            }
        }
        i = i + 1;
    }
    proof {
        assert(world.tool_outcomes@.take(world.tool_outcomes@.len() as int) =~= world.tool_outcomes@);
    }
    Ok(())
}

fn completed_row(world: &World, i: usize) -> (r: Emitted)
    requires
        i < world.turns_completed@.len(),
    ensures
        r.view() == completed_event(*world)(world.turns_completed@[i as int]),
        r matches Emitted::Fail(m) ==> m@ == completed_message(*world)(world.turns_completed@[i as int]),
{
        let r = &world.turns_completed[i].1;
        match turn_context_exec(world, r.turn) {
            Some(c) => Emitted::Emit(c.0, Event::TurnCompleted { turn: c.1, generation: r.generation, sequence: r.sequence.0 }),
            None => {
                let m = context_missing(world, r.turn);
                Emitted::Fail(m)
            },
        }
}

fn collect_completed(world: &World, out: &mut Vec<(SessionId, Event)>) -> (r: Result<(), String>)
    ensures
        r is Ok <==> !fails(world.turns_completed@, completed_event(*world)),
        r matches Err(m) ==> m@ == first_failure(world.turns_completed@, completed_event(*world), completed_message(*world)),
        r is Ok ==> entry_views(final(out)@) == entry_views(old(out)@) + emits(world.turns_completed@, completed_event(*world)),
{
    let ghost start = entry_views(out@);
    let ghost f = completed_event(*world);
    let mut i: usize = 0;
    while i < world.turns_completed.len()
        invariant
            f == completed_event(*world),
            i <= world.turns_completed@.len(),
            entry_views(out@) == start + emits(world.turns_completed@.take(i as int), f),
            !fails(world.turns_completed@.take(i as int), f),
        decreases world.turns_completed.len() - i,
    {
        let ghost rows = world.turns_completed@;
        proof {
            assert(rows.take(i + 1).drop_last() =~= rows.take(i as int));
            assert(rows.take(i + 1).last() == rows[i as int]);
        }
        match completed_row(world, i) {
            Emitted::Fail(m) => {
                proof {
                    assert(f(rows[i as int]) is Fail);
                    lemma_first_failure(rows, f, completed_message(*world), i as int);
                }
                return Err(m);
            },
            Emitted::Emit(sid, e) => {
                let ghost before = out@;
                out.push((sid, e));
                proof {
                    assert(entry_views(out@) =~= entry_views(before).push((sid, e.view())));
                }
            },
            Emitted::Skip => {},
        }
        proof {
            assert forall|j: int| 0 <= j < i + 1 implies !(#[trigger] f(rows.take(i + 1)[j]) is Fail) by {
                if j < i {
                    assert(rows.take(i + 1)[j] == rows.take(i as int)[j]);
                }
            }
        }
        i = i + 1;
    }
    proof {
        assert(world.turns_completed@.take(world.turns_completed@.len() as int) =~= world.turns_completed@);
    }
    Ok(())
}

fn cancelled_row(world: &World, i: usize) -> (r: Emitted)
    requires
        i < world.turns_cancelled@.len(),
    ensures
        r.view() == cancelled_event(*world)(world.turns_cancelled@[i as int]),
        r matches Emitted::Fail(m) ==> m@ == cancelled_message(*world)(world.turns_cancelled@[i as int]),
{
        let r = &world.turns_cancelled[i].1;
        match turn_context_exec(world, r.turn) {
            Some(c) => Emitted::Emit(c.0, Event::TurnCancelled { turn: c.1, generation: r.generation, sequence: r.sequence.0 }),
            None => {
                let m = context_missing(world, r.turn);
                Emitted::Fail(m)
            },
        }
}

fn collect_cancelled(world: &World, out: &mut Vec<(SessionId, Event)>) -> (r: Result<(), String>)
    ensures
        r is Ok <==> !fails(world.turns_cancelled@, cancelled_event(*world)),
        r matches Err(m) ==> m@ == first_failure(world.turns_cancelled@, cancelled_event(*world), cancelled_message(*world)),
        r is Ok ==> entry_views(final(out)@) == entry_views(old(out)@) + emits(world.turns_cancelled@, cancelled_event(*world)),
{
    let ghost start = entry_views(out@);
    let ghost f = cancelled_event(*world);
    let mut i: usize = 0;
    while i < world.turns_cancelled.len()
        invariant
            f == cancelled_event(*world),
            i <= world.turns_cancelled@.len(),
            entry_views(out@) == start + emits(world.turns_cancelled@.take(i as int), f),
            !fails(world.turns_cancelled@.take(i as int), f),
        decreases world.turns_cancelled.len() - i,
    {
        let ghost rows = world.turns_cancelled@;
        proof {
            assert(rows.take(i + 1).drop_last() =~= rows.take(i as int));
            assert(rows.take(i + 1).last() == rows[i as int]);
        }
        match cancelled_row(world, i) {
            Emitted::Fail(m) => {
                proof {
                    assert(f(rows[i as int]) is Fail);
                    lemma_first_failure(rows, f, cancelled_message(*world), i as int);
                }
                return Err(m);
            },
            Emitted::Emit(sid, e) => {
                let ghost before = out@;
                out.push((sid, e));
                proof {
                    assert(entry_views(out@) =~= entry_views(before).push((sid, e.view())));
                }
            },
            Emitted::Skip => {},
        }
        proof {
            assert forall|j: int| 0 <= j < i + 1 implies !(#[trigger] f(rows.take(i + 1)[j]) is Fail) by {
                if j < i {
                    assert(rows.take(i + 1)[j] == rows.take(i as int)[j]);
                }
            }
        }
        i = i + 1;
    }
    proof {
        assert(world.turns_cancelled@.take(world.turns_cancelled@.len() as int) =~= world.turns_cancelled@);
    }
    Ok(())
}

fn interrupted_row(world: &World, i: usize) -> (r: Emitted)
    requires
        i < world.turns_interrupted@.len(),
    ensures
        r.view() == interrupted_event(*world)(world.turns_interrupted@[i as int]),
        r matches Emitted::Fail(m) ==> m@ == interrupted_message(*world)(world.turns_interrupted@[i as int]),
{
        let r = &world.turns_interrupted[i].1;
        match turn_context_exec(world, r.turn) {
            Some(c) => Emitted::Emit(c.0, Event::TurnInterrupted { turn: c.1, generation: r.generation, sequence: r.sequence.0 }),
            None => {
                let m = context_missing(world, r.turn);
                Emitted::Fail(m)
            },
        }
}

fn collect_interrupted(world: &World, out: &mut Vec<(SessionId, Event)>) -> (r: Result<(), String>)
    ensures
        r is Ok <==> !fails(world.turns_interrupted@, interrupted_event(*world)),
        r matches Err(m) ==> m@ == first_failure(world.turns_interrupted@, interrupted_event(*world), interrupted_message(*world)),
        r is Ok ==> entry_views(final(out)@) == entry_views(old(out)@) + emits(world.turns_interrupted@, interrupted_event(*world)),
{
    let ghost start = entry_views(out@);
    let ghost f = interrupted_event(*world);
    let mut i: usize = 0;
    while i < world.turns_interrupted.len()
        invariant
            f == interrupted_event(*world),
            i <= world.turns_interrupted@.len(),
            entry_views(out@) == start + emits(world.turns_interrupted@.take(i as int), f),
            !fails(world.turns_interrupted@.take(i as int), f),
        decreases world.turns_interrupted.len() - i,
    {
        let ghost rows = world.turns_interrupted@;
        proof {
            assert(rows.take(i + 1).drop_last() =~= rows.take(i as int));
            assert(rows.take(i + 1).last() == rows[i as int]);
        }
        match interrupted_row(world, i) {
            Emitted::Fail(m) => {
                proof {
                    assert(f(rows[i as int]) is Fail);
                    lemma_first_failure(rows, f, interrupted_message(*world), i as int);
                }
                return Err(m);
            },
            Emitted::Emit(sid, e) => {
                let ghost before = out@;
                out.push((sid, e));
                proof {
                    assert(entry_views(out@) =~= entry_views(before).push((sid, e.view())));
                }
            },
            Emitted::Skip => {},
        }
        proof {
            assert forall|j: int| 0 <= j < i + 1 implies !(#[trigger] f(rows.take(i + 1)[j]) is Fail) by {
                if j < i {
                    assert(rows.take(i + 1)[j] == rows.take(i as int)[j]);
                }
            }
        }
        i = i + 1;
    }
    proof {
        assert(world.turns_interrupted@.take(world.turns_interrupted@.len() as int) =~= world.turns_interrupted@);
    }
    Ok(())
}

fn failed_row(world: &World, i: usize) -> (r: Emitted)
    requires
        i < world.turns_failed@.len(),
    ensures
        r.view() == failed_event(*world)(world.turns_failed@[i as int]),
        r matches Emitted::Fail(m) ==> m@ == failed_message(*world)(world.turns_failed@[i as int]),
{
        let r = &world.turns_failed[i].1;
        match turn_context_exec(world, r.turn) {
            Some(c) => {
                let failure = match &r.failure {
                    TurnFailure::Provider(f) => StoredTurnFailure { kind: StoredTurnFailureKind::Provider, message: f.message.clone() },
                    TurnFailure::Tool(f) => StoredTurnFailure { kind: StoredTurnFailureKind::Tool, message: f.message.clone() },
                    TurnFailure::Recovery(f) => StoredTurnFailure { kind: StoredTurnFailureKind::Recovery, message: f.message.clone() },
                };
                Emitted::Emit(c.0, Event::TurnFailed { turn: c.1, generation: r.generation, failure, sequence: r.sequence.0 })
            },
            None => {
                let m = context_missing(world, r.turn);
                Emitted::Fail(m)
            },
        }
}

fn collect_failed(world: &World, out: &mut Vec<(SessionId, Event)>) -> (r: Result<(), String>)
    ensures
        r is Ok <==> !fails(world.turns_failed@, failed_event(*world)),
        r matches Err(m) ==> m@ == first_failure(world.turns_failed@, failed_event(*world), failed_message(*world)),
        r is Ok ==> entry_views(final(out)@) == entry_views(old(out)@) + emits(world.turns_failed@, failed_event(*world)),
{
    let ghost start = entry_views(out@);
    let ghost f = failed_event(*world);
    let mut i: usize = 0;
    while i < world.turns_failed.len()
        invariant
            f == failed_event(*world),
            i <= world.turns_failed@.len(),
            entry_views(out@) == start + emits(world.turns_failed@.take(i as int), f),
            !fails(world.turns_failed@.take(i as int), f),
        decreases world.turns_failed.len() - i,
    {
        let ghost rows = world.turns_failed@;
        proof {
            assert(rows.take(i + 1).drop_last() =~= rows.take(i as int));
            assert(rows.take(i + 1).last() == rows[i as int]);
        }
        match failed_row(world, i) {
            Emitted::Fail(m) => {
                proof {
                    assert(f(rows[i as int]) is Fail);
                    lemma_first_failure(rows, f, failed_message(*world), i as int);
                }
                return Err(m);
            },
            Emitted::Emit(sid, e) => {
                let ghost before = out@;
                out.push((sid, e));
                proof {
                    assert(entry_views(out@) =~= entry_views(before).push((sid, e.view())));
                }
            },
            Emitted::Skip => {},
        }
        proof {
            assert forall|j: int| 0 <= j < i + 1 implies !(#[trigger] f(rows.take(i + 1)[j]) is Fail) by {
                if j < i {
                    assert(rows.take(i + 1)[j] == rows.take(i as int)[j]);
                }
            }
        }
        i = i + 1;
    }
    proof {
        assert(world.turns_failed@.take(world.turns_failed@.len() as int) =~= world.turns_failed@);
    }
    Ok(())
}

fn branch_row(world: &World, i: usize) -> (r: Emitted)
    requires
        i < world.branch_selections@.len(),
    ensures
        r.view() == branch_event(*world)(world.branch_selections@[i as int]),
        r matches Emitted::Fail(m) ==> m@ == branch_message(*world)(world.branch_selections@[i as int]),
{
        let r = &world.branch_selections[i].1;
        match (session_id_exec(world, r.session), turn_id_exec(world, r.head)) {
            (Some(sid), Some(h)) => Emitted::Emit(sid, Event::BranchSelection { head: h, sequence: r.sequence.0 }),
            (None, _) => {
                let m = missing("Session", r.session);
                Emitted::Fail(m)
            },
            (_, None) => {
                let m = missing("Turn", r.head);
                Emitted::Fail(m)
            },
        }
}

fn collect_branch(world: &World, out: &mut Vec<(SessionId, Event)>) -> (r: Result<(), String>)
    ensures
        r is Ok <==> !fails(world.branch_selections@, branch_event(*world)),
        r matches Err(m) ==> m@ == first_failure(world.branch_selections@, branch_event(*world), branch_message(*world)),
        r is Ok ==> entry_views(final(out)@) == entry_views(old(out)@) + emits(world.branch_selections@, branch_event(*world)),
{
    let ghost start = entry_views(out@);
    let ghost f = branch_event(*world);
    let mut i: usize = 0;
    while i < world.branch_selections.len()
        invariant
            f == branch_event(*world),
            i <= world.branch_selections@.len(),
            entry_views(out@) == start + emits(world.branch_selections@.take(i as int), f),
            !fails(world.branch_selections@.take(i as int), f),
        decreases world.branch_selections.len() - i,
    {
        let ghost rows = world.branch_selections@;
        proof {
            assert(rows.take(i + 1).drop_last() =~= rows.take(i as int));
            assert(rows.take(i + 1).last() == rows[i as int]);
        }
        match branch_row(world, i) {
            Emitted::Fail(m) => {
                proof {
                    assert(f(rows[i as int]) is Fail);
                    lemma_first_failure(rows, f, branch_message(*world), i as int);
                }
                return Err(m);
            },
            Emitted::Emit(sid, e) => {
                let ghost before = out@;
                out.push((sid, e));
                proof {
                    assert(entry_views(out@) =~= entry_views(before).push((sid, e.view())));
                }
            },
            Emitted::Skip => {},
        }
        proof {
            assert forall|j: int| 0 <= j < i + 1 implies !(#[trigger] f(rows.take(i + 1)[j]) is Fail) by {
                if j < i {
                    assert(rows.take(i + 1)[j] == rows.take(i as int)[j]);
                }
            }
        }
        i = i + 1;
    }
    proof {
        assert(world.branch_selections@.take(world.branch_selections@.len() as int) =~= world.branch_selections@);
    }
    Ok(())
}

fn model_change_row(world: &World, i: usize) -> (r: Emitted)
    requires
        i < world.model_changes@.len(),
    ensures
        r.view() == model_change_event(*world)(world.model_changes@[i as int]),
        r matches Emitted::Fail(m) ==> m@ == model_change_message(*world)(world.model_changes@[i as int]),
{
        let r = &world.model_changes[i].1;
        match (turn_context_exec(world, r.turn), model_ref_exec(world, r.model)) {
            (Some(c), Some(m)) => Emitted::Emit(c.0, Event::ModelChange { turn: c.1, model_id: m.0, provider_id: m.1, sequence: r.sequence.0 }),
            (None, _) => {
                let m = context_missing(world, r.turn);
                Emitted::Fail(m)
            },
            (_, None) => {
                let m = missing("Model capability", r.model);
                Emitted::Fail(m)
            },
        }
}

fn collect_model_change(world: &World, out: &mut Vec<(SessionId, Event)>) -> (r: Result<(), String>)
    ensures
        r is Ok <==> !fails(world.model_changes@, model_change_event(*world)),
        r matches Err(m) ==> m@ == first_failure(world.model_changes@, model_change_event(*world), model_change_message(*world)),
        r is Ok ==> entry_views(final(out)@) == entry_views(old(out)@) + emits(world.model_changes@, model_change_event(*world)),
{
    let ghost start = entry_views(out@);
    let ghost f = model_change_event(*world);
    let mut i: usize = 0;
    while i < world.model_changes.len()
        invariant
            f == model_change_event(*world),
            i <= world.model_changes@.len(),
            entry_views(out@) == start + emits(world.model_changes@.take(i as int), f),
            !fails(world.model_changes@.take(i as int), f),
        decreases world.model_changes.len() - i,
    {
        let ghost rows = world.model_changes@;
        proof {
            assert(rows.take(i + 1).drop_last() =~= rows.take(i as int));
            assert(rows.take(i + 1).last() == rows[i as int]);
        }
        match model_change_row(world, i) {
            Emitted::Fail(m) => {
                proof {
                    assert(f(rows[i as int]) is Fail);
                    lemma_first_failure(rows, f, model_change_message(*world), i as int);
                }
                return Err(m);
            },
            Emitted::Emit(sid, e) => {
                let ghost before = out@;
                out.push((sid, e));
                proof {
                    assert(entry_views(out@) =~= entry_views(before).push((sid, e.view())));
                }
            },
            Emitted::Skip => {},
        }
        proof {
            assert forall|j: int| 0 <= j < i + 1 implies !(#[trigger] f(rows.take(i + 1)[j]) is Fail) by {
                if j < i {
                    assert(rows.take(i + 1)[j] == rows.take(i as int)[j]);
                }
            }
        }
        i = i + 1;
    }
    proof {
        assert(world.model_changes@.take(world.model_changes@.len() as int) =~= world.model_changes@);
    }
    Ok(())
}

fn compaction_row(world: &World, i: usize) -> (r: Emitted)
    requires
        i < world.compactions@.len(),
    ensures
        r.view() == compaction_event(*world)(world.compactions@[i as int]),
        r matches Emitted::Fail(m) ==> m@ == compaction_message(*world)(world.compactions@[i as int]),
{
        let r = &world.compactions[i].1;
        match turn_context_exec(world, r.turn) {
            Some(c) => Emitted::Emit(c.0, Event::Compaction { turn: c.1, summary: r.summary.clone(), sequence: r.sequence.0 }),
            None => {
                let m = context_missing(world, r.turn);
                Emitted::Fail(m)
            },
        }
}

fn collect_compaction(world: &World, out: &mut Vec<(SessionId, Event)>) -> (r: Result<(), String>)
    ensures
        r is Ok <==> !fails(world.compactions@, compaction_event(*world)),
        r matches Err(m) ==> m@ == first_failure(world.compactions@, compaction_event(*world), compaction_message(*world)),
        r is Ok ==> entry_views(final(out)@) == entry_views(old(out)@) + emits(world.compactions@, compaction_event(*world)),
{
    let ghost start = entry_views(out@);
    let ghost f = compaction_event(*world);
    let mut i: usize = 0;
    while i < world.compactions.len()
        invariant
            f == compaction_event(*world),
            i <= world.compactions@.len(),
            entry_views(out@) == start + emits(world.compactions@.take(i as int), f),
            !fails(world.compactions@.take(i as int), f),
        decreases world.compactions.len() - i,
    {
        let ghost rows = world.compactions@;
        proof {
            assert(rows.take(i + 1).drop_last() =~= rows.take(i as int));
            assert(rows.take(i + 1).last() == rows[i as int]);
        }
        match compaction_row(world, i) {
            Emitted::Fail(m) => {
                proof {
                    assert(f(rows[i as int]) is Fail);
                    lemma_first_failure(rows, f, compaction_message(*world), i as int);
                }
                return Err(m);
            },
            Emitted::Emit(sid, e) => {
                let ghost before = out@;
                out.push((sid, e));
                proof {
                    assert(entry_views(out@) =~= entry_views(before).push((sid, e.view())));
                }
            },
            Emitted::Skip => {},
        }
        proof {
            assert forall|j: int| 0 <= j < i + 1 implies !(#[trigger] f(rows.take(i + 1)[j]) is Fail) by {
                if j < i {
                    assert(rows.take(i + 1)[j] == rows.take(i as int)[j]);
                }
            }
        }
        i = i + 1;
    }
    proof {
        assert(world.compactions@.take(world.compactions@.len() as int) =~= world.compactions@);
    }
    Ok(())
}

fn recovery_row(world: &World, i: usize) -> (r: Emitted)
    requires
        i < world.recoveries@.len(),
    ensures
        r.view() == recovery_event(*world)(world.recoveries@[i as int]),
        r matches Emitted::Fail(m) ==> m@ == recovery_message(*world)(world.recoveries@[i as int]),
{
        let r = &world.recoveries[i].1;
        match turn_context_exec(world, r.turn) {
            Some(c) => Emitted::Emit(c.0, Event::Recovery { turn: c.1, text: r.text.clone(), sequence: r.sequence.0 }),
            None => {
                let m = context_missing(world, r.turn);
                Emitted::Fail(m)
            },
        }
}

fn collect_recovery(world: &World, out: &mut Vec<(SessionId, Event)>) -> (r: Result<(), String>)
    ensures
        r is Ok <==> !fails(world.recoveries@, recovery_event(*world)),
        r matches Err(m) ==> m@ == first_failure(world.recoveries@, recovery_event(*world), recovery_message(*world)),
        r is Ok ==> entry_views(final(out)@) == entry_views(old(out)@) + emits(world.recoveries@, recovery_event(*world)),
{
    let ghost start = entry_views(out@);
    let ghost f = recovery_event(*world);
    let mut i: usize = 0;
    while i < world.recoveries.len()
        invariant
            f == recovery_event(*world),
            i <= world.recoveries@.len(),
            entry_views(out@) == start + emits(world.recoveries@.take(i as int), f),
            !fails(world.recoveries@.take(i as int), f),
        decreases world.recoveries.len() - i,
    {
        let ghost rows = world.recoveries@;
        proof {
            assert(rows.take(i + 1).drop_last() =~= rows.take(i as int));
            assert(rows.take(i + 1).last() == rows[i as int]);
        }
        match recovery_row(world, i) {
            Emitted::Fail(m) => {
                proof {
                    assert(f(rows[i as int]) is Fail);
                    lemma_first_failure(rows, f, recovery_message(*world), i as int);
                }
                return Err(m);
            },
            Emitted::Emit(sid, e) => {
                let ghost before = out@;
                out.push((sid, e));
                proof {
                    assert(entry_views(out@) =~= entry_views(before).push((sid, e.view())));
                }
            },
            Emitted::Skip => {},
        }
        proof {
            assert forall|j: int| 0 <= j < i + 1 implies !(#[trigger] f(rows.take(i + 1)[j]) is Fail) by {
                if j < i {
                    assert(rows.take(i + 1)[j] == rows.take(i as int)[j]);
                }
            }
        }
        i = i + 1;
    }
    proof {
        assert(world.recoveries@.take(world.recoveries@.len() as int) =~= world.recoveries@);
    }
    Ok(())
}

/// Collects every event of the world, table by table; fails on the first row that references
/// something missing.
pub fn collect_raw(world: &World) -> (r: Result<Vec<(SessionId, Event)>, String>)
    ensures
        r is Ok <==> !collection_fails(*world),
        r matches Ok(v) ==> entry_views(v@) == raw_events(*world),
        r matches Err(m) ==> m@ == raw_message(*world),
{
    let ghost w = *world;
    proof {
        reveal(raw_events);
        reveal(collection_fails);
    }
    let mut out: Vec<(SessionId, Event)> = Vec::new();
    let ghost mut acc: Seq<(SessionId, EventView)> = Seq::empty();
    proof {
        assert(entry_views(out@) =~= acc);
    }
    match collect_session(world, &mut out) {
        Err(m) => {
            return Err(m);
        },
        Ok(()) => {},
    }
    proof {
        acc = acc + emits(w.sessions@, session_event(w));
    }
    match collect_camera(world, &mut out) {
        Err(m) => {
            return Err(m);
        },
        Ok(()) => {},
    }
    proof {
        acc = acc + emits(w.context_cameras@, camera_event(w));
    }
    match collect_turn(world, &mut out) {
        Err(m) => {
            return Err(m);
        },
        Ok(()) => {},
    }
    proof {
        acc = acc + emits(w.turns@, turn_event(w));
    }
    match collect_user_message(world, &mut out) {
        Err(m) => {
            return Err(m);
        },
        Ok(()) => {},
    }
    proof {
        acc = acc + emits(w.user_messages@, user_message_event(w));
    }
    match collect_assistant_message(world, &mut out) {
        Err(m) => {
            return Err(m);
        },
        Ok(()) => {},
    }
    proof {
        acc = acc + emits(w.assistant_messages@, assistant_message_event(w));
    }
    match collect_request(world, &mut out) {
        Err(m) => {
            return Err(m);
        },
        Ok(()) => {},
    }
    proof {
        acc = acc + emits(w.model_requests@, request_event(w));
    }
    match collect_response(world, &mut out) {
        Err(m) => {
            return Err(m);
        },
        Ok(()) => {},
    }
    proof {
        acc = acc + emits(w.model_responses@, response_event(w));
    }
    match collect_tool_use(world, &mut out) {
        Err(m) => {
            return Err(m);
        },
        Ok(()) => {},
    }
    proof {
        acc = acc + emits(w.tool_uses@, tool_use_event(w));
    }
    match collect_tool_outcome(world, &mut out) {
        Err(m) => {
            return Err(m);
        },
        Ok(()) => {},
    }
    proof {
        acc = acc + emits(w.tool_outcomes@, tool_outcome_event(w));
    }
    match collect_completed(world, &mut out) {
        Err(m) => {
            return Err(m);
        },
        Ok(()) => {},
    }
    proof {
        acc = acc + emits(w.turns_completed@, completed_event(w));
    }
    match collect_cancelled(world, &mut out) {
        Err(m) => {
            return Err(m);
        },
        Ok(()) => {},
    }
    proof {
        acc = acc + emits(w.turns_cancelled@, cancelled_event(w));
    }
    match collect_interrupted(world, &mut out) {
        Err(m) => {
            return Err(m);
        },
        Ok(()) => {},
    }
    proof {
        acc = acc + emits(w.turns_interrupted@, interrupted_event(w));
    }
    match collect_failed(world, &mut out) {
        Err(m) => {
            return Err(m);
        },
        Ok(()) => {},
    }
    proof {
        acc = acc + emits(w.turns_failed@, failed_event(w));
    }
    match collect_branch(world, &mut out) {
        Err(m) => {
            return Err(m);
        },
        Ok(()) => {},
    }
    proof {
        acc = acc + emits(w.branch_selections@, branch_event(w));
    }
    match collect_model_change(world, &mut out) {
        Err(m) => {
            return Err(m);
        },
        Ok(()) => {},
    }
    proof {
        acc = acc + emits(w.model_changes@, model_change_event(w));
    }
    match collect_compaction(world, &mut out) {
        Err(m) => {
            return Err(m);
        },
        Ok(()) => {},
    }
    proof {
        acc = acc + emits(w.compactions@, compaction_event(w));
    }
    match collect_recovery(world, &mut out) {
        Err(m) => {
            return Err(m);
        },
        Ok(()) => {},
    }
    proof {
        acc = acc + emits(w.recoveries@, recovery_event(w));
    }
    proof {
        assert(acc =~= raw_events(w));
    }
    Ok(out)
}

/// The key of an event in the collection: its SessionId, a colon, and its key within the
/// Session.
pub open spec fn full_key(sid: SessionId, e: EventView) -> Seq<char> {
    decimal(sid.0 as nat) + ":"@ + event_key(e)
}

/// A later event of this kind replaces an earlier one with the same key.
pub open spec fn overwritable(e: EventView) -> bool {
    e is Session || e is ContextCamera
}

/// The first entry with key `k`.
pub open spec fn key_index(entries: Seq<(Seq<char>, SessionId, EventView)>, k: Seq<char>) -> Option<int> {
    if exists|j: int| 0 <= j < entries.len() && entries[j].0 == k {
        Some(choose|j: int| 0 <= j < entries.len() && entries[j].0 == k && forall|i: int| 0 <= i < j ==> (#[trigger] entries[i]).0 != k)
    } else {
        None
    }
}

/// The keyed collection `m` after inserting event `e` of Session `sid`: a new key is appended;
/// a repeated key of a Session or context camera record replaces the earlier entry; any other
/// repeated key makes the collection fail.
pub open spec fn keyed_step(m: Seq<(Seq<char>, SessionId, EventView)>, sid: SessionId, e: EventView) -> Option<Seq<(Seq<char>, SessionId, EventView)>> {
    let k = full_key(sid, e);
    match key_index(m, k) {
        Some(j) => if overwritable(e) {
            Some(m.update(j, (k, sid, e)))
        } else {
            None
        },
        None => Some(m.push((k, sid, e))),
    }
}

/// The keyed collection of `raw`, its events inserted in order by [`keyed_step`].
pub open spec fn keyed(raw: Seq<(SessionId, EventView)>) -> Option<Seq<(Seq<char>, SessionId, EventView)>>
    decreases raw.len(),
{
    if raw.len() == 0 {
        Some(Seq::empty())
    } else {
        match keyed(raw.drop_last()) {
            None => None,
            Some(m) => keyed_step(m, raw.last().0, raw.last().1),
        }
    }
}

/// Two Session records carry the same SessionId.
pub open spec fn duplicate_session_ids(raw: Seq<(SessionId, EventView)>) -> bool {
    exists|i: int, j: int|
        0 <= i < j < raw.len() && (#[trigger] raw[i]).1 is Session && (#[trigger] raw[j]).1 is Session && raw[i].0 == raw[j].0
}

/// One collected event with its key.
#[derive(Debug)]
pub struct EventEntry {
    pub key: String,
    pub session: SessionId,
    pub event: Event,
}

/// The view of keyed entries.
pub open spec fn keyed_views(s: Seq<EventEntry>) -> Seq<(Seq<char>, SessionId, EventView)> {
    s.map_values(|x: EventEntry| (x.key@, x.session, x.event.view()))
}

fn find_key(entries: &Vec<EventEntry>, k: &String) -> (r: Option<usize>)
    ensures
        key_index(keyed_views(entries@), k@) == match r {
            Some(j) => Some(j as int),
            None => None::<int>,
        },
        r matches Some(j) ==> j < entries@.len(),
{
    let ghost m = keyed_views(entries@);
    let mut i: usize = 0;
    while i < entries.len()
        invariant
            m == keyed_views(entries@),
            i <= entries@.len(),
            forall|j: int| 0 <= j < i ==> (#[trigger] m[j]).0 != k@,
        decreases entries.len() - i,
    {
        if str_eq(entries[i].key.as_str(), k.as_str()) {
            proof {
                assert(m[i as int].0 == k@);
                let c = choose|j: int| 0 <= j < m.len() && m[j].0 == k@ && forall|x: int| 0 <= x < j ==> (#[trigger] m[x]).0 != k@;
                if c < i {
                    assert(m[c].0 != k@);
                } else if i < c {
                    assert(m[i as int].0 != k@);
                }
            }
            return Some(i);
        }
        i = i + 1;
    }
    None
}

/// Collects the world's events under their keys; see [`keyed`]. Fails when a row references
/// something missing, when two Sessions share a SessionId, or when two events other than Session
/// and context camera records share a key.
#[verifier::rlimit(100)]
#[verifier::spinoff_prover]
pub fn collect_events(world: &World) -> (r: Result<Vec<EventEntry>, String>)
    ensures
        r is Ok <==> !collection_fails(*world) && !duplicate_session_ids(raw_events(*world)) && keyed(raw_events(*world)) is Some,
        r matches Ok(v) ==> keyed_views(v@) == keyed(raw_events(*world)).unwrap(),
        r matches Err(m) ==> (collection_fails(*world) ==> m@ == raw_message(*world)),
        r matches Err(m) ==> (!collection_fails(*world) ==> Some(m@) == first_step_error(raw_events(*world), raw_events(*world).len() as int)),
{
    let raw = match collect_raw(world) {
        Err(m) => {
            return Err(m);
        },
        Ok(v) => v,
    };
    let ghost rv = entry_views(raw@);
    let mut ids: Vec<u64> = Vec::new();
    let mut entries: Vec<EventEntry> = Vec::new();
    let mut i: usize = 0;
    while i < raw.len()
        invariant
            rv == entry_views(raw@),
            rv == raw_events(*world),
            !collection_fails(*world),
            i <= raw@.len(),
            keyed(rv.take(i as int)) == Some(keyed_views(entries@)),
            !duplicate_session_ids(rv.take(i as int)),
            forall|x: u64| #[trigger] ids@.contains(x) <==> session_id_before(rv, i as int, x),
            first_step_error(rv, i as int) is None,
        decreases raw.len() - i,
    {
        let sid = raw[i].0;
        let event = raw[i].1.copy();
        proof {
            assert(rv[i as int] == (sid, event.view()));
            assert(rv.take(i + 1).drop_last() =~= rv.take(i as int));
            assert(rv.take(i + 1).last() == rv[i as int]);
        }
        let is_session = match &event {
            Event::Session { .. } => true,
            _ => false,
        };
        let ghost ids0 = ids@;
        if is_session {
            if contains_id(&ids, sid.0) {
                proof {
                    lemma_session_duplicate(rv, i as int);
                }
                let m = with_decimal("duplicate SessionId ", sid.0);
                proof {
                    assert(ids@.contains(sid.0));
                    assert(step_error(rv, i as int) == Some(m@));
                    assert(first_step_error(rv, i + 1) == Some(m@));
                    lemma_first_step_error_stays(rv, i + 1, rv.len() as int);
                }
                return Err(m);
            }
            ids.push(sid.0);
        }
        let mut key = with_decimal("duplicate persisted event key ", sid.0);
        key.append(":");
        let ek = event.key();
        key.append(ek.as_str());
        let ghost ev = event.view();
        if !insert_entry(&mut entries, sid, event) {
            proof {
                lemma_keyed_extends(rv, i as int + 1, rv.len() as int);
                assert(rv.take(rv.len() as int) =~= rv);
                assert(key@ =~= "duplicate persisted event key "@ + full_key(sid, ev));
                if is_session {
                    assert(!session_id_before(rv, i as int, rv[i as int].0.0));
                }
                assert(step_error(rv, i as int) == Some(key@));
                assert(first_step_error(rv, i + 1) == Some(key@));
                lemma_first_step_error_stays(rv, i + 1, rv.len() as int);
            }
            return Err(key);
        }
        proof {
            assert forall|x: u64| #[trigger] ids@.contains(x) <==> session_id_before(rv, i as int, x) || (is_session && x == rv[i as int].0.0) by {
                if ids@.contains(x) {
                    let j = choose|j: int| 0 <= j < ids@.len() && ids@[j] == x;
                    if j < ids0.len() {
                        assert(ids0[j] == x);
                        assert(ids0.contains(x));
                    }
                }
                if ids0.contains(x) {
                    let j = choose|j: int| 0 <= j < ids0.len() && ids0[j] == x;
                    assert(ids@[j] == x);
                }
                if is_session && x == rv[i as int].0.0 {
                    assert(ids@[ids0.len() as int] == x);
                }
            }
            lemma_session_ids_step(rv, i as int, ids@, is_session);
            if is_session {
                assert(!session_id_before(rv, i as int, rv[i as int].0.0));
            }
            assert(step_error(rv, i as int) is None);
            assert(first_step_error(rv, i + 1) is None);
        }
        i = i + 1;
    }
    proof {
        assert(rv.take(rv.len() as int) =~= rv);
    }
    Ok(entries)
}

/// Why event `i` of `raw` cannot be keyed after the events before it: a Session record whose
/// SessionId an earlier Session record has, or a key that an earlier event has and that the event
/// cannot replace.
pub open spec fn step_error(raw: Seq<(SessionId, EventView)>, i: int) -> Option<Seq<char>> {
    if raw[i].1 is Session && session_id_before(raw, i, raw[i].0.0) {
        Some("duplicate SessionId "@ + decimal(raw[i].0.0 as nat))
    } else if keyed_step(keyed(raw.take(i)).unwrap(), raw[i].0, raw[i].1) is None {
        Some("duplicate persisted event key "@ + full_key(raw[i].0, raw[i].1))
    } else {
        None
    }
}

/// The message of the first of the first `n` events of `raw` that cannot be keyed, if any.
pub open spec fn first_step_error(raw: Seq<(SessionId, EventView)>, n: int) -> Option<Seq<char>>
    decreases n,
{
    if n <= 0 {
        None
    } else {
        match first_step_error(raw, n - 1) {
            Some(m) => Some(m),
            None => step_error(raw, n - 1),
        }
    }
}

proof fn lemma_first_step_error_stays(raw: Seq<(SessionId, EventView)>, i: int, n: int)
    requires
        0 <= i <= n,
        first_step_error(raw, i) is Some,
    ensures
        first_step_error(raw, n) == first_step_error(raw, i),
    decreases n - i,
{
    if i < n {
        lemma_first_step_error_stays(raw, i, n - 1);
    }
}

/// A Session record among the first `i` events carries SessionId `x`.
pub open spec fn session_id_before(rv: Seq<(SessionId, EventView)>, i: int, x: u64) -> bool {
    exists|j: int| 0 <= j < i && (#[trigger] rv[j]).1 is Session && rv[j].0.0 == x
}

proof fn lemma_session_duplicate(rv: Seq<(SessionId, EventView)>, i: int)
    requires
        0 <= i < rv.len(),
        rv[i].1 is Session,
        session_id_before(rv, i, rv[i].0.0),
    ensures
        duplicate_session_ids(rv),
{
    let a = choose|a: int| 0 <= a < i && (#[trigger] rv[a]).1 is Session && rv[a].0.0 == rv[i].0.0;
    assert(rv[a].0 == rv[i].0);
}

proof fn lemma_session_ids_step(rv: Seq<(SessionId, EventView)>, i: int, ids: Seq<u64>, is_session: bool)
    requires
        0 <= i < rv.len(),
        is_session == rv[i].1 is Session,
        is_session ==> !session_id_before(rv, i, rv[i].0.0),
        !duplicate_session_ids(rv.take(i)),
        forall|x: u64| #[trigger] ids.contains(x) <==> session_id_before(rv, i, x) || (is_session && x == rv[i].0.0),
    ensures
        !duplicate_session_ids(rv.take(i + 1)),
        forall|x: u64| #[trigger] ids.contains(x) <==> session_id_before(rv, i + 1, x),
{
    assert forall|x: u64| #[trigger] ids.contains(x) <==> session_id_before(rv, i + 1, x) by {
        if session_id_before(rv, i + 1, x) {
            let j = choose|j: int| 0 <= j < i + 1 && (#[trigger] rv[j]).1 is Session && rv[j].0.0 == x;
            if j < i {
                assert(session_id_before(rv, i, x));
            }
        }
        if session_id_before(rv, i, x) {
            let j = choose|j: int| 0 <= j < i && (#[trigger] rv[j]).1 is Session && rv[j].0.0 == x;
            assert(0 <= j < i + 1);
        }
        if is_session && x == rv[i].0.0 {
            assert(rv[i].1 is Session);
        }
    }
    let t = rv.take(i + 1);
    if duplicate_session_ids(t) {
        let (a, b) = choose|a: int, b: int| 0 <= a < b < t.len() && (#[trigger] t[a]).1 is Session && (#[trigger] t[b]).1 is Session && t[a].0 == t[b].0;
        if b < i {
            assert(rv.take(i)[a] == t[a]);
            assert(rv.take(i)[b] == t[b]);
        } else {
            assert(t[a] == rv[a]);
            assert(t[b] == rv[i]);
            assert(session_id_before(rv, i, rv[i].0.0));
        }
    }
}

fn insert_entry(entries: &mut Vec<EventEntry>, sid: SessionId, event: Event) -> (ok: bool)
    ensures
        ok <==> keyed_step(keyed_views(old(entries)@), sid, event.view()) is Some,
        ok ==> keyed_step(keyed_views(old(entries)@), sid, event.view()) == Some(keyed_views(final(entries)@)),
{
    let ghost ev = event.view();
    let mut key = with_decimal("", sid.0);
    key.append(":");
    let ek = event.key();
    key.append(ek.as_str());
    proof {
        reveal_strlit("");
        reveal_strlit(":");
        assert(key@ == full_key(sid, ev));
    }
    match find_key(entries, &key) {
        Some(j) => {
            let keep = match &event {
                Event::Session { .. } => true,
                Event::ContextCamera { .. } => true,
                _ => false,
            };
            if !keep {
                return false;
            }
            let ghost before = entries@;
            entries.remove(j);
            entries.insert(j, EventEntry { key, session: sid, event });
            proof {
                assert(keyed_views(entries@) =~= keyed_views(before).update(j as int, (full_key(sid, ev), sid, ev)));
            }
        },
        None => {
            let ghost before = entries@;
            entries.push(EventEntry { key, session: sid, event });
            proof {
                assert(keyed_views(entries@) =~= keyed_views(before).push((full_key(sid, ev), sid, ev)));
            }
        },
    }
    true
}

fn contains_id(v: &Vec<u64>, x: u64) -> (b: bool)
    ensures
        b == v@.contains(x),
{
    let mut j: usize = 0;
    while j < v.len()
        invariant
            j <= v@.len(),
            forall|k: int| 0 <= k < j ==> v@[k] != x,
        decreases v.len() - j,
    {
        if v[j] == x {
            assert(v@[j as int] == x);
            return true;
        }
        j = j + 1;
    }
    false
}

/// Once the keyed collection of a prefix fails, so does that of every longer prefix.
proof fn lemma_keyed_extends(rv: Seq<(SessionId, EventView)>, i: int, n: int)
    requires
        0 <= i <= n <= rv.len(),
        keyed(rv.take(i)) is None,
    ensures
        keyed(rv.take(n)) is None,
    decreases n - i,
{
    if i < n {
        assert(rv.take(i + 1).drop_last() =~= rv.take(i));
        lemma_keyed_extends(rv, i + 1, n);
    }
}

} // verus!
