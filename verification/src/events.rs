//! The persisted event log: one record per line, each holding one event of a Session.
use vstd::prelude::*;

use crate::text::{decimal, str_eq, with_decimal};
use crate::world::{ModelApi, ModelStopReason, WorkStatus};

verus! {

/// The record schema this library writes and reads.
pub const SCHEMA_VERSION: u32 = 1;

/// Which kind of failure a failed Turn records.
#[derive(Debug, Clone, Copy, PartialEq, Eq, Structural)]
pub enum StoredTurnFailureKind {
    Provider,
    Tool,
    Recovery,
}

/// A persisted Turn failure.
#[derive(Debug)]
pub struct StoredTurnFailure {
    pub kind: StoredTurnFailureKind,
    pub message: String,
}

/// One persisted fact of a Session, with entity references replaced by stable IDs.
#[derive(Debug)]
pub enum Event {
    Session { id: u64, active_head: Option<u64> },
    ContextCamera { budget: usize },
    Turn { id: u64, parent: Option<u64>, sequence: u64, generation: u64 },
    UserMessage { id: u64, turn: u64, sequence: u64, text: String },
    AssistantMessage { id: u64, turn: u64, sequence: u64, text: String },
    ModelRequest {
        id: u64,
        turn: u64,
        model_id: String,
        provider_id: u64,
        generation: u64,
        previous_tool_use: Option<u64>,
        status: WorkStatus,
        sequence: u64,
    },
    ModelResponse {
        request: u64,
        turn: u64,
        model_id: String,
        provider_id: u64,
        generation: u64,
        response_id: String,
        api: ModelApi,
        input_tokens: u32,
        output_tokens: u32,
        stop_reason: ModelStopReason,
        opaque_replay: String,
        sequence: u64,
    },
    ToolUse {
        id: u64,
        turn: u64,
        tool_id: u64,
        model_id: String,
        provider_id: u64,
        generation: u64,
        input: String,
        status: WorkStatus,
        sequence: u64,
    },
    ToolOutcome { tool_use: u64, tool_call_id: u64, turn: u64, generation: u64, output: String, sequence: u64 },
    TurnCompleted { turn: u64, generation: u64, sequence: u64 },
    TurnCancelled { turn: u64, generation: u64, sequence: u64 },
    TurnInterrupted { turn: u64, generation: u64, sequence: u64 },
    TurnFailed { turn: u64, generation: u64, failure: StoredTurnFailure, sequence: u64 },
    BranchSelection { head: u64, sequence: u64 },
    ModelChange { turn: u64, model_id: String, provider_id: u64, sequence: u64 },
    Compaction { turn: u64, summary: String, sequence: u64 },
    Recovery { turn: u64, text: String, sequence: u64 },
}

/// One line of a Session's log.
#[derive(Debug)]
pub struct Record {
    pub schema: u32,
    pub ordinal: u64,
    pub event: Event,
}

/// The abstract value of an event: its texts as character sequences.
pub enum EventView {
    Session { id: u64, active_head: Option<u64> },
    ContextCamera { budget: usize },
    Turn { id: u64, parent: Option<u64>, sequence: u64, generation: u64 },
    UserMessage { id: u64, turn: u64, sequence: u64, text: Seq<char> },
    AssistantMessage { id: u64, turn: u64, sequence: u64, text: Seq<char> },
    ModelRequest {
        id: u64,
        turn: u64,
        model_id: Seq<char>,
        provider_id: u64,
        generation: u64,
        previous_tool_use: Option<u64>,
        status: WorkStatus,
        sequence: u64,
    },
    ModelResponse {
        request: u64,
        turn: u64,
        model_id: Seq<char>,
        provider_id: u64,
        generation: u64,
        response_id: Seq<char>,
        api: ModelApi,
        input_tokens: u32,
        output_tokens: u32,
        stop_reason: ModelStopReason,
        opaque_replay: Seq<char>,
        sequence: u64,
    },
    ToolUse {
        id: u64,
        turn: u64,
        tool_id: u64,
        model_id: Seq<char>,
        provider_id: u64,
        generation: u64,
        input: Seq<char>,
        status: WorkStatus,
        sequence: u64,
    },
    ToolOutcome { tool_use: u64, tool_call_id: u64, turn: u64, generation: u64, output: Seq<char>, sequence: u64 },
    TurnCompleted { turn: u64, generation: u64, sequence: u64 },
    TurnCancelled { turn: u64, generation: u64, sequence: u64 },
    TurnInterrupted { turn: u64, generation: u64, sequence: u64 },
    TurnFailed { turn: u64, generation: u64, kind: StoredTurnFailureKind, message: Seq<char>, sequence: u64 },
    BranchSelection { head: u64, sequence: u64 },
    ModelChange { turn: u64, model_id: Seq<char>, provider_id: u64, sequence: u64 },
    Compaction { turn: u64, summary: Seq<char>, sequence: u64 },
    Recovery { turn: u64, text: Seq<char>, sequence: u64 },
}

impl Event {
    pub open spec fn view(&self) -> EventView {
        match self {
            Event::Session { id, active_head } => EventView::Session { id: *id, active_head: *active_head },
            Event::ContextCamera { budget } => EventView::ContextCamera { budget: *budget },
            Event::Turn { id, parent, sequence, generation } => EventView::Turn {
                id: *id,
                parent: *parent,
                sequence: *sequence,
                generation: *generation,
            },
            Event::UserMessage { id, turn, sequence, text } => EventView::UserMessage {
                id: *id,
                turn: *turn,
                sequence: *sequence,
                text: text@,
            },
            Event::AssistantMessage { id, turn, sequence, text } => EventView::AssistantMessage {
                id: *id,
                turn: *turn,
                sequence: *sequence,
                text: text@,
            },
            Event::ModelRequest { id, turn, model_id, provider_id, generation, previous_tool_use, status, sequence } =>
                EventView::ModelRequest {
                id: *id,
                turn: *turn,
                model_id: model_id@,
                provider_id: *provider_id,
                generation: *generation,
                previous_tool_use: *previous_tool_use,
                status: *status,
                sequence: *sequence,
            },
            Event::ModelResponse {
                request,
                turn,
                model_id,
                provider_id,
                generation,
                response_id,
                api,
                input_tokens,
                output_tokens,
                stop_reason,
                opaque_replay,
                sequence,
            } => EventView::ModelResponse {
                request: *request,
                turn: *turn,
                model_id: model_id@,
                provider_id: *provider_id,
                generation: *generation,
                response_id: response_id@,
                api: *api,
                input_tokens: *input_tokens,
                output_tokens: *output_tokens,
                stop_reason: *stop_reason,
                opaque_replay: opaque_replay@,
                sequence: *sequence,
            },
            Event::ToolUse { id, turn, tool_id, model_id, provider_id, generation, input, status, sequence } =>
                EventView::ToolUse {
                id: *id,
                turn: *turn,
                tool_id: *tool_id,
                model_id: model_id@,
                provider_id: *provider_id,
                generation: *generation,
                input: input@,
                status: *status,
                sequence: *sequence,
            },
            Event::ToolOutcome { tool_use, tool_call_id, turn, generation, output, sequence } =>
                EventView::ToolOutcome {
                tool_use: *tool_use,
                tool_call_id: *tool_call_id,
                turn: *turn,
                generation: *generation,
                output: output@,
                sequence: *sequence,
            },
            Event::TurnCompleted { turn, generation, sequence } => EventView::TurnCompleted {
                turn: *turn,
                generation: *generation,
                sequence: *sequence,
            },
            Event::TurnCancelled { turn, generation, sequence } => EventView::TurnCancelled {
                turn: *turn,
                generation: *generation,
                sequence: *sequence,
            },
            Event::TurnInterrupted { turn, generation, sequence } => EventView::TurnInterrupted {
                turn: *turn,
                generation: *generation,
                sequence: *sequence,
            },
            Event::TurnFailed { turn, generation, failure, sequence } => EventView::TurnFailed {
                turn: *turn,
                generation: *generation,
                kind: failure.kind,
                message: failure.message@,
                sequence: *sequence,
            },
            Event::BranchSelection { head, sequence } => EventView::BranchSelection { head: *head, sequence: *sequence },
            Event::ModelChange { turn, model_id, provider_id, sequence } => EventView::ModelChange {
                turn: *turn,
                model_id: model_id@,
                provider_id: *provider_id,
                sequence: *sequence,
            },
            Event::Compaction { turn, summary, sequence } => EventView::Compaction {
                turn: *turn,
                summary: summary@,
                sequence: *sequence,
            },
            Event::Recovery { turn, text, sequence } => EventView::Recovery {
                turn: *turn,
                text: text@,
                sequence: *sequence,
            },
        }
    }
}

/// The identity of an event within its Session: one Session and one context camera record per
/// Session, one record per Turn, message, request, ToolUse, and Turn outcome by ID, one per
/// response by response ID, and one per branch selection, model change, compaction, and
/// recovery note by sequence number.
pub open spec fn event_key(e: EventView) -> Seq<char> {
    match e {
        EventView::Session { .. } => "session"@,
        EventView::ContextCamera { .. } => "context-camera"@,
        EventView::Turn { id, .. } => "turn:"@ + decimal(id as nat),
        EventView::UserMessage { id, .. } => "user-message:"@ + decimal(id as nat),
        EventView::AssistantMessage { id, .. } => "assistant-message:"@ + decimal(id as nat),
        EventView::ModelRequest { id, .. } => "model-request:"@ + decimal(id as nat),
        EventView::ModelResponse { response_id, .. } => "model-response:"@ + response_id,
        EventView::ToolUse { id, .. } => "tool-use:"@ + decimal(id as nat),
        EventView::ToolOutcome { tool_call_id, .. } => "tool-outcome:"@ + decimal(tool_call_id as nat),
        EventView::TurnCompleted { turn, .. } => "turn-completed:"@ + decimal(turn as nat),
        EventView::TurnCancelled { turn, .. } => "turn-cancelled:"@ + decimal(turn as nat),
        EventView::TurnInterrupted { turn, .. } => "turn-interrupted:"@ + decimal(turn as nat),
        EventView::TurnFailed { turn, .. } => "turn-failed:"@ + decimal(turn as nat),
        EventView::BranchSelection { sequence, .. } => "branch-selection:"@ + decimal(sequence as nat),
        EventView::ModelChange { sequence, .. } => "model-change:"@ + decimal(sequence as nat),
        EventView::Compaction { sequence, .. } => "compaction:"@ + decimal(sequence as nat),
        EventView::Recovery { sequence, .. } => "recovery:"@ + decimal(sequence as nat),
    }
}

/// The sequence number of an event; Session and context camera records have none.
pub open spec fn event_sequence(e: EventView) -> Option<u64> {
    match e {
        EventView::Session { .. } => None,
        EventView::ContextCamera { .. } => None,
        EventView::Turn { sequence, .. } => Some(sequence),
        EventView::UserMessage { sequence, .. } => Some(sequence),
        EventView::AssistantMessage { sequence, .. } => Some(sequence),
        EventView::ModelRequest { sequence, .. } => Some(sequence),
        EventView::ModelResponse { sequence, .. } => Some(sequence),
        EventView::ToolUse { sequence, .. } => Some(sequence),
        EventView::ToolOutcome { sequence, .. } => Some(sequence),
        EventView::TurnCompleted { sequence, .. } => Some(sequence),
        EventView::TurnCancelled { sequence, .. } => Some(sequence),
        EventView::TurnInterrupted { sequence, .. } => Some(sequence),
        EventView::TurnFailed { sequence, .. } => Some(sequence),
        EventView::BranchSelection { sequence, .. } => Some(sequence),
        EventView::ModelChange { sequence, .. } => Some(sequence),
        EventView::Compaction { sequence, .. } => Some(sequence),
        EventView::Recovery { sequence, .. } => Some(sequence),
    }
}

impl Event {
    /// The event's identity within its Session; see [`event_key`].
    pub fn key(&self) -> (k: String)
        ensures
            k@ == event_key(self.view()),
    {
        proof {
            reveal_strlit("session");
            reveal_strlit("context-camera");
            reveal_strlit("model-response:");
        }
        match self {
            Event::Session { .. } => String::from_str("session"),
            Event::ContextCamera { .. } => String::from_str("context-camera"),
            Event::Turn { id, .. } => with_decimal("turn:", *id),
            Event::UserMessage { id, .. } => with_decimal("user-message:", *id),
            Event::AssistantMessage { id, .. } => with_decimal("assistant-message:", *id),
            Event::ModelRequest { id, .. } => with_decimal("model-request:", *id),
            Event::ModelResponse { response_id, .. } => crate::text::concat("model-response:", response_id.as_str()),
            Event::ToolUse { id, .. } => with_decimal("tool-use:", *id),
            Event::ToolOutcome { tool_call_id, .. } => with_decimal("tool-outcome:", *tool_call_id),
            Event::TurnCompleted { turn, .. } => with_decimal("turn-completed:", *turn),
            Event::TurnCancelled { turn, .. } => with_decimal("turn-cancelled:", *turn),
            Event::TurnInterrupted { turn, .. } => with_decimal("turn-interrupted:", *turn),
            Event::TurnFailed { turn, .. } => with_decimal("turn-failed:", *turn),
            Event::BranchSelection { sequence, .. } => with_decimal("branch-selection:", *sequence),
            Event::ModelChange { sequence, .. } => with_decimal("model-change:", *sequence),
            Event::Compaction { sequence, .. } => with_decimal("compaction:", *sequence),
            Event::Recovery { sequence, .. } => with_decimal("recovery:", *sequence),
        }
    }

    /// The event's sequence number; see [`event_sequence`].
    pub fn sequence(&self) -> (s: Option<u64>)
        ensures
            s == event_sequence(self.view()),
    {
        match self {
            Event::Session { .. } => None,
            Event::ContextCamera { .. } => None,
            Event::Turn { sequence, .. } => Some(*sequence),
            Event::UserMessage { sequence, .. } => Some(*sequence),
            Event::AssistantMessage { sequence, .. } => Some(*sequence),
            Event::ModelRequest { sequence, .. } => Some(*sequence),
            Event::ModelResponse { sequence, .. } => Some(*sequence),
            Event::ToolUse { sequence, .. } => Some(*sequence),
            Event::ToolOutcome { sequence, .. } => Some(*sequence),
            Event::TurnCompleted { sequence, .. } => Some(*sequence),
            Event::TurnCancelled { sequence, .. } => Some(*sequence),
            Event::TurnInterrupted { sequence, .. } => Some(*sequence),
            Event::TurnFailed { sequence, .. } => Some(*sequence),
            Event::BranchSelection { sequence, .. } => Some(*sequence),
            Event::ModelChange { sequence, .. } => Some(*sequence),
            Event::Compaction { sequence, .. } => Some(*sequence),
            Event::Recovery { sequence, .. } => Some(*sequence),
        }
    }
}

impl Event {
    /// Reports whether two events have the same value.
    pub fn same_as(&self, other: &Event) -> (b: bool)
        ensures
            b == (self.view() == other.view()),
    {
        match (self, other) {
            (Event::Session { id: a0, active_head: a1 }, Event::Session { id: b0, active_head: b1 }) => *a0 == *b0 && *a1 == *b1,
            (Event::ContextCamera { budget: a0 }, Event::ContextCamera { budget: b0 }) => *a0 == *b0,
            (
                Event::Turn { id: a0, parent: a1, sequence: a2, generation: a3 },
                Event::Turn { id: b0, parent: b1, sequence: b2, generation: b3 },
            ) => *a0 == *b0 && *a1 == *b1 && *a2 == *b2 && *a3 == *b3,
            (
                Event::UserMessage { id: a0, turn: a1, sequence: a2, text: a3 },
                Event::UserMessage { id: b0, turn: b1, sequence: b2, text: b3 },
            ) => *a0 == *b0 && *a1 == *b1 && *a2 == *b2 && str_eq(a3.as_str(), b3.as_str()),
            (
                Event::AssistantMessage { id: a0, turn: a1, sequence: a2, text: a3 },
                Event::AssistantMessage { id: b0, turn: b1, sequence: b2, text: b3 },
            ) => *a0 == *b0 && *a1 == *b1 && *a2 == *b2 && str_eq(a3.as_str(), b3.as_str()),
            (
                Event::ModelRequest {
                    id: a0,
                    turn: a1,
                    model_id: a2,
                    provider_id: a3,
                    generation: a4,
                    previous_tool_use: a5,
                    status: a6,
                    sequence: a7,
                },
                Event::ModelRequest {
                    id: b0,
                    turn: b1,
                    model_id: b2,
                    provider_id: b3,
                    generation: b4,
                    previous_tool_use: b5,
                    status: b6,
                    sequence: b7,
                },
            ) => *a0 == *b0 && *a1 == *b1 && str_eq(a2.as_str(), b2.as_str()) && *a3 == *b3 && *a4 == *b4 && *a5 == *b5
                && *a6 == *b6 && *a7 == *b7,
            (
                Event::ModelResponse {
                    request: a0,
                    turn: a1,
                    model_id: a2,
                    provider_id: a3,
                    generation: a4,
                    response_id: a5,
                    api: a6,
                    input_tokens: a7,
                    output_tokens: a8,
                    stop_reason: a9,
                    opaque_replay: a10,
                    sequence: a11,
                },
                Event::ModelResponse {
                    request: b0,
                    turn: b1,
                    model_id: b2,
                    provider_id: b3,
                    generation: b4,
                    response_id: b5,
                    api: b6,
                    input_tokens: b7,
                    output_tokens: b8,
                    stop_reason: b9,
                    opaque_replay: b10,
                    sequence: b11,
                },
            ) => *a0 == *b0 && *a1 == *b1 && str_eq(a2.as_str(), b2.as_str()) && *a3 == *b3 && *a4 == *b4 && str_eq(
                a5.as_str(),
                b5.as_str(),
            ) && *a6 == *b6 && *a7 == *b7 && *a8 == *b8 && *a9 == *b9 && str_eq(a10.as_str(), b10.as_str()) && *a11 == *b11,
            (
                Event::ToolUse {
                    id: a0,
                    turn: a1,
                    tool_id: a2,
                    model_id: a3,
                    provider_id: a4,
                    generation: a5,
                    input: a6,
                    status: a7,
                    sequence: a8,
                },
                Event::ToolUse {
                    id: b0,
                    turn: b1,
                    tool_id: b2,
                    model_id: b3,
                    provider_id: b4,
                    generation: b5,
                    input: b6,
                    status: b7,
                    sequence: b8,
                },
            ) => *a0 == *b0 && *a1 == *b1 && *a2 == *b2 && str_eq(a3.as_str(), b3.as_str()) && *a4 == *b4 && *a5 == *b5
                && str_eq(a6.as_str(), b6.as_str()) && *a7 == *b7 && *a8 == *b8,
            (
                Event::ToolOutcome { tool_use: a0, tool_call_id: a1, turn: a2, generation: a3, output: a4, sequence: a5 },
                Event::ToolOutcome { tool_use: b0, tool_call_id: b1, turn: b2, generation: b3, output: b4, sequence: b5 },
            ) => *a0 == *b0 && *a1 == *b1 && *a2 == *b2 && *a3 == *b3 && str_eq(a4.as_str(), b4.as_str()) && *a5 == *b5,
            (
                Event::TurnCompleted { turn: a0, generation: a1, sequence: a2 },
                Event::TurnCompleted { turn: b0, generation: b1, sequence: b2 },
            ) => *a0 == *b0 && *a1 == *b1 && *a2 == *b2,
            (
                Event::TurnCancelled { turn: a0, generation: a1, sequence: a2 },
                Event::TurnCancelled { turn: b0, generation: b1, sequence: b2 },
            ) => *a0 == *b0 && *a1 == *b1 && *a2 == *b2,
            (
                Event::TurnInterrupted { turn: a0, generation: a1, sequence: a2 },
                Event::TurnInterrupted { turn: b0, generation: b1, sequence: b2 },
            ) => *a0 == *b0 && *a1 == *b1 && *a2 == *b2,
            (
                Event::TurnFailed { turn: a0, generation: a1, failure: a2, sequence: a3 },
                Event::TurnFailed { turn: b0, generation: b1, failure: b2, sequence: b3 },
            ) => *a0 == *b0 && *a1 == *b1 && a2.kind == b2.kind && str_eq(a2.message.as_str(), b2.message.as_str()) && *a3 == *b3,
            (Event::BranchSelection { head: a0, sequence: a1 }, Event::BranchSelection { head: b0, sequence: b1 }) =>
                *a0 == *b0 && *a1 == *b1,
            (
                Event::ModelChange { turn: a0, model_id: a1, provider_id: a2, sequence: a3 },
                Event::ModelChange { turn: b0, model_id: b1, provider_id: b2, sequence: b3 },
            ) => *a0 == *b0 && str_eq(a1.as_str(), b1.as_str()) && *a2 == *b2 && *a3 == *b3,
            (
                Event::Compaction { turn: a0, summary: a1, sequence: a2 },
                Event::Compaction { turn: b0, summary: b1, sequence: b2 },
            ) => *a0 == *b0 && str_eq(a1.as_str(), b1.as_str()) && *a2 == *b2,
            (
                Event::Recovery { turn: a0, text: a1, sequence: a2 },
                Event::Recovery { turn: b0, text: b1, sequence: b2 },
            ) => *a0 == *b0 && str_eq(a1.as_str(), b1.as_str()) && *a2 == *b2,
            _ => false,
        }
    }
}

impl StoredTurnFailure {
    /// Returns a failure with the same value.
    pub fn copy(&self) -> (r: StoredTurnFailure)
        ensures
            r.kind == self.kind,
            r.message@ == self.message@,
    {
        StoredTurnFailure { kind: self.kind, message: self.message.clone() }
    }
}

impl Event {
    /// Returns an event with the same value.
    pub fn copy(&self) -> (r: Event)
        ensures
            r.view() == self.view(),
    {
        match self {
            Event::Session { id, active_head } => Event::Session { id: *id, active_head: *active_head },
            Event::ContextCamera { budget } => Event::ContextCamera { budget: *budget },
            Event::Turn { id, parent, sequence, generation } => Event::Turn {
                id: *id,
                parent: *parent,
                sequence: *sequence,
                generation: *generation,
            },
            Event::UserMessage { id, turn, sequence, text } => Event::UserMessage {
                id: *id,
                turn: *turn,
                sequence: *sequence,
                text: text.clone(),
            },
            Event::AssistantMessage { id, turn, sequence, text } => Event::AssistantMessage {
                id: *id,
                turn: *turn,
                sequence: *sequence,
                text: text.clone(),
            },
            Event::ModelRequest { id, turn, model_id, provider_id, generation, previous_tool_use, status, sequence } =>
                Event::ModelRequest {
                id: *id,
                turn: *turn,
                model_id: model_id.clone(),
                provider_id: *provider_id,
                generation: *generation,
                previous_tool_use: *previous_tool_use,
                status: *status,
                sequence: *sequence,
            },
            Event::ModelResponse {
                request,
                turn,
                model_id,
                provider_id,
                generation,
                response_id,
                api,
                input_tokens,
                output_tokens,
                stop_reason,
                opaque_replay,
                sequence,
            } => Event::ModelResponse {
                request: *request,
                turn: *turn,
                model_id: model_id.clone(),
                provider_id: *provider_id,
                generation: *generation,
                response_id: response_id.clone(),
                api: *api,
                input_tokens: *input_tokens,
                output_tokens: *output_tokens,
                stop_reason: *stop_reason,
                opaque_replay: opaque_replay.clone(),
                sequence: *sequence,
            },
            Event::ToolUse { id, turn, tool_id, model_id, provider_id, generation, input, status, sequence } =>
                Event::ToolUse {
                id: *id,
                turn: *turn,
                tool_id: *tool_id,
                model_id: model_id.clone(),
                provider_id: *provider_id,
                generation: *generation,
                input: input.clone(),
                status: *status,
                sequence: *sequence,
            },
            Event::ToolOutcome { tool_use, tool_call_id, turn, generation, output, sequence } => Event::ToolOutcome {
                tool_use: *tool_use,
                tool_call_id: *tool_call_id,
                turn: *turn,
                generation: *generation,
                output: output.clone(),
                sequence: *sequence,
            },
            Event::TurnCompleted { turn, generation, sequence } => Event::TurnCompleted {
                turn: *turn,
                generation: *generation,
                sequence: *sequence,
            },
            Event::TurnCancelled { turn, generation, sequence } => Event::TurnCancelled {
                turn: *turn,
                generation: *generation,
                sequence: *sequence,
            },
            Event::TurnInterrupted { turn, generation, sequence } => Event::TurnInterrupted {
                turn: *turn,
                generation: *generation,
                sequence: *sequence,
            },
            Event::TurnFailed { turn, generation, failure, sequence } => Event::TurnFailed {
                turn: *turn,
                generation: *generation,
                failure: failure.copy(),
                sequence: *sequence,
            },
            Event::BranchSelection { head, sequence } => Event::BranchSelection { head: *head, sequence: *sequence },
            Event::ModelChange { turn, model_id, provider_id, sequence } => Event::ModelChange {
                turn: *turn,
                model_id: model_id.clone(),
                provider_id: *provider_id,
                sequence: *sequence,
            },
            Event::Compaction { turn, summary, sequence } => Event::Compaction {
                turn: *turn,
                summary: summary.clone(),
                sequence: *sequence,
            },
            Event::Recovery { turn, text, sequence } => Event::Recovery {
                turn: *turn,
                text: text.clone(),
                sequence: *sequence,
            },
        }
    }
}

} // verus!
