//! What an event's key identifies.
use vstd::prelude::*;

use crate::events::{event_key, EventView};
use crate::laws::law_decimal_injective;
use crate::text::decimal;

verus! {

/// The fixed text that begins an event's key.
pub open spec fn key_prefix(e: EventView) -> Seq<char> {
    match e {
        EventView::Session { .. } => "session"@,
        EventView::ContextCamera { .. } => "context-camera"@,
        EventView::Turn { .. } => "turn:"@,
        EventView::UserMessage { .. } => "user-message:"@,
        EventView::AssistantMessage { .. } => "assistant-message:"@,
        EventView::ModelRequest { .. } => "model-request:"@,
        EventView::ModelResponse { .. } => "model-response:"@,
        EventView::ToolUse { .. } => "tool-use:"@,
        EventView::ToolOutcome { .. } => "tool-outcome:"@,
        EventView::TurnCompleted { .. } => "turn-completed:"@,
        EventView::TurnCancelled { .. } => "turn-cancelled:"@,
        EventView::TurnInterrupted { .. } => "turn-interrupted:"@,
        EventView::TurnFailed { .. } => "turn-failed:"@,
        EventView::BranchSelection { .. } => "branch-selection:"@,
        EventView::ModelChange { .. } => "model-change:"@,
        EventView::Compaction { .. } => "compaction:"@,
        EventView::Recovery { .. } => "recovery:"@,
    }
}

/// The rest of an event's key: its identity, rendered.
pub open spec fn key_suffix(e: EventView) -> Seq<char> {
    match e {
        EventView::Session { .. } => Seq::empty(),
        EventView::ContextCamera { .. } => Seq::empty(),
        EventView::Turn { id, .. } => decimal(id as nat),
        EventView::UserMessage { id, .. } => decimal(id as nat),
        EventView::AssistantMessage { id, .. } => decimal(id as nat),
        EventView::ModelRequest { id, .. } => decimal(id as nat),
        EventView::ModelResponse { response_id, .. } => response_id,
        EventView::ToolUse { id, .. } => decimal(id as nat),
        EventView::ToolOutcome { tool_call_id, .. } => decimal(tool_call_id as nat),
        EventView::TurnCompleted { turn, .. } => decimal(turn as nat),
        EventView::TurnCancelled { turn, .. } => decimal(turn as nat),
        EventView::TurnInterrupted { turn, .. } => decimal(turn as nat),
        EventView::TurnFailed { turn, .. } => decimal(turn as nat),
        EventView::BranchSelection { sequence, .. } => decimal(sequence as nat),
        EventView::ModelChange { sequence, .. } => decimal(sequence as nat),
        EventView::Compaction { sequence, .. } => decimal(sequence as nat),
        EventView::Recovery { sequence, .. } => decimal(sequence as nat),
    }
}

/// Two events have the same identity within a Session: both are the Session record, both are the
/// context camera record, or they are of the same kind and agree on the field that identifies
/// that kind (the ID, the response ID, the tool call ID, the Turn of an outcome, or the sequence
/// number).
pub open spec fn same_identity(a: EventView, b: EventView) -> bool {
    match (a, b) {
        (EventView::Session { .. }, EventView::Session { .. }) => true,
        (EventView::ContextCamera { .. }, EventView::ContextCamera { .. }) => true,
        (EventView::Turn { id: x, .. }, EventView::Turn { id: y, .. }) => x == y,
        (EventView::UserMessage { id: x, .. }, EventView::UserMessage { id: y, .. }) => x == y,
        (EventView::AssistantMessage { id: x, .. }, EventView::AssistantMessage { id: y, .. }) => x == y,
        (EventView::ModelRequest { id: x, .. }, EventView::ModelRequest { id: y, .. }) => x == y,
        (EventView::ModelResponse { response_id: x, .. }, EventView::ModelResponse { response_id: y, .. }) => x == y,
        (EventView::ToolUse { id: x, .. }, EventView::ToolUse { id: y, .. }) => x == y,
        (EventView::ToolOutcome { tool_call_id: x, .. }, EventView::ToolOutcome { tool_call_id: y, .. }) => x == y,
        (EventView::TurnCompleted { turn: x, .. }, EventView::TurnCompleted { turn: y, .. }) => x == y,
        (EventView::TurnCancelled { turn: x, .. }, EventView::TurnCancelled { turn: y, .. }) => x == y,
        (EventView::TurnInterrupted { turn: x, .. }, EventView::TurnInterrupted { turn: y, .. }) => x == y,
        (EventView::TurnFailed { turn: x, .. }, EventView::TurnFailed { turn: y, .. }) => x == y,
        (EventView::BranchSelection { sequence: x, .. }, EventView::BranchSelection { sequence: y, .. }) => x == y,
        (EventView::ModelChange { sequence: x, .. }, EventView::ModelChange { sequence: y, .. }) => x == y,
        (EventView::Compaction { sequence: x, .. }, EventView::Compaction { sequence: y, .. }) => x == y,
        (EventView::Recovery { sequence: x, .. }, EventView::Recovery { sequence: y, .. }) => x == y,
        _ => false,
    }
}

/// The kind of an event, by the position of its variant.
pub open spec fn kind_index(e: EventView) -> int {
    match e {
        EventView::Session { .. } => 0,
        EventView::ContextCamera { .. } => 1,
        EventView::Turn { .. } => 2,
        EventView::UserMessage { .. } => 3,
        EventView::AssistantMessage { .. } => 4,
        EventView::ModelRequest { .. } => 5,
        EventView::ModelResponse { .. } => 6,
        EventView::ToolUse { .. } => 7,
        EventView::ToolOutcome { .. } => 8,
        EventView::TurnCompleted { .. } => 9,
        EventView::TurnCancelled { .. } => 10,
        EventView::TurnInterrupted { .. } => 11,
        EventView::TurnFailed { .. } => 12,
        EventView::BranchSelection { .. } => 13,
        EventView::ModelChange { .. } => 14,
        EventView::Compaction { .. } => 15,
        EventView::Recovery { .. } => 16,
    }
}

proof fn lemma_key_parts(e: EventView)
    ensures
        event_key(e) =~= key_prefix(e) + key_suffix(e),
        key_prefix(e).len() >= 5,
{
    reveal_strlit("session");
    reveal_strlit("context-camera");
    reveal_strlit("turn:");
    reveal_strlit("user-message:");
    reveal_strlit("assistant-message:");
    reveal_strlit("model-request:");
    reveal_strlit("model-response:");
    reveal_strlit("tool-use:");
    reveal_strlit("tool-outcome:");
    reveal_strlit("turn-completed:");
    reveal_strlit("turn-cancelled:");
    reveal_strlit("turn-interrupted:");
    reveal_strlit("turn-failed:");
    reveal_strlit("branch-selection:");
    reveal_strlit("model-change:");
    reveal_strlit("compaction:");
    reveal_strlit("recovery:");
}

/// Two keys that begin with the fixed texts of two kinds agree on those texts only if the kinds
/// are the same: no kind's fixed text begins another's.
proof fn lemma_prefixes_apart(a: EventView, b: EventView, k: Seq<char>)
    requires
        key_prefix(a).len() <= k.len(),
        key_prefix(b).len() <= k.len(),
        k.take(key_prefix(a).len() as int) == key_prefix(a),
        k.take(key_prefix(b).len() as int) == key_prefix(b),
    ensures
        kind_index(a) == kind_index(b),
{
    reveal_strlit("session");
    reveal_strlit("context-camera");
    reveal_strlit("turn:");
    reveal_strlit("user-message:");
    reveal_strlit("assistant-message:");
    reveal_strlit("model-request:");
    reveal_strlit("model-response:");
    reveal_strlit("tool-use:");
    reveal_strlit("tool-outcome:");
    reveal_strlit("turn-completed:");
    reveal_strlit("turn-cancelled:");
    reveal_strlit("turn-interrupted:");
    reveal_strlit("turn-failed:");
    reveal_strlit("branch-selection:");
    reveal_strlit("model-change:");
    reveal_strlit("compaction:");
    reveal_strlit("recovery:");
    let pa = key_prefix(a);
    let pb = key_prefix(b);
    assert(pa[0] == k.take(pa.len() as int)[0] && pb[0] == k.take(pb.len() as int)[0]);
    assert(pa[1] == k.take(pa.len() as int)[1] && pb[1] == k.take(pb.len() as int)[1]);
    assert(pa[2] == k.take(pa.len() as int)[2] && pb[2] == k.take(pb.len() as int)[2]);
    assert(pa[4] == k.take(pa.len() as int)[4] && pb[4] == k.take(pb.len() as int)[4]);
    assert(pa[0] == pb[0] && pa[1] == pb[1] && pa[2] == pb[2] && pa[4] == pb[4]);
    if pa.len() > 8 && pb.len() > 8 {
        assert(pa[5] == k.take(pa.len() as int)[5] && pb[5] == k.take(pb.len() as int)[5]);
        assert(pa[6] == k.take(pa.len() as int)[6] && pb[6] == k.take(pb.len() as int)[6]);
        assert(pa[8] == k.take(pa.len() as int)[8] && pb[8] == k.take(pb.len() as int)[8]);
    }
    if pa.len() > 6 && pb.len() > 6 {
        assert(pa[6] == k.take(pa.len() as int)[6] && pb[6] == k.take(pb.len() as int)[6]);
    }
}

/// An event's key identifies it: two events have the same key exactly when they have the same
/// identity, so each Session log holds one current value per identity.
pub proof fn law_event_key_identifies(a: EventView, b: EventView)
    ensures
        (event_key(a) == event_key(b)) <==> same_identity(a, b),
{
    lemma_key_parts(a);
    lemma_key_parts(b);
    let pa = key_prefix(a);
    let pb = key_prefix(b);
    let sa = key_suffix(a);
    let sb = key_suffix(b);
    if event_key(a) == event_key(b) {
        let k = event_key(a);
        assert(k.take(pa.len() as int) =~= pa);
        assert((pb + sb).take(pb.len() as int) =~= pb);
        lemma_prefixes_apart(a, b, k);
        assert(pa == pb);
        assert(sa =~= k.skip(pa.len() as int));
        assert(sb =~= (pb + sb).skip(pb.len() as int));
        assert(sa == sb);
        match (a, b) {
            (EventView::Turn { id: x, .. }, EventView::Turn { id: y, .. }) => law_decimal_injective(x as nat, y as nat),
            (EventView::UserMessage { id: x, .. }, EventView::UserMessage { id: y, .. }) => law_decimal_injective(x as nat, y as nat),
            (EventView::AssistantMessage { id: x, .. }, EventView::AssistantMessage { id: y, .. }) => law_decimal_injective(x as nat, y as nat),
            (EventView::ModelRequest { id: x, .. }, EventView::ModelRequest { id: y, .. }) => law_decimal_injective(x as nat, y as nat),
            (EventView::ToolUse { id: x, .. }, EventView::ToolUse { id: y, .. }) => law_decimal_injective(x as nat, y as nat),
            (EventView::ToolOutcome { tool_call_id: x, .. }, EventView::ToolOutcome { tool_call_id: y, .. }) => law_decimal_injective(x as nat, y as nat),
            (EventView::TurnCompleted { turn: x, .. }, EventView::TurnCompleted { turn: y, .. }) => law_decimal_injective(x as nat, y as nat),
            (EventView::TurnCancelled { turn: x, .. }, EventView::TurnCancelled { turn: y, .. }) => law_decimal_injective(x as nat, y as nat),
            (EventView::TurnInterrupted { turn: x, .. }, EventView::TurnInterrupted { turn: y, .. }) => law_decimal_injective(x as nat, y as nat),
            (EventView::TurnFailed { turn: x, .. }, EventView::TurnFailed { turn: y, .. }) => law_decimal_injective(x as nat, y as nat),
            (EventView::BranchSelection { sequence: x, .. }, EventView::BranchSelection { sequence: y, .. }) => law_decimal_injective(x as nat, y as nat),
            (EventView::ModelChange { sequence: x, .. }, EventView::ModelChange { sequence: y, .. }) => law_decimal_injective(x as nat, y as nat),
            (EventView::Compaction { sequence: x, .. }, EventView::Compaction { sequence: y, .. }) => law_decimal_injective(x as nat, y as nat),
            (EventView::Recovery { sequence: x, .. }, EventView::Recovery { sequence: y, .. }) => law_decimal_injective(x as nat, y as nat),
            _ => {},
        }
    }
}

} // verus!
