use vstd::prelude::*;

verus! {

/// A runtime handle that names one entity of the harness world.
#[derive(Debug, Clone, Copy, PartialEq, Eq, Hash, Structural)]
pub struct Entity(pub u64);

/// Stable identity of a Provider capability.
#[derive(Debug, Clone, Copy, PartialEq, Eq, Hash, Structural)]
pub struct ProviderId(pub u64);

/// Stable identity of a ToolDefinition capability.
#[derive(Debug, Clone, Copy, PartialEq, Eq, Hash, Structural)]
pub struct ToolId(pub u64);

/// Stable identity of a Session.
#[derive(Debug, Clone, Copy, PartialEq, Eq, Hash, Structural)]
pub struct SessionId(pub u64);

/// Stable identity of a Turn.
#[derive(Debug, Clone, Copy, PartialEq, Eq, Hash, Structural)]
pub struct TurnId(pub u64);

/// Stable identity of a ModelRequest.
#[derive(Debug, Clone, Copy, PartialEq, Eq, Hash, Structural)]
pub struct ModelRequestId(pub u64);

/// Stable identity of a tool call.
#[derive(Debug, Clone, Copy, PartialEq, Eq, Hash, Structural)]
pub struct ToolCallId(pub u64);

/// Stable identity of a user or assistant message.
#[derive(Debug, Clone, Copy, PartialEq, Eq, Hash, Structural)]
pub struct MessageId(pub u64);

/// Monotonic creation order of harness facts.
#[derive(Debug, Clone, Copy, PartialEq, Eq, Hash, Structural)]
pub struct Sequence(pub u64);

/// The persisted allocator of stable identities and creation sequence values.
///
/// Each counter holds the next value it hands out.
#[derive(Debug, Clone, Copy, PartialEq, Eq, Structural)]
pub struct HarnessIds {
    pub next_turn: u64,
    pub next_message: u64,
    pub next_sequence: u64,
    pub next_model_request: u64,
    pub next_tool_call: u64,
}

impl HarnessIds {
    /// The allocator of a fresh harness: every counter starts at one.
    pub open spec fn initial() -> HarnessIds {
        HarnessIds {
            next_turn: 1,
            next_message: 1,
            next_sequence: 1,
            next_model_request: 1,
            next_tool_call: 1,
        }
    }

    pub fn new() -> (ids: HarnessIds)
        ensures
            ids == HarnessIds::initial(),
    {
        HarnessIds {
            next_turn: 1,
            next_message: 1,
            next_sequence: 1,
            next_model_request: 1,
            next_tool_call: 1,
        }
    }

    /// Hands out the next TurnId.
    pub fn turn(&mut self) -> (id: TurnId)
        requires
            old(self).next_turn < u64::MAX,
        ensures
            id.0 == old(self).next_turn,
            *final(self) == (HarnessIds { next_turn: (old(self).next_turn + 1) as u64, ..*old(self) }),
    {
        let id = TurnId(self.next_turn);
        self.next_turn = self.next_turn + 1;
        id
    }

    /// Hands out the next MessageId.
    pub fn message(&mut self) -> (id: MessageId)
        requires
            old(self).next_message < u64::MAX,
        ensures
            id.0 == old(self).next_message,
            *final(self) == (HarnessIds {
                next_message: (old(self).next_message + 1) as u64,
                ..*old(self)
            }),
    {
        let id = MessageId(self.next_message);
        self.next_message = self.next_message + 1;
        id
    }

    /// Hands out the next creation sequence value.
    pub fn sequence(&mut self) -> (sequence: Sequence)
        requires
            old(self).next_sequence < u64::MAX,
        ensures
            sequence.0 == old(self).next_sequence,
            *final(self) == (HarnessIds {
                next_sequence: (old(self).next_sequence + 1) as u64,
                ..*old(self)
            }),
    {
        let sequence = Sequence(self.next_sequence);
        self.next_sequence = self.next_sequence + 1;
        sequence
    }

    /// Hands out the next ModelRequestId.
    pub fn model_request(&mut self) -> (id: ModelRequestId)
        requires
            old(self).next_model_request < u64::MAX,
        ensures
            id.0 == old(self).next_model_request,
            *final(self) == (HarnessIds {
                next_model_request: (old(self).next_model_request + 1) as u64,
                ..*old(self)
            }),
    {
        let id = ModelRequestId(self.next_model_request);
        self.next_model_request = self.next_model_request + 1;
        id
    }

    /// Hands out the next ToolCallId.
    pub fn tool_call(&mut self) -> (id: ToolCallId)
        requires
            old(self).next_tool_call < u64::MAX,
        ensures
            id.0 == old(self).next_tool_call,
            *final(self) == (HarnessIds {
                next_tool_call: (old(self).next_tool_call + 1) as u64,
                ..*old(self)
            }),
    {
        let id = ToolCallId(self.next_tool_call);
        self.next_tool_call = self.next_tool_call + 1;
        id
    }
}

/// The next value after the largest one seen: one more than `seen`, kept at the maximum when
/// `seen` is the maximum, and never below `next`.
pub open spec fn restored(next: u64, seen: u64) -> u64 {
    let after = if seen == u64::MAX { seen } else { (seen + 1) as u64 };
    if next < after { after } else { next }
}

fn restore_counter(next: u64, seen: u64) -> (r: u64)
    ensures
        r == restored(next, seen),
{
    let after = if seen == u64::MAX { seen } else { seen + 1 };
    if next < after { after } else { next }
}

impl HarnessIds {
    /// Moves every counter past the largest value of its kind already in use, never backwards.
    pub fn restore_from_maxima(&mut self, turn: u64, message: u64, request: u64, tool_call: u64, sequence: u64)
        ensures
            final(self).next_turn == restored(old(self).next_turn, turn),
            final(self).next_message == restored(old(self).next_message, message),
            final(self).next_model_request == restored(old(self).next_model_request, request),
            final(self).next_tool_call == restored(old(self).next_tool_call, tool_call),
            final(self).next_sequence == restored(old(self).next_sequence, sequence),
    {
        self.next_turn = restore_counter(self.next_turn, turn);
        self.next_message = restore_counter(self.next_message, message);
        self.next_model_request = restore_counter(self.next_model_request, request);
        self.next_tool_call = restore_counter(self.next_tool_call, tool_call);
        self.next_sequence = restore_counter(self.next_sequence, sequence);
    }
}

} // verus!
