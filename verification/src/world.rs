use vstd::prelude::*;

use crate::ids::{
    Entity, HarnessIds, MessageId, ModelRequestId, ProviderId, Sequence, SessionId, ToolCallId,
    ToolId, TurnId,
};

verus! {

// ---------------------------------------------------------------------------------------------
// Entity tables
// ---------------------------------------------------------------------------------------------

/// The index of the first row of `s` that belongs to entity `e`.
pub open spec fn find<T>(s: Seq<(Entity, T)>, e: Entity) -> Option<int>
    decreases s.len(),
{
    if s.len() == 0 {
        None
    } else {
        match find(s.drop_last(), e) {
            Some(k) => Some(k),
            None => if s.last().0 == e {
                Some(s.len() - 1)
            } else {
                None
            },
        }
    }
}

/// The component that entity `e` has in table `s`, if any.
pub open spec fn get<T>(s: Seq<(Entity, T)>, e: Entity) -> Option<T> {
    match find(s, e) {
        Some(k) => Some(s[k].1),
        None => None,
    }
}

/// Entity `e` has a row in table `s`.
pub open spec fn has_row<T>(s: Seq<(Entity, T)>, e: Entity) -> bool {
    find(s, e) is Some
}

/// Two tables name the same entities in the same rows.
pub open spec fn same_keys<T>(a: Seq<(Entity, T)>, b: Seq<(Entity, T)>) -> bool {
    &&& a.len() == b.len()
    &&& forall|j: int| 0 <= j < a.len() ==> (#[trigger] a[j]).0 == b[j].0
}

/// `find` returns the first matching row, and `None` exactly when no row matches.
pub proof fn lemma_find<T>(s: Seq<(Entity, T)>, e: Entity)
    ensures
        match find(s, e) {
            Some(k) => 0 <= k < s.len() && s[k].0 == e && forall|j: int|
                0 <= j < k ==> (#[trigger] s[j]).0 != e,
            None => forall|j: int| 0 <= j < s.len() ==> (#[trigger] s[j]).0 != e,
        },
    decreases s.len(),
{
    if s.len() > 0 {
        let t = s.drop_last();
        lemma_find(t, e);
        assert forall|j: int| 0 <= j < s.len() - 1 implies s[j] == #[trigger] t[j] by {}
        match find(t, e) {
            Some(k) => {
                assert forall|j: int| 0 <= j < k implies (#[trigger] s[j]).0 != e by {
                    assert(s[j] == t[j]);
                }
            },
            None => {
                assert forall|j: int| 0 <= j < s.len() - 1 implies (#[trigger] s[j]).0 != e by {
                    assert(s[j] == t[j]);
                }
            },
        }
    }
}

/// The first matching row is determined by the entity column alone.
pub proof fn lemma_find_unique<T>(s: Seq<(Entity, T)>, e: Entity, k: int)
    requires
        0 <= k < s.len(),
        s[k].0 == e,
        forall|j: int| 0 <= j < k ==> (#[trigger] s[j]).0 != e,
    ensures
        find(s, e) == Some(k),
{
    lemma_find(s, e);
    match find(s, e) {
        Some(k2) => {
            if k2 < k {
                assert(s[k2].0 != e);
            }
            if k < k2 {
                assert(s[k].0 != e);
            }
        },
        None => {
            assert(s[k].0 != e);
        },
    }
}

/// No row of `s` names entity `e`.
pub proof fn lemma_find_none<T>(s: Seq<(Entity, T)>, e: Entity)
    requires
        forall|j: int| 0 <= j < s.len() ==> (#[trigger] s[j]).0 != e,
    ensures
        find(s, e) is None,
{
    lemma_find(s, e);
    if let Some(k) = find(s, e) {
        assert(s[k].0 != e);
    }
}

/// Tables with the same entity column answer `find` alike.
pub proof fn lemma_find_same_keys<T>(a: Seq<(Entity, T)>, b: Seq<(Entity, T)>, e: Entity)
    requires
        same_keys(a, b),
    ensures
        find(a, e) == find(b, e),
{
    lemma_find(a, e);
    lemma_find(b, e);
    match find(a, e) {
        Some(k) => {
            assert(a[k].0 == b[k].0);
            assert forall|j: int| 0 <= j < k implies (#[trigger] b[j]).0 != e by {
                assert(a[j].0 == b[j].0);
            }
            lemma_find_unique(b, e, k);
        },
        None => {
            assert forall|j: int| 0 <= j < b.len() implies (#[trigger] b[j]).0 != e by {
                assert(a[j].0 == b[j].0);
            }
            lemma_find_none(b, e);
        },
    }
}

/// Appending a row keeps every earlier answer and answers for a new entity.
pub proof fn lemma_find_push<T>(s: Seq<(Entity, T)>, row: (Entity, T), e: Entity)
    ensures
        find(s.push(row), e) == (match find(s, e) {
            Some(k) => Some(k),
            None => if row.0 == e {
                Some(s.len() as int)
            } else {
                None
            },
        }),
{
    assert(s.push(row).drop_last() =~= s);
}

/// Returns the index of the first row of `v` that belongs to `e`.
pub fn position<T>(v: &Vec<(Entity, T)>, e: Entity) -> (r: Option<usize>)
    ensures
        match r {
            Some(k) => find(v@, e) == Some(k as int),
            None => find(v@, e) is None,
        },
{
    let mut i: usize = 0;
    while i < v.len()
        invariant
            i <= v@.len(),
            forall|j: int| 0 <= j < i ==> (#[trigger] v@[j]).0 != e,
        decreases v.len() - i,
    {
        if v[i].0 == e {
            proof {
                lemma_find_unique(v@, e, i as int);
            }
            return Some(i);
        }
        i = i + 1;
    }
    proof {
        lemma_find_none(v@, e);
    }
    None
}

/// Reports whether `e` has a row in `v`.
pub fn contains<T>(v: &Vec<(Entity, T)>, e: Entity) -> (b: bool)
    ensures
        b == has_row(v@, e),
{
    position(v, e).is_some()
}

// ---------------------------------------------------------------------------------------------
// Components
// ---------------------------------------------------------------------------------------------

/// An Agent selects one Model.
#[derive(Debug, Clone, Copy, PartialEq, Eq, Structural)]
pub struct Agent {
    pub model: Entity,
}

/// A Provider capability.
#[derive(Debug, Clone, Copy, PartialEq, Eq, Structural)]
pub struct Provider {
    pub provider_id: ProviderId,
}

/// A Model capability that references its Provider.
#[derive(Debug)]
pub struct Model {
    pub provider: Entity,
    pub model_id: String,
}

/// A ToolDefinition capability.
#[derive(Debug)]
pub struct ToolDefinition {
    pub tool_id: ToolId,
    pub name: String,
    pub description: String,
}

/// The exposure of one tool to one Agent, in a given order.
#[derive(Debug, Clone, Copy, PartialEq, Eq, Structural)]
pub struct AgentTool {
    pub agent: Entity,
    pub tool: Entity,
    pub order: u32,
}

/// A persistent conversation tree with one active branch head.
#[derive(Debug, Clone, Copy, PartialEq, Eq, Structural)]
pub struct Session {
    pub id: SessionId,
    pub active_head: Option<Entity>,
}

/// One user-triggered agent cycle inside a Session.
#[derive(Debug, Clone, Copy, PartialEq, Eq, Structural)]
pub struct Turn {
    pub id: TurnId,
    pub session: Entity,
    pub parent: Option<Entity>,
    pub sequence: Sequence,
    pub generation: u64,
}

/// A message written by the user.
#[derive(Debug)]
pub struct UserMessage {
    pub id: MessageId,
    pub turn: Entity,
    pub sequence: Sequence,
    pub text: String,
}

/// A message written by the assistant.
#[derive(Debug)]
pub struct AssistantMessage {
    pub id: MessageId,
    pub turn: Entity,
    pub sequence: Sequence,
    pub text: String,
}

/// The lifecycle state of asynchronous work.
#[derive(Debug, Clone, Copy, PartialEq, Eq, Structural)]
pub enum WorkStatus {
    Pending,
    Running,
    Succeeded,
    Failed,
    Cancelled,
}

/// Durable identity and payload of one provider request.
#[derive(Debug, Clone, Copy, PartialEq, Eq, Structural)]
pub struct ModelRequest {
    pub id: ModelRequestId,
    pub turn: Entity,
    pub agent: Entity,
    pub model: Entity,
    pub provider: Entity,
    pub generation: u64,
    pub previous_tool_use: Option<Entity>,
    pub status: WorkStatus,
    pub sequence: Sequence,
}

/// Why a provider stopped producing output.
#[derive(Debug, Clone, Copy, PartialEq, Eq, Structural)]
pub enum ModelStopReason {
    ToolUse,
    Complete,
}

/// The provider API that produced a response.
#[derive(Debug, Clone, Copy, PartialEq, Eq, Structural)]
pub enum ModelApi {
    Fake,
}

/// Token accounting of a response.
#[derive(Debug, Clone, Copy, PartialEq, Eq, Structural)]
pub struct ModelUsage {
    pub input_tokens: u32,
    pub output_tokens: u32,
}

/// The normalized record of one provider response.
#[derive(Debug)]
pub struct ModelResponse {
    pub request: Entity,
    pub turn: Entity,
    pub model: Entity,
    pub generation: u64,
    pub provider: Entity,
    pub response_id: String,
    pub api: ModelApi,
    pub usage: ModelUsage,
    pub stop_reason: ModelStopReason,
    pub opaque_replay: String,
    pub sequence: Sequence,
}

/// Durable identity and input of one tool call.
#[derive(Debug)]
pub struct ToolUse {
    pub id: ToolCallId,
    pub turn: Entity,
    pub agent: Entity,
    pub tool: Entity,
    pub model: Entity,
    pub provider: Entity,
    pub generation: u64,
    pub input: String,
    pub status: WorkStatus,
    pub sequence: Sequence,
}

/// The output of one tool call.
#[derive(Debug)]
pub struct ToolOutcome {
    pub tool_use: Entity,
    pub tool_call_id: ToolCallId,
    pub turn: Entity,
    pub generation: u64,
    pub output: String,
    pub sequence: Sequence,
}

/// A Turn finished successfully.
#[derive(Debug, Clone, Copy, PartialEq, Eq, Structural)]
pub struct TurnCompleted {
    pub turn: Entity,
    pub generation: u64,
    pub sequence: Sequence,
}

/// A Turn was cancelled by an interrupt.
#[derive(Debug, Clone, Copy, PartialEq, Eq, Structural)]
pub struct TurnCancelled {
    pub turn: Entity,
    pub generation: u64,
    pub sequence: Sequence,
}

/// A Turn's in-flight work was interrupted by a restart.
#[derive(Debug, Clone, Copy, PartialEq, Eq, Structural)]
pub struct TurnInterrupted {
    pub turn: Entity,
    pub generation: u64,
    pub sequence: Sequence,
}

/// A provider failure.
#[derive(Debug)]
pub struct ProviderFailure {
    pub message: String,
}

/// A tool failure.
#[derive(Debug)]
pub struct ToolFailure {
    pub message: String,
}

/// A recovery failure.
#[derive(Debug)]
pub struct RecoveryFailure {
    pub message: String,
}

/// The reason a Turn failed.
#[derive(Debug)]
pub enum TurnFailure {
    Provider(ProviderFailure),
    Tool(ToolFailure),
    Recovery(RecoveryFailure),
}

/// A Turn failed.
#[derive(Debug)]
pub struct TurnFailed {
    pub turn: Entity,
    pub generation: u64,
    pub failure: TurnFailure,
    pub sequence: Sequence,
}

/// The selection of an earlier Turn as the active branch head.
#[derive(Debug, Clone, Copy, PartialEq, Eq, Structural)]
pub struct BranchSelection {
    pub session: Entity,
    pub head: Entity,
    pub sequence: Sequence,
}

/// A change of the Model used from a Turn on.
#[derive(Debug, Clone, Copy, PartialEq, Eq, Structural)]
pub struct ModelChange {
    pub turn: Entity,
    pub model: Entity,
    pub sequence: Sequence,
}

/// A compaction summary recorded in a Turn.
#[derive(Debug)]
pub struct Compaction {
    pub turn: Entity,
    pub summary: String,
    pub sequence: Sequence,
}

/// A recovery note recorded in a Turn.
#[derive(Debug)]
pub struct Recovery {
    pub turn: Entity,
    pub text: String,
    pub sequence: Sequence,
}

/// A visible persistence failure.
#[derive(Debug)]
pub struct PersistenceFailure {
    pub message: String,
    pub sequence: Sequence,
}

/// A camera that projects a Session branch into provider-neutral context.
#[derive(Debug, Clone, Copy, PartialEq, Eq, Structural)]
pub struct ContextCamera {
    pub agent: Entity,
    pub session: Entity,
    pub head: Option<Entity>,
    pub budget: usize,
    /// The camera is Agent domain state and survives restarts.
    pub persistent: bool,
}

/// A camera that projects a Session branch for terminal display.
#[derive(Debug, Clone, Copy, PartialEq, Eq, Structural)]
pub struct TranscriptCamera {
    pub session: Entity,
    pub head: Option<Entity>,
}

// ---------------------------------------------------------------------------------------------
// World
// ---------------------------------------------------------------------------------------------

/// The harness world: every entity's components, the singleton resources, and the identity
/// allocator. Each table lists `(entity, component)` rows; the first row of an entity is its
/// component.
#[derive(Debug)]
pub struct World {
    pub next_entity: u64,
    pub providers: Vec<(Entity, Provider)>,
    pub provider_executors: Vec<(Entity, ())>,
    pub models: Vec<(Entity, Model)>,
    pub tools: Vec<(Entity, ToolDefinition)>,
    pub tool_executors: Vec<(Entity, ())>,
    pub agents: Vec<(Entity, Agent)>,
    pub agent_tools: Vec<(Entity, AgentTool)>,
    pub sessions: Vec<(Entity, Session)>,
    pub turns: Vec<(Entity, Turn)>,
    pub user_messages: Vec<(Entity, UserMessage)>,
    pub assistant_messages: Vec<(Entity, AssistantMessage)>,
    pub model_requests: Vec<(Entity, ModelRequest)>,
    pub model_responses: Vec<(Entity, ModelResponse)>,
    pub tool_uses: Vec<(Entity, ToolUse)>,
    pub tool_outcomes: Vec<(Entity, ToolOutcome)>,
    pub turns_completed: Vec<(Entity, TurnCompleted)>,
    pub turns_cancelled: Vec<(Entity, TurnCancelled)>,
    pub turns_interrupted: Vec<(Entity, TurnInterrupted)>,
    pub turns_failed: Vec<(Entity, TurnFailed)>,
    pub branch_selections: Vec<(Entity, BranchSelection)>,
    pub model_changes: Vec<(Entity, ModelChange)>,
    pub compactions: Vec<(Entity, Compaction)>,
    pub recoveries: Vec<(Entity, Recovery)>,
    pub persistence_failures: Vec<(Entity, PersistenceFailure)>,
    pub context_cameras: Vec<(Entity, ContextCamera)>,
    pub transcript_cameras: Vec<(Entity, TranscriptCamera)>,
    pub model_tasks: Vec<(Entity, ())>,
    pub tool_tasks: Vec<(Entity, ())>,
    pub active_session: Option<Entity>,
    pub active_agent: Option<Entity>,
    pub harness_ready: bool,
    pub ids: Option<HarnessIds>,
}

impl World {
    /// An empty world: no entities and no resources.
    pub open spec fn is_empty_world(self) -> bool {
        &&& self.next_entity == 0
        &&& self.providers@.len() == 0
        &&& self.provider_executors@.len() == 0
        &&& self.models@.len() == 0
        &&& self.tools@.len() == 0
        &&& self.tool_executors@.len() == 0
        &&& self.agents@.len() == 0
        &&& self.agent_tools@.len() == 0
        &&& self.sessions@.len() == 0
        &&& self.turns@.len() == 0
        &&& self.user_messages@.len() == 0
        &&& self.assistant_messages@.len() == 0
        &&& self.model_requests@.len() == 0
        &&& self.model_responses@.len() == 0
        &&& self.tool_uses@.len() == 0
        &&& self.tool_outcomes@.len() == 0
        &&& self.turns_completed@.len() == 0
        &&& self.turns_cancelled@.len() == 0
        &&& self.turns_interrupted@.len() == 0
        &&& self.turns_failed@.len() == 0
        &&& self.branch_selections@.len() == 0
        &&& self.model_changes@.len() == 0
        &&& self.compactions@.len() == 0
        &&& self.recoveries@.len() == 0
        &&& self.persistence_failures@.len() == 0
        &&& self.context_cameras@.len() == 0
        &&& self.transcript_cameras@.len() == 0
        &&& self.model_tasks@.len() == 0
        &&& self.tool_tasks@.len() == 0
        &&& self.active_session is None
        &&& self.active_agent is None
        &&& !self.harness_ready
        &&& self.ids is None
    }

    /// Creates an empty world.
    pub fn new() -> (w: World)
        ensures
            w.is_empty_world(),
    {
        World {
            next_entity: 0,
            providers: Vec::new(),
            provider_executors: Vec::new(),
            models: Vec::new(),
            tools: Vec::new(),
            tool_executors: Vec::new(),
            agents: Vec::new(),
            agent_tools: Vec::new(),
            sessions: Vec::new(),
            turns: Vec::new(),
            user_messages: Vec::new(),
            assistant_messages: Vec::new(),
            model_requests: Vec::new(),
            model_responses: Vec::new(),
            tool_uses: Vec::new(),
            tool_outcomes: Vec::new(),
            turns_completed: Vec::new(),
            turns_cancelled: Vec::new(),
            turns_interrupted: Vec::new(),
            turns_failed: Vec::new(),
            branch_selections: Vec::new(),
            model_changes: Vec::new(),
            compactions: Vec::new(),
            recoveries: Vec::new(),
            persistence_failures: Vec::new(),
            context_cameras: Vec::new(),
            transcript_cameras: Vec::new(),
            model_tasks: Vec::new(),
            tool_tasks: Vec::new(),
            active_session: None,
            active_agent: None,
            harness_ready: false,
            ids: None,
        }
    }

    /// Reserves a fresh entity handle.
    pub fn spawn(&mut self) -> (e: Entity)
        requires
            old(self).next_entity < u64::MAX,
        ensures
            e.0 == old(self).next_entity,
            *final(self) == (World { next_entity: (old(self).next_entity + 1) as u64, ..*old(self) }),
    {
        let e = Entity(self.next_entity);
        self.next_entity = self.next_entity + 1;
        e
    }
}

} // verus!

verus! {

impl World {
    /// The two worlds have the same capability entities.
    pub open spec fn same_capabilities(self, other: World) -> bool {
        &&& self.providers@ == other.providers@
        &&& self.provider_executors@ == other.provider_executors@
        &&& self.models@ == other.models@
        &&& self.tools@ == other.tools@
        &&& self.tool_executors@ == other.tool_executors@
        &&& self.agents@ == other.agents@
        &&& self.agent_tools@ == other.agent_tools@
    }

    /// The two worlds have the same messages and timeline facts.
    pub open spec fn same_timeline(self, other: World) -> bool {
        &&& self.user_messages@ == other.user_messages@
        &&& self.assistant_messages@ == other.assistant_messages@
        &&& self.branch_selections@ == other.branch_selections@
        &&& self.model_changes@ == other.model_changes@
        &&& self.compactions@ == other.compactions@
        &&& self.recoveries@ == other.recoveries@
        &&& self.persistence_failures@ == other.persistence_failures@
    }

    /// The two worlds have the same work entities and transient task handles.
    pub open spec fn same_work(self, other: World) -> bool {
        &&& self.model_requests@ == other.model_requests@
        &&& self.model_responses@ == other.model_responses@
        &&& self.tool_uses@ == other.tool_uses@
        &&& self.tool_outcomes@ == other.tool_outcomes@
        &&& self.model_tasks@ == other.model_tasks@
        &&& self.tool_tasks@ == other.tool_tasks@
    }

    /// The two worlds have the same Turn outcomes.
    pub open spec fn same_outcomes(self, other: World) -> bool {
        &&& self.turns_completed@ == other.turns_completed@
        &&& self.turns_cancelled@ == other.turns_cancelled@
        &&& self.turns_interrupted@ == other.turns_interrupted@
        &&& self.turns_failed@ == other.turns_failed@
    }

    /// The two worlds have the same cameras.
    pub open spec fn same_cameras(self, other: World) -> bool {
        &&& self.context_cameras@ == other.context_cameras@
        &&& self.transcript_cameras@ == other.transcript_cameras@
    }

    /// The two worlds have the same resources.
    pub open spec fn same_resources(self, other: World) -> bool {
        &&& self.active_session == other.active_session
        &&& self.active_agent == other.active_agent
        &&& self.harness_ready == other.harness_ready
        &&& self.ids == other.ids
    }

    /// The two worlds agree on everything.
    pub open spec fn same_world(self, other: World) -> bool {
        &&& self.next_entity == other.next_entity
        &&& self.same_capabilities(other)
        &&& self.sessions@ == other.sessions@
        &&& self.turns@ == other.turns@
        &&& self.same_timeline(other)
        &&& self.same_work(other)
        &&& self.same_outcomes(other)
        &&& self.same_cameras(other)
        &&& self.same_resources(other)
    }

    /// Every sequence number recorded in the world is below `n`.
    pub open spec fn sequences_below(self, n: u64) -> bool {
        &&& forall|j: int| 0 <= j < self.turns@.len() ==> (#[trigger] self.turns@[j]).1.sequence.0 < n
        &&& forall|j: int| 0 <= j < self.user_messages@.len() ==> (#[trigger] self.user_messages@[j]).1.sequence.0 < n
        &&& forall|j: int| 0 <= j < self.assistant_messages@.len() ==> (#[trigger] self.assistant_messages@[j]).1.sequence.0 < n
        &&& forall|j: int| 0 <= j < self.model_requests@.len() ==> (#[trigger] self.model_requests@[j]).1.sequence.0 < n
        &&& forall|j: int| 0 <= j < self.model_responses@.len() ==> (#[trigger] self.model_responses@[j]).1.sequence.0 < n
        &&& forall|j: int| 0 <= j < self.tool_uses@.len() ==> (#[trigger] self.tool_uses@[j]).1.sequence.0 < n
        &&& forall|j: int| 0 <= j < self.tool_outcomes@.len() ==> (#[trigger] self.tool_outcomes@[j]).1.sequence.0 < n
        &&& forall|j: int| 0 <= j < self.turns_completed@.len() ==> (#[trigger] self.turns_completed@[j]).1.sequence.0 < n
        &&& forall|j: int| 0 <= j < self.turns_cancelled@.len() ==> (#[trigger] self.turns_cancelled@[j]).1.sequence.0 < n
        &&& forall|j: int| 0 <= j < self.turns_interrupted@.len() ==> (#[trigger] self.turns_interrupted@[j]).1.sequence.0 < n
        &&& forall|j: int| 0 <= j < self.turns_failed@.len() ==> (#[trigger] self.turns_failed@[j]).1.sequence.0 < n
        &&& forall|j: int| 0 <= j < self.branch_selections@.len() ==> (#[trigger] self.branch_selections@[j]).1.sequence.0 < n
        &&& forall|j: int| 0 <= j < self.model_changes@.len() ==> (#[trigger] self.model_changes@[j]).1.sequence.0 < n
        &&& forall|j: int| 0 <= j < self.compactions@.len() ==> (#[trigger] self.compactions@[j]).1.sequence.0 < n
        &&& forall|j: int| 0 <= j < self.recoveries@.len() ==> (#[trigger] self.recoveries@[j]).1.sequence.0 < n
        &&& forall|j: int| 0 <= j < self.persistence_failures@.len() ==> (#[trigger] self.persistence_failures@[j]).1.sequence.0 < n
    }

    /// The identity allocator's next sequence number is above every sequence number in the
    /// world, so that what is created next comes after everything created before.
    pub open spec fn sequences_fresh(self) -> bool {
        self.ids matches Some(ids) && self.sequences_below(ids.next_sequence)
    }

    /// Turn `t` has a completion, cancellation, failure, or interruption outcome.
    pub open spec fn turn_finished(self, t: Entity) -> bool {
        ||| exists|i: int| 0 <= i < self.turns_completed@.len() && #[trigger] self.turns_completed@[i].1.turn == t
        ||| exists|i: int| 0 <= i < self.turns_cancelled@.len() && #[trigger] self.turns_cancelled@[i].1.turn == t
        ||| exists|i: int| 0 <= i < self.turns_failed@.len() && #[trigger] self.turns_failed@[i].1.turn == t
        ||| exists|i: int| 0 <= i < self.turns_interrupted@.len() && #[trigger] self.turns_interrupted@[i].1.turn == t
    }

    /// Reports whether Turn `t` has an outcome.
    pub fn is_turn_finished(&self, t: Entity) -> (b: bool)
        ensures
            b == self.turn_finished(t),
    {
        let mut i: usize = 0;
        while i < self.turns_completed.len()
            invariant
                i <= self.turns_completed@.len(),
                forall|j: int| 0 <= j < i ==> (#[trigger] self.turns_completed@[j]).1.turn != t,
            decreases self.turns_completed.len() - i,
        {
            if self.turns_completed[i].1.turn == t {
                return true;
            }
            i = i + 1;
        }
        let mut i: usize = 0;
        while i < self.turns_cancelled.len()
            invariant
                i <= self.turns_cancelled@.len(),
                forall|j: int| 0 <= j < i ==> (#[trigger] self.turns_cancelled@[j]).1.turn != t,
            decreases self.turns_cancelled.len() - i,
        {
            if self.turns_cancelled[i].1.turn == t {
                return true;
            }
            i = i + 1;
        }
        let mut i: usize = 0;
        while i < self.turns_failed.len()
            invariant
                i <= self.turns_failed@.len(),
                forall|j: int| 0 <= j < i ==> (#[trigger] self.turns_failed@[j]).1.turn != t,
            decreases self.turns_failed.len() - i,
        {
            if self.turns_failed[i].1.turn == t {
                return true;
            }
            i = i + 1;
        }
        let mut i: usize = 0;
        while i < self.turns_interrupted.len()
            invariant
                i <= self.turns_interrupted@.len(),
                forall|j: int| 0 <= j < i ==> (#[trigger] self.turns_interrupted@[j]).1.turn != t,
            decreases self.turns_interrupted.len() - i,
        {
            if self.turns_interrupted[i].1.turn == t {
                return true;
            }
            i = i + 1;
        }
        false
    }
}

/// Persistent context cameras of `agent` over `session` move their head to `head`.
pub open spec fn synced_cameras(
    cams: Seq<(Entity, ContextCamera)>,
    agent: Entity,
    session: Entity,
    head: Option<Entity>,
) -> Seq<(Entity, ContextCamera)> {
    Seq::new(
        cams.len(),
        |i: int|
            if cams[i].1.agent == agent && cams[i].1.session == session && cams[i].1.persistent {
                (cams[i].0, ContextCamera { head, ..cams[i].1 })
            } else {
                cams[i]
            },
    )
}

/// Moves every persistent context camera of `agent` over `session` to `head`.
pub fn sync_persistent_context_camera(
    cams: &mut Vec<(Entity, ContextCamera)>,
    agent: Entity,
    session: Entity,
    head: Option<Entity>,
)
    ensures
        final(cams)@ == synced_cameras(old(cams)@, agent, session, head),
{
    let ghost start = cams@;
    let mut i: usize = 0;
    while i < cams.len()
        invariant
            cams@.len() == start.len(),
            i <= cams@.len(),
            forall|j: int| 0 <= j < i ==> #[trigger] cams@[j] == synced_cameras(start, agent, session, head)[j],
            forall|j: int| i <= j < cams@.len() ==> #[trigger] cams@[j] == start[j],
        decreases cams.len() - i,
    {
        let (e, c) = cams[i];
        if c.agent == agent && c.session == session && c.persistent {
            cams.set(i, (e, ContextCamera { head, ..c }));
        }
        i = i + 1;
    }
    assert(cams@ =~= synced_cameras(start, agent, session, head));
}

} // verus!
