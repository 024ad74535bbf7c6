//! Replay of validated Session logs into a world.
use vstd::prelude::*;

use crate::events::{Event, EventView, Record, StoredTurnFailureKind};
use crate::ids::{restored, Entity, HarnessIds, MessageId, ModelRequestId, Sequence, SessionId, ToolCallId, TurnId};
use crate::fake::{agent_of, first_index, lemma_first_index};
use crate::replay::{provider_index, provider_position, LoadedFile};
use crate::text::{concat, decimal, push_decimal, str_eq, with_decimal};
use crate::collect::{collect_events, keyed, keyed_views, raw_events};
use crate::log::{collect_events_ok, last_views, PersistenceState};
use crate::world::{
    find, get, lemma_find, position, Agent, AssistantMessage, Model, ToolDefinition, BranchSelection, Compaction, ContextCamera,
    ModelChange, ModelRequest, ModelResponse, ModelUsage, ProviderFailure, Recovery,
    RecoveryFailure, ToolFailure, ToolOutcome, ToolUse, Turn, TurnCancelled, TurnCompleted,
    TurnFailed, TurnFailure, TurnInterrupted, UserMessage, World,
};

verus! {

/// The first row with key `k`.
pub open spec fn first_key<V>(s: Seq<(u64, V)>, k: u64) -> Option<int>
    decreases s.len(),
{
    if s.len() == 0 {
        None
    } else {
        match first_key(s.drop_last(), k) {
            Some(i) => Some(i),
            None => if s.last().0 == k {
                Some(s.len() - 1)
            } else {
                None
            },
        }
    }
}

/// The value of key `k`: that of its first row.
pub open spec fn lookup<V>(s: Seq<(u64, V)>, k: u64) -> Option<V> {
    match first_key(s, k) {
        Some(i) => Some(s[i].1),
        None => None,
    }
}

/// `s` with key `k` set to `v`: its first row replaced, or a new row at the end.
pub open spec fn assign<V>(s: Seq<(u64, V)>, k: u64, v: V) -> Seq<(u64, V)> {
    match first_key(s, k) {
        Some(i) => s.update(i, (k, v)),
        None => s.push((k, v)),
    }
}

pub(crate) proof fn lemma_first_key<V>(s: Seq<(u64, V)>, k: u64)
    ensures
        match first_key(s, k) {
            Some(i) => 0 <= i < s.len() && s[i].0 == k && forall|j: int| 0 <= j < i ==> (#[trigger] s[j]).0 != k,
            None => forall|j: int| 0 <= j < s.len() ==> (#[trigger] s[j]).0 != k,
        },
    decreases s.len(),
{
    if s.len() > 0 {
        let t = s.drop_last();
        lemma_first_key(t, k);
        match first_key(t, k) {
            Some(x) => {
                assert forall|j: int| 0 <= j < x implies (#[trigger] s[j]).0 != k by {
                    assert(s[j] == t[j]);
                }
            },
            None => {
                assert forall|j: int| 0 <= j < s.len() - 1 implies (#[trigger] s[j]).0 != k by {
                    assert(s[j] == t[j]);
                }
            },
        }
    }
}

proof fn lemma_first_key_at<V>(s: Seq<(u64, V)>, k: u64, i: int)
    requires
        0 <= i < s.len(),
        s[i].0 == k,
        forall|j: int| 0 <= j < i ==> (#[trigger] s[j]).0 != k,
    ensures
        first_key(s, k) == Some(i),
{
    lemma_first_key(s, k);
    match first_key(s, k) {
        Some(x) => {
            if x < i {
                assert(s[x].0 != k);
            } else if i < x {
                assert(s[i].0 != k);
            }
        },
        None => {
            assert(s[i].0 != k);
        },
    }
}

proof fn lemma_first_key_none<V>(s: Seq<(u64, V)>, k: u64)
    requires
        forall|j: int| 0 <= j < s.len() ==> (#[trigger] s[j]).0 != k,
    ensures
        first_key(s, k) is None,
{
    lemma_first_key(s, k);
    if let Some(x) = first_key(s, k) {
        assert(s[x].0 != k);
    }
}

fn key_index<V>(v: &Vec<(u64, V)>, k: u64) -> (r: Option<usize>)
    ensures
        match r {
            Some(i) => first_key(v@, k) == Some(i as int) && i < v@.len(),
            None => first_key(v@, k) is None,
        },
{
    let mut i: usize = 0;
    while i < v.len()
        invariant
            i <= v@.len(),
            forall|j: int| 0 <= j < i ==> (#[trigger] v@[j]).0 != k,
        decreases v.len() - i,
    {
        if v[i].0 == k {
            proof {
                lemma_first_key_at(v@, k, i as int);
            }
            return Some(i);
        }
        i = i + 1;
    }
    proof {
        lemma_first_key_none(v@, k);
    }
    None
}

/// Returns the value of key `k`; see [`lookup`].
fn get_key<V: Copy>(v: &Vec<(u64, V)>, k: u64) -> (r: Option<V>)
    ensures
        r == lookup(v@, k),
{
    match key_index(v, k) {
        Some(i) => Some(v[i].1),
        None => None,
    }
}

/// Sets key `k` to `val`; see [`assign`].
fn set_key<V>(v: &mut Vec<(u64, V)>, k: u64, val: V)
    ensures
        final(v)@ == assign(old(v)@, k, val),
{
    match key_index(v, k) {
        Some(i) => {
            v.remove(i);
            v.insert(i, (k, val));
            assert(v@ =~= assign(old(v)@, k, val));
        },
        None => {
            v.push((k, val));
        },
    }
}

/// The first row with text key `k`.
pub open spec fn first_text(s: Seq<(Seq<char>, Entity)>, k: Seq<char>) -> Option<int>
    decreases s.len(),
{
    if s.len() == 0 {
        None
    } else {
        match first_text(s.drop_last(), k) {
            Some(i) => Some(i),
            None => if s.last().0 == k {
                Some(s.len() - 1)
            } else {
                None
            },
        }
    }
}

/// The text-keyed entries as values.
pub open spec fn text_views(s: Seq<(String, Entity)>) -> Seq<(Seq<char>, Entity)> {
    s.map_values(|x: (String, Entity)| (x.0@, x.1))
}

pub(crate) proof fn lemma_first_text(s: Seq<(Seq<char>, Entity)>, k: Seq<char>)
    ensures
        match first_text(s, k) {
            Some(i) => 0 <= i < s.len() && s[i].0 == k && forall|j: int| 0 <= j < i ==> (#[trigger] s[j]).0 != k,
            None => forall|j: int| 0 <= j < s.len() ==> (#[trigger] s[j]).0 != k,
        },
    decreases s.len(),
{
    if s.len() > 0 {
        let t = s.drop_last();
        lemma_first_text(t, k);
        match first_text(t, k) {
            Some(x) => {
                assert forall|j: int| 0 <= j < x implies (#[trigger] s[j]).0 != k by {
                    assert(s[j] == t[j]);
                }
            },
            None => {
                assert forall|j: int| 0 <= j < s.len() - 1 implies (#[trigger] s[j]).0 != k by {
                    assert(s[j] == t[j]);
                }
            },
        }
    }
}

fn text_index(v: &Vec<(String, Entity)>, k: &String) -> (r: Option<usize>)
    ensures
        match r {
            Some(i) => first_text(text_views(v@), k@) == Some(i as int) && i < v@.len(),
            None => first_text(text_views(v@), k@) is None,
        },
{
    let ghost s = text_views(v@);
    let mut i: usize = 0;
    while i < v.len()
        invariant
            s == text_views(v@),
            i <= v@.len(),
            forall|j: int| 0 <= j < i ==> (#[trigger] s[j]).0 != k@,
        decreases v.len() - i,
    {
        if str_eq(v[i].0.as_str(), k.as_str()) {
            proof {
                lemma_first_text(s, k@);
                match first_text(s, k@) {
                    Some(x) => {
                        if x < i {
                            assert(s[x].0 != k@);
                        } else if i < x {
                            assert(s[i as int].0 != k@);
                        }
                    },
                    None => {
                        assert(s[i as int].0 != k@);
                    },
                }
            }
            return Some(i);
        }
        i = i + 1;
    }
    proof {
        lemma_first_text(s, k@);
        if let Some(x) = first_text(s, k@) {
            assert(s[x].0 != k@);
        }
    }
    None
}

/// Where replay put each persisted identity.
#[derive(Debug)]
pub struct ReplayState {
    pub sessions: Vec<(u64, Entity)>,
    pub turns: Vec<(u64, Entity)>,
    pub user_messages: Vec<(u64, Entity)>,
    pub assistant_messages: Vec<(u64, Entity)>,
    pub requests: Vec<(u64, Entity)>,
    pub responses: Vec<(String, Entity)>,
    pub tool_uses: Vec<(u64, Entity)>,
    pub context_cameras: Vec<(u64, Entity)>,
    pub pending_heads: Vec<(u64, Option<u64>)>,
}

impl ReplayState {
    /// Nothing replayed yet.
    pub fn new() -> (r: ReplayState)
        ensures
            r.sessions@.len() == 0,
            r.turns@.len() == 0,
            r.user_messages@.len() == 0,
            r.assistant_messages@.len() == 0,
            r.requests@.len() == 0,
            r.responses@.len() == 0,
            r.tool_uses@.len() == 0,
            r.context_cameras@.len() == 0,
            r.pending_heads@.len() == 0,
    {
        ReplayState {
            sessions: Vec::new(),
            turns: Vec::new(),
            user_messages: Vec::new(),
            assistant_messages: Vec::new(),
            requests: Vec::new(),
            responses: Vec::new(),
            tool_uses: Vec::new(),
            context_cameras: Vec::new(),
            pending_heads: Vec::new(),
        }
    }
}

/// Table `s` with entity `e`'s row set to `v`: its first row replaced, or a new row at the end.
pub open spec fn upsert_row<T>(s: Seq<(Entity, T)>, e: Entity, v: T) -> Seq<(Entity, T)> {
    match find(s, e) {
        Some(k) => s.update(k, (e, v)),
        None => s.push((e, v)),
    }
}

/// `f` is `s` with entity `e`'s first row, or a new last row, holding a value that satisfies `p`.
pub open spec fn upserted<T>(s: Seq<(Entity, T)>, f: Seq<(Entity, T)>, e: Entity, p: spec_fn(T) -> bool) -> bool {
    match find(s, e) {
        Some(k) => {
            &&& f.len() == s.len()
            &&& forall|j: int| 0 <= j < s.len() && j != k ==> #[trigger] f[j] == s[j]
            &&& f[k].0 == e
            &&& p(f[k].1)
        },
        None => pushed(s, f, e, p),
    }
}

/// `f` is `s` with a new last row for entity `e` holding a value that satisfies `p`.
pub open spec fn pushed<T>(s: Seq<(Entity, T)>, f: Seq<(Entity, T)>, e: Entity, p: spec_fn(T) -> bool) -> bool {
    &&& f.len() == s.len() + 1
    &&& forall|j: int| 0 <= j < s.len() ==> #[trigger] f[j] == s[j]
    &&& f.last().0 == e
    &&& p(f.last().1)
}

/// The world tables that replaying one record may change.
pub enum WorldTable {
    Nothing,
    ContextCameras,
    Turns,
    UserMessages,
    AssistantMessages,
    ModelRequests,
    ModelResponses,
    ToolUses,
    ToolOutcomes,
    TurnsCompleted,
    TurnsCancelled,
    TurnsInterrupted,
    TurnsFailed,
    Sessions,
    BranchSelections,
    ModelChanges,
    Compactions,
    Recoveries,
}

/// Every table of `f` but `a` and `b` equals that of `w`, and so do the resources.
pub open spec fn world_frame(w: World, f: World, a: WorldTable, b: WorldTable) -> bool {
    &&& f.same_capabilities(w)
    &&& (a !is ContextCameras && b !is ContextCameras ==> f.context_cameras@ == w.context_cameras@)
    &&& (a !is Turns && b !is Turns ==> f.turns@ == w.turns@)
    &&& (a !is UserMessages && b !is UserMessages ==> f.user_messages@ == w.user_messages@)
    &&& (a !is AssistantMessages && b !is AssistantMessages ==> f.assistant_messages@ == w.assistant_messages@)
    &&& (a !is ModelRequests && b !is ModelRequests ==> f.model_requests@ == w.model_requests@)
    &&& (a !is ModelResponses && b !is ModelResponses ==> f.model_responses@ == w.model_responses@)
    &&& (a !is ToolUses && b !is ToolUses ==> f.tool_uses@ == w.tool_uses@)
    &&& (a !is ToolOutcomes && b !is ToolOutcomes ==> f.tool_outcomes@ == w.tool_outcomes@)
    &&& (a !is TurnsCompleted && b !is TurnsCompleted ==> f.turns_completed@ == w.turns_completed@)
    &&& (a !is TurnsCancelled && b !is TurnsCancelled ==> f.turns_cancelled@ == w.turns_cancelled@)
    &&& (a !is TurnsInterrupted && b !is TurnsInterrupted ==> f.turns_interrupted@ == w.turns_interrupted@)
    &&& (a !is TurnsFailed && b !is TurnsFailed ==> f.turns_failed@ == w.turns_failed@)
    &&& (a !is Sessions && b !is Sessions ==> f.sessions@ == w.sessions@)
    &&& (a !is BranchSelections && b !is BranchSelections ==> f.branch_selections@ == w.branch_selections@)
    &&& (a !is ModelChanges && b !is ModelChanges ==> f.model_changes@ == w.model_changes@)
    &&& (a !is Compactions && b !is Compactions ==> f.compactions@ == w.compactions@)
    &&& (a !is Recoveries && b !is Recoveries ==> f.recoveries@ == w.recoveries@)
    &&& f.persistence_failures@ == w.persistence_failures@
    &&& f.transcript_cameras@ == w.transcript_cameras@
    &&& f.model_tasks@ == w.model_tasks@
    &&& f.tool_tasks@ == w.tool_tasks@
    &&& f.same_resources(w)
}

/// The replay maps that replaying one record may change.
pub enum ReplayTable {
    Nothing,
    Turns,
    UserMessages,
    AssistantMessages,
    Requests,
    Responses,
    ToolUses,
    ContextCameras,
    PendingHeads,
}

/// Every map of `r2` but `t` equals that of `r`.
pub open spec fn replay_frame(r: ReplayState, r2: ReplayState, t: ReplayTable) -> bool {
    &&& r2.sessions@ == r.sessions@
    &&& (t !is Turns ==> r2.turns@ == r.turns@)
    &&& (t !is UserMessages ==> r2.user_messages@ == r.user_messages@)
    &&& (t !is AssistantMessages ==> r2.assistant_messages@ == r.assistant_messages@)
    &&& (t !is Requests ==> r2.requests@ == r.requests@)
    &&& (t !is Responses ==> text_views(r2.responses@) == text_views(r.responses@))
    &&& (t !is ToolUses ==> r2.tool_uses@ == r.tool_uses@)
    &&& (t !is ContextCameras ==> r2.context_cameras@ == r.context_cameras@)
    &&& (t !is PendingHeads ==> r2.pending_heads@ == r.pending_heads@)
}

/// Models named `m` that `provider` serves.
pub open spec fn model_named(provider: Entity, m: Seq<char>) -> spec_fn((Entity, Model)) -> bool {
    |r: (Entity, Model)| r.1.provider == provider && r.1.model_id@ == m
}

/// Tools with ToolId `t`.
pub open spec fn tool_with_id(t: u64) -> spec_fn((Entity, ToolDefinition)) -> bool {
    |r: (Entity, ToolDefinition)| r.1.tool_id.0 == t
}

/// The Model entity named `m` of the first Provider with ProviderId `p`.
pub open spec fn model_entity(w: World, m: Seq<char>, p: u64) -> Option<Entity> {
    match provider_index(w, p) {
        Some(i) => match first_index(w.models@, model_named(w.providers@[i].0, m)) {
            Some(j) => Some(w.models@[j].0),
            None => None,
        },
        None => None,
    }
}

/// The first Agent of Model entity `m`.
pub open spec fn agent_entity(w: World, m: Entity) -> Option<Entity> {
    match first_index(w.agents@, agent_of(m)) {
        Some(j) => Some(w.agents@[j].0),
        None => None,
    }
}

/// The first tool with ToolId `t`.
pub open spec fn tool_entity(w: World, t: u64) -> Option<Entity> {
    match first_index(w.tools@, tool_with_id(t)) {
        Some(j) => Some(w.tools@[j].0),
        None => None,
    }
}

/// The Provider that Model entity `m` names.
pub open spec fn provider_of(w: World, m: Entity) -> Entity {
    get(w.models@, m).unwrap().provider
}

/// The entity replay reuses for a known identity, or the fresh entity `ne`.
pub open spec fn reuse_or(known: Option<Entity>, ne: u64) -> Entity {
    match known {
        Some(e) => e,
        None => Entity(ne),
    }
}

/// The Turn entity of stable Turn ID `t`.
pub open spec fn turn_of(r: ReplayState, t: u64) -> Option<Entity> {
    lookup(r.turns@, t)
}

/// Replaying event `e` of Session `sid` fails: its Session, or an entity or capability it
/// references, is unknown.
#[verifier::opaque]
pub open spec fn record_fails(w: World, r: ReplayState, sid: SessionId, e: EventView) -> bool {
    lookup(r.sessions@, sid.0) is None || match e {
        EventView::Session { .. } => false,
        EventView::ContextCamera { .. } => w.agents@.len() == 0,
        EventView::Turn { parent, .. } => parent matches Some(p) && turn_of(r, p) is None,
        EventView::UserMessage { turn, .. } => turn_of(r, turn) is None,
        EventView::AssistantMessage { turn, .. } => turn_of(r, turn) is None,
        EventView::ModelRequest { turn, model_id, provider_id, previous_tool_use, .. } => {
            ||| turn_of(r, turn) is None
            ||| model_entity(w, model_id, provider_id) is None
            ||| agent_entity(w, model_entity(w, model_id, provider_id).unwrap()) is None
            ||| previous_tool_use matches Some(t) && lookup(r.tool_uses@, t) is None
        },
        EventView::ModelResponse { request, turn, model_id, provider_id, .. } => {
            ||| lookup(r.requests@, request) is None
            ||| turn_of(r, turn) is None
            ||| model_entity(w, model_id, provider_id) is None
        },
        EventView::ToolUse { turn, tool_id, model_id, provider_id, .. } => {
            ||| turn_of(r, turn) is None
            ||| model_entity(w, model_id, provider_id) is None
            ||| agent_entity(w, model_entity(w, model_id, provider_id).unwrap()) is None
            ||| tool_entity(w, tool_id) is None
        },
        EventView::ToolOutcome { tool_use, turn, .. } => lookup(r.tool_uses@, tool_use) is None || turn_of(r, turn) is None,
        EventView::TurnCompleted { turn, .. } => turn_of(r, turn) is None,
        EventView::TurnCancelled { turn, .. } => turn_of(r, turn) is None,
        EventView::TurnInterrupted { turn, .. } => turn_of(r, turn) is None,
        EventView::TurnFailed { turn, .. } => turn_of(r, turn) is None,
        EventView::BranchSelection { head, .. } => turn_of(r, head) is None,
        EventView::ModelChange { turn, model_id, provider_id, .. } => model_entity(w, model_id, provider_id) is None
            || turn_of(r, turn) is None,
        EventView::Compaction { turn, .. } => turn_of(r, turn) is None,
        EventView::Recovery { turn, .. } => turn_of(r, turn) is None,
    }
}

/// The failure a persisted failure record stands for.
pub open spec fn failure_matches(f: TurnFailure, kind: StoredTurnFailureKind, message: Seq<char>) -> bool {
    match kind {
        StoredTurnFailureKind::Provider => f matches TurnFailure::Provider(p) && p.message@ == message,
        StoredTurnFailureKind::Tool => f matches TurnFailure::Tool(t) && t.message@ == message,
        StoredTurnFailureKind::Recovery => f matches TurnFailure::Recovery(x) && x.message@ == message,
    }
}

/// A user message with these fields.
pub open spec fn user_message_is(id: u64, t: Entity, sequence: u64, text: Seq<char>) -> spec_fn(UserMessage) -> bool {
    |x: UserMessage| x.id == MessageId(id) && x.turn == t && x.sequence == Sequence(sequence) && x.text@ == text
}

/// An assistant message with these fields.
pub open spec fn assistant_message_is(id: u64, t: Entity, sequence: u64, text: Seq<char>) -> spec_fn(AssistantMessage) -> bool {
    |x: AssistantMessage| x.id == MessageId(id) && x.turn == t && x.sequence == Sequence(sequence) && x.text@ == text
}

/// The ModelResponse a response record stands for, given its resolved entities.
pub open spec fn response_is(e: EventView, q: Entity, t: Entity, model: Entity, provider: Entity) -> spec_fn(ModelResponse) -> bool {
    |v: ModelResponse|
        e matches EventView::ModelResponse {
            generation,
            response_id,
            api,
            input_tokens,
            output_tokens,
            stop_reason,
            opaque_replay,
            sequence,
            ..
        } && {
            &&& v.request == q
            &&& v.turn == t
            &&& v.model == model
            &&& v.generation == generation
            &&& v.provider == provider
            &&& v.response_id@ == response_id
            &&& v.api == api
            &&& v.usage == (ModelUsage { input_tokens, output_tokens })
            &&& v.stop_reason == stop_reason
            &&& v.opaque_replay@ == opaque_replay
            &&& v.sequence == Sequence(sequence)
        }
}

/// The ToolUse a tool-use record stands for, given its resolved entities.
pub open spec fn tool_use_is(e: EventView, t: Entity, agent: Entity, tool: Entity, model: Entity, provider: Entity) -> spec_fn(ToolUse) -> bool {
    |v: ToolUse|
        e matches EventView::ToolUse { id, generation, input, status, sequence, .. } && {
            &&& v.id == ToolCallId(id)
            &&& v.turn == t
            &&& v.agent == agent
            &&& v.tool == tool
            &&& v.model == model
            &&& v.provider == provider
            &&& v.generation == generation
            &&& v.input@ == input
            &&& v.status == status
            &&& v.sequence == Sequence(sequence)
        }
}

/// The ToolOutcome a tool-outcome record stands for, given its resolved entities.
pub open spec fn tool_outcome_is(e: EventView, u: Entity, t: Entity) -> spec_fn(ToolOutcome) -> bool {
    |v: ToolOutcome|
        e matches EventView::ToolOutcome { tool_call_id, generation, output, sequence, .. } && v.tool_use == u
            && v.tool_call_id == ToolCallId(tool_call_id) && v.turn == t && v.generation == generation && v.output@ == output
            && v.sequence == Sequence(sequence)
}

/// The TurnFailed a failure record stands for, given its Turn entity.
pub open spec fn turn_failed_is(e: EventView, t: Entity) -> spec_fn(TurnFailed) -> bool {
    |v: TurnFailed|
        e matches EventView::TurnFailed { generation, kind, message, sequence, .. } && v.turn == t && v.generation == generation
            && failure_matches(v.failure, kind, message) && v.sequence == Sequence(sequence)
}

/// A compaction with these fields.
pub open spec fn compaction_is(t: Entity, summary: Seq<char>, sequence: u64) -> spec_fn(Compaction) -> bool {
    |v: Compaction| v.turn == t && v.summary@ == summary && v.sequence == Sequence(sequence)
}

/// A recovery note with these fields.
pub open spec fn recovery_is(t: Entity, text: Seq<char>, sequence: u64) -> spec_fn(Recovery) -> bool {
    |v: Recovery| v.turn == t && v.text@ == text && v.sequence == Sequence(sequence)
}

/// `f` and `r2` are `w` and `r` after replaying event `e` of Session `sid`, which does not fail.
#[verifier::opaque]
pub open spec fn record_applied(w: World, r: ReplayState, sid: SessionId, e: EventView, f: World, r2: ReplayState) -> bool {
    let s = lookup(r.sessions@, sid.0).unwrap();
    let ne = w.next_entity;
    match e {
        EventView::Session { active_head, .. } => {
            &&& f.same_world(w)
            &&& r2.pending_heads@ == assign(r.pending_heads@, sid.0, active_head)
            &&& replay_frame(r, r2, ReplayTable::PendingHeads)
        },
        EventView::ContextCamera { budget } => {
            let known = lookup(r.context_cameras@, sid.0);
            let c = reuse_or(known, ne);
            let head = match get(w.sessions@, s) {
                Some(x) => x.active_head,
                None => None,
            };
            let cam = ContextCamera { agent: w.agents@[0].0, session: s, head, budget, persistent: true };
            &&& f.context_cameras@ == (if known is Some { upsert_row(w.context_cameras@, c, cam) } else {
                w.context_cameras@.push((c, cam))
            })
            &&& f.next_entity == (if known is Some { ne } else { (ne + 1) as u64 })
            &&& r2.context_cameras@ == assign(r.context_cameras@, sid.0, c)
            &&& world_frame(w, f, WorldTable::ContextCameras, WorldTable::Nothing)
            &&& replay_frame(r, r2, ReplayTable::ContextCameras)
        },
        EventView::Turn { id, parent, sequence, generation } => {
            let known = turn_of(r, id);
            let t = reuse_or(known, ne);
            let parent_entity = match parent {
                Some(p) => Some(turn_of(r, p).unwrap()),
                None => None,
            };
            let turn = Turn { id: TurnId(id), session: s, parent: parent_entity, sequence: Sequence(sequence), generation };
            &&& f.turns@ == (if known is Some { upsert_row(w.turns@, t, turn) } else { w.turns@.push((t, turn)) })
            &&& f.next_entity == (if known is Some { ne } else { (ne + 1) as u64 })
            &&& r2.turns@ == (if known is Some { r.turns@ } else { assign(r.turns@, id, t) })
            &&& world_frame(w, f, WorldTable::Turns, WorldTable::Nothing)
            &&& replay_frame(r, r2, ReplayTable::Turns)
        },
        EventView::UserMessage { id, turn, sequence, text } => {
            let known = lookup(r.user_messages@, id);
            let m = reuse_or(known, ne);
            let t = turn_of(r, turn).unwrap();
            let p = user_message_is(id, t, sequence, text);
            &&& if known is Some { upserted(w.user_messages@, f.user_messages@, m, p) } else {
                pushed(w.user_messages@, f.user_messages@, m, p)
            }
            &&& f.next_entity == (if known is Some { ne } else { (ne + 1) as u64 })
            &&& r2.user_messages@ == (if known is Some { r.user_messages@ } else { assign(r.user_messages@, id, m) })
            &&& world_frame(w, f, WorldTable::UserMessages, WorldTable::Nothing)
            &&& replay_frame(r, r2, ReplayTable::UserMessages)
        },
        EventView::AssistantMessage { id, turn, sequence, text } => {
            let known = lookup(r.assistant_messages@, id);
            let m = reuse_or(known, ne);
            let t = turn_of(r, turn).unwrap();
            let p = assistant_message_is(id, t, sequence, text);
            &&& if known is Some { upserted(w.assistant_messages@, f.assistant_messages@, m, p) } else {
                pushed(w.assistant_messages@, f.assistant_messages@, m, p)
            }
            &&& f.next_entity == (if known is Some { ne } else { (ne + 1) as u64 })
            &&& r2.assistant_messages@ == (if known is Some { r.assistant_messages@ } else { assign(r.assistant_messages@, id, m) })
            &&& world_frame(w, f, WorldTable::AssistantMessages, WorldTable::Nothing)
            &&& replay_frame(r, r2, ReplayTable::AssistantMessages)
        },
        EventView::ModelRequest { id, turn, model_id, provider_id, generation, previous_tool_use, status, sequence } => {
            let known = lookup(r.requests@, id);
            let q = reuse_or(known, ne);
            let model = model_entity(w, model_id, provider_id).unwrap();
            let req = ModelRequest {
                id: ModelRequestId(id),
                turn: turn_of(r, turn).unwrap(),
                agent: agent_entity(w, model).unwrap(),
                model,
                provider: provider_of(w, model),
                generation,
                previous_tool_use: match previous_tool_use {
                    Some(x) => Some(lookup(r.tool_uses@, x).unwrap()),
                    None => None,
                },
                status,
                sequence: Sequence(sequence),
            };
            &&& f.model_requests@ == (if known is Some { upsert_row(w.model_requests@, q, req) } else {
                w.model_requests@.push((q, req))
            })
            &&& f.next_entity == (if known is Some { ne } else { (ne + 1) as u64 })
            &&& r2.requests@ == (if known is Some { r.requests@ } else { assign(r.requests@, id, q) })
            &&& world_frame(w, f, WorldTable::ModelRequests, WorldTable::Nothing)
            &&& replay_frame(r, r2, ReplayTable::Requests)
        },
        EventView::ModelResponse {
            request,
            turn,
            model_id,
            provider_id,
            generation,
            response_id,
            api,
            input_tokens,
            output_tokens,
            stop_reason,
            opaque_replay,
            sequence,
        } => {
            let rv = text_views(r.responses@);
            let known = match first_text(rv, response_id) {
                Some(i) => Some(rv[i].1),
                None => None,
            };
            let x = reuse_or(known, ne);
            let model = model_entity(w, model_id, provider_id).unwrap();
            let qe = lookup(r.requests@, request).unwrap();
            let t = turn_of(r, turn).unwrap();
            let p = response_is(e, qe, t, model, provider_of(w, model));
            &&& if known is Some { upserted(w.model_responses@, f.model_responses@, x, p) } else {
                pushed(w.model_responses@, f.model_responses@, x, p)
            }
            &&& f.next_entity == (if known is Some { ne } else { (ne + 1) as u64 })
            &&& text_views(r2.responses@) == (if known is Some { rv } else { rv.push((response_id, x)) })
            &&& world_frame(w, f, WorldTable::ModelResponses, WorldTable::Nothing)
            &&& replay_frame(r, r2, ReplayTable::Responses)
        },
        EventView::ToolUse { id, turn, tool_id, model_id, provider_id, generation, input, status, sequence } => {
            let known = lookup(r.tool_uses@, id);
            let u = reuse_or(known, ne);
            let model = model_entity(w, model_id, provider_id).unwrap();
            let t = turn_of(r, turn).unwrap();
            let p = tool_use_is(e, t, agent_entity(w, model).unwrap(), tool_entity(w, tool_id).unwrap(), model, provider_of(w, model));
            &&& if known is Some { upserted(w.tool_uses@, f.tool_uses@, u, p) } else { pushed(w.tool_uses@, f.tool_uses@, u, p) }
            &&& f.next_entity == (if known is Some { ne } else { (ne + 1) as u64 })
            &&& r2.tool_uses@ == (if known is Some { r.tool_uses@ } else { assign(r.tool_uses@, id, u) })
            &&& world_frame(w, f, WorldTable::ToolUses, WorldTable::Nothing)
            &&& replay_frame(r, r2, ReplayTable::ToolUses)
        },
        EventView::ToolOutcome { tool_use, tool_call_id, turn, generation, output, sequence } => {
            let ue = lookup(r.tool_uses@, tool_use).unwrap();
            let t = turn_of(r, turn).unwrap();
            &&& pushed(w.tool_outcomes@, f.tool_outcomes@, Entity(ne), tool_outcome_is(e, ue, t))
            &&& f.next_entity == ne + 1
            &&& world_frame(w, f, WorldTable::ToolOutcomes, WorldTable::Nothing)
            &&& replay_frame(r, r2, ReplayTable::Nothing)
        },
        EventView::TurnCompleted { turn, generation, sequence } => {
            &&& f.turns_completed@ == w.turns_completed@.push(
                (Entity(ne), TurnCompleted { turn: turn_of(r, turn).unwrap(), generation, sequence: Sequence(sequence) }),
            )
            &&& f.next_entity == ne + 1
            &&& world_frame(w, f, WorldTable::TurnsCompleted, WorldTable::Nothing)
            &&& replay_frame(r, r2, ReplayTable::Nothing)
        },
        EventView::TurnCancelled { turn, generation, sequence } => {
            &&& f.turns_cancelled@ == w.turns_cancelled@.push(
                (Entity(ne), TurnCancelled { turn: turn_of(r, turn).unwrap(), generation, sequence: Sequence(sequence) }),
            )
            &&& f.next_entity == ne + 1
            &&& world_frame(w, f, WorldTable::TurnsCancelled, WorldTable::Nothing)
            &&& replay_frame(r, r2, ReplayTable::Nothing)
        },
        EventView::TurnInterrupted { turn, generation, sequence } => {
            &&& f.turns_interrupted@ == w.turns_interrupted@.push(
                (Entity(ne), TurnInterrupted { turn: turn_of(r, turn).unwrap(), generation, sequence: Sequence(sequence) }),
            )
            &&& f.next_entity == ne + 1
            &&& world_frame(w, f, WorldTable::TurnsInterrupted, WorldTable::Nothing)
            &&& replay_frame(r, r2, ReplayTable::Nothing)
        },
        EventView::TurnFailed { turn, generation, kind, message, sequence } => {
            let t = turn_of(r, turn).unwrap();
            &&& pushed(w.turns_failed@, f.turns_failed@, Entity(ne), turn_failed_is(e, t))
            &&& f.next_entity == ne + 1
            &&& world_frame(w, f, WorldTable::TurnsFailed, WorldTable::Nothing)
            &&& replay_frame(r, r2, ReplayTable::Nothing)
        },
        EventView::BranchSelection { head, sequence } => {
            let h = turn_of(r, head).unwrap();
            let k = find(w.sessions@, s).unwrap();
            &&& f.sessions@ == w.sessions@.update(k, (s, crate::world::Session { active_head: Some(h), ..w.sessions@[k].1 }))
            &&& f.branch_selections@ == w.branch_selections@.push((Entity(ne), BranchSelection { session: s, head: h, sequence: Sequence(sequence) }))
            &&& f.next_entity == ne + 1
            &&& world_frame(w, f, WorldTable::Sessions, WorldTable::BranchSelections)
            &&& replay_frame(r, r2, ReplayTable::Nothing)
        },
        EventView::ModelChange { turn, model_id, provider_id, sequence } => {
            &&& f.model_changes@ == w.model_changes@.push(
                (Entity(ne), ModelChange {
                    turn: turn_of(r, turn).unwrap(),
                    model: model_entity(w, model_id, provider_id).unwrap(),
                    sequence: Sequence(sequence),
                }),
            )
            &&& f.next_entity == ne + 1
            &&& world_frame(w, f, WorldTable::ModelChanges, WorldTable::Nothing)
            &&& replay_frame(r, r2, ReplayTable::Nothing)
        },
        EventView::Compaction { turn, summary, sequence } => {
            let t = turn_of(r, turn).unwrap();
            &&& pushed(w.compactions@, f.compactions@, Entity(ne), compaction_is(t, summary, sequence))
            &&& f.next_entity == ne + 1
            &&& world_frame(w, f, WorldTable::Compactions, WorldTable::Nothing)
            &&& replay_frame(r, r2, ReplayTable::Nothing)
        },
        EventView::Recovery { turn, text, sequence } => {
            let t = turn_of(r, turn).unwrap();
            &&& pushed(w.recoveries@, f.recoveries@, Entity(ne), recovery_is(t, text, sequence))
            &&& f.next_entity == ne + 1
            &&& world_frame(w, f, WorldTable::Recoveries, WorldTable::Nothing)
            &&& replay_frame(r, r2, ReplayTable::Nothing)
        },
    }
}

pub(crate) proof fn lemma_upserted<T>(s: Seq<(Entity, T)>, e: Entity, v: T, p: spec_fn(T) -> bool)
    requires
        p(v),
    ensures
        upserted(s, upsert_row(s, e, v), e, p),
{
    lemma_find(s, e);
}

proof fn lemma_pushed<T>(s: Seq<(Entity, T)>, e: Entity, v: T, p: spec_fn(T) -> bool)
    requires
        p(v),
    ensures
        pushed(s, s.push((e, v)), e, p),
{
}

fn upsert<T>(v: &mut Vec<(Entity, T)>, e: Entity, val: T)
    ensures
        final(v)@ == upsert_row(old(v)@, e, val),
{
    match position(v, e) {
        Some(k) => {
            proof {
                lemma_find(v@, e);
            }
            v.remove(k);
            v.insert(k, (e, val));
            assert(v@ =~= upsert_row(old(v)@, e, val));
        },
        None => {
            v.push((e, val));
        },
    }
}

/// The Turn ID that event `e` references besides a parent: its Turn, or a branch's head.
pub open spec fn turn_ref(e: EventView) -> Option<u64> {
    match e {
        EventView::UserMessage { turn, .. } => Some(turn),
        EventView::AssistantMessage { turn, .. } => Some(turn),
        EventView::ModelRequest { turn, .. } => Some(turn),
        EventView::ModelResponse { turn, .. } => Some(turn),
        EventView::ToolUse { turn, .. } => Some(turn),
        EventView::ToolOutcome { turn, .. } => Some(turn),
        EventView::TurnCompleted { turn, .. } => Some(turn),
        EventView::TurnCancelled { turn, .. } => Some(turn),
        EventView::TurnInterrupted { turn, .. } => Some(turn),
        EventView::TurnFailed { turn, .. } => Some(turn),
        EventView::ModelChange { turn, .. } => Some(turn),
        EventView::Compaction { turn, .. } => Some(turn),
        EventView::Recovery { turn, .. } => Some(turn),
        EventView::BranchSelection { head, .. } => Some(head),
        _ => None,
    }
}

/// The model ID and ProviderId that event `e` references.
pub open spec fn model_ref_of(e: EventView) -> Option<(Seq<char>, u64)> {
    match e {
        EventView::ModelRequest { model_id, provider_id, .. } => Some((model_id, provider_id)),
        EventView::ModelResponse { model_id, provider_id, .. } => Some((model_id, provider_id)),
        EventView::ToolUse { model_id, provider_id, .. } => Some((model_id, provider_id)),
        EventView::ModelChange { model_id, provider_id, .. } => Some((model_id, provider_id)),
        _ => None,
    }
}

/// The message of a model reference that names no Model: the ProviderId is missing, or the
/// Provider has no Model of that ID.
pub open spec fn missing_model_message(w: World, m: Seq<char>, p: u64) -> Seq<char> {
    if crate::replay::provider_index(w, p) is None {
        "missing ProviderId "@ + decimal(p as nat)
    } else {
        "missing model \""@ + m + "\" for ProviderId "@ + decimal(p as nat)
    }
}

/// The message of a missing replayed Turn.
pub open spec fn missing_turn_message(t: u64) -> Seq<char> {
    "missing replay TurnId "@ + decimal(t as nat)
}

/// The message of a missing replayed ToolUse.
pub open spec fn missing_tool_use_message(x: u64) -> Seq<char> {
    "missing replay ToolCallId "@ + decimal(x as nat)
}

/// The message of the first failing check of a model reference: the Model must exist, then have
/// an Agent.
pub open spec fn model_check_message(w: World, m: Seq<char>, p: u64) -> Option<Seq<char>> {
    match model_entity(w, m, p) {
        None => Some(missing_model_message(w, m, p)),
        Some(me) => if agent_entity(w, me) is None { Some("missing Agent for persisted Model"@) } else { None },
    }
}

/// Why replaying event `e` of Session `sid` into `w` with `r` fails, checked in order: the Session
/// must be known; then, per kind of event, its references in the order the replay resolves them
/// (a request: its Turn, Model, the Model's Agent, then its previous ToolUse; a response: its
/// request, Turn, then Model; a ToolUse: its Turn, Model, the Model's Agent, then its tool; a tool
/// outcome: its ToolUse, then Turn; a model change: its Model, then Turn).
pub open spec fn record_message(w: World, r: ReplayState, sid: SessionId, e: EventView) -> Seq<char> {
    if lookup(r.sessions@, sid.0) is None {
        "missing replay Session SessionId("@ + decimal(sid.0 as nat) + ")"@
    } else {
        match e {
            EventView::ContextCamera { .. } => "Persistence load failed: no Agent capability registered."@,
            EventView::Turn { id, parent, .. } => match parent {
                Some(p) => "missing replay parent TurnId "@ + decimal(p as nat) + " for TurnId "@ + decimal(id as nat),
                None => Seq::empty(),
            },
            EventView::ModelRequest { turn, model_id, provider_id, previous_tool_use, .. } =>
                if turn_of(r, turn) is None {
                    missing_turn_message(turn)
                } else if model_check_message(w, model_id, provider_id) is Some {
                    model_check_message(w, model_id, provider_id).unwrap()
                } else {
                    missing_tool_use_message(previous_tool_use.unwrap())
                },
            EventView::ModelResponse { request, turn, model_id, provider_id, .. } =>
                if lookup(r.requests@, request) is None {
                    "missing replay ModelRequestId "@ + decimal(request as nat)
                } else if turn_of(r, turn) is None {
                    missing_turn_message(turn)
                } else {
                    missing_model_message(w, model_id, provider_id)
                },
            EventView::ToolUse { turn, model_id, provider_id, tool_id, .. } =>
                if turn_of(r, turn) is None {
                    missing_turn_message(turn)
                } else if model_check_message(w, model_id, provider_id) is Some {
                    model_check_message(w, model_id, provider_id).unwrap()
                } else {
                    "missing ToolId "@ + decimal(tool_id as nat)
                },
            EventView::ToolOutcome { tool_use, turn, .. } =>
                if lookup(r.tool_uses@, tool_use) is None {
                    missing_tool_use_message(tool_use)
                } else {
                    missing_turn_message(turn)
                },
            EventView::ModelChange { turn, model_id, provider_id, .. } =>
                if model_entity(w, model_id, provider_id) is None {
                    missing_model_message(w, model_id, provider_id)
                } else {
                    missing_turn_message(turn)
                },
            EventView::BranchSelection { head, .. } => missing_turn_message(head),
            EventView::UserMessage { turn, .. } => missing_turn_message(turn),
            EventView::AssistantMessage { turn, .. } => missing_turn_message(turn),
            EventView::TurnCompleted { turn, .. } => missing_turn_message(turn),
            EventView::TurnCancelled { turn, .. } => missing_turn_message(turn),
            EventView::TurnInterrupted { turn, .. } => missing_turn_message(turn),
            EventView::TurnFailed { turn, .. } => missing_turn_message(turn),
            EventView::Compaction { turn, .. } => missing_turn_message(turn),
            EventView::Recovery { turn, .. } => missing_turn_message(turn),
            EventView::Session { .. } => Seq::empty(),
        }
    }
}

fn missing_model(w: &World, m: &String, p: u64) -> (x: String)
    ensures
        x@ == missing_model_message(*w, m@, p),
{
    match crate::replay::provider_position(w, p) {
        None => with_decimal("missing ProviderId ", p),
        Some(_) => {
            let mut x = concat("missing model \"", m.as_str());
            x.append("\" for ProviderId ");
            push_decimal(&mut x, p);
            x
        },
    }
}

fn model_position(w: &World, m: &String, p: u64) -> (r: Option<usize>)
    ensures
        match r {
            Some(j) => j < w.models@.len() && model_entity(*w, m@, p) == Some(w.models@[j as int].0),
            None => model_entity(*w, m@, p) is None,
        },
{
    let pi = match provider_position(w, p) {
        Some(i) => i,
        None => {
            return None;
        },
    };
    let provider = w.providers[pi].0;
    let ghost pred = model_named(provider, m@);
    let mut j: usize = 0;
    while j < w.models.len()
        invariant
            pred == model_named(provider, m@),
            provider_index(*w, p) == Some(pi as int),
            pi < w.providers@.len(),
            provider == w.providers@[pi as int].0,
            j <= w.models@.len(),
            forall|x: int| 0 <= x < j ==> !pred(#[trigger] w.models@[x]),
        decreases w.models.len() - j,
    {
        if w.models[j].1.provider == provider && str_eq(w.models[j].1.model_id.as_str(), m.as_str()) {
            proof {
                lemma_first_index(w.models@, pred, Some(j as int));
            }
            return Some(j);
        }
        j = j + 1;
    }
    proof {
        lemma_first_index(w.models@, pred, None);
    }
    None
}

fn agent_position(w: &World, model: Entity) -> (r: Option<usize>)
    ensures
        match r {
            Some(j) => j < w.agents@.len() && agent_entity(*w, model) == Some(w.agents@[j as int].0),
            None => agent_entity(*w, model) is None,
        },
{
    let ghost pred = agent_of(model);
    let mut j: usize = 0;
    while j < w.agents.len()
        invariant
            pred == agent_of(model),
            j <= w.agents@.len(),
            forall|x: int| 0 <= x < j ==> !pred(#[trigger] w.agents@[x]),
        decreases w.agents.len() - j,
    {
        if w.agents[j].1.model == model {
            proof {
                lemma_first_index(w.agents@, pred, Some(j as int));
            }
            return Some(j);
        }
        j = j + 1;
    }
    proof {
        lemma_first_index(w.agents@, pred, None);
    }
    None
}

fn tool_position(w: &World, t: u64) -> (r: Option<usize>)
    ensures
        match r {
            Some(j) => j < w.tools@.len() && tool_entity(*w, t) == Some(w.tools@[j as int].0),
            None => tool_entity(*w, t) is None,
        },
{
    let ghost pred = tool_with_id(t);
    let mut j: usize = 0;
    while j < w.tools.len()
        invariant
            pred == tool_with_id(t),
            j <= w.tools@.len(),
            forall|x: int| 0 <= x < j ==> !pred(#[trigger] w.tools@[x]),
        decreases w.tools.len() - j,
    {
        if w.tools[j].1.tool_id.0 == t {
            proof {
                lemma_first_index(w.tools@, pred, Some(j as int));
            }
            return Some(j);
        }
        j = j + 1;
    }
    proof {
        lemma_first_index(w.tools@, pred, None);
    }
    None
}

fn provider_exec(w: &World, m: Entity) -> (p: Entity)
    requires
        get(w.models@, m) is Some,
    ensures
        p == provider_of(*w, m),
{
    let k = position(&w.models, m).unwrap();
    proof {
        lemma_find(w.models@, m);
    }
    w.models[k].1.provider
}

fn apply_session(world: &mut World, replay: &mut ReplayState, sid: SessionId, s: Entity, event: &Event) -> (r: Result<(), String>)
    requires
        event.view() is Session,
        lookup(old(replay).sessions@, sid.0) == Some(s),
        old(world).next_entity < u64::MAX,
    ensures
        r is Err <==> record_fails(*old(world), *old(replay), sid, event.view()),
        r is Err ==> *final(world) == *old(world) && *final(replay) == *old(replay),
        r is Ok ==> record_applied(*old(world), *old(replay), sid, event.view(), *final(world), *final(replay)),
        r matches Err(m) ==> m@ == record_message(*old(world), *old(replay), sid, event.view()),
{
    proof {
        reveal(record_fails);
        reveal(record_applied);
    }
    match event {
        Event::Session { active_head, .. } => {
            set_key(&mut replay.pending_heads, sid.0, *active_head);
            Ok(())
        },
        _ => Ok(()),
    }
}

fn apply_camera(world: &mut World, replay: &mut ReplayState, sid: SessionId, s: Entity, event: &Event) -> (r: Result<(), String>)
    requires
        event.view() is ContextCamera,
        lookup(old(replay).sessions@, sid.0) == Some(s),
        old(world).next_entity < u64::MAX,
    ensures
        r is Err <==> record_fails(*old(world), *old(replay), sid, event.view()),
        r is Err ==> *final(world) == *old(world) && *final(replay) == *old(replay),
        r is Ok ==> record_applied(*old(world), *old(replay), sid, event.view(), *final(world), *final(replay)),
        r matches Err(m) ==> m@ == record_message(*old(world), *old(replay), sid, event.view()),
{
    proof {
        reveal(record_fails);
        reveal(record_applied);
    }
    match event {
        Event::ContextCamera { budget } => {
            if world.agents.len() == 0 {
                return Err(String::from_str("Persistence load failed: no Agent capability registered."));
            }
            let agent = world.agents[0].0;
            let head = match position(&world.sessions, s) {
                Some(k) => {
                    proof {
                        lemma_find(world.sessions@, s);
                    }
                    world.sessions[k].1.active_head
                },
                None => None,
            };
            let cam = ContextCamera { agent, session: s, head, budget: *budget, persistent: true };
            match get_key(&replay.context_cameras, sid.0) {
                Some(c) => {
                    upsert(&mut world.context_cameras, c, cam);
                    set_key(&mut replay.context_cameras, sid.0, c);
                },
                None => {
                    let e = world.spawn();
                    world.context_cameras.push((e, cam));
                    set_key(&mut replay.context_cameras, sid.0, e);
                },
            }
            Ok(())
        },
        _ => Ok(()),
    }
}

fn apply_turn(world: &mut World, replay: &mut ReplayState, sid: SessionId, s: Entity, event: &Event) -> (r: Result<(), String>)
    requires
        event.view() is Turn,
        lookup(old(replay).sessions@, sid.0) == Some(s),
        old(world).next_entity < u64::MAX,
    ensures
        r is Err <==> record_fails(*old(world), *old(replay), sid, event.view()),
        r is Err ==> *final(world) == *old(world) && *final(replay) == *old(replay),
        r is Ok ==> record_applied(*old(world), *old(replay), sid, event.view(), *final(world), *final(replay)),
        r matches Err(m) ==> m@ == record_message(*old(world), *old(replay), sid, event.view()),
{
    proof {
        reveal(record_fails);
        reveal(record_applied);
    }
    match event {
        Event::Turn { id, parent, sequence, generation } => {
            let parent_entity = match parent {
                Some(p) => match get_key(&replay.turns, *p) {
                    Some(e) => Some(e),
                    None => {
                        let mut m = with_decimal("missing replay parent TurnId ", *p);
                        m.append(" for TurnId ");
                        push_decimal(&mut m, *id);
                        return Err(m);
                    },
                },
                None => None,
            };
            let turn = Turn { id: TurnId(*id), session: s, parent: parent_entity, sequence: Sequence(*sequence), generation: *generation };
            match get_key(&replay.turns, *id) {
                Some(t) => {
                    upsert(&mut world.turns, t, turn);
                },
                None => {
                    let e = world.spawn();
                    world.turns.push((e, turn));
                    set_key(&mut replay.turns, *id, e);
                },
            }
            Ok(())
        },
        _ => Ok(()),
    }
}

fn apply_user_message(world: &mut World, replay: &mut ReplayState, sid: SessionId, s: Entity, event: &Event) -> (r: Result<(), String>)
    requires
        event.view() is UserMessage,
        lookup(old(replay).sessions@, sid.0) == Some(s),
        old(world).next_entity < u64::MAX,
    ensures
        r is Err <==> record_fails(*old(world), *old(replay), sid, event.view()),
        r is Err ==> *final(world) == *old(world) && *final(replay) == *old(replay),
        r is Ok ==> record_applied(*old(world), *old(replay), sid, event.view(), *final(world), *final(replay)),
        r matches Err(m) ==> m@ == record_message(*old(world), *old(replay), sid, event.view()),
{
    proof {
        reveal(record_fails);
        reveal(record_applied);
    }
    match event {
        Event::UserMessage { id, turn, sequence, text } => {
            let t = match get_key(&replay.turns, *turn) {
                Some(t) => t,
                None => {
                    return Err(with_decimal("missing replay TurnId ", *turn));
                },
            };
            let ghost before = world.user_messages@;
            let msg = UserMessage { id: MessageId(*id), turn: t, sequence: Sequence(*sequence), text: text.clone() };
            let ghost mv = msg;
            match get_key(&replay.user_messages, *id) {
                Some(m) => {
                    upsert(&mut world.user_messages, m, msg);
                    proof {
                        lemma_upserted(before, m, mv, user_message_is(*id, t, *sequence, text@));
                    }
                },
                None => {
                    let e = world.spawn();
                    world.user_messages.push((e, msg));
                    set_key(&mut replay.user_messages, *id, e);
                    proof {
                        lemma_pushed(before, e, mv, user_message_is(*id, t, *sequence, text@));
                    }
                },
            }
            Ok(())
        },
        _ => Ok(()),
    }
}

fn apply_assistant_message(world: &mut World, replay: &mut ReplayState, sid: SessionId, s: Entity, event: &Event) -> (r: Result<(), String>)
    requires
        event.view() is AssistantMessage,
        lookup(old(replay).sessions@, sid.0) == Some(s),
        old(world).next_entity < u64::MAX,
    ensures
        r is Err <==> record_fails(*old(world), *old(replay), sid, event.view()),
        r is Err ==> *final(world) == *old(world) && *final(replay) == *old(replay),
        r is Ok ==> record_applied(*old(world), *old(replay), sid, event.view(), *final(world), *final(replay)),
        r matches Err(m) ==> m@ == record_message(*old(world), *old(replay), sid, event.view()),
{
    proof {
        reveal(record_fails);
        reveal(record_applied);
    }
    match event {
        Event::AssistantMessage { id, turn, sequence, text } => {
            let t = match get_key(&replay.turns, *turn) {
                Some(t) => t,
                None => {
                    return Err(with_decimal("missing replay TurnId ", *turn));
                },
            };
            let ghost before = world.assistant_messages@;
            let msg = AssistantMessage { id: MessageId(*id), turn: t, sequence: Sequence(*sequence), text: text.clone() };
            let ghost mv = msg;
            match get_key(&replay.assistant_messages, *id) {
                Some(m) => {
                    upsert(&mut world.assistant_messages, m, msg);
                    proof {
                        lemma_upserted(before, m, mv, assistant_message_is(*id, t, *sequence, text@));
                    }
                },
                None => {
                    let e = world.spawn();
                    world.assistant_messages.push((e, msg));
                    set_key(&mut replay.assistant_messages, *id, e);
                    proof {
                        lemma_pushed(before, e, mv, assistant_message_is(*id, t, *sequence, text@));
                    }
                },
            }
            Ok(())
        },
        _ => Ok(()),
    }
}

#[verifier::rlimit(100)]
fn apply_request(world: &mut World, replay: &mut ReplayState, sid: SessionId, s: Entity, event: &Event) -> (r: Result<(), String>)
    requires
        event.view() is ModelRequest,
        lookup(old(replay).sessions@, sid.0) == Some(s),
        old(world).next_entity < u64::MAX,
    ensures
        r is Err <==> record_fails(*old(world), *old(replay), sid, event.view()),
        r is Err ==> *final(world) == *old(world) && *final(replay) == *old(replay),
        r is Ok ==> record_applied(*old(world), *old(replay), sid, event.view(), *final(world), *final(replay)),
        r matches Err(m) ==> m@ == record_message(*old(world), *old(replay), sid, event.view()),
{
    proof {
        reveal(record_fails);
        reveal(record_applied);
    }
    match event {
        Event::ModelRequest { id, turn, model_id, provider_id, generation, previous_tool_use, status, sequence } => {
            let t = match get_key(&replay.turns, *turn) {
                Some(t) => t,
                None => {
                    return Err(with_decimal("missing replay TurnId ", *turn));
                },
            };
            let mj = match model_position(world, model_id, *provider_id) {
                Some(j) => j,
                None => {
                    return Err(missing_model(world, model_id, *provider_id));
                },
            };
            let model = world.models[mj].0;
            proof {
                lemma_find(world.models@, model);
            }
            let provider = provider_exec(world, model);
            let agent = match agent_position(world, model) {
                Some(j) => world.agents[j].0,
                None => {
                    return Err(String::from_str("missing Agent for persisted Model"));
                },
            };
            let previous = match previous_tool_use {
                Some(x) => match get_key(&replay.tool_uses, *x) {
                    Some(u) => Some(u),
                    None => {
                        return Err(with_decimal("missing replay ToolCallId ", *x));
                    },
                },
                None => None,
            };
            let req = ModelRequest {
                id: ModelRequestId(*id),
                turn: t,
                agent,
                model,
                provider,
                generation: *generation,
                previous_tool_use: previous,
                status: *status,
                sequence: Sequence(*sequence),
            };
            match get_key(&replay.requests, *id) {
                Some(q) => {
                    upsert(&mut world.model_requests, q, req);
                },
                None => {
                    let e = world.spawn();
                    world.model_requests.push((e, req));
                    set_key(&mut replay.requests, *id, e);
                },
            }
            Ok(())
        },
        _ => Ok(()),
    }
}

#[verifier::rlimit(100)]
fn apply_response(world: &mut World, replay: &mut ReplayState, sid: SessionId, s: Entity, event: &Event) -> (r: Result<(), String>)
    requires
        event.view() is ModelResponse,
        lookup(old(replay).sessions@, sid.0) == Some(s),
        old(world).next_entity < u64::MAX,
    ensures
        r is Err <==> record_fails(*old(world), *old(replay), sid, event.view()),
        r is Err ==> *final(world) == *old(world) && *final(replay) == *old(replay),
        r is Ok ==> record_applied(*old(world), *old(replay), sid, event.view(), *final(world), *final(replay)),
        r matches Err(m) ==> m@ == record_message(*old(world), *old(replay), sid, event.view()),
{
    proof {
        reveal(record_fails);
        reveal(record_applied);
    }
    match event {
        Event::ModelResponse {
            request,
            turn,
            model_id,
            provider_id,
            generation,
            response_id,
            api,
            input_tokens,
            output_tokens,
            stop_reason,
            opaque_replay,
            sequence,
        } => {
            let q = match get_key(&replay.requests, *request) {
                Some(q) => q,
                None => {
                    return Err(with_decimal("missing replay ModelRequestId ", *request));
                },
            };
            let t = match get_key(&replay.turns, *turn) {
                Some(t) => t,
                None => {
                    return Err(with_decimal("missing replay TurnId ", *turn));
                },
            };
            let mj = match model_position(world, model_id, *provider_id) {
                Some(j) => j,
                None => {
                    return Err(missing_model(world, model_id, *provider_id));
                },
            };
            let model = world.models[mj].0;
            proof {
                lemma_find(world.models@, model);
            }
            let provider = provider_exec(world, model);
            let ghost before = world.model_responses@;
            let ghost ev = event.view();
            let v = ModelResponse {
                request: q,
                turn: t,
                model,
                generation: *generation,
                provider,
                response_id: response_id.clone(),
                api: *api,
                usage: ModelUsage { input_tokens: *input_tokens, output_tokens: *output_tokens },
                stop_reason: *stop_reason,
                opaque_replay: opaque_replay.clone(),
                sequence: Sequence(*sequence),
            };
            let ghost vv = v;
            proof {
                assert(response_is(ev, q, t, model, provider)(vv));
            }
            match text_index(&replay.responses, response_id) {
                Some(i) => {
                    let x = replay.responses[i].1;
                    upsert(&mut world.model_responses, x, v);
                    proof {
                        lemma_upserted(before, x, vv, response_is(ev, q, t, model, provider));
                    }
                },
                None => {
                    let e = world.spawn();
                    world.model_responses.push((e, v));
                    let ghost rv = text_views(replay.responses@);
                    replay.responses.push((response_id.clone(), e));
                    proof {
                        lemma_pushed(before, e, vv, response_is(ev, q, t, model, provider));
                        assert(text_views(replay.responses@) =~= rv.push((response_id@, e)));
                    }
                },
            }
            Ok(())
        },
        _ => Ok(()),
    }
}

#[verifier::rlimit(100)]
fn apply_tool_use(world: &mut World, replay: &mut ReplayState, sid: SessionId, s: Entity, event: &Event) -> (r: Result<(), String>)
    requires
        event.view() is ToolUse,
        lookup(old(replay).sessions@, sid.0) == Some(s),
        old(world).next_entity < u64::MAX,
    ensures
        r is Err <==> record_fails(*old(world), *old(replay), sid, event.view()),
        r is Err ==> *final(world) == *old(world) && *final(replay) == *old(replay),
        r is Ok ==> record_applied(*old(world), *old(replay), sid, event.view(), *final(world), *final(replay)),
        r matches Err(m) ==> m@ == record_message(*old(world), *old(replay), sid, event.view()),
{
    proof {
        reveal(record_fails);
        reveal(record_applied);
    }
    match event {
        Event::ToolUse { id, turn, tool_id, model_id, provider_id, generation, input, status, sequence } => {
            let t = match get_key(&replay.turns, *turn) {
                Some(t) => t,
                None => {
                    return Err(with_decimal("missing replay TurnId ", *turn));
                },
            };
            let mj = match model_position(world, model_id, *provider_id) {
                Some(j) => j,
                None => {
                    return Err(missing_model(world, model_id, *provider_id));
                },
            };
            let model = world.models[mj].0;
            proof {
                lemma_find(world.models@, model);
            }
            let provider = provider_exec(world, model);
            let agent = match agent_position(world, model) {
                Some(j) => world.agents[j].0,
                None => {
                    return Err(String::from_str("missing Agent for persisted Model"));
                },
            };
            let tool = match tool_position(world, *tool_id) {
                Some(j) => world.tools[j].0,
                None => {
                    return Err(with_decimal("missing ToolId ", *tool_id));
                },
            };
            let ghost before = world.tool_uses@;
            let ghost ev = event.view();
            let v = ToolUse {
                id: ToolCallId(*id),
                turn: t,
                agent,
                tool,
                model,
                provider,
                generation: *generation,
                input: input.clone(),
                status: *status,
                sequence: Sequence(*sequence),
            };
            let ghost vv = v;
            proof {
                assert(tool_use_is(ev, t, agent, tool, model, provider)(vv));
            }
            match get_key(&replay.tool_uses, *id) {
                Some(u) => {
                    upsert(&mut world.tool_uses, u, v);
                    proof {
                        lemma_upserted(before, u, vv, tool_use_is(ev, t, agent, tool, model, provider));
                    }
                },
                None => {
                    let e = world.spawn();
                    world.tool_uses.push((e, v));
                    set_key(&mut replay.tool_uses, *id, e);
                    proof {
                        lemma_pushed(before, e, vv, tool_use_is(ev, t, agent, tool, model, provider));
                    }
                },
            }
            Ok(())
        },
        _ => Ok(()),
    }
}

fn apply_tool_outcome(world: &mut World, replay: &mut ReplayState, sid: SessionId, s: Entity, event: &Event) -> (r: Result<(), String>)
    requires
        event.view() is ToolOutcome,
        lookup(old(replay).sessions@, sid.0) == Some(s),
        old(world).next_entity < u64::MAX,
    ensures
        r is Err <==> record_fails(*old(world), *old(replay), sid, event.view()),
        r is Err ==> *final(world) == *old(world) && *final(replay) == *old(replay),
        r is Ok ==> record_applied(*old(world), *old(replay), sid, event.view(), *final(world), *final(replay)),
        r matches Err(m) ==> m@ == record_message(*old(world), *old(replay), sid, event.view()),
{
    proof {
        reveal(record_fails);
        reveal(record_applied);
    }
    match event {
        Event::ToolOutcome { tool_use, tool_call_id, turn, generation, output, sequence } => {
            let u = match get_key(&replay.tool_uses, *tool_use) {
                Some(u) => u,
                None => {
                    return Err(with_decimal("missing replay ToolCallId ", *tool_use));
                },
            };
            let t = match get_key(&replay.turns, *turn) {
                Some(t) => t,
                None => {
                    return Err(with_decimal("missing replay TurnId ", *turn));
                },
            };
            let ghost before = world.tool_outcomes@;
            let v = ToolOutcome {
                tool_use: u,
                tool_call_id: ToolCallId(*tool_call_id),
                turn: t,
                generation: *generation,
                output: output.clone(),
                sequence: Sequence(*sequence),
            };
            let ghost vv = v;
            let e = world.spawn();
            world.tool_outcomes.push((e, v));
            proof {
                lemma_pushed(before, e, vv, tool_outcome_is(event.view(), u, t));
            }
            Ok(())
        },
        _ => Ok(()),
    }
}

fn apply_completed(world: &mut World, replay: &mut ReplayState, sid: SessionId, s: Entity, event: &Event) -> (r: Result<(), String>)
    requires
        event.view() is TurnCompleted,
        lookup(old(replay).sessions@, sid.0) == Some(s),
        old(world).next_entity < u64::MAX,
    ensures
        r is Err <==> record_fails(*old(world), *old(replay), sid, event.view()),
        r is Err ==> *final(world) == *old(world) && *final(replay) == *old(replay),
        r is Ok ==> record_applied(*old(world), *old(replay), sid, event.view(), *final(world), *final(replay)),
        r matches Err(m) ==> m@ == record_message(*old(world), *old(replay), sid, event.view()),
{
    proof {
        reveal(record_fails);
        reveal(record_applied);
    }
    match event {
        Event::TurnCompleted { turn, generation, sequence } => {
            let t = match get_key(&replay.turns, *turn) {
                Some(t) => t,
                None => {
                    return Err(with_decimal("missing replay TurnId ", *turn));
                },
            };
            let e = world.spawn();
            world.turns_completed.push((e, TurnCompleted { turn: t, generation: *generation, sequence: Sequence(*sequence) }));
            Ok(())
        },
        _ => Ok(()),
    }
}

fn apply_cancelled(world: &mut World, replay: &mut ReplayState, sid: SessionId, s: Entity, event: &Event) -> (r: Result<(), String>)
    requires
        event.view() is TurnCancelled,
        lookup(old(replay).sessions@, sid.0) == Some(s),
        old(world).next_entity < u64::MAX,
    ensures
        r is Err <==> record_fails(*old(world), *old(replay), sid, event.view()),
        r is Err ==> *final(world) == *old(world) && *final(replay) == *old(replay),
        r is Ok ==> record_applied(*old(world), *old(replay), sid, event.view(), *final(world), *final(replay)),
        r matches Err(m) ==> m@ == record_message(*old(world), *old(replay), sid, event.view()),
{
    proof {
        reveal(record_fails);
        reveal(record_applied);
    }
    match event {
        Event::TurnCancelled { turn, generation, sequence } => {
            let t = match get_key(&replay.turns, *turn) {
                Some(t) => t,
                None => {
                    return Err(with_decimal("missing replay TurnId ", *turn));
                },
            };
            let e = world.spawn();
            world.turns_cancelled.push((e, TurnCancelled { turn: t, generation: *generation, sequence: Sequence(*sequence) }));
            Ok(())
        },
        _ => Ok(()),
    }
}

fn apply_interrupted(world: &mut World, replay: &mut ReplayState, sid: SessionId, s: Entity, event: &Event) -> (r: Result<(), String>)
    requires
        event.view() is TurnInterrupted,
        lookup(old(replay).sessions@, sid.0) == Some(s),
        old(world).next_entity < u64::MAX,
    ensures
        r is Err <==> record_fails(*old(world), *old(replay), sid, event.view()),
        r is Err ==> *final(world) == *old(world) && *final(replay) == *old(replay),
        r is Ok ==> record_applied(*old(world), *old(replay), sid, event.view(), *final(world), *final(replay)),
        r matches Err(m) ==> m@ == record_message(*old(world), *old(replay), sid, event.view()),
{
    proof {
        reveal(record_fails);
        reveal(record_applied);
    }
    match event {
        Event::TurnInterrupted { turn, generation, sequence } => {
            let t = match get_key(&replay.turns, *turn) {
                Some(t) => t,
                None => {
                    return Err(with_decimal("missing replay TurnId ", *turn));
                },
            };
            let e = world.spawn();
            world.turns_interrupted.push((e, TurnInterrupted { turn: t, generation: *generation, sequence: Sequence(*sequence) }));
            Ok(())
        },
        _ => Ok(()),
    }
}

fn apply_failed(world: &mut World, replay: &mut ReplayState, sid: SessionId, s: Entity, event: &Event) -> (r: Result<(), String>)
    requires
        event.view() is TurnFailed,
        lookup(old(replay).sessions@, sid.0) == Some(s),
        old(world).next_entity < u64::MAX,
    ensures
        r is Err <==> record_fails(*old(world), *old(replay), sid, event.view()),
        r is Err ==> *final(world) == *old(world) && *final(replay) == *old(replay),
        r is Ok ==> record_applied(*old(world), *old(replay), sid, event.view(), *final(world), *final(replay)),
        r matches Err(m) ==> m@ == record_message(*old(world), *old(replay), sid, event.view()),
{
    proof {
        reveal(record_fails);
        reveal(record_applied);
    }
    match event {
        Event::TurnFailed { turn, generation, failure, sequence } => {
            let t = match get_key(&replay.turns, *turn) {
                Some(t) => t,
                None => {
                    return Err(with_decimal("missing replay TurnId ", *turn));
                },
            };
            let message = failure.message.clone();
            let f = match failure.kind {
                StoredTurnFailureKind::Provider => TurnFailure::Provider(ProviderFailure { message }),
                StoredTurnFailureKind::Tool => TurnFailure::Tool(ToolFailure { message }),
                StoredTurnFailureKind::Recovery => TurnFailure::Recovery(RecoveryFailure { message }),
            };
            let ghost before = world.turns_failed@;
            let v = TurnFailed { turn: t, generation: *generation, failure: f, sequence: Sequence(*sequence) };
            let ghost vv = v;
            let e = world.spawn();
            world.turns_failed.push((e, v));
            proof {
                lemma_pushed(before, e, vv, turn_failed_is(event.view(), t));
            }
            Ok(())
        },
        _ => Ok(()),
    }
}

fn apply_branch(world: &mut World, replay: &mut ReplayState, sid: SessionId, s: Entity, event: &Event) -> (r: Result<(), String>)
    requires
        event.view() is BranchSelection,
        lookup(old(replay).sessions@, sid.0) == Some(s),
        old(world).next_entity < u64::MAX,
        crate::world::has_row(old(world).sessions@, s),
    ensures
        r is Err <==> record_fails(*old(world), *old(replay), sid, event.view()),
        r is Err ==> *final(world) == *old(world) && *final(replay) == *old(replay),
        r is Ok ==> record_applied(*old(world), *old(replay), sid, event.view(), *final(world), *final(replay)),
        r matches Err(m) ==> m@ == record_message(*old(world), *old(replay), sid, event.view()),
{
    proof {
        reveal(record_fails);
        reveal(record_applied);
    }
    match event {
        Event::BranchSelection { head, sequence } => {
            let h = match get_key(&replay.turns, *head) {
                Some(h) => h,
                None => {
                    return Err(with_decimal("missing replay TurnId ", *head));
                },
            };
            let k = position(&world.sessions, s).unwrap();
            proof {
                lemma_find(world.sessions@, s);
            }
            let session = world.sessions[k].1;
            world.sessions.set(k, (s, crate::world::Session { active_head: Some(h), ..session }));
            let e = world.spawn();
            world.branch_selections.push((e, BranchSelection { session: s, head: h, sequence: Sequence(*sequence) }));
            Ok(())
        },
        _ => Ok(()),
    }
}

fn apply_model_change(world: &mut World, replay: &mut ReplayState, sid: SessionId, s: Entity, event: &Event) -> (r: Result<(), String>)
    requires
        event.view() is ModelChange,
        lookup(old(replay).sessions@, sid.0) == Some(s),
        old(world).next_entity < u64::MAX,
    ensures
        r is Err <==> record_fails(*old(world), *old(replay), sid, event.view()),
        r is Err ==> *final(world) == *old(world) && *final(replay) == *old(replay),
        r is Ok ==> record_applied(*old(world), *old(replay), sid, event.view(), *final(world), *final(replay)),
        r matches Err(m) ==> m@ == record_message(*old(world), *old(replay), sid, event.view()),
{
    proof {
        reveal(record_fails);
        reveal(record_applied);
    }
    match event {
        Event::ModelChange { turn, model_id, provider_id, sequence } => {
            let mj = match model_position(world, model_id, *provider_id) {
                Some(j) => j,
                None => {
                    return Err(missing_model(world, model_id, *provider_id));
                },
            };
            let model = world.models[mj].0;
            let t = match get_key(&replay.turns, *turn) {
                Some(t) => t,
                None => {
                    return Err(with_decimal("missing replay TurnId ", *turn));
                },
            };
            let e = world.spawn();
            world.model_changes.push((e, ModelChange { turn: t, model, sequence: Sequence(*sequence) }));
            Ok(())
        },
        _ => Ok(()),
    }
}

fn apply_compaction(world: &mut World, replay: &mut ReplayState, sid: SessionId, s: Entity, event: &Event) -> (r: Result<(), String>)
    requires
        event.view() is Compaction,
        lookup(old(replay).sessions@, sid.0) == Some(s),
        old(world).next_entity < u64::MAX,
    ensures
        r is Err <==> record_fails(*old(world), *old(replay), sid, event.view()),
        r is Err ==> *final(world) == *old(world) && *final(replay) == *old(replay),
        r is Ok ==> record_applied(*old(world), *old(replay), sid, event.view(), *final(world), *final(replay)),
        r matches Err(m) ==> m@ == record_message(*old(world), *old(replay), sid, event.view()),
{
    proof {
        reveal(record_fails);
        reveal(record_applied);
    }
    match event {
        Event::Compaction { turn, summary, sequence } => {
            let t = match get_key(&replay.turns, *turn) {
                Some(t) => t,
                None => {
                    return Err(with_decimal("missing replay TurnId ", *turn));
                },
            };
            let ghost before = world.compactions@;
            let v = Compaction { turn: t, summary: summary.clone(), sequence: Sequence(*sequence) };
            let ghost vv = v;
            let e = world.spawn();
            world.compactions.push((e, v));
            proof {
                lemma_pushed(before, e, vv, compaction_is(t, summary@, *sequence));
            }
            Ok(())
        },
        _ => Ok(()),
    }
}

fn apply_recovery(world: &mut World, replay: &mut ReplayState, sid: SessionId, s: Entity, event: &Event) -> (r: Result<(), String>)
    requires
        event.view() is Recovery,
        lookup(old(replay).sessions@, sid.0) == Some(s),
        old(world).next_entity < u64::MAX,
    ensures
        r is Err <==> record_fails(*old(world), *old(replay), sid, event.view()),
        r is Err ==> *final(world) == *old(world) && *final(replay) == *old(replay),
        r is Ok ==> record_applied(*old(world), *old(replay), sid, event.view(), *final(world), *final(replay)),
        r matches Err(m) ==> m@ == record_message(*old(world), *old(replay), sid, event.view()),
{
    proof {
        reveal(record_fails);
        reveal(record_applied);
    }
    match event {
        Event::Recovery { turn, text, sequence } => {
            let t = match get_key(&replay.turns, *turn) {
                Some(t) => t,
                None => {
                    return Err(with_decimal("missing replay TurnId ", *turn));
                },
            };
            let ghost before = world.recoveries@;
            let v = Recovery { turn: t, text: text.clone(), sequence: Sequence(*sequence) };
            let ghost vv = v;
            let e = world.spawn();
            world.recoveries.push((e, v));
            proof {
                lemma_pushed(before, e, vv, recovery_is(t, text@, *sequence));
            }
            Ok(())
        },
        _ => Ok(()),
    }
}

/// Every Session entity that replay knows has a Session row.
pub open spec fn sessions_known(w: World, r: ReplayState) -> bool {
    forall|i: int| 0 <= i < r.sessions@.len() ==> crate::world::has_row(w.sessions@, (#[trigger] r.sessions@[i]).1)
}

/// Replays one record of Session `sid` into the world; see [`record_fails`] and
/// [`record_applied`]. A failing record changes nothing.
pub fn apply_record(world: &mut World, replay: &mut ReplayState, sid: SessionId, record: &Record) -> (r: Result<(), String>)
    requires
        old(world).next_entity < u64::MAX,
        sessions_known(*old(world), *old(replay)),
    ensures
        r is Err <==> record_fails(*old(world), *old(replay), sid, record.event.view()),
        r is Err ==> *final(world) == *old(world) && *final(replay) == *old(replay),
        r is Ok ==> record_applied(*old(world), *old(replay), sid, record.event.view(), *final(world), *final(replay)),
        r matches Err(m) ==> m@ == record_message(*old(world), *old(replay), sid, record.event.view()),
{
    let s = match get_key(&replay.sessions, sid.0) {
        Some(s) => s,
        None => {
            proof {
                reveal(record_fails);
            }
            let mut m = with_decimal("missing replay Session SessionId(", sid.0);
            m.append(")");
            return Err(m);
        },
    };
    proof {
        lemma_first_key(replay.sessions@, sid.0);
        let i = first_key(replay.sessions@, sid.0).unwrap();
        assert(crate::world::has_row(world.sessions@, replay.sessions@[i].1));
    }
    let e = &record.event;
    match e {
        Event::Session { .. } => apply_session(world, replay, sid, s, e),
        Event::ContextCamera { .. } => apply_camera(world, replay, sid, s, e),
        Event::Turn { .. } => apply_turn(world, replay, sid, s, e),
        Event::UserMessage { .. } => apply_user_message(world, replay, sid, s, e),
        Event::AssistantMessage { .. } => apply_assistant_message(world, replay, sid, s, e),
        Event::ModelRequest { .. } => apply_request(world, replay, sid, s, e),
        Event::ModelResponse { .. } => apply_response(world, replay, sid, s, e),
        Event::ToolUse { .. } => apply_tool_use(world, replay, sid, s, e),
        Event::ToolOutcome { .. } => apply_tool_outcome(world, replay, sid, s, e),
        Event::TurnCompleted { .. } => apply_completed(world, replay, sid, s, e),
        Event::TurnCancelled { .. } => apply_cancelled(world, replay, sid, s, e),
        Event::TurnInterrupted { .. } => apply_interrupted(world, replay, sid, s, e),
        Event::TurnFailed { .. } => apply_failed(world, replay, sid, s, e),
        Event::BranchSelection { .. } => apply_branch(world, replay, sid, s, e),
        Event::ModelChange { .. } => apply_model_change(world, replay, sid, s, e),
        Event::Compaction { .. } => apply_compaction(world, replay, sid, s, e),
        Event::Recovery { .. } => apply_recovery(world, replay, sid, s, e),
    }
}

/// One step of replaying loaded files: opening a file's Session, or replaying one record.
pub enum ReplayStep {
    Open(SessionId),
    Apply(SessionId, EventView),
}

/// The steps of one file: its Session, then its records in order.
pub open spec fn file_steps(f: LoadedFile) -> Seq<ReplayStep> {
    seq![ReplayStep::Open(f.session)] + Seq::new(f.records@.len(), |i: int| ReplayStep::Apply(f.session, f.records@[i].event.view()))
}

/// The steps of the files, file by file.
pub open spec fn replay_steps(files: Seq<LoadedFile>) -> Seq<ReplayStep>
    decreases files.len(),
{
    if files.len() == 0 {
        Seq::empty()
    } else {
        replay_steps(files.drop_last()) + file_steps(files.last())
    }
}

/// `f` and `r2` are `w` and `r` after opening Session `sid`: a new Session entity with that
/// SessionId and no head, known to replay by the SessionId.
pub open spec fn session_opened(w: World, r: ReplayState, sid: SessionId, f: World, r2: ReplayState) -> bool {
    let e = Entity(w.next_entity);
    &&& f.sessions@ == w.sessions@.push((e, crate::world::Session { id: sid, active_head: None }))
    &&& f.next_entity == w.next_entity + 1
    &&& world_frame(w, f, WorldTable::Sessions, WorldTable::Nothing)
    &&& r2.sessions@ == assign(r.sessions@, sid.0, e)
    &&& r2.turns@ == r.turns@
    &&& r2.user_messages@ == r.user_messages@
    &&& r2.assistant_messages@ == r.assistant_messages@
    &&& r2.requests@ == r.requests@
    &&& text_views(r2.responses@) == text_views(r.responses@)
    &&& r2.tool_uses@ == r.tool_uses@
    &&& r2.context_cameras@ == r.context_cameras@
    &&& r2.pending_heads@ == r.pending_heads@
}

/// One step succeeds and takes `w` and `r` to `f` and `r2`.
pub open spec fn step_done(w: World, r: ReplayState, st: ReplayStep, f: World, r2: ReplayState) -> bool {
    match st {
        ReplayStep::Open(sid) => session_opened(w, r, sid, f, r2),
        ReplayStep::Apply(sid, e) => !record_fails(w, r, sid, e) && record_applied(w, r, sid, e, f, r2),
    }
}

/// `ws` and `rs` run through the steps `st`, one successful step each.
pub open spec fn replay_trace(ws: Seq<World>, rs: Seq<ReplayState>, st: Seq<ReplayStep>) -> bool {
    &&& ws.len() == st.len() + 1
    &&& rs.len() == st.len() + 1
    &&& forall|i: int| 0 <= i < st.len() ==> step_done(#[trigger] ws[i], rs[i], st[i], ws[i + 1], rs[i + 1])
}

proof fn lemma_applied_bounds(w: World, r: ReplayState, sid: SessionId, e: EventView, f: World, r2: ReplayState)
    requires
        !record_fails(w, r, sid, e),
        record_applied(w, r, sid, e, f, r2),
        sessions_known(w, r),
    ensures
        f.next_entity <= w.next_entity + 1,
        sessions_known(f, r2),
{
    reveal(record_fails);
    reveal(record_applied);
    assert(r2.sessions@ == r.sessions@);
    lemma_first_key(r.sessions@, sid.0);
    let i = first_key(r.sessions@, sid.0).unwrap();
    let s = r.sessions@[i].1;
    assert(crate::world::has_row(w.sessions@, s));
    lemma_find(w.sessions@, s);
    assert(crate::world::same_keys(w.sessions@, f.sessions@));
    assert forall|i: int| 0 <= i < r2.sessions@.len() implies crate::world::has_row(f.sessions@, (#[trigger] r2.sessions@[i]).1) by {
        crate::world::lemma_find_same_keys(w.sessions@, f.sessions@, r.sessions@[i].1);
    }
}

proof fn lemma_steps_prefix(files: Seq<LoadedFile>, f: int)
    requires
        0 <= f <= files.len(),
    ensures
        replay_steps(files.take(f)).len() <= replay_steps(files).len(),
        replay_steps(files).take(replay_steps(files.take(f)).len() as int) == replay_steps(files.take(f)),
    decreases files.len() - f,
{
    if f == files.len() {
        assert(files.take(f) =~= files);
        assert(replay_steps(files).take(replay_steps(files).len() as int) =~= replay_steps(files));
    } else {
        lemma_steps_prefix(files, f + 1);
        assert(files.take(f + 1).drop_last() =~= files.take(f));
        let a = replay_steps(files.take(f));
        let b = replay_steps(files.take(f + 1));
        assert(b == a + file_steps(files[f]));
        assert(replay_steps(files).take(a.len() as int) =~= a) by {
            assert forall|i: int| 0 <= i < a.len() implies replay_steps(files).take(a.len() as int)[i] == a[i] by {
                assert(replay_steps(files).take(b.len() as int)[i] == b[i]);
            }
        }
    }
}

proof fn lemma_extend_trace(ws: Seq<World>, rs: Seq<ReplayState>, cur: Seq<ReplayStep>, st: ReplayStep, f: World, r2: ReplayState)
    requires
        replay_trace(ws, rs, cur),
        step_done(ws.last(), rs.last(), st, f, r2),
    ensures
        replay_trace(ws.push(f), rs.push(r2), cur.push(st)),
{
    let ws2 = ws.push(f);
    let rs2 = rs.push(r2);
    let c2 = cur.push(st);
    assert forall|i: int| 0 <= i < c2.len() implies step_done(#[trigger] ws2[i], rs2[i], c2[i], ws2[i + 1], rs2[i + 1]) by {
        if i < cur.len() {
            assert(ws2[i] == ws[i] && ws2[i + 1] == ws[i + 1] && rs2[i] == rs[i] && rs2[i + 1] == rs[i + 1]);
            assert(c2[i] == cur[i]);
            assert(step_done(ws[i], rs[i], cur[i], ws[i + 1], rs[i + 1]));
        }
    }
}

/// The outcome of running `steps` from `w` and `r` to `f` and `r2`: a trace of successful steps
/// from the start, covering every step when `ok`, and otherwise stopping before a record that
/// fails.
pub open spec fn steps_outcome(w: World, r: ReplayState, steps: Seq<ReplayStep>, f: World, r2: ReplayState, ok: bool) -> bool {
    exists|ws: Seq<World>, rs: Seq<ReplayState>, n: int|
        {
            &&& 0 <= n <= steps.len()
            &&& #[trigger] replay_trace(ws, rs, steps.take(n))
            &&& ws[0] == w
            &&& rs[0] == r
            &&& ws.last() == f
            &&& rs.last() == r2
            &&& (ok <==> n == steps.len())
            &&& (!ok ==> (steps[n] matches ReplayStep::Apply(sid, e) && record_fails(f, r2, sid, e)))
        }
}

/// Whether replaying `files` succeeded; see [`replay_files`].
pub open spec fn replay_outcome(w: World, r: ReplayState, files: Seq<LoadedFile>, f: World, r2: ReplayState, ok: bool) -> bool {
    steps_outcome(w, r, replay_steps(files), f, r2, ok)
}

/// The steps of replaying `records` of Session `sid`.
pub open spec fn record_steps(sid: SessionId, records: Seq<Record>) -> Seq<ReplayStep> {
    Seq::new(records.len(), |i: int| ReplayStep::Apply(sid, records[i].event.view()))
}

proof fn lemma_concat_trace(
    ws1: Seq<World>,
    rs1: Seq<ReplayState>,
    s1: Seq<ReplayStep>,
    ws2: Seq<World>,
    rs2: Seq<ReplayState>,
    s2: Seq<ReplayStep>,
)
    requires
        replay_trace(ws1, rs1, s1),
        replay_trace(ws2, rs2, s2),
        ws1.last() == ws2[0],
        rs1.last() == rs2[0],
    ensures
        replay_trace(ws1 + ws2.skip(1), rs1 + rs2.skip(1), s1 + s2),
        (ws1 + ws2.skip(1))[0] == ws1[0],
        (rs1 + rs2.skip(1))[0] == rs1[0],
        (ws1 + ws2.skip(1)).last() == ws2.last(),
        (rs1 + rs2.skip(1)).last() == rs2.last(),
{
    let ws = ws1 + ws2.skip(1);
    let rs = rs1 + rs2.skip(1);
    let st = s1 + s2;
    let n1 = s1.len() as int;
    assert forall|i: int| 0 <= i < st.len() implies step_done(#[trigger] ws[i], rs[i], st[i], ws[i + 1], rs[i + 1]) by {
        if i < n1 {
            assert(step_done(ws1[i], rs1[i], s1[i], ws1[i + 1], rs1[i + 1]));
            if i + 1 == n1 {
                assert(ws[i + 1] == ws2[0]);
                assert(rs[i + 1] == rs2[0]);
            }
        } else {
            let j = i - n1;
            assert(step_done(ws2[j], rs2[j], s2[j], ws2[j + 1], rs2[j + 1]));
            if j == 0 {
                assert(ws[i] == ws1.last());
                assert(rs[i] == rs1.last());
            } else {
                assert(ws[i] == ws2[j]);
                assert(rs[i] == rs2[j]);
            }
            assert(ws[i + 1] == ws2[j + 1]);
            assert(rs[i + 1] == rs2[j + 1]);
        }
    }
}

/// Replays the records of Session `sid` in order, stopping at the first that fails.
fn replay_records(world: &mut World, replay: &mut ReplayState, sid: SessionId, records: &Vec<Record>) -> (r: Result<(), String>)
    requires
        old(world).next_entity + records@.len() < u64::MAX,
        sessions_known(*old(world), *old(replay)),
    ensures
        steps_outcome(*old(world), *old(replay), record_steps(sid, records@), *final(world), *final(replay), r is Ok),
        sessions_known(*final(world), *final(replay)),
        final(world).next_entity <= old(world).next_entity + records@.len(),
{
    let ghost w0 = *world;
    let ghost r0 = *replay;
    let ghost st = record_steps(sid, records@);
    let ghost mut ws: Seq<World> = seq![w0];
    let ghost mut rs: Seq<ReplayState> = seq![r0];
    let mut k: usize = 0;
    proof {
        assert(st.take(0) =~= Seq::<ReplayStep>::empty());
    }
    while k < records.len()
        invariant
            w0 == *old(world),
            r0 == *old(replay),
            st == record_steps(sid, records@),
            w0.next_entity + records@.len() < u64::MAX,
            k <= records@.len(),
            replay_trace(ws, rs, st.take(k as int)),
            ws[0] == w0,
            rs[0] == r0,
            ws.last() == *world,
            rs.last() == *replay,
            sessions_known(*world, *replay),
            world.next_entity <= w0.next_entity + k,
        decreases records.len() - k,
    {
        let ghost wb = *world;
        let ghost rb = *replay;
        let ghost e = records@[k as int].event.view();
        match apply_record(world, replay, sid, &records[k]) {
            Err(m) => {
                proof {
                    assert(*world == wb);
                    assert(*replay == rb);
                    assert(st[k as int] == ReplayStep::Apply(sid, e));
                    assert(record_fails(*world, *replay, sid, e));
                    lemma_stop_outcome(w0, r0, st, ws, rs, k as int, *world, *replay);
                }
                return Err(m);
            },
            Ok(()) => {},
        }
        proof {
            lemma_applied_bounds(wb, rb, sid, e, *world, *replay);
            lemma_extend_trace(ws, rs, st.take(k as int), st[k as int], *world, *replay);
            ws = ws.push(*world);
            rs = rs.push(*replay);
            assert(st.take(k + 1) =~= st.take(k as int).push(st[k as int]));
        }
        k = k + 1;
    }
    proof {
        assert(st.take(st.len() as int) =~= st);
        lemma_done_outcome(w0, r0, st, ws, rs, *world, *replay);
    }
    Ok(())
}

proof fn lemma_stop_outcome(w: World, r: ReplayState, st: Seq<ReplayStep>, ws: Seq<World>, rs: Seq<ReplayState>, n: int, f: World, r2: ReplayState)
    requires
        0 <= n < st.len(),
        replay_trace(ws, rs, st.take(n)),
        ws[0] == w,
        rs[0] == r,
        ws.last() == f,
        rs.last() == r2,
        st[n] matches ReplayStep::Apply(sid, e) && record_fails(f, r2, sid, e),
    ensures
        steps_outcome(w, r, st, f, r2, false),
{
}

proof fn lemma_done_outcome(w: World, r: ReplayState, st: Seq<ReplayStep>, ws: Seq<World>, rs: Seq<ReplayState>, f: World, r2: ReplayState)
    requires
        replay_trace(ws, rs, st),
        ws[0] == w,
        rs[0] == r,
        ws.last() == f,
        rs.last() == r2,
    ensures
        steps_outcome(w, r, st, f, r2, true),
{
    assert(st.take(st.len() as int) =~= st);
}

proof fn lemma_file_done(
    w0: World,
    r0: ReplayState,
    files: Seq<LoadedFile>,
    fi: int,
    ws: Seq<World>,
    rs: Seq<ReplayState>,
    fw: World,
    fr: ReplayState,
    ok: bool,
) -> (res: (Seq<World>, Seq<ReplayState>))
    requires
        0 <= fi < files.len(),
        replay_trace(ws, rs, replay_steps(files.take(fi)).push(ReplayStep::Open(files[fi].session))),
        ws[0] == w0,
        rs[0] == r0,
        steps_outcome(ws.last(), rs.last(), record_steps(files[fi].session, files[fi].records@), fw, fr, ok),
    ensures
        ok ==> {
            &&& replay_trace(res.0, res.1, replay_steps(files.take(fi + 1)))
            &&& res.0[0] == w0
            &&& res.1[0] == r0
            &&& res.0.last() == fw
            &&& res.1.last() == fr
        },
        !ok ==> steps_outcome(w0, r0, replay_steps(files), fw, fr, false),
{
    let file = files[fi];
    let sid = file.session;
    let base = replay_steps(files.take(fi));
    let opened = base.push(ReplayStep::Open(sid));
    let st = replay_steps(files);
    let recs = record_steps(sid, file.records@);
    lemma_steps_prefix(files, fi + 1);
    assert(files.take(fi + 1).drop_last() =~= files.take(fi));
    assert(files.take(fi + 1).last() == file);
    assert(replay_steps(files.take(fi + 1)) == base + file_steps(file));
    assert(file_steps(file) =~= seq![ReplayStep::Open(sid)] + recs);
    assert(opened + recs =~= base + file_steps(file));
    let (ws2, rs2, n2) = choose|ws2: Seq<World>, rs2: Seq<ReplayState>, n2: int|
        {
            &&& 0 <= n2 <= recs.len()
            &&& #[trigger] replay_trace(ws2, rs2, recs.take(n2))
            &&& ws2[0] == ws.last()
            &&& rs2[0] == rs.last()
            &&& ws2.last() == fw
            &&& rs2.last() == fr
            &&& (ok <==> n2 == recs.len())
            &&& (!ok ==> (recs[n2] matches ReplayStep::Apply(sid, e) && record_fails(fw, fr, sid, e)))
        };
    lemma_concat_trace(ws, rs, opened, ws2, rs2, recs.take(n2));
    let wsa = ws + ws2.skip(1);
    let rsa = rs + rs2.skip(1);
    let done = opened + recs.take(n2);
    assert(done =~= st.take(done.len() as int)) by {
        assert forall|i: int| 0 <= i < done.len() implies done[i] == st.take(done.len() as int)[i] by {
            assert(st.take((base + file_steps(file)).len() as int)[i] == (base + file_steps(file))[i]);
            assert((opened + recs)[i] == done[i]);
        }
    }
    if !ok {
        let n = done.len() as int;
        assert(st[n] == st.take((base + file_steps(file)).len() as int)[n]);
        assert((opened + recs)[n] == recs[n2]);
        lemma_stop_outcome(w0, r0, st, wsa, rsa, n, fw, fr);
    } else {
        assert(recs.take(n2) =~= recs);
    }
    (wsa, rsa)
}

/// Replays the loaded files in order: each file opens its Session, then replays its records;
/// the first record that fails stops the replay.
#[verifier::spinoff_prover]
#[verifier::rlimit(100)]
pub fn replay_files(world: &mut World, replay: &mut ReplayState, files: &Vec<LoadedFile>) -> (r: Result<(), String>)
    requires
        old(world).next_entity + replay_steps(files@).len() < u64::MAX,
        sessions_known(*old(world), *old(replay)),
    ensures
        replay_outcome(*old(world), *old(replay), files@, *final(world), *final(replay), r is Ok),
        sessions_known(*final(world), *final(replay)),
{
    let ghost w0 = *world;
    let ghost r0 = *replay;
    let ghost st = replay_steps(files@);
    let ghost mut ws: Seq<World> = seq![w0];
    let ghost mut rs: Seq<ReplayState> = seq![r0];
    let mut f: usize = 0;
    proof {
        assert(files@.take(0) =~= Seq::<LoadedFile>::empty());
    }
    while f < files.len()
        invariant
            w0 == *old(world),
            r0 == *old(replay),
            st == replay_steps(files@),
            w0.next_entity + st.len() < u64::MAX,
            f <= files@.len(),
            replay_trace(ws, rs, replay_steps(files@.take(f as int))),
            ws[0] == w0,
            rs[0] == r0,
            ws.last() == *world,
            rs.last() == *replay,
            sessions_known(*world, *replay),
            world.next_entity <= w0.next_entity + replay_steps(files@.take(f as int)).len(),
        decreases files.len() - f,
    {
        let ghost base = replay_steps(files@.take(f as int));
        let ghost file = files@[f as int];
        proof {
            lemma_steps_prefix(files@, f + 1);
            assert(files@.take(f + 1).drop_last() =~= files@.take(f as int));
            assert(replay_steps(files@.take(f + 1)) == base + file_steps(file));
            assert(file_steps(file).len() == file.records@.len() + 1);
        }
        let sid = files[f].session;
        let ghost wb = *world;
        let ghost rb = *replay;
        let e = world.spawn();
        world.sessions.push((e, crate::world::Session { id: sid, active_head: None }));
        set_key(&mut replay.sessions, sid.0, e);
        proof {
            assert(session_opened(wb, rb, sid, *world, *replay));
            lemma_extend_trace(ws, rs, base, ReplayStep::Open(sid), *world, *replay);
            ws = ws.push(*world);
            rs = rs.push(*replay);
            lemma_first_key(rb.sessions@, sid.0);
            assert forall|i: int| 0 <= i < replay.sessions@.len() implies crate::world::has_row(world.sessions@, (#[trigger] replay.sessions@[i]).1) by {
                crate::world::lemma_find_push(wb.sessions@, (e, crate::world::Session { id: sid, active_head: None }), replay.sessions@[i].1);
                if i < rb.sessions@.len() && replay.sessions@[i] == rb.sessions@[i] {
                    assert(crate::world::has_row(wb.sessions@, rb.sessions@[i].1));
                }
            }
        }
        let result = replay_records(world, replay, sid, &files[f].records);
        proof {
            let res = lemma_file_done(w0, r0, files@, f as int, ws, rs, *world, *replay, result is Ok);
            ws = res.0;
            rs = res.1;
        }
        if result.is_err() {
            return result;
        }
        f = f + 1;
    }
    proof {
        assert(files@.take(files@.len() as int) =~= files@);
        assert(st.take(st.len() as int) =~= st);
        assert(replay_trace(ws, rs, st.take(st.len() as int)));
    }
    Ok(())
}

/// The largest value of `s`, or zero.
pub open spec fn max_of(s: Seq<u64>) -> u64
    decreases s.len(),
{
    if s.len() == 0 {
        0
    } else {
        let m = max_of(s.drop_last());
        if m < s.last() { s.last() } else { m }
    }
}

fn max_exec(s: &Vec<u64>) -> (m: u64)
    ensures
        m == max_of(s@),
{
    let mut m: u64 = 0;
    let mut i: usize = 0;
    while i < s.len()
        invariant
            i <= s@.len(),
            m == max_of(s@.take(i as int)),
        decreases s.len() - i,
    {
        proof {
            assert(s@.take(i + 1).drop_last() =~= s@.take(i as int));
        }
        if m < s[i] {
            m = s[i];
        }
        i = i + 1;
    }
    proof {
        assert(s@.take(s@.len() as int) =~= s@);
    }
    m
}

/// The id column of the turns table.
pub open spec fn turn_ids(w: World) -> Seq<u64> {
    Seq::new(w.turns@.len(), |i: int| w.turns@[i].1.id.0)
}

fn turn_ids_exec(w: &World) -> (v: Vec<u64>)
    ensures
        v@ == turn_ids(*w),
{
    let mut v: Vec<u64> = Vec::new();
    let mut i: usize = 0;
    while i < w.turns.len()
        invariant
            i <= w.turns@.len(),
            v@ == turn_ids(*w).take(i as int),
        decreases w.turns.len() - i,
    {
        v.push(w.turns[i].1.id.0);
        proof {
            assert(v@ =~= turn_ids(*w).take(i + 1));
        }
        i = i + 1;
    }
    proof {
        assert(turn_ids(*w).take(w.turns@.len() as int) =~= turn_ids(*w));
    }
    v
}

/// The id column of the user_messages table.
pub open spec fn user_message_ids(w: World) -> Seq<u64> {
    Seq::new(w.user_messages@.len(), |i: int| w.user_messages@[i].1.id.0)
}

fn user_message_ids_exec(w: &World) -> (v: Vec<u64>)
    ensures
        v@ == user_message_ids(*w),
{
    let mut v: Vec<u64> = Vec::new();
    let mut i: usize = 0;
    while i < w.user_messages.len()
        invariant
            i <= w.user_messages@.len(),
            v@ == user_message_ids(*w).take(i as int),
        decreases w.user_messages.len() - i,
    {
        v.push(w.user_messages[i].1.id.0);
        proof {
            assert(v@ =~= user_message_ids(*w).take(i + 1));
        }
        i = i + 1;
    }
    proof {
        assert(user_message_ids(*w).take(w.user_messages@.len() as int) =~= user_message_ids(*w));
    }
    v
}

/// The id column of the assistant_messages table.
pub open spec fn assistant_message_ids(w: World) -> Seq<u64> {
    Seq::new(w.assistant_messages@.len(), |i: int| w.assistant_messages@[i].1.id.0)
}

fn assistant_message_ids_exec(w: &World) -> (v: Vec<u64>)
    ensures
        v@ == assistant_message_ids(*w),
{
    let mut v: Vec<u64> = Vec::new();
    let mut i: usize = 0;
    while i < w.assistant_messages.len()
        invariant
            i <= w.assistant_messages@.len(),
            v@ == assistant_message_ids(*w).take(i as int),
        decreases w.assistant_messages.len() - i,
    {
        v.push(w.assistant_messages[i].1.id.0);
        proof {
            assert(v@ =~= assistant_message_ids(*w).take(i + 1));
        }
        i = i + 1;
    }
    proof {
        assert(assistant_message_ids(*w).take(w.assistant_messages@.len() as int) =~= assistant_message_ids(*w));
    }
    v
}

/// The id column of the model_requests table.
pub open spec fn request_ids(w: World) -> Seq<u64> {
    Seq::new(w.model_requests@.len(), |i: int| w.model_requests@[i].1.id.0)
}

fn request_ids_exec(w: &World) -> (v: Vec<u64>)
    ensures
        v@ == request_ids(*w),
{
    let mut v: Vec<u64> = Vec::new();
    let mut i: usize = 0;
    while i < w.model_requests.len()
        invariant
            i <= w.model_requests@.len(),
            v@ == request_ids(*w).take(i as int),
        decreases w.model_requests.len() - i,
    {
        v.push(w.model_requests[i].1.id.0);
        proof {
            assert(v@ =~= request_ids(*w).take(i + 1));
        }
        i = i + 1;
    }
    proof {
        assert(request_ids(*w).take(w.model_requests@.len() as int) =~= request_ids(*w));
    }
    v
}

/// The id column of the tool_uses table.
pub open spec fn tool_use_ids(w: World) -> Seq<u64> {
    Seq::new(w.tool_uses@.len(), |i: int| w.tool_uses@[i].1.id.0)
}

fn tool_use_ids_exec(w: &World) -> (v: Vec<u64>)
    ensures
        v@ == tool_use_ids(*w),
{
    let mut v: Vec<u64> = Vec::new();
    let mut i: usize = 0;
    while i < w.tool_uses.len()
        invariant
            i <= w.tool_uses@.len(),
            v@ == tool_use_ids(*w).take(i as int),
        decreases w.tool_uses.len() - i,
    {
        v.push(w.tool_uses[i].1.id.0);
        proof {
            assert(v@ =~= tool_use_ids(*w).take(i + 1));
        }
        i = i + 1;
    }
    proof {
        assert(tool_use_ids(*w).take(w.tool_uses@.len() as int) =~= tool_use_ids(*w));
    }
    v
}

/// The tool_call_id column of the tool_outcomes table.
pub open spec fn tool_outcome_ids(w: World) -> Seq<u64> {
    Seq::new(w.tool_outcomes@.len(), |i: int| w.tool_outcomes@[i].1.tool_call_id.0)
}

fn tool_outcome_ids_exec(w: &World) -> (v: Vec<u64>)
    ensures
        v@ == tool_outcome_ids(*w),
{
    let mut v: Vec<u64> = Vec::new();
    let mut i: usize = 0;
    while i < w.tool_outcomes.len()
        invariant
            i <= w.tool_outcomes@.len(),
            v@ == tool_outcome_ids(*w).take(i as int),
        decreases w.tool_outcomes.len() - i,
    {
        v.push(w.tool_outcomes[i].1.tool_call_id.0);
        proof {
            assert(v@ =~= tool_outcome_ids(*w).take(i + 1));
        }
        i = i + 1;
    }
    proof {
        assert(tool_outcome_ids(*w).take(w.tool_outcomes@.len() as int) =~= tool_outcome_ids(*w));
    }
    v
}

/// The sequence column of the turns table.
pub open spec fn turn_sequences(w: World) -> Seq<u64> {
    Seq::new(w.turns@.len(), |i: int| w.turns@[i].1.sequence.0)
}

fn turn_sequences_exec(w: &World) -> (v: Vec<u64>)
    ensures
        v@ == turn_sequences(*w),
{
    let mut v: Vec<u64> = Vec::new();
    let mut i: usize = 0;
    while i < w.turns.len()
        invariant
            i <= w.turns@.len(),
            v@ == turn_sequences(*w).take(i as int),
        decreases w.turns.len() - i,
    {
        v.push(w.turns[i].1.sequence.0);
        proof {
            assert(v@ =~= turn_sequences(*w).take(i + 1));
        }
        i = i + 1;
    }
    proof {
        assert(turn_sequences(*w).take(w.turns@.len() as int) =~= turn_sequences(*w));
    }
    v
}

/// The sequence column of the user_messages table.
pub open spec fn user_message_sequences(w: World) -> Seq<u64> {
    Seq::new(w.user_messages@.len(), |i: int| w.user_messages@[i].1.sequence.0)
}

fn user_message_sequences_exec(w: &World) -> (v: Vec<u64>)
    ensures
        v@ == user_message_sequences(*w),
{
    let mut v: Vec<u64> = Vec::new();
    let mut i: usize = 0;
    while i < w.user_messages.len()
        invariant
            i <= w.user_messages@.len(),
            v@ == user_message_sequences(*w).take(i as int),
        decreases w.user_messages.len() - i,
    {
        v.push(w.user_messages[i].1.sequence.0);
        proof {
            assert(v@ =~= user_message_sequences(*w).take(i + 1));
        }
        i = i + 1;
    }
    proof {
        assert(user_message_sequences(*w).take(w.user_messages@.len() as int) =~= user_message_sequences(*w));
    }
    v
}

/// The sequence column of the assistant_messages table.
pub open spec fn assistant_message_sequences(w: World) -> Seq<u64> {
    Seq::new(w.assistant_messages@.len(), |i: int| w.assistant_messages@[i].1.sequence.0)
}

fn assistant_message_sequences_exec(w: &World) -> (v: Vec<u64>)
    ensures
        v@ == assistant_message_sequences(*w),
{
    let mut v: Vec<u64> = Vec::new();
    let mut i: usize = 0;
    while i < w.assistant_messages.len()
        invariant
            i <= w.assistant_messages@.len(),
            v@ == assistant_message_sequences(*w).take(i as int),
        decreases w.assistant_messages.len() - i,
    {
        v.push(w.assistant_messages[i].1.sequence.0);
        proof {
            assert(v@ =~= assistant_message_sequences(*w).take(i + 1));
        }
        i = i + 1;
    }
    proof {
        assert(assistant_message_sequences(*w).take(w.assistant_messages@.len() as int) =~= assistant_message_sequences(*w));
    }
    v
}

/// The sequence column of the model_requests table.
pub open spec fn request_sequences(w: World) -> Seq<u64> {
    Seq::new(w.model_requests@.len(), |i: int| w.model_requests@[i].1.sequence.0)
}

fn request_sequences_exec(w: &World) -> (v: Vec<u64>)
    ensures
        v@ == request_sequences(*w),
{
    let mut v: Vec<u64> = Vec::new();
    let mut i: usize = 0;
    while i < w.model_requests.len()
        invariant
            i <= w.model_requests@.len(),
            v@ == request_sequences(*w).take(i as int),
        decreases w.model_requests.len() - i,
    {
        v.push(w.model_requests[i].1.sequence.0);
        proof {
            assert(v@ =~= request_sequences(*w).take(i + 1));
        }
        i = i + 1;
    }
    proof {
        assert(request_sequences(*w).take(w.model_requests@.len() as int) =~= request_sequences(*w));
    }
    v
}

/// The sequence column of the model_responses table.
pub open spec fn response_sequences(w: World) -> Seq<u64> {
    Seq::new(w.model_responses@.len(), |i: int| w.model_responses@[i].1.sequence.0)
}

fn response_sequences_exec(w: &World) -> (v: Vec<u64>)
    ensures
        v@ == response_sequences(*w),
{
    let mut v: Vec<u64> = Vec::new();
    let mut i: usize = 0;
    while i < w.model_responses.len()
        invariant
            i <= w.model_responses@.len(),
            v@ == response_sequences(*w).take(i as int),
        decreases w.model_responses.len() - i,
    {
        v.push(w.model_responses[i].1.sequence.0);
        proof {
            assert(v@ =~= response_sequences(*w).take(i + 1));
        }
        i = i + 1;
    }
    proof {
        assert(response_sequences(*w).take(w.model_responses@.len() as int) =~= response_sequences(*w));
    }
    v
}

/// The sequence column of the tool_uses table.
pub open spec fn tool_use_sequences(w: World) -> Seq<u64> {
    Seq::new(w.tool_uses@.len(), |i: int| w.tool_uses@[i].1.sequence.0)
}

fn tool_use_sequences_exec(w: &World) -> (v: Vec<u64>)
    ensures
        v@ == tool_use_sequences(*w),
{
    let mut v: Vec<u64> = Vec::new();
    let mut i: usize = 0;
    while i < w.tool_uses.len()
        invariant
            i <= w.tool_uses@.len(),
            v@ == tool_use_sequences(*w).take(i as int),
        decreases w.tool_uses.len() - i,
    {
        v.push(w.tool_uses[i].1.sequence.0);
        proof {
            assert(v@ =~= tool_use_sequences(*w).take(i + 1));
        }
        i = i + 1;
    }
    proof {
        assert(tool_use_sequences(*w).take(w.tool_uses@.len() as int) =~= tool_use_sequences(*w));
    }
    v
}

/// The sequence column of the tool_outcomes table.
pub open spec fn tool_outcome_sequences(w: World) -> Seq<u64> {
    Seq::new(w.tool_outcomes@.len(), |i: int| w.tool_outcomes@[i].1.sequence.0)
}

fn tool_outcome_sequences_exec(w: &World) -> (v: Vec<u64>)
    ensures
        v@ == tool_outcome_sequences(*w),
{
    let mut v: Vec<u64> = Vec::new();
    let mut i: usize = 0;
    while i < w.tool_outcomes.len()
        invariant
            i <= w.tool_outcomes@.len(),
            v@ == tool_outcome_sequences(*w).take(i as int),
        decreases w.tool_outcomes.len() - i,
    {
        v.push(w.tool_outcomes[i].1.sequence.0);
        proof {
            assert(v@ =~= tool_outcome_sequences(*w).take(i + 1));
        }
        i = i + 1;
    }
    proof {
        assert(tool_outcome_sequences(*w).take(w.tool_outcomes@.len() as int) =~= tool_outcome_sequences(*w));
    }
    v
}

/// The sequence column of the turns_completed table.
pub open spec fn completed_sequences(w: World) -> Seq<u64> {
    Seq::new(w.turns_completed@.len(), |i: int| w.turns_completed@[i].1.sequence.0)
}

fn completed_sequences_exec(w: &World) -> (v: Vec<u64>)
    ensures
        v@ == completed_sequences(*w),
{
    let mut v: Vec<u64> = Vec::new();
    let mut i: usize = 0;
    while i < w.turns_completed.len()
        invariant
            i <= w.turns_completed@.len(),
            v@ == completed_sequences(*w).take(i as int),
        decreases w.turns_completed.len() - i,
    {
        v.push(w.turns_completed[i].1.sequence.0);
        proof {
            assert(v@ =~= completed_sequences(*w).take(i + 1));
        }
        i = i + 1;
    }
    proof {
        assert(completed_sequences(*w).take(w.turns_completed@.len() as int) =~= completed_sequences(*w));
    }
    v
}

/// The sequence column of the turns_cancelled table.
pub open spec fn cancelled_sequences(w: World) -> Seq<u64> {
    Seq::new(w.turns_cancelled@.len(), |i: int| w.turns_cancelled@[i].1.sequence.0)
}

fn cancelled_sequences_exec(w: &World) -> (v: Vec<u64>)
    ensures
        v@ == cancelled_sequences(*w),
{
    let mut v: Vec<u64> = Vec::new();
    let mut i: usize = 0;
    while i < w.turns_cancelled.len()
        invariant
            i <= w.turns_cancelled@.len(),
            v@ == cancelled_sequences(*w).take(i as int),
        decreases w.turns_cancelled.len() - i,
    {
        v.push(w.turns_cancelled[i].1.sequence.0);
        proof {
            assert(v@ =~= cancelled_sequences(*w).take(i + 1));
        }
        i = i + 1;
    }
    proof {
        assert(cancelled_sequences(*w).take(w.turns_cancelled@.len() as int) =~= cancelled_sequences(*w));
    }
    v
}

/// The sequence column of the turns_interrupted table.
pub open spec fn interrupted_sequences(w: World) -> Seq<u64> {
    Seq::new(w.turns_interrupted@.len(), |i: int| w.turns_interrupted@[i].1.sequence.0)
}

fn interrupted_sequences_exec(w: &World) -> (v: Vec<u64>)
    ensures
        v@ == interrupted_sequences(*w),
{
    let mut v: Vec<u64> = Vec::new();
    let mut i: usize = 0;
    while i < w.turns_interrupted.len()
        invariant
            i <= w.turns_interrupted@.len(),
            v@ == interrupted_sequences(*w).take(i as int),
        decreases w.turns_interrupted.len() - i,
    {
        v.push(w.turns_interrupted[i].1.sequence.0);
        proof {
            assert(v@ =~= interrupted_sequences(*w).take(i + 1));
        }
        i = i + 1;
    }
    proof {
        assert(interrupted_sequences(*w).take(w.turns_interrupted@.len() as int) =~= interrupted_sequences(*w));
    }
    v
}

/// The sequence column of the turns_failed table.
pub open spec fn failed_sequences(w: World) -> Seq<u64> {
    Seq::new(w.turns_failed@.len(), |i: int| w.turns_failed@[i].1.sequence.0)
}

fn failed_sequences_exec(w: &World) -> (v: Vec<u64>)
    ensures
        v@ == failed_sequences(*w),
{
    let mut v: Vec<u64> = Vec::new();
    let mut i: usize = 0;
    while i < w.turns_failed.len()
        invariant
            i <= w.turns_failed@.len(),
            v@ == failed_sequences(*w).take(i as int),
        decreases w.turns_failed.len() - i,
    {
        v.push(w.turns_failed[i].1.sequence.0);
        proof {
            assert(v@ =~= failed_sequences(*w).take(i + 1));
        }
        i = i + 1;
    }
    proof {
        assert(failed_sequences(*w).take(w.turns_failed@.len() as int) =~= failed_sequences(*w));
    }
    v
}

/// The sequence column of the branch_selections table.
pub open spec fn branch_sequences(w: World) -> Seq<u64> {
    Seq::new(w.branch_selections@.len(), |i: int| w.branch_selections@[i].1.sequence.0)
}

fn branch_sequences_exec(w: &World) -> (v: Vec<u64>)
    ensures
        v@ == branch_sequences(*w),
{
    let mut v: Vec<u64> = Vec::new();
    let mut i: usize = 0;
    while i < w.branch_selections.len()
        invariant
            i <= w.branch_selections@.len(),
            v@ == branch_sequences(*w).take(i as int),
        decreases w.branch_selections.len() - i,
    {
        v.push(w.branch_selections[i].1.sequence.0);
        proof {
            assert(v@ =~= branch_sequences(*w).take(i + 1));
        }
        i = i + 1;
    }
    proof {
        assert(branch_sequences(*w).take(w.branch_selections@.len() as int) =~= branch_sequences(*w));
    }
    v
}

/// The sequence column of the model_changes table.
pub open spec fn model_change_sequences(w: World) -> Seq<u64> {
    Seq::new(w.model_changes@.len(), |i: int| w.model_changes@[i].1.sequence.0)
}

fn model_change_sequences_exec(w: &World) -> (v: Vec<u64>)
    ensures
        v@ == model_change_sequences(*w),
{
    let mut v: Vec<u64> = Vec::new();
    let mut i: usize = 0;
    while i < w.model_changes.len()
        invariant
            i <= w.model_changes@.len(),
            v@ == model_change_sequences(*w).take(i as int),
        decreases w.model_changes.len() - i,
    {
        v.push(w.model_changes[i].1.sequence.0);
        proof {
            assert(v@ =~= model_change_sequences(*w).take(i + 1));
        }
        i = i + 1;
    }
    proof {
        assert(model_change_sequences(*w).take(w.model_changes@.len() as int) =~= model_change_sequences(*w));
    }
    v
}

/// The sequence column of the compactions table.
pub open spec fn compaction_sequences(w: World) -> Seq<u64> {
    Seq::new(w.compactions@.len(), |i: int| w.compactions@[i].1.sequence.0)
}

fn compaction_sequences_exec(w: &World) -> (v: Vec<u64>)
    ensures
        v@ == compaction_sequences(*w),
{
    let mut v: Vec<u64> = Vec::new();
    let mut i: usize = 0;
    while i < w.compactions.len()
        invariant
            i <= w.compactions@.len(),
            v@ == compaction_sequences(*w).take(i as int),
        decreases w.compactions.len() - i,
    {
        v.push(w.compactions[i].1.sequence.0);
        proof {
            assert(v@ =~= compaction_sequences(*w).take(i + 1));
        }
        i = i + 1;
    }
    proof {
        assert(compaction_sequences(*w).take(w.compactions@.len() as int) =~= compaction_sequences(*w));
    }
    v
}

/// The sequence column of the recoveries table.
pub open spec fn recovery_sequences(w: World) -> Seq<u64> {
    Seq::new(w.recoveries@.len(), |i: int| w.recoveries@[i].1.sequence.0)
}

fn recovery_sequences_exec(w: &World) -> (v: Vec<u64>)
    ensures
        v@ == recovery_sequences(*w),
{
    let mut v: Vec<u64> = Vec::new();
    let mut i: usize = 0;
    while i < w.recoveries.len()
        invariant
            i <= w.recoveries@.len(),
            v@ == recovery_sequences(*w).take(i as int),
        decreases w.recoveries.len() - i,
    {
        v.push(w.recoveries[i].1.sequence.0);
        proof {
            assert(v@ =~= recovery_sequences(*w).take(i + 1));
        }
        i = i + 1;
    }
    proof {
        assert(recovery_sequences(*w).take(w.recoveries@.len() as int) =~= recovery_sequences(*w));
    }
    v
}

/// The largest sequence number in use, or zero.
pub open spec fn max_sequence(w: World) -> u64 {
    max_of(seq![max_of(turn_sequences(w)), max_of(user_message_sequences(w)), max_of(assistant_message_sequences(w)), max_of(request_sequences(w)), max_of(response_sequences(w)), max_of(tool_use_sequences(w)), max_of(tool_outcome_sequences(w)), max_of(completed_sequences(w)), max_of(cancelled_sequences(w)), max_of(interrupted_sequences(w)), max_of(failed_sequences(w)), max_of(branch_sequences(w)), max_of(model_change_sequences(w)), max_of(compaction_sequences(w)), max_of(recovery_sequences(w))])
}

/// The identity allocator of `w` (a fresh one when it has none) with its counters moved past
/// every Turn ID, MessageId, ModelRequestId, ToolCallId, and sequence number in use.
pub open spec fn ids_restored(w: World) -> HarnessIds {
    let ids = match w.ids {
        Some(ids) => ids,
        None => HarnessIds::initial(),
    };
    let m0 = max_of(user_message_ids(w));
    let m1 = max_of(assistant_message_ids(w));
    let c0 = max_of(tool_use_ids(w));
    let c1 = max_of(tool_outcome_ids(w));
    HarnessIds {
        next_turn: restored(ids.next_turn, max_of(turn_ids(w))),
        next_message: restored(ids.next_message, if m0 < m1 { m1 } else { m0 }),
        next_model_request: restored(ids.next_model_request, max_of(request_ids(w))),
        next_tool_call: restored(ids.next_tool_call, if c0 < c1 { c1 } else { c0 }),
        next_sequence: restored(ids.next_sequence, max_sequence(w)),
    }
}

/// Creates the identity allocator when the world has none, then moves its counters past every
/// Turn ID, MessageId, ModelRequestId, ToolCallId, and sequence number in use.
pub fn initialize_harness_ids(world: &mut World)
    ensures
        ({
            let w = *old(world);
            let f = *final(world);
            &&& f.ids == Some(ids_restored(w))
            &&& f == World { ids: f.ids, ..w }
        }),
{
    let mut ids = match world.ids {
        Some(ids) => ids,
        None => HarnessIds::new(),
    };
    let turn = max_exec(&turn_ids_exec(world));
    let m0 = max_exec(&user_message_ids_exec(world));
    let m1 = max_exec(&assistant_message_ids_exec(world));
    let message = if m0 < m1 { m1 } else { m0 };
    let request = max_exec(&request_ids_exec(world));
    let c0 = max_exec(&tool_use_ids_exec(world));
    let c1 = max_exec(&tool_outcome_ids_exec(world));
    let tool_call = if c0 < c1 { c1 } else { c0 };
    let mut maxima: Vec<u64> = Vec::new();
    maxima.push(max_exec(&turn_sequences_exec(world)));
    maxima.push(max_exec(&user_message_sequences_exec(world)));
    maxima.push(max_exec(&assistant_message_sequences_exec(world)));
    maxima.push(max_exec(&request_sequences_exec(world)));
    maxima.push(max_exec(&response_sequences_exec(world)));
    maxima.push(max_exec(&tool_use_sequences_exec(world)));
    maxima.push(max_exec(&tool_outcome_sequences_exec(world)));
    maxima.push(max_exec(&completed_sequences_exec(world)));
    maxima.push(max_exec(&cancelled_sequences_exec(world)));
    maxima.push(max_exec(&interrupted_sequences_exec(world)));
    maxima.push(max_exec(&failed_sequences_exec(world)));
    maxima.push(max_exec(&branch_sequences_exec(world)));
    maxima.push(max_exec(&model_change_sequences_exec(world)));
    maxima.push(max_exec(&compaction_sequences_exec(world)));
    maxima.push(max_exec(&recovery_sequences_exec(world)));
    let sequence = max_exec(&maxima);
    proof {
        assert(maxima@ =~= seq![max_of(turn_sequences(*world)), max_of(user_message_sequences(*world)), max_of(assistant_message_sequences(*world)), max_of(request_sequences(*world)), max_of(response_sequences(*world)), max_of(tool_use_sequences(*world)), max_of(tool_outcome_sequences(*world)), max_of(completed_sequences(*world)), max_of(cancelled_sequences(*world)), max_of(interrupted_sequences(*world)), max_of(failed_sequences(*world)), max_of(branch_sequences(*world)), max_of(model_change_sequences(*world)), max_of(compaction_sequences(*world)), max_of(recovery_sequences(*world))]);
    }
    ids.restore_from_maxima(turn, message, request, tool_call, sequence);
    world.ids = Some(ids);
}

/// The Session rows after applying the first `n` pending heads in order: each sets the head of
/// its Session's entity to the entity of its Turn ID, or to none.
pub open spec fn heads_applied(sessions: Seq<(Entity, crate::world::Session)>, r: ReplayState, n: int) -> Seq<(Entity, crate::world::Session)>
    decreases n,
{
    if n <= 0 {
        sessions
    } else {
        let prev = heads_applied(sessions, r, n - 1);
        let (sid, head) = r.pending_heads@[n - 1];
        match lookup(r.sessions@, sid) {
            None => prev,
            Some(e) => {
                let h = match head {
                    Some(t) => lookup(r.turns@, t),
                    None => None,
                };
                let k = find(prev, e).unwrap();
                prev.update(k, (e, crate::world::Session { active_head: h, ..prev[k].1 }))
            },
        }
    }
}

/// Sets the head of every Session named by a pending head record; see [`heads_applied`].
pub fn apply_pending_heads(world: &mut World, replay: &ReplayState)
    requires
        sessions_known(*old(world), *replay),
    ensures
        final(world).sessions@ == heads_applied(old(world).sessions@, *replay, replay.pending_heads@.len() as int),
        *final(world) == (World { sessions: final(world).sessions, ..*old(world) }),
{
    let ghost w0 = *world;
    let mut i: usize = 0;
    while i < replay.pending_heads.len()
        invariant
            sessions_known(w0, *replay),
            i <= replay.pending_heads@.len(),
            world.sessions@ == heads_applied(w0.sessions@, *replay, i as int),
            crate::world::same_keys(w0.sessions@, world.sessions@),
            *world == (World { sessions: world.sessions, ..w0 }),
        decreases replay.pending_heads.len() - i,
    {
        let (sid, head) = replay.pending_heads[i];
        match get_key(&replay.sessions, sid) {
            None => {},
            Some(e) => {
                let h = match head {
                    Some(t) => get_key(&replay.turns, t),
                    None => None,
                };
                proof {
                    lemma_first_key(replay.sessions@, sid);
                    let j = first_key(replay.sessions@, sid).unwrap();
                    assert(crate::world::has_row(w0.sessions@, replay.sessions@[j].1));
                    crate::world::lemma_find_same_keys(w0.sessions@, world.sessions@, e);
                    lemma_find(world.sessions@, e);
                }
                let k = position(&world.sessions, e).unwrap();
                let session = world.sessions[k].1;
                let ghost before = world.sessions@;
                world.sessions.set(k, (e, crate::world::Session { active_head: h, ..session }));
                proof {
                    assert forall|j: int| 0 <= j < w0.sessions@.len() implies (#[trigger] w0.sessions@[j]).0 == world.sessions@[j].0 by {
                        assert(before[j].0 == w0.sessions@[j].0);
                    }
                }
            },
        }
        i = i + 1;
    }
}

/// The next ordinal of each file's log: one past its last record, or zero.
pub open spec fn file_ordinals(files: Seq<LoadedFile>) -> Seq<(SessionId, u64)> {
    Seq::new(
        files.len(),
        |i: int|
            (
                files[i].session,
                if files[i].records@.len() == 0 {
                    0u64
                } else {
                    (max_of(Seq::new(files[i].records@.len(), |j: int| files[i].records@[j].ordinal)) + 1) as u64
                },
            ),
    )
}

/// No record has the largest ordinal.
pub open spec fn ordinals_bounded(files: Seq<LoadedFile>) -> bool {
    forall|i: int, j: int| 0 <= i < files.len() && 0 <= j < files[i].records@.len() ==> (#[trigger] files[i].records@[j]).ordinal < u64::MAX
}

pub(crate) proof fn lemma_max_of_member(s: Seq<u64>)
    requires
        s.len() > 0,
    ensures
        exists|j: int| 0 <= j < s.len() && s[j] == max_of(s),
    decreases s.len(),
{
    let last = s.len() - 1;
    if s.len() > 1 {
        lemma_max_of_member(s.drop_last());
        let j = choose|j: int| 0 <= j < s.drop_last().len() && s.drop_last()[j] == max_of(s.drop_last());
        assert(s[j] == s.drop_last()[j]);
        if max_of(s) == s[last] {
            assert(s[last] == max_of(s));
        } else {
            assert(s[j] == max_of(s));
        }
    } else {
        assert(s.drop_last().len() == 0);
        assert(max_of(s.drop_last()) == 0);
        assert(s[last] == max_of(s));
    }
}

/// The next ordinal of each file's log; see [`file_ordinals`].
pub fn next_ordinals(files: &Vec<LoadedFile>) -> (ords: Vec<(SessionId, u64)>)
    requires
        ordinals_bounded(files@),
    ensures
        ords@ == file_ordinals(files@),
{
    let mut ords: Vec<(SessionId, u64)> = Vec::new();
    let mut i: usize = 0;
    while i < files.len()
        invariant
            ordinals_bounded(files@),
            i <= files@.len(),
            ords@ == file_ordinals(files@).take(i as int),
        decreases files.len() - i,
    {
        let rs = &files[i].records;
        let ghost col = Seq::new(rs@.len(), |j: int| rs@[j].ordinal);
        let mut m: u64 = 0;
        let mut j: usize = 0;
        while j < rs.len()
            invariant
                col == Seq::new(rs@.len(), |x: int| rs@[x].ordinal),
                j <= rs@.len(),
                m == max_of(col.take(j as int)),
            decreases rs.len() - j,
        {
            proof {
                assert(col.take(j + 1).drop_last() =~= col.take(j as int));
            }
            if m < rs[j].ordinal {
                m = rs[j].ordinal;
            }
            j = j + 1;
        }
        proof {
            assert(col.take(col.len() as int) =~= col);
        }
        let next = if rs.len() == 0 {
            0
        } else {
            proof {
                lemma_max_of_member(col);
                let x = choose|x: int| 0 <= x < col.len() && col[x] == max_of(col);
                assert(files@[i as int].records@[x].ordinal < u64::MAX);
            }
            m + 1
        };
        ords.push((files[i].session, next));
        proof {
            assert(ords@ =~= file_ordinals(files@).take(i + 1));
        }
        i = i + 1;
    }
    proof {
        assert(file_ordinals(files@).take(files@.len() as int) =~= file_ordinals(files@));
    }
    ords
}

/// Blocks persistence and keeps `message` for the startup report.
pub fn load_failure(state: &mut PersistenceState, message: String)
    ensures
        final(state).blocked,
        final(state).pending_failure matches Some(m) && m@ == message@,
        final(state).last_values@ == old(state).last_values@,
        final(state).next_ordinals@ == old(state).next_ordinals@,
        final(state).last_failure == old(state).last_failure,
{
    state.blocked = true;
    state.pending_failure = Some(message);
}

/// The keys and values of a keyed collection.
pub open spec fn baseline_of(m: Seq<(Seq<char>, SessionId, EventView)>) -> Seq<(Seq<char>, EventView)> {
    m.map_values(|x: (Seq<char>, SessionId, EventView)| (x.0, x.2))
}

/// Counts every event the world holds as persisted, with the given next ordinals; fails, changing
/// nothing, when the events cannot be collected.
pub fn initialize_baseline(world: &World, state: &mut PersistenceState, ords: Vec<(SessionId, u64)>) -> (r: Result<(), String>)
    ensures
        r is Ok <==> collect_events_ok(*world),
        r is Ok ==> {
            &&& last_views(final(state).last_values@) == baseline_of(keyed(raw_events(*world)).unwrap())
            &&& final(state).next_ordinals@ == ords@
        },
        r is Err ==> final(state).last_values@ == old(state).last_values@ && final(state).next_ordinals@ == old(state).next_ordinals@,
        final(state).blocked == old(state).blocked,
        final(state).pending_failure == old(state).pending_failure,
        final(state).last_failure == old(state).last_failure,
{
    let entries = match collect_events(world) {
        Err(m) => {
            return Err(m);
        },
        Ok(v) => v,
    };
    let ghost ev = keyed_views(entries@);
    let mut values: Vec<(String, Event)> = Vec::new();
    let mut i: usize = 0;
    while i < entries.len()
        invariant
            ev == keyed_views(entries@),
            i <= entries@.len(),
            last_views(values@) == baseline_of(ev).take(i as int),
        decreases entries.len() - i,
    {
        let ghost before = values@;
        let key = entries[i].key.clone();
        let event = entries[i].event.copy();
        proof {
            assert(ev[i as int] == (entries@[i as int].key@, entries@[i as int].session, entries@[i as int].event.view()));
            assert(baseline_of(ev)[i as int] == (key@, event.view()));
        }
        values.push((key, event));
        proof {
            assert(last_views(values@) =~= last_views(before).push(baseline_of(ev)[i as int]));
            assert(baseline_of(ev).take(i + 1) =~= baseline_of(ev).take(i as int).push(baseline_of(ev)[i as int]));
        }
        i = i + 1;
    }
    proof {
        assert(baseline_of(ev).take(ev.len() as int) =~= baseline_of(ev));
    }
    state.last_values = values;
    state.next_ordinals = ords;
    Ok(())
}

/// Replay has placed nothing yet.
pub open spec fn replay_empty(r: ReplayState) -> bool {
    &&& r.sessions@.len() == 0
    &&& r.turns@.len() == 0
    &&& r.user_messages@.len() == 0
    &&& r.assistant_messages@.len() == 0
    &&& r.requests@.len() == 0
    &&& r.responses@.len() == 0
    &&& r.tool_uses@.len() == 0
    &&& r.context_cameras@.len() == 0
    &&& r.pending_heads@.len() == 0
}

/// What [`hydrate`] makes of `w` and `s0` with `files`: the world `f` and the state `s1`.
pub open spec fn hydrated(w: World, s0: PersistenceState, files: Seq<LoadedFile>, f: World, s1: PersistenceState) -> bool {
    if files.len() == 0 {
        f == w && s1 == s0
    } else if !crate::replay::files_valid(files, w) {
        f == w && s1.blocked && (s1.pending_failure matches Some(m) && crate::replay::validation(files, w) == Some(m@))
    } else {
        exists|r0: ReplayState, w1: World, r1: ReplayState, ok: bool|
            {
                &&& replay_empty(r0)
                &&& #[trigger] replay_outcome(w, r0, files, w1, r1, ok)
                &&& if !ok {
                    f == w1 && s1.blocked && s1.pending_failure is Some
                } else {
                    &&& f.sessions@ == heads_applied(w1.sessions@, r1, r1.pending_heads@.len() as int)
                    &&& f.ids == Some(ids_restored(w1))
                    &&& f == (World { sessions: f.sessions, ids: f.ids, ..w1 })
                    &&& if collect_events_ok(f) {
                        &&& last_views(s1.last_values@) == baseline_of(keyed(raw_events(f)).unwrap())
                        &&& s1.next_ordinals@ == file_ordinals(files)
                        &&& s1.blocked == s0.blocked
                    } else {
                        s1.blocked && s1.pending_failure is Some
                    }
                }
            }
    }
}

/// Loads persisted Session logs into the world at startup.
///
/// With no files nothing happens. Files that fail validation block persistence with a pending
/// failure and change nothing. Otherwise the files are replayed; a record that fails stops the
/// replay and blocks persistence. After a complete replay every Session gets its persisted head,
/// the identity allocator moves past every identity in use, and every event of the world counts
/// as persisted, each log continuing after its last ordinal; when the events cannot be collected,
/// persistence is blocked.
pub fn hydrate(world: &mut World, state: &mut PersistenceState, files: &Vec<LoadedFile>)
    requires
        old(world).next_entity + replay_steps(files@).len() < u64::MAX,
        ordinals_bounded(files@),
    ensures
        hydrated(*old(world), *old(state), files@, *final(world), *final(state)),
{
    if files.len() == 0 {
        return;
    }
    match crate::replay::validate_files(files, world) {
        Err(m) => {
            load_failure(state, m);
            return;
        },
        Ok(()) => {},
    }
    let mut replay = ReplayState::new();
    let ghost w0 = *world;
    let ghost r0 = replay;
    let res = replay_files(world, &mut replay, files);
    match res {
        Err(m) => {
            load_failure(state, m);
            proof {
                assert(replay_empty(r0));
                assert(replay_outcome(w0, r0, files@, *world, replay, false));
            }
            return;
        },
        Ok(()) => {},
    }
    let ghost w1 = *world;
    let ghost r1 = replay;
    apply_pending_heads(world, &replay);
    initialize_harness_ids(world);
    let ords = next_ordinals(files);
    if let Err(m) = initialize_baseline(world, state, ords) {
        load_failure(state, m);
    }
}

} // verus!
