use vstd::prelude::*;

use crate::harness::ids_available;
use crate::order::{is_sorted_perm, reorder, sort_order, Key};
use crate::context::{context_matches, project_context, views, ContextDocument, ProjectionError};
use crate::ids::{Entity, HarnessIds, MessageId, ModelRequestId, Sequence, SessionId, ToolCallId, ToolId};
use crate::world::{
    find, get, has_row, lemma_find, position, AssistantMessage, ModelApi, ModelRequest,
    ModelResponse, ModelStopReason, ModelUsage, ProviderFailure, ToolFailure, ToolOutcome,
    ToolUse, TurnCompleted, TurnFailed, TurnFailure, WorkStatus, World,
};

verus! {

/// What a provider asked for.
#[derive(Debug)]
pub enum ModelReply {
    ToolCall { tool_id: ToolId, input: String },
    Final { text: String },
}

/// Normalized provider output.
#[derive(Debug)]
pub struct ModelOutput {
    pub reply: ModelReply,
    pub assistant_content: Option<String>,
    pub response_id: String,
    pub api: ModelApi,
    pub usage: ModelUsage,
    pub stop_reason: ModelStopReason,
    pub opaque_replay: String,
}

/// A finished provider task, with the identity of the work it answers.
#[derive(Debug)]
pub struct ModelResult {
    pub session: Entity,
    pub turn: Entity,
    pub work: Entity,
    pub request_id: ModelRequestId,
    pub generation: u64,
    pub result: Result<ModelOutput, ProviderFailure>,
}

/// A finished tool task, with the identity of the work it answers.
#[derive(Debug)]
pub struct ToolResult {
    pub session: Entity,
    pub turn: Entity,
    pub work: Entity,
    pub tool_call_id: ToolCallId,
    pub generation: u64,
    pub result: Result<String, ToolFailure>,
}

/// The table without the rows of entity `e`.
pub open spec fn without<T>(s: Seq<(Entity, T)>, e: Entity) -> Seq<(Entity, T)> {
    s.filter(|row: (Entity, T)| row.0 != e)
}

/// Removing an entity's rows twice removes them once.
pub proof fn lemma_without_idempotent<T>(s: Seq<(Entity, T)>, e: Entity)
    ensures
        without(without(s, e), e) == without(s, e),
    decreases s.len(),
{
    reveal_with_fuel(Seq::filter, 1);
    if s.len() > 0 {
        lemma_without_idempotent(s.drop_last(), e);
        let t = without(s.drop_last(), e);
        if s.last().0 != e {
            assert(without(s, e) == t.push(s.last()));
            assert(without(s, e).drop_last() =~= t);
        } else {
            assert(without(s, e) == t);
        }
    }
}

/// Removes the rows of entity `e` from a task table.
pub fn remove_task(tasks: &mut Vec<(Entity, ())>, e: Entity)
    ensures
        final(tasks)@ == without(old(tasks)@, e),
{
    let ghost start = tasks@;
    let mut kept: Vec<(Entity, ())> = Vec::new();
    let mut i: usize = 0;
    while i < tasks.len()
        invariant
            i <= tasks@.len(),
            tasks@ == start,
            kept@ == without(start.take(i as int), e),
        decreases tasks.len() - i,
    {
        let row = tasks[i];
        proof {
            reveal_with_fuel(Seq::filter, 1);
            assert(start.take(i + 1).drop_last() =~= start.take(i as int));
            assert(start.take(i + 1).last() == row);
        }
        if row.0 != e {
            kept.push(row);
        }
        i = i + 1;
    }
    proof {
        assert(start.take(i as int) =~= start);
    }
    *tasks = kept;
}

/// Tool entity `tool` is exposed to `agent`.
pub open spec fn exposed(w: World, agent: Entity, tool: Entity) -> bool {
    exists|j: int|
        0 <= j < w.agent_tools@.len() && (#[trigger] w.agent_tools@[j]).1.agent == agent
            && w.agent_tools@[j].1.tool == tool
}

/// Entity `e` defines tool `id` and is exposed to `agent`.
pub open spec fn tool_candidate(w: World, id: ToolId, agent: Entity, e: Entity) -> bool {
    exists|j: int|
        0 <= j < w.tools@.len() && (#[trigger] w.tools@[j]).0 == e && w.tools@[j].1.tool_id == id
            && exposed(w, agent, e)
}

/// The candidate tool entity with the smallest handle.
pub open spec fn chosen_tool(w: World, id: ToolId, agent: Entity, r: Option<Entity>) -> bool {
    match r {
        Some(e) => tool_candidate(w, id, agent, e) && forall|x: Entity|
            #[trigger] tool_candidate(w, id, agent, x) ==> e.0 <= x.0,
        None => forall|x: Entity| !#[trigger] tool_candidate(w, id, agent, x),
    }
}

fn is_exposed(world: &World, agent: Entity, tool: Entity) -> (b: bool)
    ensures
        b == exposed(*world, agent, tool),
{
    let mut i: usize = 0;
    while i < world.agent_tools.len()
        invariant
            i <= world.agent_tools@.len(),
            forall|j: int|
                0 <= j < i ==> !((#[trigger] world.agent_tools@[j]).1.agent == agent
                    && world.agent_tools@[j].1.tool == tool),
        decreases world.agent_tools.len() - i,
    {
        if world.agent_tools[i].1.agent == agent && world.agent_tools[i].1.tool == tool {
            return true;
        }
        i = i + 1;
    }
    false
}

/// Tool candidacy depends only on the tool definitions and exposures.
pub proof fn lemma_tool_candidate_frame(a: World, b: World, id: ToolId, agent: Entity)
    requires
        a.tools@ == b.tools@,
        a.agent_tools@ == b.agent_tools@,
    ensures
        forall|x: Entity|
            #![trigger tool_candidate(a, id, agent, x)]
            #![trigger tool_candidate(b, id, agent, x)]
            tool_candidate(a, id, agent, x) == tool_candidate(b, id, agent, x),
{
    assert forall|x: Entity| tool_candidate(a, id, agent, x) == #[trigger] tool_candidate(b, id, agent, x) by {
        assert(forall|t: Entity| exposed(a, agent, t) == #[trigger] exposed(b, agent, t));
    }
}

/// The chosen tool is unique.
pub proof fn lemma_chosen_tool_unique(w: World, id: ToolId, agent: Entity, t: Entity)
    requires
        chosen_tool(w, id, agent, Some(t)),
    ensures
        (choose|x: Entity| chosen_tool(w, id, agent, Some(x))) == t,
{
    let c = choose|x: Entity| chosen_tool(w, id, agent, Some(x));
    assert(chosen_tool(w, id, agent, Some(c)));
    assert(c.0 <= t.0 && t.0 <= c.0);
}

/// Finds the exposed tool entity for a requested tool ID.
pub fn find_exposed_tool(world: &World, id: ToolId, agent: Entity) -> (r: Option<Entity>)
    ensures
        chosen_tool(*world, id, agent, r),
{
    let mut best: Option<Entity> = None;
    let mut i: usize = 0;
    while i < world.tools.len()
        invariant
            i <= world.tools@.len(),
            match best {
                Some(e) => tool_candidate(*world, id, agent, e) && forall|j: int|
                    0 <= j < i && (#[trigger] world.tools@[j]).1.tool_id == id && exposed(
                        *world,
                        agent,
                        world.tools@[j].0,
                    ) ==> e.0 <= world.tools@[j].0.0,
                None => forall|j: int|
                    0 <= j < i ==> !((#[trigger] world.tools@[j]).1.tool_id == id && exposed(
                        *world,
                        agent,
                        world.tools@[j].0,
                    )),
            },
        decreases world.tools.len() - i,
    {
        let e = world.tools[i].0;
        if world.tools[i].1.tool_id == id && is_exposed(world, agent, e) {
            let better = match best {
                None => true,
                Some(b) => e.0 < b.0,
            };
            if better {
                best = Some(e);
            }
        }
        i = i + 1;
    }
    proof {
        match best {
            Some(e) => {
                assert forall|x: Entity| #[trigger] tool_candidate(*world, id, agent, x) implies e.0
                    <= x.0 by {
                    let j = choose|j: int|
                        0 <= j < world.tools@.len() && (#[trigger] world.tools@[j]).0 == x
                            && world.tools@[j].1.tool_id == id && exposed(*world, agent, x);
                    assert(world.tools@[j].1.tool_id == id);
                }
            },
            None => {
                assert forall|x: Entity| !#[trigger] tool_candidate(*world, id, agent, x) by {
                    if tool_candidate(*world, id, agent, x) {
                        let j = choose|j: int|
                            0 <= j < world.tools@.len() && (#[trigger] world.tools@[j]).0 == x
                                && world.tools@[j].1.tool_id == id && exposed(*world, agent, x);
                        assert(world.tools@[j].1.tool_id == id);
                    }
                }
            },
        }
    }
    best
}


/// How one model result is applied.
#[derive(Debug, Clone, Copy, PartialEq, Eq, Structural)]
pub enum ModelVerdict {
    /// The result does not answer the current running request: it is ignored.
    Stale,
    /// The provider failed: the request and the Turn fail.
    ProviderFailed,
    /// The reply does not fit the request (a tool call must answer a first request and stop for
    /// tool use; a final reply must answer a continuation and stop complete).
    Mismatch,
    /// The requested tool is not an exposed tool of the Agent.
    ToolNotExposed,
    /// The request's Agent no longer uses the request's Model.
    AgentUnavailable,
    /// A tool call becomes a pending ToolUse.
    ToolCall,
    /// A final reply completes the Turn.
    Final,
}

/// The result answers the running request it names, in the current Turn generation, and no
/// earlier result of the same batch was accepted for the same work.
pub open spec fn model_result_fresh(w: World, r: ModelResult, accepted: Seq<Entity>) -> bool {
    match (get(w.model_requests@, r.work), get(w.turns@, r.turn)) {
        (Some(req), Some(turn)) => {
            &&& req.id == r.request_id
            &&& req.turn == r.turn
            &&& req.generation == r.generation
            &&& req.status == WorkStatus::Running
            &&& turn.session == r.session
            &&& turn.generation == r.generation
            &&& !accepted.contains(r.work)
        },
        _ => false,
    }
}

/// The reply kind, the stop reason, and the request's continuation agree.
pub open spec fn reply_fits(o: ModelOutput, req: ModelRequest) -> bool {
    match o.reply {
        ModelReply::ToolCall { .. } => o.stop_reason == ModelStopReason::ToolUse
            && req.previous_tool_use is None,
        ModelReply::Final { .. } => o.stop_reason == ModelStopReason::Complete
            && req.previous_tool_use is Some,
    }
}

/// The request's Agent exists and still uses the request's Model.
pub open spec fn agent_matches(w: World, req: ModelRequest) -> bool {
    match get(w.agents@, req.agent) {
        Some(a) => a.model == req.model,
        None => false,
    }
}

/// How result `r` is applied to `w`.
pub open spec fn model_verdict(w: World, r: ModelResult, accepted: Seq<Entity>) -> ModelVerdict {
    if !model_result_fresh(w, r, accepted) {
        ModelVerdict::Stale
    } else {
        let req = get(w.model_requests@, r.work).unwrap();
        match r.result {
            Err(_) => ModelVerdict::ProviderFailed,
            Ok(o) => if !reply_fits(o, req) {
                ModelVerdict::Mismatch
            } else {
                match o.reply {
                    ModelReply::ToolCall { tool_id, .. } => {
                        if forall|x: Entity| !#[trigger] tool_candidate(w, tool_id, req.agent, x) {
                            ModelVerdict::ToolNotExposed
                        } else if !agent_matches(w, req) {
                            ModelVerdict::AgentUnavailable
                        } else {
                            ModelVerdict::ToolCall
                        }
                    },
                    ModelReply::Final { .. } => ModelVerdict::Final,
                }
            },
        }
    }
}

/// Everything but work, messages, Turn failures and completions, and identities is unchanged.
pub open spec fn same_outside_model_apply(a: World, b: World) -> bool {
    &&& a.same_capabilities(b)
    &&& a.sessions@ == b.sessions@
    &&& a.turns@ == b.turns@
    &&& a.user_messages@ == b.user_messages@
    &&& a.branch_selections@ == b.branch_selections@
    &&& a.model_changes@ == b.model_changes@
    &&& a.compactions@ == b.compactions@
    &&& a.recoveries@ == b.recoveries@
    &&& a.persistence_failures@ == b.persistence_failures@
    &&& a.tool_outcomes@ == b.tool_outcomes@
    &&& a.tool_tasks@ == b.tool_tasks@
    &&& a.turns_cancelled@ == b.turns_cancelled@
    &&& a.turns_interrupted@ == b.turns_interrupted@
    &&& a.same_cameras(b)
    &&& a.active_session == b.active_session
    &&& a.active_agent == b.active_agent
    &&& a.harness_ready == b.harness_ready
}

/// The recorded failure of a Turn with a provider failure message.
pub open spec fn provider_failed_row(row: (Entity, TurnFailed), e: Entity, turn: Entity, generation: u64, sequence: u64, message: Seq<char>) -> bool {
    &&& row.0 == e
    &&& row.1.turn == turn
    &&& row.1.generation == generation
    &&& row.1.sequence == Sequence(sequence)
    &&& row.1.failure matches TurnFailure::Provider(p) && p.message@ == message
}

/// The model request at row `k` with a new status.
pub open spec fn with_status(reqs: Seq<(Entity, ModelRequest)>, k: int, status: WorkStatus) -> Seq<(Entity, ModelRequest)> {
    reqs.update(k, (reqs[k].0, ModelRequest { status, ..reqs[k].1 }))
}

/// `f` is `w` after the ModelRequest at row `k`, whose entity is `work`, failed with a provider
/// failure carrying `message`: the request is Failed, its task handle is gone, and a new entity
/// records the failed Turn with the next sequence number. Nothing else changes.
pub open spec fn request_failed(w: World, f: World, k: int, work: Entity, turn: Entity, generation: u64, message: Seq<char>) -> bool {
    let ids = w.ids.unwrap();
    &&& f.model_requests@ == with_status(w.model_requests@, k, WorkStatus::Failed)
    &&& f.model_tasks@ == without(w.model_tasks@, work)
    &&& f.turns_failed@.len() == w.turns_failed@.len() + 1
    &&& f.turns_failed@.drop_last() == w.turns_failed@
    &&& provider_failed_row(f.turns_failed@.last(), Entity(w.next_entity), turn, generation, ids.next_sequence, message)
    &&& f.next_entity == w.next_entity + 1
    &&& f.ids == Some(HarnessIds { next_sequence: (ids.next_sequence + 1) as u64, ..ids })
    &&& same_outside_model_apply(w, f)
    &&& f.model_responses@ == w.model_responses@
    &&& f.assistant_messages@ == w.assistant_messages@
    &&& f.tool_uses@ == w.tool_uses@
    &&& f.turns_completed@ == w.turns_completed@
    &&& f.turns@ == w.turns@
    &&& f.same_timeline(w)
    &&& f.tool_outcomes@ == w.tool_outcomes@
    &&& f.tool_tasks@ == w.tool_tasks@
    &&& f.turns_cancelled@ == w.turns_cancelled@
    &&& f.turns_interrupted@ == w.turns_interrupted@
    &&& f.same_cameras(w)
    &&& f.active_session == w.active_session
    &&& f.active_agent == w.active_agent
    &&& f.harness_ready == w.harness_ready
}

fn fail_running_request(world: &mut World, k: usize, work: Entity, turn: Entity, generation: u64, failure: ProviderFailure)
    requires
        k < old(world).model_requests@.len(),
        old(world).model_requests@[k as int].0 == work,
        old(world).ids is Some,
        old(world).ids.unwrap().next_sequence < u64::MAX,
        old(world).next_entity < u64::MAX,
    ensures
        final(world).model_requests@ == with_status(old(world).model_requests@, k as int, WorkStatus::Failed),
        final(world).model_tasks@ == without(old(world).model_tasks@, work),
        final(world).turns_failed@ == old(world).turns_failed@.push(
            (Entity(old(world).next_entity), TurnFailed {
                turn,
                generation,
                failure: TurnFailure::Provider(failure),
                sequence: Sequence(old(world).ids.unwrap().next_sequence),
            }),
        ),
        final(world).next_entity == old(world).next_entity + 1,
        final(world).ids == Some(HarnessIds { next_sequence: (old(world).ids.unwrap().next_sequence + 1) as u64, ..old(world).ids.unwrap() }),
        same_outside_model_apply(*old(world), *final(world)),
        final(world).model_responses@ == old(world).model_responses@,
        final(world).assistant_messages@ == old(world).assistant_messages@,
        final(world).tool_uses@ == old(world).tool_uses@,
        final(world).turns_completed@ == old(world).turns_completed@,
        request_failed(*old(world), *final(world), k as int, work, turn, generation, failure.message@),
{
    let ghost w0 = *world;
    let (e, r) = world.model_requests[k];
    world.model_requests.set(k, (e, ModelRequest { status: WorkStatus::Failed, ..r }));
    remove_task(&mut world.model_tasks, work);
    let mut ids = world.ids.unwrap();
    let sequence = ids.sequence();
    world.ids = Some(ids);
    let outcome = world.spawn();
    world.turns_failed.push(
        (outcome, TurnFailed { turn, generation, failure: TurnFailure::Provider(failure), sequence }),
    );
    proof {
        assert(world.turns_failed@.drop_last() =~= w0.turns_failed@);
    }
}

/// The identity allocator and entity counter can serve one model result.
pub open spec fn can_apply_model_result(w: World) -> bool {
    &&& w.ids is Some
    &&& w.ids.unwrap().next_sequence + 3 <= u64::MAX
    &&& w.ids.unwrap().next_message < u64::MAX
    &&& w.ids.unwrap().next_tool_call < u64::MAX
    &&& w.next_entity + 3 <= u64::MAX
}


/// `f` and `a1` are `w` and the accepted works `a0` after applying `result`, with verdict `v`.
pub open spec fn model_result_applied(w: World, f: World, result: ModelResult, a0: Seq<Entity>, a1: Seq<Entity>, v: ModelVerdict) -> bool {
    &&& v == model_verdict(w, result, a0)
    &&& {
        let ne = w.next_entity;
        let ids = w.ids.unwrap();
        let ns = ids.next_sequence;
        let k = find(w.model_requests@, result.work).unwrap();
        let req = w.model_requests@[k].1;
        match v {
            ModelVerdict::Stale => f.same_world(w) && a1 == a0,
            ModelVerdict::ProviderFailed => {
                &&& a1 == a0.push(result.work)
                &&& f.model_requests@ =~= with_status(w.model_requests@, k, WorkStatus::Failed)
                &&& f.model_tasks@ =~= without(w.model_tasks@, result.work)
                &&& f.turns_failed@ =~= w.turns_failed@.push(
                    (Entity(ne), TurnFailed {
                        turn: result.turn,
                        generation: result.generation,
                        failure: TurnFailure::Provider(result.result->Err_0),
                        sequence: Sequence(ns),
                    }),
                )
                &&& f.next_entity == ne + 1
                &&& f.ids == Some(HarnessIds { next_sequence: (ns + 1) as u64, ..ids })
                &&& same_outside_model_apply(w, f)
                &&& f.model_responses@ =~= w.model_responses@
                &&& f.assistant_messages@ =~= w.assistant_messages@
                &&& f.tool_uses@ =~= w.tool_uses@
                &&& f.turns_completed@ =~= w.turns_completed@
            },
            _ => {
                let o = result.result->Ok_0;
                let has_content = o.assistant_content is Some && o.reply is ToolCall;
                let e2 = if has_content { ne + 2 } else { ne + 1 };
                let s2 = if has_content { ns + 2 } else { ns + 1 };
                &&& a1 == a0.push(result.work)
                &&& f.model_responses@ =~= w.model_responses@.push(
                    (Entity(ne), ModelResponse {
                        request: result.work,
                        turn: req.turn,
                        model: req.model,
                        generation: req.generation,
                        provider: req.provider,
                        response_id: o.response_id,
                        api: o.api,
                        usage: o.usage,
                        stop_reason: o.stop_reason,
                        opaque_replay: o.opaque_replay,
                        sequence: Sequence(ns),
                    }),
                )
                &&& f.model_tasks@ =~= without(w.model_tasks@, result.work)
                &&& same_outside_model_apply(w, f)
                &&& match v {
                    ModelVerdict::Mismatch => {
                        &&& f.model_requests@ =~= with_status(w.model_requests@, k, WorkStatus::Failed)
                        &&& f.turns_failed@.len() == w.turns_failed@.len() + 1
                        &&& f.turns_failed@.drop_last() =~= w.turns_failed@
                        &&& provider_failed_row(f.turns_failed@.last(), Entity((ne + 1) as u64), req.turn, req.generation, (ns + 1) as u64,
                            "Provider output does not match the request continuation."@)
                        &&& f.next_entity == ne + 2
                        &&& f.ids == Some(HarnessIds { next_sequence: (ns + 2) as u64, ..ids })
                        &&& f.assistant_messages@ =~= w.assistant_messages@
                        &&& f.tool_uses@ =~= w.tool_uses@
                        &&& f.turns_completed@ =~= w.turns_completed@
                    },
                    ModelVerdict::Final => {
                        &&& f.model_requests@ =~= with_status(w.model_requests@, k, WorkStatus::Succeeded)
                        &&& f.assistant_messages@.len() == w.assistant_messages@.len() + 1
                        &&& f.assistant_messages@.drop_last() =~= w.assistant_messages@
                        &&& f.assistant_messages@.last() == (Entity((ne + 1) as u64), AssistantMessage {
                            id: MessageId(ids.next_message),
                            turn: req.turn,
                            sequence: Sequence((ns + 1) as u64),
                            text: o.reply->Final_text,
                        })
                        &&& f.turns_completed@ =~= w.turns_completed@.push(
                            (Entity((ne + 2) as u64), TurnCompleted {
                                turn: req.turn,
                                generation: req.generation,
                                sequence: Sequence((ns + 2) as u64),
                            }),
                        )
                        &&& f.next_entity == ne + 3
                        &&& f.ids == Some(HarnessIds {
                            next_sequence: (ns + 3) as u64,
                            next_message: (ids.next_message + 1) as u64,
                            ..ids
                        })
                        &&& f.tool_uses@ =~= w.tool_uses@
                        &&& f.turns_failed@ =~= w.turns_failed@
                    },
                    _ => {
                        // A fitting tool call.
                        &&& (has_content ==> f.assistant_messages@ =~= w.assistant_messages@.push(
                            (Entity((ne + 1) as u64), AssistantMessage {
                                id: MessageId(ids.next_message),
                                turn: req.turn,
                                sequence: Sequence((ns + 1) as u64),
                                text: o.assistant_content->Some_0,
                            }),
                        ))
                        &&& (!has_content ==> f.assistant_messages@ =~= w.assistant_messages@)
                        &&& f.turns_completed@ =~= w.turns_completed@
                        &&& match v {
                            ModelVerdict::ToolCall => {
                                let tool = choose|x: Entity| chosen_tool(w, o.reply->ToolCall_tool_id, req.agent, Some(x));
                                &&& chosen_tool(w, o.reply->ToolCall_tool_id, req.agent, Some(tool))
                                &&& f.model_requests@ =~= with_status(w.model_requests@, k, WorkStatus::Succeeded)
                                &&& f.tool_uses@ =~= w.tool_uses@.push(
                                    (Entity(e2 as u64), ToolUse {
                                        id: ToolCallId(ids.next_tool_call),
                                        turn: req.turn,
                                        agent: req.agent,
                                        tool,
                                        model: req.model,
                                        provider: req.provider,
                                        generation: req.generation,
                                        input: o.reply->ToolCall_input,
                                        status: WorkStatus::Pending,
                                        sequence: Sequence(s2 as u64),
                                    }),
                                )
                                &&& f.turns_failed@ =~= w.turns_failed@
                                &&& f.next_entity == e2 + 1
                                &&& f.ids == Some(HarnessIds {
                                    next_sequence: (s2 + 1) as u64,
                                    next_message: if has_content { (ids.next_message + 1) as u64 } else { ids.next_message },
                                    next_tool_call: (ids.next_tool_call + 1) as u64,
                                    ..ids
                                })
                            },
                            _ => {
                                &&& f.model_requests@ =~= with_status(w.model_requests@, k, WorkStatus::Failed)
                                &&& f.tool_uses@ =~= w.tool_uses@
                                &&& f.turns_failed@.len() == w.turns_failed@.len() + 1
                                &&& f.turns_failed@.drop_last() =~= w.turns_failed@
                                &&& provider_failed_row(f.turns_failed@.last(), Entity(e2 as u64), req.turn, req.generation, s2 as u64,
                                    if v == ModelVerdict::ToolNotExposed {
                                        "Requested Tool is not exposed by the Agent."@
                                    } else {
                                        "Model request Agent is unavailable."@
                                    })
                                &&& f.next_entity == e2 + 1
                                &&& f.ids == Some(HarnessIds {
                                    next_sequence: (s2 + 1) as u64,
                                    next_message: if has_content { (ids.next_message + 1) as u64 } else { ids.next_message },
                                    ..ids
                                })
                            },
                        }
                    },
                }
            },
        }
    }
}

/// Applies one finished provider task to the world.
///
/// Stale results change nothing. An accepted result is recorded in `accepted`; a provider
/// failure fails the request and the Turn. A successful output is always recorded as a
/// ModelResponse first; then a reply that does not fit the request fails it, a tool call
/// records the optional assistant content and becomes a pending ToolUse of the smallest exposed
/// tool entity with the requested ID, and a final reply records the assistant text and completes
/// the Turn. Every accepted result ends the request's task handle.
pub fn apply_model_result(world: &mut World, result: ModelResult, accepted: &mut Vec<Entity>) -> (v: ModelVerdict)
    requires
        can_apply_model_result(*old(world)),
    ensures
        model_result_applied(*old(world), *final(world), result, old(accepted)@, final(accepted)@, v),
{
    let ghost w0 = *world;
    let k = match position(&world.model_requests, result.work) {
        None => {
            return ModelVerdict::Stale;
        },
        Some(k) => k,
    };
    proof {
        lemma_find(world.model_requests@, result.work);
    }
    let tk = match position(&world.turns, result.turn) {
        None => {
            return ModelVerdict::Stale;
        },
        Some(tk) => tk,
    };
    proof {
        lemma_find(world.turns@, result.turn);
    }
    let req = world.model_requests[k].1;
    let turn = world.turns[tk].1;
    if req.id != result.request_id || req.turn != result.turn || req.generation != result.generation
        || req.status != WorkStatus::Running || turn.session != result.session || turn.generation
        != result.generation || crate::camera::contains_entity(accepted, result.work) {
        return ModelVerdict::Stale;
    }
    accepted.push(result.work);
    let work = result.work;
    match result.result {
        Err(failure) => {
            fail_running_request(world, k, work, result.turn, result.generation, failure);
            ModelVerdict::ProviderFailed
        },
        Ok(output) => {
            let mut ids = world.ids.unwrap();
            let response_sequence = ids.sequence();
            world.ids = Some(ids);
            let response = world.spawn();
            let fits = match &output.reply {
                ModelReply::ToolCall { .. } => output.stop_reason == ModelStopReason::ToolUse
                    && req.previous_tool_use.is_none(),
                ModelReply::Final { .. } => output.stop_reason == ModelStopReason::Complete
                    && req.previous_tool_use.is_some(),
            };
            let ModelOutput { reply, assistant_content, response_id, api, usage, stop_reason, opaque_replay } = output;
            world.model_responses.push(
                (response, ModelResponse {
                    request: work,
                    turn: req.turn,
                    model: req.model,
                    generation: req.generation,
                    provider: req.provider,
                    response_id,
                    api,
                    usage,
                    stop_reason,
                    opaque_replay,
                    sequence: response_sequence,
                }),
            );
            if !fits {
                proof {
                    reveal_strlit("Provider output does not match the request continuation.");
                }
                fail_running_request(world, k, work, req.turn, req.generation, ProviderFailure {
                    message: String::from_str("Provider output does not match the request continuation."),
                });
                return ModelVerdict::Mismatch;
            }
            world.model_requests.set(k, (work, ModelRequest { status: WorkStatus::Succeeded, ..req }));
            remove_task(&mut world.model_tasks, work);
            match reply {
                ModelReply::ToolCall { tool_id, input } => {
                    match assistant_content {
                        Some(content) => {
                            let mut ids = world.ids.unwrap();
                            let id = ids.message();
                            let sequence = ids.sequence();
                            world.ids = Some(ids);
                            let message = world.spawn();
                            world.assistant_messages.push(
                                (message, AssistantMessage { id, turn: req.turn, sequence, text: content }),
                            );
                        },
                        None => {},
                    }
                    let found = find_exposed_tool(world, tool_id, req.agent);
                    proof {
                        lemma_tool_candidate_frame(w0, *world, tool_id, req.agent);
                    }
                    let tool = match found {
                        None => {
                            proof {
                                reveal_strlit("Requested Tool is not exposed by the Agent.");
                            }
                            fail_running_request(world, k, work, req.turn, req.generation, ProviderFailure {
                                message: String::from_str("Requested Tool is not exposed by the Agent."),
                            });
                            proof {
                                lemma_without_idempotent(w0.model_tasks@, work);
                            }
                            return ModelVerdict::ToolNotExposed;
                        },
                        Some(t) => t,
                    };
                    let agent_ok = match position(&world.agents, req.agent) {
                        Some(ak) => {
                            proof {
                                lemma_find(world.agents@, req.agent);
                            }
                            world.agents[ak].1.model == req.model
                        },
                        None => false,
                    };
                    if !agent_ok {
                        proof {
                            reveal_strlit("Model request Agent is unavailable.");
                        }
                        fail_running_request(world, k, work, req.turn, req.generation, ProviderFailure {
                            message: String::from_str("Model request Agent is unavailable."),
                        });
                        proof {
                            lemma_without_idempotent(w0.model_tasks@, work);
                        }
                        return ModelVerdict::AgentUnavailable;
                    }
                    proof {
                        assert(chosen_tool(w0, tool_id, req.agent, Some(tool)));
                        lemma_chosen_tool_unique(w0, tool_id, req.agent, tool);
                    }
                    let mut ids = world.ids.unwrap();
                    let id = ids.tool_call();
                    let sequence = ids.sequence();
                    world.ids = Some(ids);
                    let tool_use = world.spawn();
                    world.tool_uses.push(
                        (tool_use, ToolUse {
                            id,
                            turn: req.turn,
                            agent: req.agent,
                            tool,
                            model: req.model,
                            provider: req.provider,
                            generation: req.generation,
                            input,
                            status: WorkStatus::Pending,
                            sequence,
                        }),
                    );
                    ModelVerdict::ToolCall
                },
                ModelReply::Final { text } => {
                    let mut ids = world.ids.unwrap();
                    let id = ids.message();
                    let sequence = ids.sequence();
                    let completed_sequence = ids.sequence();
                    world.ids = Some(ids);
                    let message = world.spawn();
                    world.assistant_messages.push(
                        (message, AssistantMessage { id, turn: req.turn, sequence, text }),
                    );
                    let completed = world.spawn();
                    world.turns_completed.push(
                        (completed, TurnCompleted { turn: req.turn, generation: req.generation, sequence: completed_sequence }),
                    );
                    ModelVerdict::Final
                },
            }
        },
    }
}


/// The tool result answers the running ToolUse it names, in the current Turn generation, and
/// no earlier result of the same batch was accepted for the same work.
pub open spec fn tool_result_fresh(w: World, r: ToolResult, accepted: Seq<Entity>) -> bool {
    match (get(w.tool_uses@, r.work), get(w.turns@, r.turn)) {
        (Some(u), Some(turn)) => {
            &&& u.id == r.tool_call_id
            &&& u.turn == r.turn
            &&& u.generation == r.generation
            &&& u.status == WorkStatus::Running
            &&& turn.session == r.session
            &&& turn.generation == r.generation
            &&& !accepted.contains(r.work)
        },
        _ => false,
    }
}

/// The tool use at row `k` with a new status.
pub open spec fn with_tool_status(uses: Seq<(Entity, ToolUse)>, k: int, status: WorkStatus) -> Seq<(Entity, ToolUse)> {
    uses.update(k, (uses[k].0, ToolUse { status, ..uses[k].1 }))
}

/// Everything but tool work, outcomes, requests, failures, and identities is unchanged.
pub open spec fn same_outside_tool_apply(a: World, b: World) -> bool {
    &&& a.same_capabilities(b)
    &&& a.sessions@ == b.sessions@
    &&& a.turns@ == b.turns@
    &&& a.same_timeline(b)
    &&& a.model_responses@ == b.model_responses@
    &&& a.model_tasks@ == b.model_tasks@
    &&& a.turns_completed@ == b.turns_completed@
    &&& a.turns_cancelled@ == b.turns_cancelled@
    &&& a.turns_interrupted@ == b.turns_interrupted@
    &&& a.same_cameras(b)
    &&& a.active_session == b.active_session
    &&& a.active_agent == b.active_agent
    &&& a.harness_ready == b.harness_ready
}

pub(crate) fn set_tool_status(uses: &mut Vec<(Entity, ToolUse)>, k: usize, status: WorkStatus)
    requires
        k < old(uses)@.len(),
    ensures
        final(uses)@ == with_tool_status(old(uses)@, k as int, status),
{
    let (e, mut u) = uses.remove(k);
    u.status = status;
    uses.insert(k, (e, u));
    assert(uses@ =~= with_tool_status(old(uses)@, k as int, status));
}

/// `f` and `a1` are `w` and the accepted works `a0` after applying `result`; `fresh` tells
/// whether the result was accepted.
pub open spec fn tool_result_applied(w: World, f: World, result: ToolResult, a0: Seq<Entity>, a1: Seq<Entity>, fresh: bool) -> bool {
    &&& fresh == tool_result_fresh(w, result, a0)
    &&& {
        let ne = w.next_entity;
        let ids = w.ids.unwrap();
        let ns = ids.next_sequence;
        let k = find(w.tool_uses@, result.work).unwrap();
        let u = w.tool_uses@[k].1;
        if !fresh {
            f.same_world(w) && a1 == a0
        } else {
            &&& a1 == a0.push(result.work)
            &&& f.tool_tasks@ =~= without(w.tool_tasks@, result.work)
            &&& same_outside_tool_apply(w, f)
            &&& match result.result {
                Err(failure) => {
                    &&& f.tool_uses@ =~= with_tool_status(w.tool_uses@, k, WorkStatus::Failed)
                    &&& f.turns_failed@ =~= w.turns_failed@.push(
                        (Entity(ne), TurnFailed {
                            turn: result.turn,
                            generation: result.generation,
                            failure: TurnFailure::Tool(failure),
                            sequence: Sequence(ns),
                        }),
                    )
                    &&& f.tool_outcomes@ =~= w.tool_outcomes@
                    &&& f.model_requests@ =~= w.model_requests@
                    &&& f.next_entity == ne + 1
                    &&& f.ids == Some(HarnessIds { next_sequence: (ns + 1) as u64, ..ids })
                },
                Ok(output) => {
                    &&& f.tool_uses@ =~= with_tool_status(w.tool_uses@, k, WorkStatus::Succeeded)
                    &&& f.tool_outcomes@ =~= w.tool_outcomes@.push(
                        (Entity(ne), ToolOutcome {
                            tool_use: result.work,
                            tool_call_id: u.id,
                            turn: u.turn,
                            generation: u.generation,
                            output,
                            sequence: Sequence(ns),
                        }),
                    )
                    &&& f.model_requests@ =~= w.model_requests@.push(
                        (Entity((ne + 1) as u64), ModelRequest {
                            id: ModelRequestId(ids.next_model_request),
                            turn: u.turn,
                            agent: u.agent,
                            model: u.model,
                            provider: u.provider,
                            generation: u.generation,
                            previous_tool_use: Some(result.work),
                            status: WorkStatus::Pending,
                            sequence: Sequence((ns + 1) as u64),
                        }),
                    )
                    &&& f.turns_failed@ =~= w.turns_failed@
                    &&& f.next_entity == ne + 2
                    &&& f.ids == Some(HarnessIds {
                        next_sequence: (ns + 2) as u64,
                        next_model_request: (ids.next_model_request + 1) as u64,
                        ..ids
                    })
                },
            }
        }
    }
}

/// Applies one finished tool task to the world.
///
/// Stale results change nothing. An accepted failure fails the ToolUse and the Turn; an accepted
/// output records the ToolOutcome and a pending continuation ModelRequest that references the
/// ToolUse. Every accepted result ends the ToolUse's task handle. Returns whether the result was
/// accepted.
pub fn apply_tool_result(world: &mut World, result: ToolResult, accepted: &mut Vec<Entity>) -> (fresh: bool)
    requires
        old(world).ids is Some,
        old(world).ids.unwrap().next_sequence + 2 <= u64::MAX,
        old(world).ids.unwrap().next_model_request < u64::MAX,
        old(world).next_entity + 2 <= u64::MAX,
    ensures
        tool_result_applied(*old(world), *final(world), result, old(accepted)@, final(accepted)@, fresh),
{
    let k = match position(&world.tool_uses, result.work) {
        None => {
            return false;
        },
        Some(k) => k,
    };
    proof {
        lemma_find(world.tool_uses@, result.work);
    }
    let tk = match position(&world.turns, result.turn) {
        None => {
            return false;
        },
        Some(tk) => tk,
    };
    proof {
        lemma_find(world.turns@, result.turn);
    }
    let turn = world.turns[tk].1;
    let u_id = world.tool_uses[k].1.id;
    let u_turn = world.tool_uses[k].1.turn;
    let u_generation = world.tool_uses[k].1.generation;
    let u_status = world.tool_uses[k].1.status;
    if u_id != result.tool_call_id || u_turn != result.turn || u_generation != result.generation
        || u_status != WorkStatus::Running || turn.session != result.session || turn.generation
        != result.generation || crate::camera::contains_entity(accepted, result.work) {
        return false;
    }
    accepted.push(result.work);
    let work = result.work;
    match result.result {
        Err(failure) => {
            set_tool_status(&mut world.tool_uses, k, WorkStatus::Failed);
            remove_task(&mut world.tool_tasks, work);
            let mut ids = world.ids.unwrap();
            let sequence = ids.sequence();
            world.ids = Some(ids);
            let outcome = world.spawn();
            world.turns_failed.push(
                (outcome, TurnFailed {
                    turn: result.turn,
                    generation: result.generation,
                    failure: TurnFailure::Tool(failure),
                    sequence,
                }),
            );
            true
        },
        Ok(output) => {
            let mut ids = world.ids.unwrap();
            let request_id = ids.model_request();
            let agent = world.tool_uses[k].1.agent;
            let model = world.tool_uses[k].1.model;
            let provider = world.tool_uses[k].1.provider;
            set_tool_status(&mut world.tool_uses, k, WorkStatus::Succeeded);
            remove_task(&mut world.tool_tasks, work);
            let outcome_sequence = ids.sequence();
            let request_sequence = ids.sequence();
            world.ids = Some(ids);
            let outcome = world.spawn();
            world.tool_outcomes.push(
                (outcome, ToolOutcome {
                    tool_use: work,
                    tool_call_id: u_id,
                    turn: u_turn,
                    generation: u_generation,
                    output,
                    sequence: outcome_sequence,
                }),
            );
            let request = world.spawn();
            world.model_requests.push(
                (request, ModelRequest {
                    id: request_id,
                    turn: u_turn,
                    agent,
                    model,
                    provider,
                    generation: u_generation,
                    previous_tool_use: Some(work),
                    status: WorkStatus::Pending,
                    sequence: request_sequence,
                }),
            );
            true
        },
    }
}


/// A tool as a provider sees it.
#[derive(Debug)]
pub struct ExposedTool {
    pub id: ToolId,
    pub name: String,
    pub description: String,
}

impl ExposedTool {
    pub open spec fn view(&self) -> (ToolId, Seq<char>, Seq<char>) {
        (self.id, self.name@, self.description@)
    }
}

/// The keyed tools exposed to `agent` by the exposure rows `s`; exposures of entities without
/// a ToolDefinition are skipped.
pub open spec fn exposure_items(w: World, s: Seq<(Entity, crate::world::AgentTool)>, agent: Entity) -> Seq<(Key, (ToolId, Seq<char>, Seq<char>))>
    decreases s.len(),
{
    if s.len() == 0 {
        Seq::empty()
    } else {
        let rest = exposure_items(w, s.drop_last(), agent);
        let x = s.last().1;
        if x.agent == agent && get(w.tools@, x.tool) is Some {
            let d = get(w.tools@, x.tool).unwrap();
            rest.push(((x.order as u64, x.tool.0, 0, 0), (d.tool_id, d.name@, d.description@)))
        } else {
            rest
        }
    }
}

/// The keys of keyed tools.
pub open spec fn exposure_keys(items: Seq<(Key, (ToolId, Seq<char>, Seq<char>))>) -> Seq<Key> {
    items.map_values(|it: (Key, (ToolId, Seq<char>, Seq<char>))| it.0)
}

/// The values of keyed tools.
pub open spec fn exposure_values(items: Seq<(Key, (ToolId, Seq<char>, Seq<char>))>) -> Seq<(ToolId, Seq<char>, Seq<char>)> {
    items.map_values(|it: (Key, (ToolId, Seq<char>, Seq<char>))| it.1)
}

/// The tools exposed to `agent`, ordered by exposure order, then tool entity handle.
pub open spec fn exposed_tools_match(w: World, agent: Entity, tools: Seq<(ToolId, Seq<char>, Seq<char>)>) -> bool {
    let items = exposure_items(w, w.agent_tools@, agent);
    exists|p: Seq<int>|
        #[trigger] is_sorted_perm(exposure_keys(items), p)
            && tools == reorder(exposure_values(items), p)
}

/// The abstract values of exposed tools.
pub open spec fn tool_views(tools: Seq<ExposedTool>) -> Seq<(ToolId, Seq<char>, Seq<char>)> {
    tools.map_values(|t: ExposedTool| t.view())
}

/// Lists the tools exposed to `agent`, in exposure order.
pub fn exposed_tools(world: &World, agent: Entity) -> (tools: Vec<ExposedTool>)
    ensures
        exposed_tools_match(*world, agent, tool_views(tools@)),
{
    let ghost all = world.agent_tools@;
    let mut keys: Vec<Key> = Vec::new();
    let mut found: Vec<ExposedTool> = Vec::new();
    let mut i: usize = 0;
    while i < world.agent_tools.len()
        invariant
            i <= all.len(),
            all == world.agent_tools@,
            keys@ == exposure_keys(exposure_items(*world, all.take(i as int), agent)),
            tool_views(found@) == exposure_values(exposure_items(*world, all.take(i as int), agent)),
        decreases world.agent_tools.len() - i,
    {
        let x = world.agent_tools[i].1;
        proof {
            assert(all.take(i + 1).drop_last() =~= all.take(i as int));
            assert(all.take(i + 1).last() == all[i as int]);
        }
        if x.agent == agent {
            match position(&world.tools, x.tool) {
                Some(tk) => {
                    proof {
                        lemma_find(world.tools@, x.tool);
                    }
                    let d = &world.tools[tk].1;
                    let ghost f0 = found@;
                    keys.push((x.order as u64, x.tool.0, 0, 0));
                    found.push(ExposedTool { id: d.tool_id, name: d.name.clone(), description: d.description.clone() });
                    proof {
                        let t = exposure_items(*world, all.take(i + 1), agent);
                        let t0 = exposure_items(*world, all.take(i as int), agent);
                        assert(keys@ =~= exposure_keys(t));
                        assert(tool_views(found@) =~= tool_views(f0).push(found@.last().view()));
                        assert(tool_views(found@) =~= exposure_values(t));
                    }
                },
                None => {},
            }
        }
        i = i + 1;
    }
    proof {
        assert(all.take(i as int) =~= all);
    }
    let p = sort_order(&keys);
    let mut tools: Vec<ExposedTool> = Vec::new();
    let mut j: usize = 0;
    while j < p.len()
        invariant
            j <= p@.len(),
            p@.len() == keys@.len(),
            keys@.len() == found@.len(),
            is_sorted_perm(keys@, p@.map_values(|x: usize| x as int)),
            tool_views(tools@) =~= reorder(tool_views(found@), p@.map_values(|x: usize| x as int)).take(j as int),
        decreases p.len() - j,
    {
        proof {
            let q = p@.map_values(|x: usize| x as int);
            assert(q[j as int] == p@[j as int] as int);
        }
        let d = &found[p[j]];
        let ghost t0 = tool_views(tools@);
        tools.push(ExposedTool { id: d.id, name: d.name.clone(), description: d.description.clone() });
        proof {
            assert(tool_views(tools@) =~= t0.push(tools@.last().view()));
        }
        j = j + 1;
    }
    proof {
        let q = p@.map_values(|x: usize| x as int);
        let items = exposure_items(*world, world.agent_tools@, agent);
        assert(tool_views(tools@) =~= reorder(tool_views(found@), q));
        assert(is_sorted_perm(exposure_keys(items), q));
    }
    tools
}


/// What a provider receives for one request.
#[derive(Debug)]
pub struct ProviderInput {
    pub request_id: ModelRequestId,
    pub context: ContextDocument,
    pub continuation: bool,
    pub tools: Vec<ExposedTool>,
}

/// What happened to one pending ModelRequest at dispatch.
#[derive(Debug)]
pub enum DispatchOutcome {
    /// The request's Turn is missing, finished, or of another generation.
    Skipped,
    /// The request failed before it could start.
    Failed,
    /// The request started; the provider receives this input.
    Launched(ProviderInput),
}

/// The request's Agent, Model, Provider, and provider executor are all present and linked.
pub open spec fn provider_ready(w: World, req: ModelRequest) -> bool {
    &&& get(w.agents@, req.agent) is Some
    &&& get(w.models@, req.model) is Some
    &&& get(w.agents@, req.agent).unwrap().model == req.model
    &&& get(w.models@, req.model).unwrap().provider == req.provider
    &&& has_row(w.providers@, req.provider)
    &&& has_row(w.provider_executors@, req.provider)
}

/// Entity `e` is a persistent context camera of `agent` over `session`.
pub open spec fn camera_candidate(w: World, agent: Entity, session: Entity, e: Entity) -> bool {
    exists|j: int|
        0 <= j < w.context_cameras@.len() && (#[trigger] w.context_cameras@[j]).0 == e
            && w.context_cameras@[j].1.agent == agent && w.context_cameras@[j].1.session == session
            && w.context_cameras@[j].1.persistent
}

/// The persistent context camera with the smallest handle.
pub open spec fn chosen_camera(w: World, agent: Entity, session: Entity, r: Option<Entity>) -> bool {
    match r {
        Some(e) => camera_candidate(w, agent, session, e) && forall|x: Entity|
            #[trigger] camera_candidate(w, agent, session, x) ==> e.0 <= x.0,
        None => forall|x: Entity| !#[trigger] camera_candidate(w, agent, session, x),
    }
}

/// Finds the persistent context camera of `agent` over `session`.
pub fn persistent_context_camera(world: &World, agent: Entity, session: Entity) -> (r: Option<Entity>)
    ensures
        chosen_camera(*world, agent, session, r),
{
    let mut best: Option<Entity> = None;
    let mut i: usize = 0;
    while i < world.context_cameras.len()
        invariant
            i <= world.context_cameras@.len(),
            match best {
                Some(e) => camera_candidate(*world, agent, session, e) && forall|j: int|
                    0 <= j < i && (#[trigger] world.context_cameras@[j]).1.agent == agent
                        && world.context_cameras@[j].1.session == session
                        && world.context_cameras@[j].1.persistent ==> e.0 <= world.context_cameras@[j].0.0,
                None => forall|j: int|
                    0 <= j < i ==> !((#[trigger] world.context_cameras@[j]).1.agent == agent
                        && world.context_cameras@[j].1.session == session
                        && world.context_cameras@[j].1.persistent),
            },
        decreases world.context_cameras.len() - i,
    {
        let (e, c) = world.context_cameras[i];
        if c.agent == agent && c.session == session && c.persistent {
            let better = match best {
                None => true,
                Some(b) => e.0 < b.0,
            };
            if better {
                best = Some(e);
            }
        }
        i = i + 1;
    }
    proof {
        match best {
            Some(e) => {
                assert forall|x: Entity| #[trigger] camera_candidate(*world, agent, session, x) implies e.0 <= x.0 by {
                    let j = choose|j: int|
                        0 <= j < world.context_cameras@.len() && (#[trigger] world.context_cameras@[j]).0 == x
                            && world.context_cameras@[j].1.agent == agent && world.context_cameras@[j].1.session == session
                            && world.context_cameras@[j].1.persistent;
                    assert(world.context_cameras@[j].1.agent == agent);
                }
            },
            None => {
                assert forall|x: Entity| !#[trigger] camera_candidate(*world, agent, session, x) by {
                    if camera_candidate(*world, agent, session, x) {
                        let j = choose|j: int|
                            0 <= j < world.context_cameras@.len() && (#[trigger] world.context_cameras@[j]).0 == x
                                && world.context_cameras@[j].1.agent == agent && world.context_cameras@[j].1.session == session
                                && world.context_cameras@[j].1.persistent;
                        assert(world.context_cameras@[j].1.agent == agent);
                    }
                }
            },
        }
    }
    best
}

/// The provider failure message of a context projection error.
pub open spec fn projection_failure(e: ProjectionError) -> Seq<char> {
    match e {
        ProjectionError::MissingCamera => "Context camera does not exist."@,
        ProjectionError::MissingTurn => "Context branch contains a missing Turn."@,
        ProjectionError::CrossSession => "Context branch crosses into another Session."@,
        ProjectionError::Cycle => "Context branch contains a cycle."@,
        ProjectionError::MissingModel => "Context branch references a missing Model."@,
    }
}

fn projection_failure_text(e: ProjectionError) -> (t: String)
    ensures
        t@ == projection_failure(e),
{
    proof {
        reveal_strlit("Context camera does not exist.");
        reveal_strlit("Context branch contains a missing Turn.");
        reveal_strlit("Context branch crosses into another Session.");
        reveal_strlit("Context branch contains a cycle.");
        reveal_strlit("Context branch references a missing Model.");
    }
    String::from_str(
        match e {
            ProjectionError::MissingCamera => "Context camera does not exist.",
            ProjectionError::MissingTurn => "Context branch contains a missing Turn.",
            ProjectionError::CrossSession => "Context branch crosses into another Session.",
            ProjectionError::Cycle => "Context branch contains a cycle.",
            ProjectionError::MissingModel => "Context branch references a missing Model.",
        },
    )
}

fn is_provider_ready(world: &World, req: ModelRequest) -> (b: bool)
    ensures
        b == provider_ready(*world, req),
{
    let ak = match position(&world.agents, req.agent) {
        None => {
            return false;
        },
        Some(ak) => ak,
    };
    let mk = match position(&world.models, req.model) {
        None => {
            return false;
        },
        Some(mk) => mk,
    };
    proof {
        lemma_find(world.agents@, req.agent);
        lemma_find(world.models@, req.model);
    }
    world.agents[ak].1.model == req.model && world.models[mk].1.provider == req.provider
        && crate::world::contains(&world.providers, req.provider) && crate::world::contains(
        &world.provider_executors,
        req.provider,
    )
}

/// The request is dispatched: its Turn exists, is unfinished, and is in its generation.
pub open spec fn dispatchable(w: World, req: ModelRequest) -> bool {
    match get(w.turns@, req.turn) {
        Some(t) => t.generation == req.generation && !w.turn_finished(req.turn),
        None => false,
    }
}

/// `f` is `w` after one dispatch of the pending ModelRequest `work`, whose component is `req`,
/// with outcome `r`.
///
/// A request whose Turn is missing, finished, or of another generation is skipped. A request
/// whose capability chain is unavailable, whose Agent has no persistent context camera over the
/// Turn's Session, or whose context cannot be projected fails with a provider failure. Otherwise
/// the request gets a task handle, becomes Running, and the provider receives its ID, the
/// projected context, whether it continues a tool call, and the Agent's exposed tools.
pub open spec fn model_dispatched(w: World, f: World, work: Entity, req: ModelRequest, r: DispatchOutcome) -> bool {
    let k = find(w.model_requests@, work).unwrap();
    let session = get(w.turns@, req.turn).unwrap().session;
    let cam = choose|c: Entity| chosen_camera(w, req.agent, session, Some(c));
    if !dispatchable(w, req) {
        r is Skipped && f.same_world(w)
    } else if !provider_ready(w, req) {
        r is Failed && request_failed(w, f, k, work, req.turn, req.generation, "Provider capability is unavailable."@)
    } else if forall|c: Entity| !#[trigger] camera_candidate(w, req.agent, session, c) {
        r is Failed && request_failed(w, f, k, work, req.turn, req.generation, "Persistent Context camera is unavailable."@)
    } else {
        &&& chosen_camera(w, req.agent, session, Some(cam))
        &&& match r {
            DispatchOutcome::Failed => exists|e: ProjectionError|
                #[trigger] context_matches(w, cam, Err(e)) && request_failed(w, f, k, work, req.turn, req.generation, projection_failure(e)),
            DispatchOutcome::Launched(input) => {
                &&& context_matches(w, cam, Ok(views(input.context.entries@)))
                &&& input.request_id == req.id
                &&& input.continuation == (req.previous_tool_use is Some)
                &&& exposed_tools_match(w, req.agent, tool_views(input.tools@))
                &&& f.model_requests@ == with_status(w.model_requests@, k, WorkStatus::Running)
                &&& f.model_tasks@ == w.model_tasks@.push((work, ()))
                &&& f.same_capabilities(w)
                &&& f.sessions@ == w.sessions@
                &&& f.turns@ == w.turns@
                &&& f.same_timeline(w)
                &&& f.model_responses@ == w.model_responses@
                &&& f.tool_uses@ == w.tool_uses@
                &&& f.tool_outcomes@ == w.tool_outcomes@
                &&& f.tool_tasks@ == w.tool_tasks@
                &&& f.same_outcomes(w)
                &&& f.same_cameras(w)
                &&& f.same_resources(w)
                &&& f.next_entity == w.next_entity
            },
            DispatchOutcome::Skipped => false,
        }
    }
}

/// Starts one pending ModelRequest `work` whose component is `req`; see [`model_dispatched`].
pub fn dispatch_model_request(world: &mut World, work: Entity, req: ModelRequest) -> (r: DispatchOutcome)
    requires
        get(old(world).model_requests@, work) == Some(req),
        old(world).ids is Some,
        old(world).ids.unwrap().next_sequence < u64::MAX,
        old(world).next_entity < u64::MAX,
    ensures
        model_dispatched(*old(world), *final(world), work, req, r),
{
    let ghost w0 = *world;
    let k = position(&world.model_requests, work).unwrap();
    proof {
        lemma_find(world.model_requests@, work);
    }
    let turn = match position(&world.turns, req.turn) {
        None => {
            return DispatchOutcome::Skipped;
        },
        Some(tk) => {
            proof {
                lemma_find(world.turns@, req.turn);
            }
            world.turns[tk].1
        },
    };
    if turn.generation != req.generation || world.is_turn_finished(req.turn) {
        return DispatchOutcome::Skipped;
    }
    if !is_provider_ready(world, req) {
        proof {
            reveal_strlit("Provider capability is unavailable.");
        }
        fail_running_request(world, k, work, req.turn, req.generation, ProviderFailure {
            message: String::from_str("Provider capability is unavailable."),
        });
        return DispatchOutcome::Failed;
    }
    let cam = match persistent_context_camera(world, req.agent, turn.session) {
        None => {
            proof {
                reveal_strlit("Persistent Context camera is unavailable.");
            }
            fail_running_request(world, k, work, req.turn, req.generation, ProviderFailure {
                message: String::from_str("Persistent Context camera is unavailable."),
            });
            return DispatchOutcome::Failed;
        },
        Some(c) => c,
    };
    proof {
        let c = choose|c: Entity| chosen_camera(w0, req.agent, turn.session, Some(c));
        assert(chosen_camera(w0, req.agent, turn.session, Some(c)));
        assert(c.0 <= cam.0 && cam.0 <= c.0);
    }
    let context = match project_context(world, cam) {
        Err(e) => {
            let message = projection_failure_text(e);
            fail_running_request(world, k, work, req.turn, req.generation, ProviderFailure { message });
            return DispatchOutcome::Failed;
        },
        Ok(d) => d,
    };
    let tools = exposed_tools(world, req.agent);
    world.model_tasks.push((work, ()));
    world.model_requests.set(k, (work, ModelRequest { status: WorkStatus::Running, ..req }));
    proof {
        assert(world.model_requests@[k as int].1 == ModelRequest { status: WorkStatus::Running, ..w0.model_requests@[k as int].1 });
    }
    DispatchOutcome::Launched(ProviderInput {
        request_id: req.id,
        context,
        continuation: req.previous_tool_use.is_some(),
        tools,
    })
}

/// The row awaits dispatch: it is Pending and has no task handle.
pub open spec fn awaits_model_dispatch(w: World, row: (Entity, ModelRequest)) -> bool {
    row.1.status == WorkStatus::Pending && !has_row(w.model_tasks@, row.0)
}

/// The entities of the first `n` ModelRequest rows that await dispatch, in table order.
pub open spec fn pending_model_work_upto(w: World, n: int) -> Seq<Entity>
    decreases n,
{
    if n <= 0 {
        Seq::empty()
    } else {
        let prev = pending_model_work_upto(w, n - 1);
        let row = w.model_requests@[n - 1];
        if awaits_model_dispatch(w, row) {
            prev.push(row.0)
        } else {
            prev
        }
    }
}

/// The ModelRequests that a dispatch pass visits, in table order.
pub open spec fn pending_model_work(w: World) -> Seq<Entity> {
    pending_model_work_upto(w, w.model_requests@.len() as int)
}

/// One visit of a dispatch pass: a request that still awaits dispatch is dispatched; any other
/// is skipped.
pub open spec fn model_dispatch_step(w: World, f: World, work: Entity, r: DispatchOutcome) -> bool {
    match get(w.model_requests@, work) {
        Some(req) => if req.status == WorkStatus::Pending && !has_row(w.model_tasks@, work) {
            model_dispatched(w, f, work, req, r)
        } else {
            r is Skipped && f.same_world(w)
        },
        None => r is Skipped && f.same_world(w),
    }
}

/// `trace` runs through the visits of `works`, one step each, with the given outcomes.
pub open spec fn model_dispatch_trace(trace: Seq<World>, works: Seq<Entity>, outcomes: Seq<(Entity, DispatchOutcome)>) -> bool {
    &&& trace.len() == works.len() + 1
    &&& outcomes.len() == works.len()
    &&& forall|i: int|
        0 <= i < works.len() ==> (#[trigger] outcomes[i]).0 == works[i] && model_dispatch_step(
            trace[i],
            trace[i + 1],
            works[i],
            outcomes[i].1,
        )
}

/// The identity allocator and entity counter can serve one failure per ModelRequest row.
pub open spec fn can_dispatch_models(w: World) -> bool {
    &&& w.ids is Some
    &&& w.ids.unwrap().next_sequence + w.model_requests@.len() < u64::MAX
    &&& w.next_entity + w.model_requests@.len() < u64::MAX
}

proof fn lemma_pending_model_work_len(w: World, n: int)
    requires
        0 <= n,
    ensures
        pending_model_work_upto(w, n).len() <= n,
    decreases n,
{
    if n > 0 {
        lemma_pending_model_work_len(w, n - 1);
    }
}

fn collect_pending_model_work(world: &World) -> (works: Vec<Entity>)
    ensures
        works@ == pending_model_work(*world),
{
    let mut works: Vec<Entity> = Vec::new();
    let mut i: usize = 0;
    while i < world.model_requests.len()
        invariant
            i <= world.model_requests@.len(),
            works@ == pending_model_work_upto(*world, i as int),
        decreases world.model_requests.len() - i,
    {
        let (e, req) = world.model_requests[i];
        if req.status == WorkStatus::Pending && !crate::world::contains(&world.model_tasks, e) {
            works.push(e);
        }
        i = i + 1;
    }
    works
}

/// Dispatches every ModelRequest that is Pending and has no task handle when the pass begins,
/// in table order, each as [`model_dispatch_step`] describes against the world as the earlier
/// visits left it. Returns each visited request with its outcome, in visiting order.
pub fn dispatch_model_requests(world: &mut World) -> (out: Vec<(Entity, DispatchOutcome)>)
    requires
        can_dispatch_models(*old(world)),
    ensures
        exists|trace: Seq<World>|
            {
                &&& model_dispatch_trace(trace, pending_model_work(*old(world)), out@)
                &&& trace[0] == *old(world)
                &&& trace.last() == *final(world)
            },
{
    let ghost w0 = *world;
    let works = collect_pending_model_work(world);
    proof {
        lemma_pending_model_work_len(w0, w0.model_requests@.len() as int);
    }
    let mut out: Vec<(Entity, DispatchOutcome)> = Vec::new();
    let ghost mut trace: Seq<World> = seq![w0];
    let mut i: usize = 0;
    while i < works.len()
        invariant
            works@ == pending_model_work(w0),
            works@.len() <= w0.model_requests@.len(),
            can_dispatch_models(w0),
            i <= works@.len(),
            trace.len() == i + 1,
            trace[0] == w0,
            trace.last() == *world,
            model_dispatch_trace(trace, works@.take(i as int), out@),
            world.ids is Some,
            world.ids.unwrap().next_sequence <= w0.ids.unwrap().next_sequence + i,
            world.next_entity <= w0.next_entity + i,
        decreases works.len() - i,
    {
        let work = works[i];
        let ghost before = *world;
        let r = match position(&world.model_requests, work) {
            Some(k) => {
                proof {
                    lemma_find(world.model_requests@, work);
                }
                let req = world.model_requests[k].1;
                if req.status == WorkStatus::Pending && !crate::world::contains(&world.model_tasks, work) {
                    dispatch_model_request(world, work, req)
                } else {
                    DispatchOutcome::Skipped
                }
            },
            None => DispatchOutcome::Skipped,
        };
        proof {
            assert(model_dispatch_step(before, *world, work, r));
        }
        out.push((work, r));
        proof {
            let t0 = trace;
            trace = trace.push(*world);
            assert(works@.take(i + 1) =~= works@.take(i as int).push(work));
            assert forall|j: int| 0 <= j < i + 1 implies (#[trigger] out@[j]).0 == works@.take(i + 1)[j]
                && model_dispatch_step(trace[j], trace[j + 1], works@.take(i + 1)[j], out@[j].1) by {
                if j < i {
                    assert(trace[j] == t0[j]);
                    assert(trace[j + 1] == t0[j + 1]);
                }
            }
        }
        i = i + 1;
    }
    proof {
        assert(works@.take(works@.len() as int) =~= works@);
    }
    out
}

/// What the tool executor receives.
#[derive(Debug)]
pub struct ToolInput {
    pub input: String,
}

/// What happened to one pending ToolUse at dispatch.
#[derive(Debug)]
pub enum ToolDispatchOutcome {
    /// The ToolUse's Turn is missing, finished, or of another generation.
    Skipped,
    /// The tool capability is unavailable; the ToolUse and its Turn failed.
    Failed,
    /// The ToolUse started; the tool executor receives this input.
    Launched(ToolInput),
}

/// The ToolUse's Turn exists, is unfinished, and is in the ToolUse's generation.
pub open spec fn tool_dispatchable(w: World, u: ToolUse) -> bool {
    match get(w.turns@, u.turn) {
        Some(t) => t.generation == u.generation && !w.turn_finished(u.turn),
        None => false,
    }
}

/// The ToolUse's tool has a definition and an executor.
pub open spec fn tool_ready(w: World, u: ToolUse) -> bool {
    has_row(w.tools@, u.tool) && has_row(w.tool_executors@, u.tool)
}

/// `f` is `w` after one dispatch of the pending ToolUse `work`, whose component is `u`, with
/// outcome `r`: skipped when its Turn is missing, finished, or of another generation; failed
/// with "Tool capability is unavailable." when its tool has no definition or executor; otherwise
/// Running with a task handle, the executor receiving the ToolUse's input.
pub open spec fn tool_dispatched(w: World, f: World, work: Entity, u: ToolUse, r: ToolDispatchOutcome) -> bool {
    let k = find(w.tool_uses@, work).unwrap();
    let ids = w.ids.unwrap();
    if !tool_dispatchable(w, u) {
        r is Skipped && f.same_world(w)
    } else if !tool_ready(w, u) {
        &&& r is Failed
        &&& f.tool_uses@ == with_tool_status(w.tool_uses@, k, WorkStatus::Failed)
        &&& f.tool_tasks@ == without(w.tool_tasks@, work)
        &&& f.turns_failed@.len() == w.turns_failed@.len() + 1
        &&& f.turns_failed@.drop_last() == w.turns_failed@
        &&& f.turns_failed@.last().0 == Entity(w.next_entity)
        &&& f.turns_failed@.last().1.turn == u.turn
        &&& f.turns_failed@.last().1.generation == u.generation
        &&& f.turns_failed@.last().1.sequence == Sequence(ids.next_sequence)
        &&& f.turns_failed@.last().1.failure matches TurnFailure::Tool(t) && t.message@ == "Tool capability is unavailable."@
        &&& f.next_entity == w.next_entity + 1
        &&& f.ids == Some(HarnessIds { next_sequence: (ids.next_sequence + 1) as u64, ..ids })
        &&& same_outside_tool_apply(w, f)
        &&& f.tool_outcomes@ == w.tool_outcomes@
        &&& f.model_requests@ == w.model_requests@
    } else {
        &&& r matches ToolDispatchOutcome::Launched(input) && input.input@ == u.input@
        &&& f.tool_uses@ == with_tool_status(w.tool_uses@, k, WorkStatus::Running)
        &&& f.tool_tasks@ == w.tool_tasks@.push((work, ()))
        &&& same_outside_tool_apply(w, f)
        &&& f.tool_outcomes@ == w.tool_outcomes@
        &&& f.model_requests@ == w.model_requests@
        &&& f.same_outcomes(w)
        &&& f.ids == w.ids
        &&& f.next_entity == w.next_entity
    }
}

/// Starts the ToolUse `work`; see [`tool_dispatched`].
pub fn dispatch_tool_use(world: &mut World, work: Entity) -> (r: ToolDispatchOutcome)
    requires
        has_row(old(world).tool_uses@, work),
        old(world).ids is Some,
        old(world).ids.unwrap().next_sequence < u64::MAX,
        old(world).next_entity < u64::MAX,
    ensures
        tool_dispatched(*old(world), *final(world), work, get(old(world).tool_uses@, work).unwrap(), r),
{
    let ghost w0 = *world;
    let k = position(&world.tool_uses, work).unwrap();
    proof {
        lemma_find(world.tool_uses@, work);
    }
    let ghost u = world.tool_uses@[k as int].1;
    let turn = world.tool_uses[k].1.turn;
    let generation = world.tool_uses[k].1.generation;
    let tool = world.tool_uses[k].1.tool;
    let input = world.tool_uses[k].1.input.clone();
    let turn_generation = match position(&world.turns, turn) {
        None => {
            return ToolDispatchOutcome::Skipped;
        },
        Some(tk) => {
            proof {
                lemma_find(world.turns@, turn);
            }
            world.turns[tk].1.generation
        },
    };
    if turn_generation != generation || world.is_turn_finished(turn) {
        return ToolDispatchOutcome::Skipped;
    }
    if !crate::world::contains(&world.tools, tool) || !crate::world::contains(&world.tool_executors, tool) {
        proof {
            reveal_strlit("Tool capability is unavailable.");
        }
        set_tool_status(&mut world.tool_uses, k, WorkStatus::Failed);
        remove_task(&mut world.tool_tasks, work);
        let mut ids = world.ids.unwrap();
        let sequence = ids.sequence();
        world.ids = Some(ids);
        let outcome = world.spawn();
        world.turns_failed.push(
            (outcome, TurnFailed {
                turn,
                generation,
                failure: TurnFailure::Tool(ToolFailure { message: String::from_str("Tool capability is unavailable.") }),
                sequence,
            }),
        );
        proof {
            assert(world.turns_failed@.drop_last() =~= w0.turns_failed@);
        }
        return ToolDispatchOutcome::Failed;
    }
    set_tool_status(&mut world.tool_uses, k, WorkStatus::Running);
    world.tool_tasks.push((work, ()));
    ToolDispatchOutcome::Launched(ToolInput { input })
}

/// The row awaits dispatch: it is Pending and has no task handle.
pub open spec fn awaits_tool_dispatch(w: World, row: (Entity, ToolUse)) -> bool {
    row.1.status == WorkStatus::Pending && !has_row(w.tool_tasks@, row.0)
}

/// The entities of the first `n` ToolUse rows that await dispatch, in table order.
pub open spec fn pending_tool_work_upto(w: World, n: int) -> Seq<Entity>
    decreases n,
{
    if n <= 0 {
        Seq::empty()
    } else {
        let prev = pending_tool_work_upto(w, n - 1);
        let row = w.tool_uses@[n - 1];
        if awaits_tool_dispatch(w, row) {
            prev.push(row.0)
        } else {
            prev
        }
    }
}

/// The ToolUses that a dispatch pass visits, in table order.
pub open spec fn pending_tool_work(w: World) -> Seq<Entity> {
    pending_tool_work_upto(w, w.tool_uses@.len() as int)
}

/// One visit of a tool dispatch pass: a ToolUse that still awaits dispatch is dispatched; any
/// other is skipped.
pub open spec fn tool_dispatch_step(w: World, f: World, work: Entity, r: ToolDispatchOutcome) -> bool {
    match get(w.tool_uses@, work) {
        Some(u) => if u.status == WorkStatus::Pending && !has_row(w.tool_tasks@, work) {
            tool_dispatched(w, f, work, u, r)
        } else {
            r is Skipped && f.same_world(w)
        },
        None => r is Skipped && f.same_world(w),
    }
}

/// `trace` runs through the visits of `works`, one step each, with the given outcomes.
pub open spec fn tool_dispatch_trace(trace: Seq<World>, works: Seq<Entity>, outcomes: Seq<(Entity, ToolDispatchOutcome)>) -> bool {
    &&& trace.len() == works.len() + 1
    &&& outcomes.len() == works.len()
    &&& forall|i: int|
        0 <= i < works.len() ==> (#[trigger] outcomes[i]).0 == works[i] && tool_dispatch_step(
            trace[i],
            trace[i + 1],
            works[i],
            outcomes[i].1,
        )
}

/// The identity allocator and entity counter can serve one failure per ToolUse row.
pub open spec fn can_dispatch_tools(w: World) -> bool {
    &&& w.ids is Some
    &&& w.ids.unwrap().next_sequence + w.tool_uses@.len() < u64::MAX
    &&& w.next_entity + w.tool_uses@.len() < u64::MAX
}

proof fn lemma_pending_tool_work_len(w: World, n: int)
    requires
        0 <= n,
    ensures
        pending_tool_work_upto(w, n).len() <= n,
    decreases n,
{
    if n > 0 {
        lemma_pending_tool_work_len(w, n - 1);
    }
}

fn collect_pending_tool_work(world: &World) -> (works: Vec<Entity>)
    ensures
        works@ == pending_tool_work(*world),
{
    let mut works: Vec<Entity> = Vec::new();
    let mut i: usize = 0;
    while i < world.tool_uses.len()
        invariant
            i <= world.tool_uses@.len(),
            works@ == pending_tool_work_upto(*world, i as int),
        decreases world.tool_uses.len() - i,
    {
        let e = world.tool_uses[i].0;
        if world.tool_uses[i].1.status == WorkStatus::Pending && !crate::world::contains(&world.tool_tasks, e) {
            works.push(e);
        }
        i = i + 1;
    }
    works
}

/// Dispatches every ToolUse that is Pending and has no task handle when the pass begins, in
/// table order, each as [`tool_dispatch_step`] describes against the world as the earlier visits
/// left it. Returns each visited ToolUse with its outcome, in visiting order.
pub fn dispatch_tool_uses(world: &mut World) -> (out: Vec<(Entity, ToolDispatchOutcome)>)
    requires
        can_dispatch_tools(*old(world)),
    ensures
        exists|trace: Seq<World>|
            {
                &&& tool_dispatch_trace(trace, pending_tool_work(*old(world)), out@)
                &&& trace[0] == *old(world)
                &&& trace.last() == *final(world)
            },
{
    let ghost w0 = *world;
    let works = collect_pending_tool_work(world);
    proof {
        lemma_pending_tool_work_len(w0, w0.tool_uses@.len() as int);
    }
    let mut out: Vec<(Entity, ToolDispatchOutcome)> = Vec::new();
    let ghost mut trace: Seq<World> = seq![w0];
    let mut i: usize = 0;
    while i < works.len()
        invariant
            works@ == pending_tool_work(w0),
            works@.len() <= w0.tool_uses@.len(),
            can_dispatch_tools(w0),
            i <= works@.len(),
            trace.len() == i + 1,
            trace[0] == w0,
            trace.last() == *world,
            tool_dispatch_trace(trace, works@.take(i as int), out@),
            world.ids is Some,
            world.ids.unwrap().next_sequence <= w0.ids.unwrap().next_sequence + i,
            world.next_entity <= w0.next_entity + i,
        decreases works.len() - i,
    {
        let work = works[i];
        let ghost before = *world;
        let r = match position(&world.tool_uses, work) {
            Some(k) => {
                proof {
                    lemma_find(world.tool_uses@, work);
                }
                if world.tool_uses[k].1.status == WorkStatus::Pending && !crate::world::contains(&world.tool_tasks, work) {
                    dispatch_tool_use(world, work)
                } else {
                    ToolDispatchOutcome::Skipped
                }
            },
            None => ToolDispatchOutcome::Skipped,
        };
        proof {
            assert(tool_dispatch_step(before, *world, work, r));
        }
        out.push((work, r));
        proof {
            let t0 = trace;
            trace = trace.push(*world);
            assert(works@.take(i + 1) =~= works@.take(i as int).push(work));
            assert forall|j: int| 0 <= j < i + 1 implies (#[trigger] out@[j]).0 == works@.take(i + 1)[j]
                && tool_dispatch_step(trace[j], trace[j + 1], works@.take(i + 1)[j], out@[j].1) by {
                if j < i {
                    assert(trace[j] == t0[j]);
                    assert(trace[j + 1] == t0[j + 1]);
                }
            }
        }
        i = i + 1;
    }
    proof {
        assert(works@.take(works@.len() as int) =~= works@);
    }
    out
}

/// `trace` and `accs` run through the application of `results`, one step each, starting from no
/// accepted work, with the given verdicts.
pub open spec fn model_apply_trace(
    trace: Seq<World>,
    accs: Seq<Seq<Entity>>,
    results: Seq<ModelResult>,
    verdicts: Seq<ModelVerdict>,
) -> bool {
    &&& trace.len() == results.len() + 1
    &&& accs.len() == results.len() + 1
    &&& verdicts.len() == results.len()
    &&& accs[0] == Seq::<Entity>::empty()
    &&& forall|i: int|
        0 <= i < results.len() ==> model_result_applied(
            #[trigger] trace[i],
            trace[i + 1],
            results[i],
            accs[i],
            accs[i + 1],
            verdicts[i],
        )
}

/// The identity allocator and entity counter can serve `n` model results.
pub open spec fn can_apply_model_results(w: World, n: int) -> bool {
    &&& w.ids is Some
    &&& w.ids.unwrap().next_sequence + 3 * n <= u64::MAX
    &&& w.ids.unwrap().next_message + n <= u64::MAX
    &&& w.ids.unwrap().next_tool_call + n <= u64::MAX
    &&& w.next_entity + 3 * n <= u64::MAX
}

/// Applies finished provider tasks in order, each as [`model_result_applied`] describes against
/// the world the earlier ones left, with one set of accepted work for the whole batch. Returns
/// the verdicts in order.
pub fn apply_model_results(world: &mut World, results: Vec<ModelResult>) -> (verdicts: Vec<ModelVerdict>)
    requires
        can_apply_model_results(*old(world), results@.len() as int),
    ensures
        exists|trace: Seq<World>, accs: Seq<Seq<Entity>>|
            {
                &&& model_apply_trace(trace, accs, results@, verdicts@)
                &&& trace[0] == *old(world)
                &&& trace.last() == *final(world)
            },
{
    let ghost w0 = *world;
    let ghost all = results@;
    let n = results.len();
    let mut results = results;
    let mut accepted: Vec<Entity> = Vec::new();
    let mut verdicts: Vec<ModelVerdict> = Vec::new();
    let ghost mut trace: Seq<World> = seq![w0];
    let ghost mut accs: Seq<Seq<Entity>> = seq![Seq::<Entity>::empty()];
    let mut i: usize = 0;
    while i < n
        invariant
            n == all.len(),
            can_apply_model_results(w0, n as int),
            i <= n,
            results@ == all.skip(i as int),
            trace.len() == i + 1,
            trace[0] == w0,
            trace.last() == *world,
            accs.last() == accepted@,
            model_apply_trace(trace, accs, all.take(i as int), verdicts@),
            world.ids is Some,
            world.ids.unwrap().next_sequence <= w0.ids.unwrap().next_sequence + 3 * i,
            world.ids.unwrap().next_message <= w0.ids.unwrap().next_message + i,
            world.ids.unwrap().next_tool_call <= w0.ids.unwrap().next_tool_call + i,
            world.next_entity <= w0.next_entity + 3 * i,
        decreases n - i,
    {
        let result = results.remove(0);
        proof {
            assert(result == all[i as int]);
        }
        let ghost before = *world;
        let ghost a0 = accepted@;
        let v = apply_model_result(world, result, &mut accepted);
        verdicts.push(v);
        proof {
            let t0 = trace;
            let c0 = accs;
            trace = trace.push(*world);
            accs = accs.push(accepted@);
            assert(all.take(i + 1) =~= all.take(i as int).push(all[i as int]));
            assert(results@ =~= all.skip(i + 1));
            assert forall|j: int| 0 <= j < i + 1 implies model_result_applied(
                #[trigger] trace[j],
                trace[j + 1],
                all.take(i + 1)[j],
                accs[j],
                accs[j + 1],
                verdicts@[j],
            ) by {
                if j < i {
                    assert(trace[j] == t0[j]);
                    assert(trace[j + 1] == t0[j + 1]);
                    assert(accs[j] == c0[j]);
                    assert(accs[j + 1] == c0[j + 1]);
                    assert(model_result_applied(t0[j], t0[j + 1], all.take(i as int)[j], c0[j], c0[j + 1], verdicts@[j]));
                }
            }
        }
        i = i + 1;
    }
    proof {
        assert(all.take(n as int) =~= all);
    }
    verdicts
}

/// `trace` and `accs` run through the application of `results`, one step each, starting from no
/// accepted work, with the given freshness answers.
pub open spec fn tool_apply_trace(
    trace: Seq<World>,
    accs: Seq<Seq<Entity>>,
    results: Seq<ToolResult>,
    fresh: Seq<bool>,
) -> bool {
    &&& trace.len() == results.len() + 1
    &&& accs.len() == results.len() + 1
    &&& fresh.len() == results.len()
    &&& accs[0] == Seq::<Entity>::empty()
    &&& forall|i: int|
        0 <= i < results.len() ==> tool_result_applied(
            #[trigger] trace[i],
            trace[i + 1],
            results[i],
            accs[i],
            accs[i + 1],
            fresh[i],
        )
}

/// The identity allocator and entity counter can serve `n` tool results.
pub open spec fn can_apply_tool_results(w: World, n: int) -> bool {
    &&& w.ids is Some
    &&& w.ids.unwrap().next_sequence + 2 * n <= u64::MAX
    &&& w.ids.unwrap().next_model_request + n <= u64::MAX
    &&& w.next_entity + 2 * n <= u64::MAX
}

/// Applies finished tool tasks in order, each as [`tool_result_applied`] describes against the
/// world the earlier ones left, with one set of accepted work for the whole batch. Returns
/// whether each result was accepted, in order.
pub fn apply_tool_results(world: &mut World, results: Vec<ToolResult>) -> (fresh: Vec<bool>)
    requires
        can_apply_tool_results(*old(world), results@.len() as int),
    ensures
        exists|trace: Seq<World>, accs: Seq<Seq<Entity>>|
            {
                &&& tool_apply_trace(trace, accs, results@, fresh@)
                &&& trace[0] == *old(world)
                &&& trace.last() == *final(world)
            },
{
    let ghost w0 = *world;
    let ghost all = results@;
    let n = results.len();
    let mut results = results;
    let mut accepted: Vec<Entity> = Vec::new();
    let mut fresh: Vec<bool> = Vec::new();
    let ghost mut trace: Seq<World> = seq![w0];
    let ghost mut accs: Seq<Seq<Entity>> = seq![Seq::<Entity>::empty()];
    let mut i: usize = 0;
    while i < n
        invariant
            n == all.len(),
            can_apply_tool_results(w0, n as int),
            i <= n,
            results@ == all.skip(i as int),
            trace.len() == i + 1,
            trace[0] == w0,
            trace.last() == *world,
            accs.last() == accepted@,
            tool_apply_trace(trace, accs, all.take(i as int), fresh@),
            world.ids is Some,
            world.ids.unwrap().next_sequence <= w0.ids.unwrap().next_sequence + 2 * i,
            world.ids.unwrap().next_model_request <= w0.ids.unwrap().next_model_request + i,
            world.next_entity <= w0.next_entity + 2 * i,
        decreases n - i,
    {
        let result = results.remove(0);
        proof {
            assert(result == all[i as int]);
        }
        let b = apply_tool_result(world, result, &mut accepted);
        fresh.push(b);
        proof {
            let t0 = trace;
            let c0 = accs;
            trace = trace.push(*world);
            accs = accs.push(accepted@);
            assert(all.take(i + 1) =~= all.take(i as int).push(all[i as int]));
            assert(results@ =~= all.skip(i + 1));
            assert forall|j: int| 0 <= j < i + 1 implies tool_result_applied(
                #[trigger] trace[j],
                trace[j + 1],
                all.take(i + 1)[j],
                accs[j],
                accs[j + 1],
                fresh@[j],
            ) by {
                if j < i {
                    assert(trace[j] == t0[j]);
                    assert(trace[j + 1] == t0[j + 1]);
                    assert(accs[j] == c0[j]);
                    assert(accs[j + 1] == c0[j + 1]);
                    assert(tool_result_applied(t0[j], t0[j + 1], all.take(i as int)[j], c0[j], c0[j + 1], fresh@[j]));
                }
            }
        }
        i = i + 1;
    }
    proof {
        assert(all.take(n as int) =~= all);
    }
    fresh
}

} // verus!
