//! Properties of the harness that span its operations.
use vstd::prelude::*;

use crate::collect::{
    assistant_message_event, branch_event, camera_event, cancelled_event, compaction_event,
    completed_event, failed_event, failure_view, interrupted_event, model_change_event,
    model_ref, previous_call_id, raw_events, collection_fails, recovery_event, request_event, response_event, session_event,
    session_id_of, tool_outcome_event, tool_use_event, turn_context, turn_event, turn_id_of,
    user_message_event, RowEvent, emits, fails, first_failure, raw_message,
};
use crate::execution::{
    awaits_model_dispatch, dispatchable, model_dispatch_step, model_dispatch_trace, model_dispatched, model_verdict,
    pending_model_work, tool_result_fresh, without, DispatchOutcome, ModelResult, ModelVerdict, ToolResult,
};
use crate::ids::{restored, Entity, SessionId};
use crate::events::EventView;
use crate::hydrate::{
    baseline_of,
    agent_entity, assign, failure_matches, first_key, first_text, lookup, model_entity, provider_of,
    record_applied, text_views, tool_entity, turn_of, ReplayState,
};
use crate::log::{
    digit_value, number_of, scan_digits, session_of_stem, SessionNameError,
    batch_from, batch_items, batch_matches, changed_of, committed, group_of, index_of_key, joined, session_file,
    upsert_value, value_of, SessionBatch,
};
use crate::order::{is_sorted_perm, reorder};
use crate::text::{decimal, digit_char};
use crate::world::{find, get, has_row, lemma_find, ContextCamera, ModelRequest, Turn, WorkStatus, World};

verus! {

/// Interrupting a Turn advances its generation, so every provider result of the generation it
/// had is stale in the interrupted world: applying it changes nothing.
pub proof fn law_interrupt_makes_model_results_stale(w: World, f: World, turn: Entity, result: ModelResult, accepted: Seq<Entity>)
    requires
        find(w.turns@, turn) is Some,
        w.turns@[find(w.turns@, turn).unwrap()].1.generation < u64::MAX,
        f.turns@ == w.turns@.update(
            find(w.turns@, turn).unwrap(),
            (turn, Turn { generation: (w.turns@[find(w.turns@, turn).unwrap()].1.generation + 1) as u64, ..w.turns@[find(w.turns@, turn).unwrap()].1 }),
        ),
        result.turn == turn,
        result.generation == w.turns@[find(w.turns@, turn).unwrap()].1.generation,
    ensures
        model_verdict(f, result, accepted) == ModelVerdict::Stale,
{
    let k = find(w.turns@, turn).unwrap();
    lemma_find(w.turns@, turn);
    crate::world::lemma_find_same_keys(w.turns@, f.turns@, turn);
    assert(get(f.turns@, turn) == Some(f.turns@[k].1));
}

/// Interrupting a Turn advances its generation, so every tool result of the generation it had is
/// stale in the interrupted world.
pub proof fn law_interrupt_makes_tool_results_stale(w: World, f: World, turn: Entity, result: ToolResult, accepted: Seq<Entity>)
    requires
        find(w.turns@, turn) is Some,
        w.turns@[find(w.turns@, turn).unwrap()].1.generation < u64::MAX,
        f.turns@ == w.turns@.update(
            find(w.turns@, turn).unwrap(),
            (turn, Turn { generation: (w.turns@[find(w.turns@, turn).unwrap()].1.generation + 1) as u64, ..w.turns@[find(w.turns@, turn).unwrap()].1 }),
        ),
        result.turn == turn,
        result.generation == w.turns@[find(w.turns@, turn).unwrap()].1.generation,
    ensures
        !tool_result_fresh(f, result, accepted),
{
    let k = find(w.turns@, turn).unwrap();
    lemma_find(w.turns@, turn);
    crate::world::lemma_find_same_keys(w.turns@, f.turns@, turn);
    assert(get(f.turns@, turn) == Some(f.turns@[k].1));
}

/// A provider result no longer matches the world: its request is gone or is not the running
/// request it names in the same Turn and generation, or its Turn is gone, belongs to another
/// Session, or has moved to another generation.
pub open spec fn model_result_late(w: World, r: ModelResult) -> bool {
    match get(w.model_requests@, r.work) {
        None => true,
        Some(q) => {
            ||| q.id != r.request_id
            ||| q.turn != r.turn
            ||| q.generation != r.generation
            ||| q.status != crate::world::WorkStatus::Running
            ||| match get(w.turns@, r.turn) {
                None => true,
                Some(t) => t.session != r.session || t.generation != r.generation,
            }
        },
    }
}

/// A tool result no longer matches the world, as [`model_result_late`] says of provider results.
pub open spec fn tool_result_late(w: World, r: ToolResult) -> bool {
    match get(w.tool_uses@, r.work) {
        None => true,
        Some(u) => {
            ||| u.id != r.tool_call_id
            ||| u.turn != r.turn
            ||| u.generation != r.generation
            ||| u.status != crate::world::WorkStatus::Running
            ||| match get(w.turns@, r.turn) {
                None => true,
                Some(t) => t.session != r.session || t.generation != r.generation,
            }
        },
    }
}

proof fn lemma_model_accepted_grows(
    trace: Seq<World>,
    accs: Seq<Seq<Entity>>,
    results: Seq<ModelResult>,
    verdicts: Seq<ModelVerdict>,
    i: int,
)
    requires
        crate::execution::model_apply_trace(trace, accs, results, verdicts),
        0 <= i <= results.len(),
    ensures
        forall|j: int| 0 <= j < i && verdicts[j] != ModelVerdict::Stale ==> accs[i].contains(#[trigger] results[j].work),
    decreases i,
{
    if i > 0 {
        lemma_model_accepted_grows(trace, accs, results, verdicts, i - 1);
        let k = i - 1;
        assert(crate::execution::model_result_applied(trace[k], trace[k + 1], results[k], accs[k], accs[k + 1], verdicts[k]));
        assert forall|j: int| 0 <= j < i && verdicts[j] != ModelVerdict::Stale implies accs[i].contains(#[trigger] results[j].work) by {
            if j < k {
                let x = choose|x: int| 0 <= x < accs[k].len() && accs[k][x] == results[j].work;
                if verdicts[k] != ModelVerdict::Stale {
                    assert(accs[i][x] == accs[k][x]);
                }
            } else if verdicts[k] != ModelVerdict::Stale {
                assert(accs[i][accs[k].len() as int] == results[k].work);
            }
        }
    }
}

/// Late or stale provider results cannot change a Session: in a batch, a result that no longer
/// matches the world as the earlier results left it, or that answers work for which an earlier
/// result of the same batch was accepted, is judged stale and changes nothing.
pub proof fn law_late_model_results_change_nothing(
    trace: Seq<World>,
    accs: Seq<Seq<Entity>>,
    results: Seq<ModelResult>,
    verdicts: Seq<ModelVerdict>,
    i: int,
)
    requires
        crate::execution::model_apply_trace(trace, accs, results, verdicts),
        0 <= i < results.len(),
        model_result_late(trace[i], results[i]) || exists|j: int|
            0 <= j < i && verdicts[j] != ModelVerdict::Stale && #[trigger] results[j].work == results[i].work,
    ensures
        verdicts[i] == ModelVerdict::Stale,
        trace[i + 1].same_world(trace[i]),
        accs[i + 1] == accs[i],
{
    lemma_model_accepted_grows(trace, accs, results, verdicts, i);
    assert(crate::execution::model_result_applied(trace[i], trace[i + 1], results[i], accs[i], accs[i + 1], verdicts[i]));
    if !model_result_late(trace[i], results[i]) {
        let j = choose|j: int| 0 <= j < i && verdicts[j] != ModelVerdict::Stale && #[trigger] results[j].work == results[i].work;
        assert(accs[i].contains(results[j].work));
    }
}

proof fn lemma_tool_accepted_grows(
    trace: Seq<World>,
    accs: Seq<Seq<Entity>>,
    results: Seq<ToolResult>,
    fresh: Seq<bool>,
    i: int,
)
    requires
        crate::execution::tool_apply_trace(trace, accs, results, fresh),
        0 <= i <= results.len(),
    ensures
        forall|j: int| 0 <= j < i && fresh[j] ==> accs[i].contains(#[trigger] results[j].work),
    decreases i,
{
    if i > 0 {
        lemma_tool_accepted_grows(trace, accs, results, fresh, i - 1);
        let k = i - 1;
        assert(crate::execution::tool_result_applied(trace[k], trace[k + 1], results[k], accs[k], accs[k + 1], fresh[k]));
        assert forall|j: int| 0 <= j < i && fresh[j] implies accs[i].contains(#[trigger] results[j].work) by {
            if j < k {
                let x = choose|x: int| 0 <= x < accs[k].len() && accs[k][x] == results[j].work;
                if fresh[k] {
                    assert(accs[i][x] == accs[k][x]);
                }
            } else if fresh[k] {
                assert(accs[i][accs[k].len() as int] == results[k].work);
            }
        }
    }
}

/// Late or stale tool results cannot change a Session: in a batch, a result that no longer
/// matches the world as the earlier results left it, or that answers work for which an earlier
/// result of the same batch was accepted, is not fresh and changes nothing.
pub proof fn law_late_tool_results_change_nothing(
    trace: Seq<World>,
    accs: Seq<Seq<Entity>>,
    results: Seq<ToolResult>,
    fresh: Seq<bool>,
    i: int,
)
    requires
        crate::execution::tool_apply_trace(trace, accs, results, fresh),
        0 <= i < results.len(),
        tool_result_late(trace[i], results[i]) || exists|j: int|
            0 <= j < i && fresh[j] && #[trigger] results[j].work == results[i].work,
    ensures
        !fresh[i],
        trace[i + 1].same_world(trace[i]),
        accs[i + 1] == accs[i],
{
    lemma_tool_accepted_grows(trace, accs, results, fresh, i);
    assert(crate::execution::tool_result_applied(trace[i], trace[i + 1], results[i], accs[i], accs[i + 1], fresh[i]));
    if !tool_result_late(trace[i], results[i]) {
        let j = choose|j: int| 0 <= j < i && fresh[j] && #[trigger] results[j].work == results[i].work;
        assert(accs[i].contains(results[j].work));
    }
}

proof fn lemma_without_other<T>(s: Seq<(Entity, T)>, x: Entity, e: Entity)
    requires
        x != e,
    ensures
        has_row(without(s, x), e) == has_row(s, e),
    decreases s.len(),
{
    reveal_with_fuel(Seq::filter, 1);
    if s.len() > 0 {
        let d = s.drop_last();
        lemma_without_other(d, x, e);
        crate::world::lemma_find_push(d, s.last(), e);
        assert(d.push(s.last()) =~= s);
        if s.last().0 != x {
            crate::world::lemma_find_push(without(d, x), s.last(), e);
        }
    }
}

/// Turn `t` stays finished from `w` to `f`: every outcome table of `w` is a prefix of `f`'s.
pub open spec fn outcomes_kept(w: World, f: World) -> bool {
    &&& w.turns_completed@.len() <= f.turns_completed@.len()
    &&& forall|j: int| 0 <= j < w.turns_completed@.len() ==> #[trigger] f.turns_completed@[j] == w.turns_completed@[j]
    &&& w.turns_cancelled@.len() <= f.turns_cancelled@.len()
    &&& forall|j: int| 0 <= j < w.turns_cancelled@.len() ==> #[trigger] f.turns_cancelled@[j] == w.turns_cancelled@[j]
    &&& w.turns_failed@.len() <= f.turns_failed@.len()
    &&& forall|j: int| 0 <= j < w.turns_failed@.len() ==> #[trigger] f.turns_failed@[j] == w.turns_failed@[j]
    &&& w.turns_interrupted@.len() <= f.turns_interrupted@.len()
    &&& forall|j: int| 0 <= j < w.turns_interrupted@.len() ==> #[trigger] f.turns_interrupted@[j] == w.turns_interrupted@[j]
}

proof fn lemma_finished_kept(w: World, f: World, t: Entity)
    requires
        outcomes_kept(w, f),
        w.turn_finished(t),
    ensures
        f.turn_finished(t),
{
    if exists|i: int| 0 <= i < w.turns_completed@.len() && #[trigger] w.turns_completed@[i].1.turn == t {
        let i = choose|i: int| 0 <= i < w.turns_completed@.len() && #[trigger] w.turns_completed@[i].1.turn == t;
        assert(f.turns_completed@[i].1.turn == t);
    } else if exists|i: int| 0 <= i < w.turns_cancelled@.len() && #[trigger] w.turns_cancelled@[i].1.turn == t {
        let i = choose|i: int| 0 <= i < w.turns_cancelled@.len() && #[trigger] w.turns_cancelled@[i].1.turn == t;
        assert(f.turns_cancelled@[i].1.turn == t);
    } else if exists|i: int| 0 <= i < w.turns_failed@.len() && #[trigger] w.turns_failed@[i].1.turn == t {
        let i = choose|i: int| 0 <= i < w.turns_failed@.len() && #[trigger] w.turns_failed@[i].1.turn == t;
        assert(f.turns_failed@[i].1.turn == t);
    } else {
        let i = choose|i: int| 0 <= i < w.turns_interrupted@.len() && #[trigger] w.turns_interrupted@[i].1.turn == t;
        assert(f.turns_interrupted@[i].1.turn == t);
    }
}

/// One dispatch visit of other work keeps request `work`, its task handle, the Turns, and every
/// outcome already recorded.
proof fn lemma_dispatch_step_frame(w: World, f: World, x: Entity, r: DispatchOutcome, work: Entity, q: ModelRequest)
    requires
        model_dispatch_step(w, f, x, r),
        get(w.model_requests@, work) == Some(q),
        x != work || !awaits_model_dispatch(w, (work, q)) || !dispatchable(w, q),
    ensures
        get(f.model_requests@, work) == Some(q),
        has_row(f.model_tasks@, work) == has_row(w.model_tasks@, work),
        f.turns@ == w.turns@,
        outcomes_kept(w, f),
        x == work ==> r is Skipped,
{
    match get(w.model_requests@, x) {
        Some(req) => {
            if req.status == WorkStatus::Pending && !has_row(w.model_tasks@, x) {
                let k = find(w.model_requests@, x).unwrap();
                crate::world::lemma_find(w.model_requests@, x);
                crate::world::lemma_find(w.model_requests@, work);
                if !dispatchable(w, req) {
                } else {
                    assert(x != work);
                    match r {
                        DispatchOutcome::Launched(_) => {
                            assert(model_dispatched(w, f, x, req, r));
                            crate::world::lemma_find_push(w.model_tasks@, (x, ()), work);
                        },
                        _ => {
                            lemma_without_other(w.model_tasks@, x, work);
                        },
                    }
                    let a = w.model_requests@;
                    let b = f.model_requests@;
                    assert(crate::world::same_keys(a, b));
                    crate::world::lemma_find_same_keys(a, b, work);
                    let kw = find(a, work).unwrap();
                    assert(kw != k);
                    assert(b[kw] == a[kw]);
                    assert(f.turns_failed@.drop_last() == w.turns_failed@ ==> forall|j: int|
                        0 <= j < w.turns_failed@.len() ==> #[trigger] f.turns_failed@[j] == w.turns_failed@[j]);
                }
            }
        },
        None => {},
    }
}

/// Dispatch leaves alone every request that is not up for it: one that is not Pending, already
/// has a task handle, or whose Turn is missing, finished, or in another generation when the pass
/// begins. After the pass the request is as it was, it has a task handle exactly when it had one,
/// and each visit of it was skipped.
pub proof fn law_dispatch_leaves_other_requests(
    trace: Seq<World>,
    outcomes: Seq<(Entity, DispatchOutcome)>,
    work: Entity,
    q: ModelRequest,
)
    requires
        model_dispatch_trace(trace, pending_model_work(trace[0]), outcomes),
        get(trace[0].model_requests@, work) == Some(q),
        !awaits_model_dispatch(trace[0], (work, q)) || !dispatchable(trace[0], q),
    ensures
        get(trace.last().model_requests@, work) == Some(q),
        has_row(trace.last().model_tasks@, work) == has_row(trace[0].model_tasks@, work),
        forall|i: int| 0 <= i < outcomes.len() && (#[trigger] outcomes[i]).0 == work ==> outcomes[i].1 is Skipped,
{
    let works = pending_model_work(trace[0]);
    lemma_dispatch_prefix(trace, works, outcomes, work, q, works.len() as int);
}

proof fn lemma_dispatch_prefix(
    trace: Seq<World>,
    works: Seq<Entity>,
    outcomes: Seq<(Entity, DispatchOutcome)>,
    work: Entity,
    q: ModelRequest,
    i: int,
)
    requires
        model_dispatch_trace(trace, works, outcomes),
        0 <= i <= works.len(),
        get(trace[0].model_requests@, work) == Some(q),
        !awaits_model_dispatch(trace[0], (work, q)) || !dispatchable(trace[0], q),
    ensures
        get(trace[i].model_requests@, work) == Some(q),
        has_row(trace[i].model_tasks@, work) == has_row(trace[0].model_tasks@, work),
        trace[i].turns@ == trace[0].turns@,
        outcomes_kept(trace[0], trace[i]),
        forall|j: int| 0 <= j < i && (#[trigger] outcomes[j]).0 == work ==> outcomes[j].1 is Skipped,
    decreases i,
{
    if i > 0 {
        let k = i - 1;
        lemma_dispatch_prefix(trace, works, outcomes, work, q, k);
        let w = trace[k];
        let f = trace[i];
        assert(outcomes[k].0 == works[k]);
        if !dispatchable(trace[0], q) && dispatchable(w, q) {
            if trace[0].turn_finished(q.turn) {
                lemma_finished_kept(trace[0], w, q.turn);
            }
        }
        lemma_dispatch_step_frame(w, f, works[k], outcomes[k].1, work, q);
        assert(outcomes_kept(trace[0], f));
    }
}

/// Recovery after a restart leaves no work Pending or Running: every Pending or Running
/// ModelRequest and ToolUse becomes Cancelled and every other one is left as it was; the Turns
/// interrupted are exactly those that exist and had such work: each one's generation advances by
/// one and it gets a TurnInterrupted outcome in the new generation, and every other Turn is left
/// as it was.
pub proof fn law_recovery_cancels_every_orphan(w: World, f: World, l: Seq<Entity>)
    requires
        crate::recovery::orphans_recovered(w, f, l),
    ensures
        f.model_requests@.len() == w.model_requests@.len(),
        forall|j: int| 0 <= j < w.model_requests@.len() ==> {
            let q = #[trigger] w.model_requests@[j];
            if q.1.status == WorkStatus::Pending || q.1.status == WorkStatus::Running {
                f.model_requests@[j] == (q.0, ModelRequest { status: WorkStatus::Cancelled, ..q.1 })
            } else {
                f.model_requests@[j] == q
            }
        },
        f.tool_uses@.len() == w.tool_uses@.len(),
        forall|j: int| 0 <= j < w.tool_uses@.len() ==> {
            let u = #[trigger] w.tool_uses@[j];
            if u.1.status == WorkStatus::Pending || u.1.status == WorkStatus::Running {
                f.tool_uses@[j] == (u.0, crate::world::ToolUse { status: WorkStatus::Cancelled, ..u.1 })
            } else {
                f.tool_uses@[j] == u
            }
        },
        forall|j: int| 0 <= j < f.model_requests@.len() ==> (#[trigger] f.model_requests@[j]).1.status != WorkStatus::Pending
            && f.model_requests@[j].1.status != WorkStatus::Running,
        forall|j: int| 0 <= j < f.tool_uses@.len() ==> (#[trigger] f.tool_uses@[j]).1.status != WorkStatus::Pending
            && f.tool_uses@[j].1.status != WorkStatus::Running,
        forall|j: int|
            0 <= j < w.model_requests@.len() && (w.model_requests@[j].1.status == WorkStatus::Pending
                || w.model_requests@[j].1.status == WorkStatus::Running) && has_row(w.turns@, (#[trigger] w.model_requests@[j]).1.turn)
                ==> l.contains(w.model_requests@[j].1.turn),
        forall|j: int|
            0 <= j < w.tool_uses@.len() && (w.tool_uses@[j].1.status == WorkStatus::Pending
                || w.tool_uses@[j].1.status == WorkStatus::Running) && has_row(w.turns@, (#[trigger] w.tool_uses@[j]).1.turn)
                ==> l.contains(w.tool_uses@[j].1.turn),
        forall|t: Entity| #[trigger] l.contains(t) ==> has_row(w.turns@, t)
            && get(f.turns@, t) == Some(Turn { generation: (get(w.turns@, t).unwrap().generation + 1) as u64, ..get(w.turns@, t).unwrap() }),
        forall|t: Entity| #[trigger] l.contains(t) ==> (exists|j: int|
            0 <= j < w.model_requests@.len() && (#[trigger] w.model_requests@[j]).1.turn == t
                && (w.model_requests@[j].1.status == WorkStatus::Pending || w.model_requests@[j].1.status == WorkStatus::Running))
            || (exists|j: int|
            0 <= j < w.tool_uses@.len() && (#[trigger] w.tool_uses@[j]).1.turn == t
                && (w.tool_uses@[j].1.status == WorkStatus::Pending || w.tool_uses@[j].1.status == WorkStatus::Running)),
        forall|t: Entity| #[trigger] get(w.turns@, t) is Some && !l.contains(t) ==> get(f.turns@, t) == get(w.turns@, t),
        f.turns_interrupted@.len() == w.turns_interrupted@.len() + l.len(),
        forall|k: int| 0 <= k < l.len() ==> {
            let x = (#[trigger] f.turns_interrupted@[w.turns_interrupted@.len() + k]).1;
            x.turn == l[k] && x.generation == (get(w.turns@, l[k]).unwrap().generation + 1) as u64
        },
{
    assert forall|j: int|
        0 <= j < w.model_requests@.len() && (w.model_requests@[j].1.status == WorkStatus::Pending
            || w.model_requests@[j].1.status == WorkStatus::Running) && has_row(w.turns@, (#[trigger] w.model_requests@[j]).1.turn)
        implies l.contains(w.model_requests@[j].1.turn) by {
        assert(crate::recovery::orphan_turn(w, w.model_requests@[j].1.turn));
    }
    assert forall|j: int|
        0 <= j < w.tool_uses@.len() && (w.tool_uses@[j].1.status == WorkStatus::Pending
            || w.tool_uses@[j].1.status == WorkStatus::Running) && has_row(w.turns@, (#[trigger] w.tool_uses@[j]).1.turn)
        implies l.contains(w.tool_uses@[j].1.turn) by {
        assert(crate::recovery::orphan_turn(w, w.tool_uses@[j].1.turn));
    }
    assert forall|t: Entity| #[trigger] l.contains(t) implies has_row(w.turns@, t)
        && get(f.turns@, t) == Some(Turn { generation: (get(w.turns@, t).unwrap().generation + 1) as u64, ..get(w.turns@, t).unwrap() }) by {
        lemma_find(w.turns@, t);
        let k = find(w.turns@, t).unwrap();
        assert(crate::world::same_keys(w.turns@, f.turns@));
        crate::world::lemma_find_same_keys(w.turns@, f.turns@, t);
        assert(f.turns@[k] == crate::recovery::advanced_turns(w.turns@, l)[k]);
    }
    assert forall|t: Entity| #[trigger] get(w.turns@, t) is Some && !l.contains(t) implies get(f.turns@, t) == get(w.turns@, t) by {
        lemma_find(w.turns@, t);
        let k = find(w.turns@, t).unwrap();
        crate::world::lemma_find_same_keys(w.turns@, f.turns@, t);
        assert(f.turns@[k] == crate::recovery::advanced_turns(w.turns@, l)[k]);
    }
    assert forall|k: int| 0 <= k < l.len() implies {
        let x = (#[trigger] f.turns_interrupted@[w.turns_interrupted@.len() + k]).1;
        x.turn == l[k] && x.generation == (get(w.turns@, l[k]).unwrap().generation + 1) as u64
    } by {
        assert(f.turns_interrupted@[w.turns_interrupted@.len() + k] == crate::recovery::interruptions(w, l)[k]);
        assert(l.contains(l[k]));
        lemma_find(w.turns@, l[k]);
    }
}

/// After startup recovery no ModelRequest or ToolUse is left Pending or Running.
pub proof fn law_recover_leaves_no_work_pending(
    w: World,
    s0: crate::log::PersistenceState,
    f: World,
    s1: crate::log::PersistenceState,
    r: (Entity, Entity),
)
    requires
        crate::recovery::recovered(w, s0, f, s1, r),
    ensures
        forall|j: int| 0 <= j < f.model_requests@.len() ==> (#[trigger] f.model_requests@[j]).1.status != WorkStatus::Pending
            && f.model_requests@[j].1.status != WorkStatus::Running,
        forall|j: int| 0 <= j < f.tool_uses@.len() ==> (#[trigger] f.tool_uses@[j]).1.status != WorkStatus::Pending
            && f.tool_uses@[j].1.status != WorkStatus::Running,
{
    assert forall|j: int| 0 <= j < f.model_requests@.len() implies (#[trigger] f.model_requests@[j]).1.status != WorkStatus::Pending
        && f.model_requests@[j].1.status != WorkStatus::Running by {
        assert(f.model_requests@[j] == crate::recovery::cancelled_requests(w.model_requests@)[j]);
    }
    assert forall|j: int| 0 <= j < f.tool_uses@.len() implies (#[trigger] f.tool_uses@[j]).1.status != WorkStatus::Pending
        && f.tool_uses@[j].1.status != WorkStatus::Running by {
        assert(f.tool_uses@[j] == crate::recovery::cancelled_tool_uses(w.tool_uses@)[j]);
    }
}

proof fn lemma_max_of_bound(s: Seq<u64>)
    ensures
        forall|j: int| 0 <= j < s.len() ==> #[trigger] s[j] <= crate::hydrate::max_of(s),
    decreases s.len(),
{
    if s.len() > 0 {
        lemma_max_of_bound(s.drop_last());
        assert forall|j: int| 0 <= j < s.len() implies #[trigger] s[j] <= crate::hydrate::max_of(s) by {
            if j < s.len() - 1 {
                assert(s[j] == s.drop_last()[j]);
            }
        }
    }
}

/// After a load each Session log continues past its records: the next ordinal of a log is one
/// more than its largest ordinal, so it is above every ordinal in it and appending keeps the
/// ordinals increasing; an empty log starts at zero.
pub proof fn law_next_ordinal_follows_log(files: Seq<crate::replay::LoadedFile>)
    requires
        crate::hydrate::ordinals_bounded(files),
    ensures
        crate::hydrate::file_ordinals(files).len() == files.len(),
        forall|i: int| 0 <= i < files.len() ==> (#[trigger] crate::hydrate::file_ordinals(files)[i]).0 == files[i].session,
        forall|i: int, j: int|
            0 <= i < files.len() && 0 <= j < files[i].records@.len() ==> (#[trigger] files[i].records@[j]).ordinal
                < crate::hydrate::file_ordinals(files)[i].1,
        forall|i: int|
            0 <= i < files.len() && files[i].records@.len() > 0 ==> exists|j: int|
                0 <= j < files[i].records@.len() && crate::hydrate::file_ordinals(files)[i].1 == (#[trigger] files[i].records@[j]).ordinal + 1,
        forall|i: int| 0 <= i < files.len() && files[i].records@.len() == 0 ==> (#[trigger] crate::hydrate::file_ordinals(files)[i]).1 == 0,
{
    assert forall|i: int, j: int|
        0 <= i < files.len() && 0 <= j < files[i].records@.len() implies (#[trigger] files[i].records@[j]).ordinal
            < crate::hydrate::file_ordinals(files)[i].1 by {
        let s = Seq::new(files[i].records@.len(), |x: int| files[i].records@[x].ordinal);
        lemma_max_of_bound(s);
        crate::hydrate::lemma_max_of_member(s);
        assert(s[j] == files[i].records@[j].ordinal);
        let m = choose|x: int| 0 <= x < s.len() && s[x] == crate::hydrate::max_of(s);
        assert(files[i].records@[m].ordinal < u64::MAX);
    }
    assert forall|i: int| 0 <= i < files.len() && files[i].records@.len() > 0 implies exists|j: int|
        0 <= j < files[i].records@.len() && crate::hydrate::file_ordinals(files)[i].1 == (#[trigger] files[i].records@[j]).ordinal + 1 by {
        let s = Seq::new(files[i].records@.len(), |x: int| files[i].records@[x].ordinal);
        crate::hydrate::lemma_max_of_member(s);
        let m = choose|x: int| 0 <= x < s.len() && s[x] == crate::hydrate::max_of(s);
        assert(files[i].records@[m].ordinal < u64::MAX);
        assert(s[m] == files[i].records@[m].ordinal);
    }
}

/// The identity allocator never moves backwards when it is restored after a load, and it moves
/// past every identity in use, unless that identity is the largest value.
pub proof fn law_restore_moves_past(next: u64, seen: u64)
    ensures
        restored(next, seen) >= next,
        seen < u64::MAX ==> restored(next, seen) > seen,
{
}

proof fn lemma_digit_injective(a: nat, b: nat)
    requires
        a < 10,
        b < 10,
        digit_char(a) == digit_char(b),
    ensures
        a == b,
{
}

proof fn lemma_decimal_len(n: nat)
    ensures
        decimal(n).len() >= 1,
        n >= 10 ==> decimal(n).len() >= 2,
    decreases n,
{
    if n >= 10 {
        lemma_decimal_len(n / 10);
    }
}

/// Distinct numbers have distinct decimal renderings.
pub proof fn law_decimal_injective(a: nat, b: nat)
    requires
        decimal(a) == decimal(b),
    ensures
        a == b,
    decreases a,
{
    lemma_decimal_len(a);
    lemma_decimal_len(b);
    if a < 10 && b < 10 {
        assert(decimal(a)[0] == digit_char(a));
        assert(decimal(b)[0] == digit_char(b));
        lemma_digit_injective(a, b);
    } else if a >= 10 && b >= 10 {
        assert(decimal(a).last() == digit_char(a % 10));
        assert(decimal(b).last() == digit_char(b % 10));
        lemma_digit_injective(a % 10, b % 10);
        assert(decimal(a / 10) =~= decimal(a).drop_last());
        assert(decimal(b / 10) =~= decimal(b).drop_last());
        law_decimal_injective(a / 10, b / 10);
    } else if a < 10 {
        assert(decimal(a).len() == 1);
    } else {
        assert(decimal(b).len() == 1);
    }
}

/// Distinct Sessions have distinct log paths under the same directory.
pub proof fn law_distinct_session_paths(root: Seq<char>, a: SessionId, b: SessionId)
    requires
        a != b,
    ensures
        joined(root, session_file(a)) != joined(root, session_file(b)),
{
    let fa = session_file(a);
    let fb = session_file(b);
    let pre = "session-"@;
    let suf = ".jsonl"@;
    if joined(root, fa) == joined(root, fb) {
        let prefix = if root.len() == 0 {
            Seq::<char>::empty()
        } else if root.last() == '/' {
            root
        } else {
            root + "/"@
        };
        assert(joined(root, fa) =~= prefix + fa);
        assert(joined(root, fb) =~= prefix + fb);
        assert(fa =~= (prefix + fa).skip(prefix.len() as int));
        assert(fb =~= (prefix + fb).skip(prefix.len() as int));
        assert(fa == fb);
        reveal_strlit("session-");
        reveal_strlit(".jsonl");
        let da = decimal(a.0 as nat);
        let db = decimal(b.0 as nat);
        assert(fa.len() == pre.len() + da.len() + suf.len());
        assert(da =~= fa.subrange(pre.len() as int, fa.len() - suf.len()));
        assert(db =~= fb.subrange(pre.len() as int, fb.len() - suf.len()));
        law_decimal_injective(a.0 as nat, b.0 as nat);
    }
}

/// The value that the last item of key `k` records, if any item has key `k`.
pub open spec fn last_value(items: Seq<(Seq<char>, EventView)>, k: Seq<char>) -> Option<EventView>
    decreases items.len(),
{
    if items.len() == 0 {
        None
    } else if items.last().0 == k {
        Some(items.last().1)
    } else {
        last_value(items.drop_last(), k)
    }
}

proof fn lemma_value_at_first(lv: Seq<(Seq<char>, EventView)>, k: Seq<char>, j: int)
    requires
        0 <= j < lv.len(),
        lv[j].0 == k,
        forall|i: int| 0 <= i < j ==> (#[trigger] lv[i]).0 != k,
    ensures
        value_of(lv, k) == Some(lv[j].1),
    decreases lv.len(),
{
    if j < lv.len() - 1 {
        lemma_value_at_first(lv.drop_last(), k, j);
    } else {
        lemma_value_absent(lv.drop_last(), k);
    }
}

proof fn lemma_value_absent(lv: Seq<(Seq<char>, EventView)>, k: Seq<char>)
    requires
        forall|i: int| 0 <= i < lv.len() ==> (#[trigger] lv[i]).0 != k,
    ensures
        value_of(lv, k) is None,
    decreases lv.len(),
{
    if lv.len() > 0 {
        lemma_value_absent(lv.drop_last(), k);
    }
}

proof fn lemma_first_exists(lv: Seq<(Seq<char>, EventView)>, k: Seq<char>, j0: int)
    requires
        0 <= j0 < lv.len(),
        lv[j0].0 == k,
    ensures
        exists|j: int| 0 <= j < lv.len() && lv[j].0 == k && forall|i: int| 0 <= i < j ==> (#[trigger] lv[i]).0 != k,
    decreases j0,
{
    if exists|i: int| 0 <= i < j0 && lv[i].0 == k {
        let i = choose|i: int| 0 <= i < j0 && lv[i].0 == k;
        lemma_first_exists(lv, k, i);
    } else {
        assert forall|i: int| 0 <= i < j0 implies (#[trigger] lv[i]).0 != k by {}
    }
}

/// Recording `v` under `k` changes the value read for `k` alone.
proof fn lemma_upsert_value(lv: Seq<(Seq<char>, EventView)>, k: Seq<char>, v: EventView, k2: Seq<char>)
    ensures
        value_of(upsert_value(lv, k, v), k2) == (if k2 == k { Some(v) } else { value_of(lv, k2) }),
{
    let u = upsert_value(lv, k, v);
    if exists|j: int| 0 <= j < lv.len() && lv[j].0 == k {
        let j0 = choose|j: int| 0 <= j < lv.len() && lv[j].0 == k;
        lemma_first_exists(lv, k, j0);
        let j = index_of_key(lv, k).unwrap();
        assert(u == lv.update(j, (k, v)));
        if k2 == k {
            assert forall|i: int| 0 <= i < j implies (#[trigger] u[i]).0 != k by {
                assert(u[i] == lv[i]);
            }
            lemma_value_at_first(u, k, j);
        } else if exists|i: int| 0 <= i < lv.len() && lv[i].0 == k2 {
            let i0 = choose|i: int| 0 <= i < lv.len() && lv[i].0 == k2;
            lemma_first_exists(lv, k2, i0);
            let j2 = choose|x: int| 0 <= x < lv.len() && lv[x].0 == k2 && forall|i: int| 0 <= i < x ==> (#[trigger] lv[i]).0 != k2;
            lemma_value_at_first(lv, k2, j2);
            assert(u[j2] == lv[j2]);
            assert forall|i: int| 0 <= i < j2 implies (#[trigger] u[i]).0 != k2 by {
                if i != j {
                    assert(u[i] == lv[i]);
                }
            }
            lemma_value_at_first(u, k2, j2);
        } else {
            lemma_value_absent(lv, k2);
            assert forall|i: int| 0 <= i < u.len() implies (#[trigger] u[i]).0 != k2 by {
                if i != j {
                    assert(u[i] == lv[i]);
                }
            }
            lemma_value_absent(u, k2);
        }
    } else {
        assert(index_of_key(lv, k) is None);
        assert(u == lv.push((k, v)));
        assert(u.drop_last() =~= lv);
        if k2 == k {
            lemma_value_absent(lv, k);
        }
    }
}

/// What persistence reads back of a write: after committing `items`, the value recorded for a
/// key is that of the last item with the key, or the value recorded before when no item has it.
pub proof fn law_committed_value(lv: Seq<(Seq<char>, EventView)>, items: Seq<(Seq<char>, EventView)>, k: Seq<char>)
    ensures
        value_of(committed(lv, items), k) == match last_value(items, k) {
            Some(v) => Some(v),
            None => value_of(lv, k),
        },
    decreases items.len(),
{
    if items.len() > 0 {
        law_committed_value(lv, items.drop_last(), k);
        lemma_upsert_value(committed(lv, items.drop_last()), items.last().0, items.last().1, k);
    }
}

/// Committing one list of items and then another is committing both in turn.
pub proof fn law_committed_append(lv: Seq<(Seq<char>, EventView)>, a: Seq<(Seq<char>, EventView)>, b: Seq<(Seq<char>, EventView)>)
    ensures
        committed(committed(lv, a), b) == committed(lv, a + b),
    decreases b.len(),
{
    if b.len() > 0 {
        law_committed_append(lv, a, b.drop_last());
        assert((a + b).drop_last() =~= a + b.drop_last());
        assert((a + b).last() == b.last());
    } else {
        assert(a + b =~= a);
    }
}

proof fn lemma_nothing_changed(c: Seq<(Seq<char>, SessionId, EventView)>, lv: Seq<(Seq<char>, EventView)>)
    requires
        forall|i: int| 0 <= i < c.len() ==> value_of(lv, (#[trigger] c[i]).0) == Some(c[i].2),
    ensures
        changed_of(c, lv).len() == 0,
    decreases c.len(),
{
    if c.len() > 0 {
        assert forall|i: int| 0 <= i < c.drop_last().len() implies value_of(lv, (#[trigger] c.drop_last()[i]).0) == Some(c.drop_last()[i].2) by {
            assert(c.drop_last()[i] == c[i]);
        }
        lemma_nothing_changed(c.drop_last(), lv);
        assert(value_of(lv, c[c.len() - 1].0) == Some(c[c.len() - 1].2));
    }
}

/// Once every changed entry has been committed with its value, and nothing else was committed
/// under a key of the entries with another value, no entry is changed any more: a write that
/// covers what changed leaves nothing to write.
pub proof fn law_commit_clears_changes(
    c: Seq<(Seq<char>, SessionId, EventView)>,
    lv: Seq<(Seq<char>, EventView)>,
    items: Seq<(Seq<char>, EventView)>,
)
    requires
        forall|i: int| 0 <= i < c.len() && value_of(lv, (#[trigger] c[i]).0) != Some(c[i].2)
            ==> last_value(items, c[i].0) == Some(c[i].2),
        forall|i: int| 0 <= i < c.len() ==> (last_value(items, (#[trigger] c[i]).0) is None
            || last_value(items, c[i].0) == Some(c[i].2)),
    ensures
        changed_of(c, committed(lv, items)).len() == 0,
{
    assert forall|i: int| 0 <= i < c.len() implies value_of(committed(lv, items), (#[trigger] c[i]).0) == Some(c[i].2) by {
        law_committed_value(lv, items, c[i].0);
    }
    lemma_nothing_changed(c, committed(lv, items));
}

proof fn lemma_lookup_assign_new<V>(s: Seq<(u64, V)>, k: u64, v: V)
    requires
        lookup(s, k) is None,
    ensures
        lookup(assign(s, k, v), k) == Some(v),
{
    assert(first_key(s, k) is None);
    assert(assign(s, k, v) == s.push((k, v)));
    assert(s.push((k, v)).drop_last() =~= s);
}

proof fn lemma_first_key_bounds<V>(s: Seq<(u64, V)>, k: u64)
    ensures
        first_key(s, k) matches Some(i) ==> 0 <= i < s.len() && s[i].0 == k,
    decreases s.len(),
{
    if s.len() > 0 {
        lemma_first_key_bounds(s.drop_last(), k);
    }
}

proof fn lemma_first_key_update<V>(s: Seq<(u64, V)>, k: u64, i: int, v: V)
    requires
        first_key(s, k) == Some(i),
    ensures
        first_key(s.update(i, (k, v)), k) == Some(i),
    decreases s.len(),
{
    lemma_first_key_bounds(s, k);
    lemma_first_key_bounds(s.drop_last(), k);
    let u = s.update(i, (k, v));
    if i < s.len() - 1 {
        assert(first_key(s.drop_last(), k) == Some(i));
        assert(u.drop_last() =~= s.drop_last().update(i, (k, v)));
        lemma_first_key_update(s.drop_last(), k, i, v);
    } else {
        assert(u.drop_last() =~= s.drop_last());
    }
}

proof fn lemma_lookup_assign<V>(s: Seq<(u64, V)>, k: u64, v: V)
    ensures
        lookup(assign(s, k, v), k) == Some(v),
{
    match first_key(s, k) {
        Some(i) => {
            lemma_first_key_bounds(s, k);
            lemma_first_key_update(s, k, i, v);
        },
        None => {
            lemma_lookup_assign_new(s, k, v);
        },
    }
}

/// Replaying the event collected from a Turn recreates the Turn: it has the same ID, sequence,
/// and generation, belongs to the replayed Session of the Turn's Session, and has as parent the
/// replayed Turn of its parent's ID; the Turn's ID then names the new Turn.
pub proof fn law_turn_round_trip(
    w: World,
    row: (Entity, Turn),
    sid: SessionId,
    e: EventView,
    w2: World,
    r: ReplayState,
    f: World,
    r2: ReplayState,
)
    requires
        turn_event(w)(row) == RowEvent::Emit(sid, e),
        record_applied(w2, r, sid, e, f, r2),
        turn_of(r, row.1.id.0) is None,
        row.1.parent matches Some(p) ==> turn_of(r, turn_id_of(w, p).unwrap()) is Some,
    ensures
        get(w.sessions@, row.1.session) matches Some(x) && x.id == sid,
        f.turns@ == w2.turns@.push(
            (
                Entity(w2.next_entity),
                Turn {
                    id: row.1.id,
                    session: lookup(r.sessions@, sid.0).unwrap(),
                    parent: match row.1.parent {
                        Some(p) => turn_of(r, turn_id_of(w, p).unwrap()),
                        None => None,
                    },
                    sequence: row.1.sequence,
                    generation: row.1.generation,
                },
            ),
        ),
        turn_of(r2, row.1.id.0) == Some(Entity(w2.next_entity)),
{
    reveal(record_applied);
    lemma_lookup_assign_new(r.turns@, row.1.id.0, Entity(w2.next_entity));
}

/// Replaying the event collected from a user message recreates the message: it has the same ID,
/// sequence, and text, and belongs to the replayed Turn of its Turn's ID, in the replayed
/// Session of that Turn's Session.
pub proof fn law_user_message_round_trip(
    w: World,
    row: (Entity, crate::world::UserMessage),
    sid: SessionId,
    e: EventView,
    w2: World,
    r: ReplayState,
    f: World,
    r2: ReplayState,
)
    requires
        user_message_event(w)(row) == RowEvent::Emit(sid, e),
        record_applied(w2, r, sid, e, f, r2),
        lookup(r.user_messages@, row.1.id.0) is None,
    ensures
        get(w.turns@, row.1.turn) matches Some(t) && get(w.sessions@, t.session) matches Some(x) && x.id == sid,
        f.user_messages@.len() == w2.user_messages@.len() + 1,
        forall|j: int| 0 <= j < w2.user_messages@.len() ==> #[trigger] f.user_messages@[j] == w2.user_messages@[j],
        f.user_messages@.last().0 == Entity(w2.next_entity),
        f.user_messages@.last().1.id == row.1.id,
        f.user_messages@.last().1.turn == turn_of(r, turn_id_of(w, row.1.turn).unwrap()).unwrap(),
        f.user_messages@.last().1.sequence == row.1.sequence,
        f.user_messages@.last().1.text@ == row.1.text@,
        lookup(r2.user_messages@, row.1.id.0) == Some(Entity(w2.next_entity)),
{
    reveal(record_applied);
    lemma_lookup_assign_new(r.user_messages@, row.1.id.0, Entity(w2.next_entity));
}

/// Replaying the event collected from an assistant message recreates the message: it has the
/// same ID, sequence, and text, and belongs to the replayed Turn of its Turn's ID.
pub proof fn law_assistant_message_round_trip(
    w: World,
    row: (Entity, crate::world::AssistantMessage),
    sid: SessionId,
    e: EventView,
    w2: World,
    r: ReplayState,
    f: World,
    r2: ReplayState,
)
    requires
        assistant_message_event(w)(row) == RowEvent::Emit(sid, e),
        record_applied(w2, r, sid, e, f, r2),
        lookup(r.assistant_messages@, row.1.id.0) is None,
    ensures
        get(w.turns@, row.1.turn) matches Some(t) && get(w.sessions@, t.session) matches Some(x) && x.id == sid,
        f.assistant_messages@.len() == w2.assistant_messages@.len() + 1,
        forall|j: int| 0 <= j < w2.assistant_messages@.len() ==> #[trigger] f.assistant_messages@[j] == w2.assistant_messages@[j],
        f.assistant_messages@.last().0 == Entity(w2.next_entity),
        f.assistant_messages@.last().1.id == row.1.id,
        f.assistant_messages@.last().1.turn == turn_of(r, turn_id_of(w, row.1.turn).unwrap()).unwrap(),
        f.assistant_messages@.last().1.sequence == row.1.sequence,
        f.assistant_messages@.last().1.text@ == row.1.text@,
        lookup(r2.assistant_messages@, row.1.id.0) == Some(Entity(w2.next_entity)),
{
    reveal(record_applied);
    lemma_lookup_assign_new(r.assistant_messages@, row.1.id.0, Entity(w2.next_entity));
}

/// Replaying the event collected from a completed Turn records the completion of the replayed
/// Turn of its Turn's ID, in the same generation and with the same sequence.
pub proof fn law_completion_round_trip(
    w: World,
    row: (Entity, crate::world::TurnCompleted),
    sid: SessionId,
    e: EventView,
    w2: World,
    r: ReplayState,
    f: World,
    r2: ReplayState,
)
    requires
        completed_event(w)(row) == RowEvent::Emit(sid, e),
        record_applied(w2, r, sid, e, f, r2),
    ensures
        get(w.turns@, row.1.turn) matches Some(t) && get(w.sessions@, t.session) matches Some(x) && x.id == sid,
        f.turns_completed@ == w2.turns_completed@.push(
            (
                Entity(w2.next_entity),
                crate::world::TurnCompleted {
                    turn: turn_of(r, turn_id_of(w, row.1.turn).unwrap()).unwrap(),
                    generation: row.1.generation,
                    sequence: row.1.sequence,
                },
            ),
        ),
{
    reveal(record_applied);
}

/// Replaying the event collected from a branch selection selects the replayed Turn of the head's
/// ID in the replayed Session, and records the selection with the same sequence.
pub proof fn law_branch_selection_round_trip(
    w: World,
    row: (Entity, crate::world::BranchSelection),
    sid: SessionId,
    e: EventView,
    w2: World,
    r: ReplayState,
    f: World,
    r2: ReplayState,
)
    requires
        branch_event(w)(row) == RowEvent::Emit(sid, e),
        record_applied(w2, r, sid, e, f, r2),
    ensures
        get(w.sessions@, row.1.session) matches Some(x) && x.id == sid,
        ({
            let s = lookup(r.sessions@, sid.0).unwrap();
            let h = turn_of(r, turn_id_of(w, row.1.head).unwrap()).unwrap();
            let k = find(w2.sessions@, s).unwrap();
            &&& f.branch_selections@ == w2.branch_selections@.push(
                (Entity(w2.next_entity), crate::world::BranchSelection { session: s, head: h, sequence: row.1.sequence }),
            )
            &&& f.sessions@ == w2.sessions@.update(k, (s, crate::world::Session { active_head: Some(h), ..w2.sessions@[k].1 }))
        }),
{
    reveal(record_applied);
}

/// Replaying the event collected from a Session remembers its head's Turn ID, to be resolved
/// once the Session's log is replayed, and changes nothing else in the world.
pub proof fn law_session_round_trip(
    w: World,
    row: (Entity, crate::world::Session),
    sid: SessionId,
    e: EventView,
    w2: World,
    r: ReplayState,
    f: World,
    r2: ReplayState,
)
    requires
        session_event(w)(row) == RowEvent::Emit(sid, e),
        record_applied(w2, r, sid, e, f, r2),
    ensures
        sid == row.1.id,
        f.same_world(w2),
        lookup(r2.pending_heads@, sid.0) == Some(match row.1.active_head {
            Some(h) => turn_id_of(w, h),
            None => None,
        }),
{
    reveal(record_applied);
    lemma_lookup_assign(r.pending_heads@, sid.0, match row.1.active_head {
        Some(h) => turn_id_of(w, h),
        None => None,
    });
}

/// The items of the batches, batch after batch.
pub open spec fn all_items(batches: Seq<SessionBatch>) -> Seq<(Seq<char>, EventView)>
    decreases batches.len(),
{
    if batches.len() == 0 {
        Seq::empty()
    } else {
        all_items(batches.drop_last()) + batch_items(batches.last())
    }
}

proof fn lemma_last_value_of_member(items: Seq<(Seq<char>, EventView)>, k: Seq<char>, v: EventView)
    requires
        forall|t: int| 0 <= t < items.len() && (#[trigger] items[t]).0 == k ==> items[t].1 == v,
    ensures
        last_value(items, k) is None || last_value(items, k) == Some(v),
        (exists|t: int| 0 <= t < items.len() && (#[trigger] items[t]).0 == k) ==> last_value(items, k) == Some(v),
    decreases items.len(),
{
    if items.len() > 0 {
        let d = items.drop_last();
        assert forall|t: int| 0 <= t < d.len() && (#[trigger] d[t]).0 == k implies d[t].1 == v by {
            assert(d[t] == items[t]);
        }
        lemma_last_value_of_member(d, k, v);
        if exists|t: int| 0 <= t < items.len() && (#[trigger] items[t]).0 == k {
            let t = choose|t: int| 0 <= t < items.len() && (#[trigger] items[t]).0 == k;
            if items.last().0 != k {
                assert(t < items.len() - 1);
                assert(d[t] == items[t]);
            }
        }
    }
}

proof fn lemma_all_items_member(bs: Seq<SessionBatch>, t: int)
    requires
        0 <= t < all_items(bs).len(),
    ensures
        exists|bi: int, q: int| 0 <= bi < bs.len() && 0 <= q < batch_items(bs[bi]).len() && all_items(bs)[t] == #[trigger] batch_items(bs[bi])[q],
    decreases bs.len(),
{
    let d = bs.drop_last();
    let n = all_items(d).len();
    if t < n {
        lemma_all_items_member(d, t);
        let (bi, q) = choose|bi: int, q: int| 0 <= bi < d.len() && 0 <= q < batch_items(d[bi]).len() && all_items(d)[t] == #[trigger] batch_items(d[bi])[q];
        assert(bs[bi] == d[bi]);
        assert(all_items(bs)[t] == batch_items(bs[bi])[q]);
    } else {
        let bi = bs.len() - 1;
        assert(all_items(bs)[t] == batch_items(bs[bi])[t - n]);
    }
}

proof fn lemma_all_items_contains(bs: Seq<SessionBatch>, bi: int, q: int)
    requires
        0 <= bi < bs.len(),
        0 <= q < batch_items(bs[bi]).len(),
    ensures
        exists|t: int| 0 <= t < all_items(bs).len() && #[trigger] all_items(bs)[t] == batch_items(bs[bi])[q],
    decreases bs.len(),
{
    let d = bs.drop_last();
    let n = all_items(d).len();
    if bi < bs.len() - 1 {
        assert(bs[bi] == d[bi]);
        lemma_all_items_contains(d, bi, q);
        let t = choose|t: int| 0 <= t < all_items(d).len() && #[trigger] all_items(d)[t] == batch_items(d[bi])[q];
        assert(all_items(bs)[t] == all_items(d)[t]);
    } else {
        assert(all_items(bs)[n + q] == batch_items(bs[bi])[q]);
    }
}

proof fn lemma_group_member(c: Seq<(Seq<char>, SessionId, EventView)>, sid: SessionId, t: int)
    requires
        0 <= t < group_of(c, sid).len(),
    ensures
        exists|j: int| 0 <= j < c.len() && (#[trigger] c[j]).1 == sid && group_of(c, sid)[t] == (c[j].0, c[j].2),
    decreases c.len(),
{
    let d = c.drop_last();
    if t < group_of(d, sid).len() {
        lemma_group_member(d, sid, t);
        let j = choose|j: int| 0 <= j < d.len() && (#[trigger] d[j]).1 == sid && group_of(d, sid)[t] == (d[j].0, d[j].2);
        assert(c[j] == d[j]);
    } else {
        assert(c[c.len() - 1].1 == sid);
    }
}

proof fn lemma_group_contains(c: Seq<(Seq<char>, SessionId, EventView)>, j: int)
    requires
        0 <= j < c.len(),
    ensures
        exists|t: int| 0 <= t < group_of(c, c[j].1).len() && #[trigger] group_of(c, c[j].1)[t] == (c[j].0, c[j].2),
    decreases c.len(),
{
    let d = c.drop_last();
    let sid = c[j].1;
    if j < c.len() - 1 {
        assert(d[j] == c[j]);
        lemma_group_contains(d, j);
        let t = choose|t: int| 0 <= t < group_of(d, sid).len() && #[trigger] group_of(d, sid)[t] == (d[j].0, d[j].2);
        assert(group_of(c, sid)[t] == group_of(d, sid)[t]);
    } else {
        let n = group_of(d, sid).len() as int;
        assert(group_of(c, sid)[n] == (c[j].0, c[j].2));
    }
}

proof fn lemma_changed_member(c: Seq<(Seq<char>, SessionId, EventView)>, lv: Seq<(Seq<char>, EventView)>, j: int)
    requires
        0 <= j < changed_of(c, lv).len(),
    ensures
        exists|i: int| 0 <= i < c.len() && #[trigger] c[i] == changed_of(c, lv)[j],
    decreases c.len(),
{
    let d = c.drop_last();
    if j < changed_of(d, lv).len() {
        lemma_changed_member(d, lv, j);
        let i = choose|i: int| 0 <= i < d.len() && #[trigger] d[i] == changed_of(d, lv)[j];
        assert(c[i] == d[i]);
    } else {
        assert(changed_of(c, lv)[j] == c[c.len() - 1]);
    }
}

proof fn lemma_changed_contains(c: Seq<(Seq<char>, SessionId, EventView)>, lv: Seq<(Seq<char>, EventView)>, i: int)
    requires
        0 <= i < c.len(),
        value_of(lv, c[i].0) != Some(c[i].2),
    ensures
        exists|j: int| 0 <= j < changed_of(c, lv).len() && #[trigger] changed_of(c, lv)[j] == c[i],
    decreases c.len(),
{
    let d = c.drop_last();
    if i < c.len() - 1 {
        assert(d[i] == c[i]);
        lemma_changed_contains(d, lv, i);
        let j = choose|j: int| 0 <= j < changed_of(d, lv).len() && #[trigger] changed_of(d, lv)[j] == d[i];
        assert(changed_of(c, lv)[j] == changed_of(d, lv)[j]);
    } else {
        assert(changed_of(c, lv)[changed_of(d, lv).len() as int] == c[i]);
    }
}

proof fn lemma_batch_item_member(b: SessionBatch, c: Seq<(Seq<char>, SessionId, EventView)>, base: u64, q: int)
    requires
        batch_from(b, c, base),
        0 <= q < batch_items(b).len(),
    ensures
        exists|t: int| 0 <= t < group_of(c, b.session).len() && batch_items(b)[q] == #[trigger] group_of(c, b.session)[t],
{
    let g = group_of(c, b.session);
    let p = choose|p: Seq<int>| #[trigger] is_sorted_perm(crate::log::group_keys(g), p) && {
        let o = reorder(g, p);
        &&& b.keys@.len() == o.len()
        &&& b.records@.len() == o.len()
        &&& forall|i: int|
            0 <= i < o.len() ==> {
                &&& (#[trigger] b.keys@[i])@ == o[i].0
                &&& b.records@[i].schema == crate::events::SCHEMA_VERSION
                &&& b.records@[i].ordinal == base + i
                &&& b.records@[i].event.view() == o[i].1
            }
    };
    let o = reorder(g, p);
    assert(b.keys@[q]@ == o[q].0);
    assert(batch_items(b)[q] == g[p[q]]);
}

proof fn lemma_batch_item_contains(b: SessionBatch, c: Seq<(Seq<char>, SessionId, EventView)>, base: u64, t: int)
    requires
        batch_from(b, c, base),
        0 <= t < group_of(c, b.session).len(),
    ensures
        exists|q: int| 0 <= q < batch_items(b).len() && #[trigger] batch_items(b)[q] == group_of(c, b.session)[t],
{
    let g = group_of(c, b.session);
    let p = choose|p: Seq<int>| #[trigger] is_sorted_perm(crate::log::group_keys(g), p) && {
        let o = reorder(g, p);
        &&& b.keys@.len() == o.len()
        &&& b.records@.len() == o.len()
        &&& forall|i: int|
            0 <= i < o.len() ==> {
                &&& (#[trigger] b.keys@[i])@ == o[i].0
                &&& b.records@[i].schema == crate::events::SCHEMA_VERSION
                &&& b.records@[i].ordinal == base + i
                &&& b.records@[i].event.view() == o[i].1
            }
    };
    assert(crate::log::group_keys(g).len() == g.len());
    assert(p.contains(t));
    let q = choose|q: int| 0 <= q < p.len() && p[q] == t;
    assert(b.keys@[q]@ == reorder(g, p)[q].0);
    assert(batch_items(b)[q] == g[t]);
}

/// A write of the batches that [`crate::log::persistence_batches`] makes from the changed entries,
/// each committed in turn, leaves no entry changed: after a complete write there is nothing left
/// to write. The collected entries have distinct keys, as collection guarantees.
pub proof fn law_written_batches_clear_changes(
    all: Seq<(Seq<char>, SessionId, EventView)>,
    lv: Seq<(Seq<char>, EventView)>,
    batches: Seq<SessionBatch>,
    ords: Seq<(SessionId, u64)>,
)
    requires
        forall|i: int, j: int| 0 <= i < j < all.len() ==> (#[trigger] all[i]).0 != (#[trigger] all[j]).0,
        forall|b: int| 0 <= b < batches.len() ==> batch_matches(#[trigger] batches[b], changed_of(all, lv), ords),
        forall|j: int| 0 <= j < changed_of(all, lv).len() ==> exists|b: int| 0 <= b < batches.len()
            && (#[trigger] batches[b]).session == (#[trigger] changed_of(all, lv)[j]).1,
    ensures
        changed_of(all, committed(lv, all_items(batches))).len() == 0,
{
    let c = changed_of(all, lv);
    let items = all_items(batches);
    assert forall|i: int| 0 <= i < all.len() implies {
        &&& (last_value(items, (#[trigger] all[i]).0) is None || last_value(items, all[i].0) == Some(all[i].2))
        &&& (value_of(lv, all[i].0) != Some(all[i].2) ==> last_value(items, all[i].0) == Some(all[i].2))
    } by {
        let k = all[i].0;
        let v = all[i].2;
        assert forall|t: int| 0 <= t < items.len() && (#[trigger] items[t]).0 == k implies items[t].1 == v by {
            lemma_all_items_member(batches, t);
            let (bi, q) = choose|bi: int, q: int| 0 <= bi < batches.len() && 0 <= q < batch_items(batches[bi]).len() && items[t] == #[trigger] batch_items(batches[bi])[q];
            let b = batches[bi];
            assert(batch_matches(b, c, ords));
            lemma_batch_item_member(b, c, crate::log::ordinal_of(ords, b.session), q);
            let g = group_of(c, b.session);
            let t2 = choose|t2: int| 0 <= t2 < g.len() && batch_items(b)[q] == #[trigger] g[t2];
            lemma_group_member(c, b.session, t2);
            let j = choose|j: int| 0 <= j < c.len() && (#[trigger] c[j]).1 == b.session && g[t2] == (c[j].0, c[j].2);
            lemma_changed_member(all, lv, j);
            let i2 = choose|i2: int| 0 <= i2 < all.len() && #[trigger] all[i2] == c[j];
            if i2 != i {
                if i2 < i {
                    assert(all[i2].0 != all[i].0);
                } else {
                    assert(all[i].0 != all[i2].0);
                }
            }
        }
        lemma_last_value_of_member(items, k, v);
        if value_of(lv, k) != Some(v) {
            lemma_changed_contains(all, lv, i);
            let j = choose|j: int| 0 <= j < c.len() && #[trigger] c[j] == all[i];
            let bi = choose|b: int| 0 <= b < batches.len() && (#[trigger] batches[b]).session == (#[trigger] c[j]).1;
            let b = batches[bi];
            assert(batch_matches(b, c, ords));
            lemma_group_contains(c, j);
            let t = choose|t: int| 0 <= t < group_of(c, c[j].1).len() && #[trigger] group_of(c, c[j].1)[t] == (c[j].0, c[j].2);
            lemma_batch_item_contains(b, c, crate::log::ordinal_of(ords, b.session), t);
            let q = choose|q: int| 0 <= q < batch_items(b).len() && #[trigger] batch_items(b)[q] == group_of(c, b.session)[t];
            lemma_all_items_contains(batches, bi, q);
            let t3 = choose|t3: int| 0 <= t3 < items.len() && #[trigger] items[t3] == batch_items(batches[bi])[q];
            assert(items[t3].0 == k);
        }
    }
    law_commit_clears_changes(all, lv, items);
}

/// The replayed Turn of the Turn that `t` is in `w`.
pub open spec fn replayed_turn(w: World, r: ReplayState, t: Entity) -> Entity {
    turn_of(r, turn_context(w, t).unwrap().1).unwrap()
}

/// The Model of the replayed world `w2` that has the model ID and ProviderId of Model `m` of `w`.
pub open spec fn replayed_model(w: World, w2: World, m: Entity) -> Entity {
    model_entity(w2, model_ref(w, m).unwrap().0, model_ref(w, m).unwrap().1).unwrap()
}

/// Replaying the event collected from a persistent context camera gives the replayed Session a
/// persistent camera of the first Agent with the same budget, at the Session's head.
pub proof fn law_context_camera_round_trip(
    w: World,
    row: (Entity, crate::world::ContextCamera),
    sid: SessionId,
    e: EventView,
    w2: World,
    r: ReplayState,
    f: World,
    r2: ReplayState,
)
    requires
        camera_event(w)(row) == RowEvent::Emit(sid, e),
        record_applied(w2, r, sid, e, f, r2),
        lookup(r.context_cameras@, sid.0) is None,
    ensures
        row.1.persistent && session_id_of(w, row.1.session) == Some(sid),
        ({
            let s = lookup(r.sessions@, sid.0).unwrap();
            f.context_cameras@ == w2.context_cameras@.push(
                (
                    Entity(w2.next_entity),
                    crate::world::ContextCamera {
                        agent: w2.agents@[0].0,
                        session: s,
                        head: match get(w2.sessions@, s) {
                            Some(x) => x.active_head,
                            None => None,
                        },
                        budget: row.1.budget,
                        persistent: true,
                    },
                ),
            )
        }),
        lookup(r2.context_cameras@, sid.0) == Some(Entity(w2.next_entity)),
{
    reveal(record_applied);
    lemma_lookup_assign_new(r.context_cameras@, sid.0, Entity(w2.next_entity));
}

/// Replaying the event collected from a ModelRequest recreates the request: the same ID,
/// generation, status, and sequence, with its Turn, its previous ToolUse, and its Model mapped to
/// their replayed counterparts, and the Agent and Provider of that Model.
pub proof fn law_model_request_round_trip(
    w: World,
    row: (Entity, crate::world::ModelRequest),
    sid: SessionId,
    e: EventView,
    w2: World,
    r: ReplayState,
    f: World,
    r2: ReplayState,
)
    requires
        request_event(w)(row) == RowEvent::Emit(sid, e),
        record_applied(w2, r, sid, e, f, r2),
        lookup(r.requests@, row.1.id.0) is None,
    ensures
        turn_context(w, row.1.turn) matches Some(c) && c.0 == sid,
        ({
            let model = replayed_model(w, w2, row.1.model);
            f.model_requests@ == w2.model_requests@.push(
                (
                    Entity(w2.next_entity),
                    crate::world::ModelRequest {
                        id: row.1.id,
                        turn: replayed_turn(w, r, row.1.turn),
                        agent: agent_entity(w2, model).unwrap(),
                        model,
                        provider: provider_of(w2, model),
                        generation: row.1.generation,
                        previous_tool_use: match previous_call_id(w, row.1.previous_tool_use) {
                            Some(x) => Some(lookup(r.tool_uses@, x).unwrap()),
                            None => None,
                        },
                        status: row.1.status,
                        sequence: row.1.sequence,
                    },
                ),
            )
        }),
        lookup(r2.requests@, row.1.id.0) == Some(Entity(w2.next_entity)),
{
    reveal(record_applied);
    lemma_lookup_assign_new(r.requests@, row.1.id.0, Entity(w2.next_entity));
}

/// Replaying the event collected from a ModelResponse recreates the response: the same response
/// ID, generation, API, usage, stop reason, opaque replay, and sequence, with its request, Turn,
/// and Model mapped to their replayed counterparts.
pub proof fn law_model_response_round_trip(
    w: World,
    row: (Entity, crate::world::ModelResponse),
    sid: SessionId,
    e: EventView,
    w2: World,
    r: ReplayState,
    f: World,
    r2: ReplayState,
)
    requires
        response_event(w)(row) == RowEvent::Emit(sid, e),
        record_applied(w2, r, sid, e, f, r2),
        first_text(text_views(r.responses@), row.1.response_id@) is None,
    ensures
        turn_context(w, row.1.turn) matches Some(c) && c.0 == sid,
        f.model_responses@.len() == w2.model_responses@.len() + 1,
        forall|j: int| 0 <= j < w2.model_responses@.len() ==> #[trigger] f.model_responses@[j] == w2.model_responses@[j],
        ({
            let v = f.model_responses@.last();
            let model = replayed_model(w, w2, row.1.model);
            &&& v.0 == Entity(w2.next_entity)
            &&& v.1.request == lookup(r.requests@, get(w.model_requests@, row.1.request).unwrap().id.0).unwrap()
            &&& v.1.turn == replayed_turn(w, r, row.1.turn)
            &&& v.1.model == model
            &&& v.1.provider == provider_of(w2, model)
            &&& v.1.generation == row.1.generation
            &&& v.1.response_id@ == row.1.response_id@
            &&& v.1.api == row.1.api
            &&& v.1.usage == row.1.usage
            &&& v.1.stop_reason == row.1.stop_reason
            &&& v.1.opaque_replay@ == row.1.opaque_replay@
            &&& v.1.sequence == row.1.sequence
        }),
        text_views(r2.responses@) == text_views(r.responses@).push((row.1.response_id@, Entity(w2.next_entity))),
{
    reveal(record_applied);
}

/// Replaying the event collected from a ToolUse recreates the tool use: the same ID, generation,
/// input, status, and sequence, with its Turn, tool, and Model mapped to their replayed
/// counterparts, and the Agent and Provider of that Model.
pub proof fn law_tool_use_round_trip(
    w: World,
    row: (Entity, crate::world::ToolUse),
    sid: SessionId,
    e: EventView,
    w2: World,
    r: ReplayState,
    f: World,
    r2: ReplayState,
)
    requires
        tool_use_event(w)(row) == RowEvent::Emit(sid, e),
        record_applied(w2, r, sid, e, f, r2),
        lookup(r.tool_uses@, row.1.id.0) is None,
    ensures
        turn_context(w, row.1.turn) matches Some(c) && c.0 == sid,
        f.tool_uses@.len() == w2.tool_uses@.len() + 1,
        forall|j: int| 0 <= j < w2.tool_uses@.len() ==> #[trigger] f.tool_uses@[j] == w2.tool_uses@[j],
        ({
            let v = f.tool_uses@.last();
            let model = replayed_model(w, w2, row.1.model);
            &&& v.0 == Entity(w2.next_entity)
            &&& v.1.id == row.1.id
            &&& v.1.turn == replayed_turn(w, r, row.1.turn)
            &&& v.1.agent == agent_entity(w2, model).unwrap()
            &&& v.1.tool == tool_entity(w2, get(w.tools@, row.1.tool).unwrap().tool_id.0).unwrap()
            &&& v.1.model == model
            &&& v.1.provider == provider_of(w2, model)
            &&& v.1.generation == row.1.generation
            &&& v.1.input@ == row.1.input@
            &&& v.1.status == row.1.status
            &&& v.1.sequence == row.1.sequence
        }),
        lookup(r2.tool_uses@, row.1.id.0) == Some(Entity(w2.next_entity)),
{
    reveal(record_applied);
    lemma_lookup_assign_new(r.tool_uses@, row.1.id.0, Entity(w2.next_entity));
}

/// Replaying the event collected from a ToolOutcome recreates the outcome: the same tool call ID,
/// generation, output, and sequence, with its ToolUse and Turn mapped to their replayed
/// counterparts.
pub proof fn law_tool_outcome_round_trip(
    w: World,
    row: (Entity, crate::world::ToolOutcome),
    sid: SessionId,
    e: EventView,
    w2: World,
    r: ReplayState,
    f: World,
    r2: ReplayState,
)
    requires
        tool_outcome_event(w)(row) == RowEvent::Emit(sid, e),
        record_applied(w2, r, sid, e, f, r2),
    ensures
        turn_context(w, row.1.turn) matches Some(c) && c.0 == sid,
        f.tool_outcomes@.len() == w2.tool_outcomes@.len() + 1,
        forall|j: int| 0 <= j < w2.tool_outcomes@.len() ==> #[trigger] f.tool_outcomes@[j] == w2.tool_outcomes@[j],
        ({
            let v = f.tool_outcomes@.last();
            &&& v.0 == Entity(w2.next_entity)
            &&& v.1.tool_use == lookup(r.tool_uses@, get(w.tool_uses@, row.1.tool_use).unwrap().id.0).unwrap()
            &&& v.1.tool_call_id == row.1.tool_call_id
            &&& v.1.turn == replayed_turn(w, r, row.1.turn)
            &&& v.1.generation == row.1.generation
            &&& v.1.output@ == row.1.output@
            &&& v.1.sequence == row.1.sequence
        }),
{
    reveal(record_applied);
}

/// Replaying the event collected from a cancelled Turn records the cancellation of the replayed
/// Turn, in the same generation and with the same sequence.
pub proof fn law_cancellation_round_trip(
    w: World,
    row: (Entity, crate::world::TurnCancelled),
    sid: SessionId,
    e: EventView,
    w2: World,
    r: ReplayState,
    f: World,
    r2: ReplayState,
)
    requires
        cancelled_event(w)(row) == RowEvent::Emit(sid, e),
        record_applied(w2, r, sid, e, f, r2),
    ensures
        turn_context(w, row.1.turn) matches Some(c) && c.0 == sid,
        f.turns_cancelled@ == w2.turns_cancelled@.push(
            (
                Entity(w2.next_entity),
                crate::world::TurnCancelled {
                    turn: replayed_turn(w, r, row.1.turn),
                    generation: row.1.generation,
                    sequence: row.1.sequence,
                },
            ),
        ),
{
    reveal(record_applied);
}

/// Replaying the event collected from an interrupted Turn records the interruption of the
/// replayed Turn, in the same generation and with the same sequence.
pub proof fn law_interruption_round_trip(
    w: World,
    row: (Entity, crate::world::TurnInterrupted),
    sid: SessionId,
    e: EventView,
    w2: World,
    r: ReplayState,
    f: World,
    r2: ReplayState,
)
    requires
        interrupted_event(w)(row) == RowEvent::Emit(sid, e),
        record_applied(w2, r, sid, e, f, r2),
    ensures
        turn_context(w, row.1.turn) matches Some(c) && c.0 == sid,
        f.turns_interrupted@ == w2.turns_interrupted@.push(
            (
                Entity(w2.next_entity),
                crate::world::TurnInterrupted {
                    turn: replayed_turn(w, r, row.1.turn),
                    generation: row.1.generation,
                    sequence: row.1.sequence,
                },
            ),
        ),
{
    reveal(record_applied);
}

/// Replaying the event collected from a failed Turn records the failure of the replayed Turn,
/// in the same generation, with the same kind and message of failure and the same sequence.
pub proof fn law_failure_round_trip(
    w: World,
    row: (Entity, crate::world::TurnFailed),
    sid: SessionId,
    e: EventView,
    w2: World,
    r: ReplayState,
    f: World,
    r2: ReplayState,
)
    requires
        failed_event(w)(row) == RowEvent::Emit(sid, e),
        record_applied(w2, r, sid, e, f, r2),
    ensures
        turn_context(w, row.1.turn) matches Some(c) && c.0 == sid,
        f.turns_failed@.len() == w2.turns_failed@.len() + 1,
        forall|j: int| 0 <= j < w2.turns_failed@.len() ==> #[trigger] f.turns_failed@[j] == w2.turns_failed@[j],
        ({
            let v = f.turns_failed@.last();
            &&& v.0 == Entity(w2.next_entity)
            &&& v.1.turn == replayed_turn(w, r, row.1.turn)
            &&& v.1.generation == row.1.generation
            &&& failure_view(v.1.failure) == failure_view(row.1.failure)
            &&& v.1.sequence == row.1.sequence
        }),
{
    reveal(record_applied);
    let v = f.turns_failed@.last();
    let (kind, message) = failure_view(row.1.failure);
    assert(failure_matches(v.1.failure, kind, message));
}

/// Replaying the event collected from a ModelChange records the change for the replayed Turn to
/// the replayed Model, with the same sequence.
pub proof fn law_model_change_round_trip(
    w: World,
    row: (Entity, crate::world::ModelChange),
    sid: SessionId,
    e: EventView,
    w2: World,
    r: ReplayState,
    f: World,
    r2: ReplayState,
)
    requires
        model_change_event(w)(row) == RowEvent::Emit(sid, e),
        record_applied(w2, r, sid, e, f, r2),
    ensures
        turn_context(w, row.1.turn) matches Some(c) && c.0 == sid,
        f.model_changes@ == w2.model_changes@.push(
            (
                Entity(w2.next_entity),
                crate::world::ModelChange {
                    turn: replayed_turn(w, r, row.1.turn),
                    model: replayed_model(w, w2, row.1.model),
                    sequence: row.1.sequence,
                },
            ),
        ),
{
    reveal(record_applied);
}

/// Replaying the event collected from a compaction recreates it for the replayed Turn, with the
/// same summary and sequence.
pub proof fn law_compaction_round_trip(
    w: World,
    row: (Entity, crate::world::Compaction),
    sid: SessionId,
    e: EventView,
    w2: World,
    r: ReplayState,
    f: World,
    r2: ReplayState,
)
    requires
        compaction_event(w)(row) == RowEvent::Emit(sid, e),
        record_applied(w2, r, sid, e, f, r2),
    ensures
        turn_context(w, row.1.turn) matches Some(c) && c.0 == sid,
        f.compactions@.len() == w2.compactions@.len() + 1,
        forall|j: int| 0 <= j < w2.compactions@.len() ==> #[trigger] f.compactions@[j] == w2.compactions@[j],
        f.compactions@.last().0 == Entity(w2.next_entity),
        f.compactions@.last().1.turn == replayed_turn(w, r, row.1.turn),
        f.compactions@.last().1.summary@ == row.1.summary@,
        f.compactions@.last().1.sequence == row.1.sequence,
{
    reveal(record_applied);
}

/// Replaying the event collected from a recovery note recreates it for the replayed Turn, with
/// the same text and sequence.
pub proof fn law_recovery_round_trip(
    w: World,
    row: (Entity, crate::world::Recovery),
    sid: SessionId,
    e: EventView,
    w2: World,
    r: ReplayState,
    f: World,
    r2: ReplayState,
)
    requires
        recovery_event(w)(row) == RowEvent::Emit(sid, e),
        record_applied(w2, r, sid, e, f, r2),
    ensures
        turn_context(w, row.1.turn) matches Some(c) && c.0 == sid,
        f.recoveries@.len() == w2.recoveries@.len() + 1,
        forall|j: int| 0 <= j < w2.recoveries@.len() ==> #[trigger] f.recoveries@[j] == w2.recoveries@[j],
        f.recoveries@.last().0 == Entity(w2.next_entity),
        f.recoveries@.last().1.turn == replayed_turn(w, r, row.1.turn),
        f.recoveries@.last().1.text@ == row.1.text@,
        f.recoveries@.last().1.sequence == row.1.sequence,
{
    reveal(record_applied);
}

/// The world tables that the persisted events are collected from are the same in `w` and `v`;
/// of the context cameras, only the persistent ones count.
pub open spec fn same_durable_tables(w: World, v: World) -> bool {
    &&& w.providers@ == v.providers@
    &&& w.models@ == v.models@
    &&& w.tools@ == v.tools@
    &&& w.sessions@ == v.sessions@
    &&& durable_cameras(w.context_cameras@) == durable_cameras(v.context_cameras@)
    &&& w.turns@ == v.turns@
    &&& w.user_messages@ == v.user_messages@
    &&& w.assistant_messages@ == v.assistant_messages@
    &&& w.model_requests@ == v.model_requests@
    &&& w.model_responses@ == v.model_responses@
    &&& w.tool_uses@ == v.tool_uses@
    &&& w.tool_outcomes@ == v.tool_outcomes@
    &&& w.turns_completed@ == v.turns_completed@
    &&& w.turns_cancelled@ == v.turns_cancelled@
    &&& w.turns_interrupted@ == v.turns_interrupted@
    &&& w.turns_failed@ == v.turns_failed@
    &&& w.branch_selections@ == v.branch_selections@
    &&& w.model_changes@ == v.model_changes@
    &&& w.compactions@ == v.compactions@
    &&& w.recoveries@ == v.recoveries@
}

/// Runtime state never reaches the logs: two worlds that differ only in their executors, task
/// handles, Agents and tool exposures, transcript cameras, context cameras that are not
/// persistent, persistence failures, resources, and entity counter collect the same events, fail
/// to collect alike, and report the same first failure.
pub proof fn law_runtime_state_is_not_persisted(w: World, v: World)
    requires
        same_durable_tables(w, v),
    ensures
        raw_events(w) == raw_events(v),
        collection_fails(w) == collection_fails(v),
        collection_fails(w) ==> raw_message(w) == raw_message(v),
{
    assert(crate::collect::session_event(w) =~= crate::collect::session_event(v));
    assert(camera_event(w) =~= camera_event(v));
    assert(turn_event(w) =~= turn_event(v));
    assert(user_message_event(w) =~= user_message_event(v));
    assert(assistant_message_event(w) =~= assistant_message_event(v));
    assert(request_event(w) =~= request_event(v));
    assert(response_event(w) =~= response_event(v));
    assert(tool_use_event(w) =~= tool_use_event(v));
    assert(tool_outcome_event(w) =~= tool_outcome_event(v));
    assert(completed_event(w) =~= completed_event(v));
    assert(cancelled_event(w) =~= cancelled_event(v));
    assert(interrupted_event(w) =~= interrupted_event(v));
    assert(failed_event(w) =~= failed_event(v));
    assert(branch_event(w) =~= branch_event(v));
    assert(model_change_event(w) =~= model_change_event(v));
    assert(compaction_event(w) =~= compaction_event(v));
    assert(recovery_event(w) =~= recovery_event(v));
    assert(crate::collect::session_message(w) =~= crate::collect::session_message(v));
    assert(crate::collect::camera_message(w) =~= crate::collect::camera_message(v));
    assert(crate::collect::turn_message(w) =~= crate::collect::turn_message(v));
    assert(crate::collect::user_message_message(w) =~= crate::collect::user_message_message(v));
    assert(crate::collect::assistant_message_message(w) =~= crate::collect::assistant_message_message(v));
    assert(crate::collect::request_message(w) =~= crate::collect::request_message(v));
    assert(crate::collect::response_message(w) =~= crate::collect::response_message(v));
    assert(crate::collect::tool_use_message(w) =~= crate::collect::tool_use_message(v));
    assert(crate::collect::tool_outcome_message(w) =~= crate::collect::tool_outcome_message(v));
    assert(crate::collect::completed_message(w) =~= crate::collect::completed_message(v));
    assert(crate::collect::cancelled_message(w) =~= crate::collect::cancelled_message(v));
    assert(crate::collect::interrupted_message(w) =~= crate::collect::interrupted_message(v));
    assert(crate::collect::failed_message(w) =~= crate::collect::failed_message(v));
    assert(crate::collect::branch_message(w) =~= crate::collect::branch_message(v));
    assert(crate::collect::model_change_message(w) =~= crate::collect::model_change_message(v));
    assert(crate::collect::compaction_message(w) =~= crate::collect::compaction_message(v));
    assert(crate::collect::recovery_message(w) =~= crate::collect::recovery_message(v));
    let p = |r: (Entity, ContextCamera)| r.1.persistent;
    assert forall|r: (Entity, ContextCamera)| !p(r) implies (#[trigger] camera_event(w)(r)) is Skip by {}
    assert forall|r: (Entity, ContextCamera)| !p(r) implies (#[trigger] camera_event(v)(r)) is Skip by {}
    lemma_skipped_rows(w.context_cameras@, camera_event(w), crate::collect::camera_message(w), p);
    lemma_skipped_rows(v.context_cameras@, camera_event(v), crate::collect::camera_message(v), p);
    reveal(collection_fails);
    reveal(raw_events);
}

/// The persistent context camera rows of a camera table, in order.
pub open spec fn durable_cameras(rows: Seq<(Entity, ContextCamera)>) -> Seq<(Entity, ContextCamera)> {
    rows.filter(|r: (Entity, ContextCamera)| r.1.persistent)
}

proof fn lemma_fails_last<T>(rows: Seq<T>, f: spec_fn(T) -> RowEvent)
    requires
        rows.len() > 0,
    ensures
        fails(rows, f) <==> (fails(rows.drop_last(), f) || f(rows.last()) is Fail),
{
    let d = rows.drop_last();
    if fails(rows, f) {
        let i = choose|i: int| 0 <= i < rows.len() && #[trigger] f(rows[i]) is Fail;
        if i < rows.len() - 1 {
            assert(d[i] == rows[i]);
        }
    }
    if fails(d, f) {
        let i = choose|i: int| 0 <= i < d.len() && #[trigger] f(d[i]) is Fail;
        assert(d[i] == rows[i]);
    }
    if f(rows.last()) is Fail {
        assert(f(rows[rows.len() - 1]) is Fail);
    }
}

/// Dropping rows that contribute nothing leaves what a table emits, whether it fails, and the
/// message of its first failure unchanged.
proof fn lemma_skipped_rows<T>(rows: Seq<T>, f: spec_fn(T) -> RowEvent, msg: spec_fn(T) -> Seq<char>, p: spec_fn(T) -> bool)
    requires
        forall|r: T| !p(r) ==> (#[trigger] f(r)) is Skip,
    ensures
        emits(rows, f) == emits(rows.filter(p), f),
        fails(rows, f) == fails(rows.filter(p), f),
        fails(rows, f) ==> first_failure(rows, f, msg) == first_failure(rows.filter(p), f, msg),
    decreases rows.len(),
{
    if rows.len() > 0 {
        let d = rows.drop_last();
        let q = rows.filter(p);
        reveal_with_fuel(Seq::filter, 1);
        lemma_skipped_rows(d, f, msg, p);
        lemma_fails_last(rows, f);
        if p(rows.last()) {
            assert(q == d.filter(p).push(rows.last()));
            assert(q.drop_last() =~= d.filter(p));
            assert(q.last() == rows.last());
            lemma_fails_last(q, f);
        } else {
            assert(q == d.filter(p));
        }
    }
}

/// A reload writes nothing: when the persisted values are the collected events themselves, as
/// after a load, no collected event counts as changed. The collected keys are distinct, as
/// collection guarantees.
pub proof fn law_reload_writes_nothing(all: Seq<(Seq<char>, SessionId, EventView)>)
    requires
        forall|i: int, j: int| 0 <= i < j < all.len() ==> (#[trigger] all[i]).0 != (#[trigger] all[j]).0,
    ensures
        changed_of(all, baseline_of(all)).len() == 0,
{
    let lv = baseline_of(all);
    assert forall|i: int| 0 <= i < all.len() implies value_of(lv, (#[trigger] all[i]).0) == Some(all[i].2) by {
        assert forall|j: int| 0 <= j < i implies (#[trigger] lv[j]).0 != all[i].0 by {
            assert(lv[j].0 == all[j].0);
        }
        lemma_value_at_first(lv, all[i].0, i);
    }
    lemma_nothing_changed(all, lv);
}

proof fn lemma_keyed_distinct(raw: Seq<(SessionId, EventView)>)
    requires
        crate::collect::keyed(raw) is Some,
    ensures
        forall|i: int, j: int|
            0 <= i < j < crate::collect::keyed(raw).unwrap().len() ==> (#[trigger] crate::collect::keyed(raw).unwrap()[i]).0
                != (#[trigger] crate::collect::keyed(raw).unwrap()[j]).0,
    decreases raw.len(),
{
    if raw.len() > 0 {
        let d = raw.drop_last();
        lemma_keyed_distinct(d);
        let m = crate::collect::keyed(d).unwrap();
        let k = crate::collect::full_key(raw.last().0, raw.last().1);
        if exists|j: int| 0 <= j < m.len() && m[j].0 == k {
            let j0 = choose|j: int| 0 <= j < m.len() && m[j].0 == k;
            assert forall|i: int| 0 <= i < j0 implies (#[trigger] m[i]).0 != k by {}
            let jc = crate::collect::key_index(m, k).unwrap();
            assert(m[jc].0 == k);
            let m2 = crate::collect::keyed(raw).unwrap();
            assert(m2 == m.update(jc, (k, raw.last().0, raw.last().1)));
            assert forall|i: int| 0 <= i < m2.len() implies (#[trigger] m2[i]).0 == m[i].0 by {}
        } else {
            let m2 = crate::collect::keyed(raw).unwrap();
            assert(m2 == m.push((k, raw.last().0, raw.last().1)));
        }
    }
}

/// A load is followed by no write: once the logs have been replayed into a world and persistence
/// is not blocked, the next persistence pass finds every collected event already persisted with
/// its current value, so it appends nothing to any log.
pub proof fn law_loaded_world_writes_nothing(
    w: World,
    s0: crate::log::PersistenceState,
    files: Seq<crate::replay::LoadedFile>,
    f: World,
    s1: crate::log::PersistenceState,
)
    requires
        crate::hydrate::hydrated(w, s0, files, f, s1),
        files.len() > 0,
        !s1.blocked,
    ensures
        crate::log::collect_events_ok(f),
        changed_of(crate::collect::keyed(raw_events(f)).unwrap(), crate::log::last_views(s1.last_values@)).len() == 0,
{
    let all = crate::collect::keyed(raw_events(f)).unwrap();
    lemma_keyed_distinct(raw_events(f));
    law_reload_writes_nothing(all);
}

/// Recovery is idempotent: in a world with no Pending or Running work it interrupts no Turn and
/// cancels nothing.
pub proof fn law_recovery_is_idempotent(w: World, l: Seq<Entity>)
    requires
        forall|j: int| 0 <= j < w.model_requests@.len() ==> !crate::recovery::is_active((#[trigger] w.model_requests@[j]).1.status),
        forall|j: int| 0 <= j < w.tool_uses@.len() ==> !crate::recovery::is_active((#[trigger] w.tool_uses@[j]).1.status),
        crate::recovery::recovered_turns(w, l),
    ensures
        l.len() == 0,
        crate::recovery::cancelled_requests(w.model_requests@) == w.model_requests@,
        crate::recovery::cancelled_tool_uses(w.tool_uses@) == w.tool_uses@,
{
    if l.len() > 0 {
        assert(l.contains(l[0]));
        assert(crate::recovery::orphan_turn(w, l[0]));
    }
    assert(crate::recovery::cancelled_requests(w.model_requests@) =~= w.model_requests@);
    assert(crate::recovery::cancelled_tool_uses(w.tool_uses@) =~= w.tool_uses@);
}

/// Recovering orphaned work a second time, with nothing changed in between, changes nothing: the
/// first pass leaves no Pending or Running work, so the second interrupts no Turn, spawns
/// nothing, writes no note, and advances no sequence number.
pub proof fn law_recovery_twice_changes_nothing(w: World, f: World, l: Seq<Entity>, g: World, l2: Seq<Entity>)
    requires
        crate::recovery::orphans_recovered(w, f, l),
        crate::recovery::orphans_recovered(f, g, l2),
    ensures
        l2.len() == 0,
        g.model_requests@ == f.model_requests@,
        g.tool_uses@ == f.tool_uses@,
        g.turns@ == f.turns@,
        g.turns_interrupted@ == f.turns_interrupted@,
        g.recoveries@ == f.recoveries@,
        g.next_entity == f.next_entity,
        g.ids == f.ids,
{
    assert forall|j: int| 0 <= j < f.model_requests@.len() implies !crate::recovery::is_active(
        (#[trigger] f.model_requests@[j]).1.status,
    ) by {}
    assert forall|j: int| 0 <= j < f.tool_uses@.len() implies !crate::recovery::is_active(
        (#[trigger] f.tool_uses@[j]).1.status,
    ) by {}
    law_recovery_is_idempotent(f, l2);
    assert(g.turns@ =~= f.turns@);
    assert(g.turns_interrupted@ =~= f.turns_interrupted@);
    assert(g.recoveries@ =~= f.recoveries@);
}

proof fn lemma_scan_last(s: Seq<char>, i: int, acc: nat)
    requires
        0 <= i < s.len(),
    ensures
        scan_digits(s, i, acc) == match scan_digits(s.drop_last(), i, acc) {
            Ok(v) => if !('0' <= s.last() && s.last() <= '9') {
                Err(SessionNameError::InvalidDigit)
            } else if v * 10 + digit_value(s.last()) > u64::MAX {
                Err(SessionNameError::TooLarge)
            } else {
                Ok(v * 10 + digit_value(s.last()))
            },
            Err(e) => Err(e),
        },
    decreases s.len() - i,
{
    if i < s.len() - 1 {
        assert(s.drop_last()[i] == s[i]);
        if '0' <= s[i] && s[i] <= '9' && acc * 10 + digit_value(s[i]) <= u64::MAX {
            lemma_scan_last(s, i + 1, acc * 10 + digit_value(s[i]));
        }
    } else {
        assert(scan_digits(s.drop_last(), i, acc) == Ok::<nat, SessionNameError>(acc));
        assert(s.last() == s[i]);
        if '0' <= s[i] && s[i] <= '9' && acc * 10 + digit_value(s[i]) <= u64::MAX {
            assert(scan_digits(s, i + 1, acc * 10 + digit_value(s[i])) == Ok::<nat, SessionNameError>(acc * 10 + digit_value(s[i])));
        }
    }
}

proof fn lemma_scan_decimal(n: nat)
    requires
        n <= u64::MAX,
    ensures
        scan_digits(decimal(n), 0, 0) == Ok::<nat, SessionNameError>(n),
    decreases n,
{
    let d = decimal(n);
    if n < 10 {
        assert(d.len() == 1);
        assert(d.drop_last().len() == 0);
        lemma_scan_last(d, 0, 0);
    } else {
        assert(d.drop_last() =~= decimal(n / 10));
        lemma_scan_decimal(n / 10);
        assert(decimal(n / 10).len() >= 1) by {
            lemma_decimal_len(n / 10);
        }
        lemma_scan_last(d, 0, 0);
        assert(d.last() == digit_char(n % 10));
        assert((n / 10) * 10 + n % 10 == n) by (nonlinear_arith);
    }
}

/// A log file's stem gives back the Session it was written for: the stem of Session `s`'s log,
/// "session-" and the SessionId in decimal, reads as `s`.
pub proof fn law_log_name_reads_back(s: SessionId)
    ensures
        session_of_stem("session-"@ + decimal(s.0 as nat)) == Ok::<SessionId, SessionNameError>(s),
{
    reveal_strlit("session-");
    let stem = "session-"@ + decimal(s.0 as nat);
    assert(stem.take(8) =~= "session-"@);
    assert(stem.skip(8) =~= decimal(s.0 as nat));
    lemma_decimal_len(s.0 as nat);
    let d = decimal(s.0 as nat);
    if s.0 < 10 {
        assert(d[0] == digit_char(s.0 as nat));
    } else {
        lemma_decimal_first(s.0 as nat);
    }
    assert(d[0] != '+');
    lemma_scan_decimal(s.0 as nat);
}

proof fn lemma_decimal_first(n: nat)
    ensures
        decimal(n).len() >= 1,
        '0' <= decimal(n)[0] <= '9',
    decreases n,
{
    lemma_decimal_len(n);
    if n >= 10 {
        lemma_decimal_first(n / 10);
        lemma_decimal_len(n / 10);
        assert(decimal(n)[0] == decimal(n / 10)[0]);
    }
}

} // verus!
