//! Startup recovery: the active Session and Agent, the persistent context camera, and the
//! cancellation of work that a restart orphaned.
use vstd::prelude::*;

use crate::fake::{first_index, lemma_first_index, fake_plan, reconcile_fake_capabilities};
use crate::ids::{Entity, HarnessIds, Sequence, SessionId};
use crate::log::{record_failure, PersistenceState};
use crate::world::PersistenceFailure;
use crate::world::{
    find, get, has_row, lemma_find, lemma_find_same_keys, position, sync_persistent_context_camera,
    synced_cameras, ContextCamera, ModelRequest, Recovery, Session, ToolUse, Turn, TurnInterrupted,
    WorkStatus, World,
};

verus! {

/// Work in this status was orphaned by a restart.
pub open spec fn is_active(s: WorkStatus) -> bool {
    s == WorkStatus::Pending || s == WorkStatus::Running
}

/// The requests with every Pending or Running one Cancelled.
pub open spec fn cancelled_requests(s: Seq<(Entity, ModelRequest)>) -> Seq<(Entity, ModelRequest)> {
    Seq::new(
        s.len(),
        |i: int|
            if is_active(s[i].1.status) {
                (s[i].0, ModelRequest { status: WorkStatus::Cancelled, ..s[i].1 })
            } else {
                s[i]
            },
    )
}

/// The ToolUses with every Pending or Running one Cancelled.
pub open spec fn cancelled_tool_uses(s: Seq<(Entity, ToolUse)>) -> Seq<(Entity, ToolUse)> {
    Seq::new(
        s.len(),
        |i: int|
            if is_active(s[i].1.status) {
                (s[i].0, ToolUse { status: WorkStatus::Cancelled, ..s[i].1 })
            } else {
                s[i]
            },
    )
}

/// Turn `t` has Pending or Running work.
pub open spec fn orphan_turn(w: World, t: Entity) -> bool {
    ||| exists|i: int|
        0 <= i < w.model_requests@.len() && is_active(w.model_requests@[i].1.status)
            && #[trigger] w.model_requests@[i].1.turn == t
    ||| exists|i: int|
        0 <= i < w.tool_uses@.len() && is_active(w.tool_uses@[i].1.status) && #[trigger] w.tool_uses@[i].1.turn
            == t
}

/// The entities are in strictly increasing order of their bits.
pub open spec fn strictly_increasing(s: Seq<Entity>) -> bool {
    forall|i: int, j: int| 0 <= i < j < s.len() ==> (#[trigger] s[i]).0 < (#[trigger] s[j]).0
}

/// The recovered Turns: the orphan Turns that exist, in increasing entity order.
pub open spec fn recovered_turns(w: World, l: Seq<Entity>) -> bool {
    &&& strictly_increasing(l)
    &&& forall|t: Entity| #[trigger] l.contains(t) <==> orphan_turn(w, t) && has_row(w.turns@, t)
}

/// The Turn rows with the generation of each recovered Turn's row advanced by one.
pub open spec fn advanced_turns(turns: Seq<(Entity, Turn)>, l: Seq<Entity>) -> Seq<(Entity, Turn)> {
    Seq::new(
        turns.len(),
        |j: int|
            if l.contains(turns[j].0) && find(turns, turns[j].0) == Some(j) {
                (turns[j].0, Turn { generation: (turns[j].1.generation + 1) as u64, ..turns[j].1 })
            } else {
                turns[j]
            },
    )
}

/// The generation a recovered Turn had.
pub open spec fn generation_of(w: World, t: Entity) -> u64 {
    get(w.turns@, t).unwrap().generation
}

/// The interruption outcomes of the recovered Turns, two fresh entities and sequences apiece.
pub open spec fn interruptions(w: World, l: Seq<Entity>) -> Seq<(Entity, TurnInterrupted)> {
    Seq::new(
        l.len(),
        |k: int|
            (Entity((w.next_entity + 2 * k) as u64), TurnInterrupted {
                turn: l[k],
                generation: (generation_of(w, l[k]) + 1) as u64,
                sequence: Sequence((w.ids.unwrap().next_sequence + 2 * k) as u64),
            }),
    )
}

/// `rows` are `w`'s Recovery rows followed by one per recovered Turn, each on the entity after
/// its interruption, with the sequence after its interruption's, and with the recovery text.
pub open spec fn recovery_rows(w: World, l: Seq<Entity>, rows: Seq<(Entity, Recovery)>) -> bool {
    &&& rows.len() == w.recoveries@.len() + l.len()
    &&& forall|j: int| 0 <= j < w.recoveries@.len() ==> #[trigger] rows[j] == w.recoveries@[j]
    &&& forall|k: int|
        0 <= k < l.len() ==> {
            let r = #[trigger] rows[w.recoveries@.len() + k];
            &&& r.0 == Entity((w.next_entity + 2 * k + 1) as u64)
            &&& r.1.turn == l[k]
            &&& r.1.text@ == "Recovered interrupted work after restart."@
            &&& r.1.sequence == Sequence((w.ids.unwrap().next_sequence + 2 * k + 1) as u64)
        }
}

/// The world can absorb one recovery per Turn without overflow.
pub open spec fn can_recover_work(w: World) -> bool {
    &&& w.ids is Some
    &&& w.ids.unwrap().next_sequence + 2 * (w.model_requests@.len() + w.tool_uses@.len()) <= u64::MAX
    &&& w.next_entity + 2 * (w.model_requests@.len() + w.tool_uses@.len()) <= u64::MAX
    &&& forall|j: int|
        0 <= j < w.turns@.len() && orphan_turn(w, #[trigger] w.turns@[j].0) ==> w.turns@[j].1.generation
            < u64::MAX
}

/// Inserts `e` into the strictly increasing list `v`.
fn insert_sorted(v: &mut Vec<Entity>, e: Entity)
    requires
        strictly_increasing(old(v)@),
    ensures
        strictly_increasing(final(v)@),
        forall|x: Entity| #[trigger] final(v)@.contains(x) <==> old(v)@.contains(x) || x == e,
        final(v)@.len() <= old(v)@.len() + 1,
{
    let ghost start = v@;
    let mut i: usize = 0;
    while i < v.len() && v[i].0 < e.0
        invariant
            v@ == start,
            i <= v@.len(),
            forall|j: int| 0 <= j < i ==> (#[trigger] v@[j]).0 < e.0,
        decreases v.len() - i,
    {
        i = i + 1;
    }
    if i < v.len() && v[i].0 == e.0 {
        proof {
            assert forall|x: Entity| #[trigger] v@.contains(x) <==> start.contains(x) || x == e by {
                if x == e {
                    assert(v@[i as int] == e);
                }
            }
        }
        return;
    }
    v.insert(i, e);
    proof {
        assert forall|a: int, b: int| 0 <= a < b < v@.len() implies (#[trigger] v@[a]).0 < (#[trigger] v@[b]).0 by {
            if b < i {
            } else if a < i && b == i {
            } else if a < i && b > i {
                assert(v@[b] == start[b - 1]);
                assert(start[b - 1].0 >= e.0) by {
                    if start[b - 1].0 < e.0 {
                        assert(start[i as int].0 <= start[b - 1].0);
                    }
                }
            } else if a == i {
                assert(v@[b] == start[b - 1]);
                if b - 1 > i {
                    assert(start[i as int].0 < start[b - 1].0);
                }
            } else {
                assert(v@[a] == start[a - 1]);
                assert(v@[b] == start[b - 1]);
            }
        }
        assert forall|x: Entity| #[trigger] v@.contains(x) <==> start.contains(x) || x == e by {
            if v@.contains(x) {
                let j = choose|j: int| 0 <= j < v@.len() && v@[j] == x;
                if j < i {
                    assert(start[j] == x);
                } else if j > i {
                    assert(start[j - 1] == x);
                }
            }
            if start.contains(x) {
                let j = choose|j: int| 0 <= j < start.len() && start[j] == x;
                if j < i {
                    assert(v@[j] == x);
                } else {
                    assert(v@[j + 1] == x);
                }
            }
            if x == e {
                assert(v@[i as int] == e);
            }
        }
    }
}

/// What [`recover_orphaned_work`] makes of `w`: the world `f`, having interrupted the Turns `l`.
pub open spec fn orphans_recovered(w: World, f: World, l: Seq<Entity>) -> bool {
    let ids = w.ids.unwrap();
    &&& recovered_turns(w, l)
    &&& f.model_requests@ == cancelled_requests(w.model_requests@)
    &&& f.tool_uses@ == cancelled_tool_uses(w.tool_uses@)
    &&& f.turns@ == advanced_turns(w.turns@, l)
    &&& f.turns_interrupted@ == w.turns_interrupted@ + interruptions(w, l)
    &&& recovery_rows(w, l, f.recoveries@)
    &&& f.next_entity == w.next_entity + 2 * l.len()
    &&& f.ids == Some(HarnessIds { next_sequence: (ids.next_sequence + 2 * l.len()) as u64, ..ids })
    &&& f.same_capabilities(w)
    &&& f.sessions@ == w.sessions@
    &&& f.user_messages@ == w.user_messages@
    &&& f.assistant_messages@ == w.assistant_messages@
    &&& f.branch_selections@ == w.branch_selections@
    &&& f.model_changes@ == w.model_changes@
    &&& f.compactions@ == w.compactions@
    &&& f.persistence_failures@ == w.persistence_failures@
    &&& f.model_responses@ == w.model_responses@
    &&& f.tool_outcomes@ == w.tool_outcomes@
    &&& f.model_tasks@ == w.model_tasks@
    &&& f.tool_tasks@ == w.tool_tasks@
    &&& f.turns_completed@ == w.turns_completed@
    &&& f.turns_cancelled@ == w.turns_cancelled@
    &&& f.turns_failed@ == w.turns_failed@
    &&& f.same_cameras(w)
    &&& f.active_session == w.active_session
    &&& f.active_agent == w.active_agent
    &&& f.harness_ready == w.harness_ready
}

/// Cancels every Pending or Running ModelRequest and ToolUse, and interrupts each Turn that had
/// such work and exists, in increasing entity order: its generation advances by one, and it gets
/// a TurnInterrupted outcome in the new generation and then a Recovery note "Recovered
/// interrupted work after restart.", each on a fresh entity with the next sequence number.
/// Returns the interrupted Turns.
pub fn recover_orphaned_work(world: &mut World) -> (l: Vec<Entity>)
    requires
        can_recover_work(*old(world)),
    ensures
        orphans_recovered(*old(world), *final(world), l@),
{
    let ghost w0 = *world;
    let mut cands: Vec<Entity> = Vec::new();
    let mut i: usize = 0;
    while i < world.model_requests.len()
        invariant
            world.model_requests@.len() == w0.model_requests@.len(),
            i <= w0.model_requests@.len(),
            forall|j: int| 0 <= j < i ==> #[trigger] world.model_requests@[j] == cancelled_requests(w0.model_requests@)[j],
            forall|j: int| i <= j < w0.model_requests@.len() ==> #[trigger] world.model_requests@[j] == w0.model_requests@[j],
            strictly_increasing(cands@),
            cands@.len() <= i,
            forall|x: Entity| #[trigger] cands@.contains(x) <==> exists|j: int|
                0 <= j < i && is_active(w0.model_requests@[j].1.status) && #[trigger] w0.model_requests@[j].1.turn == x,
            *world == (World { model_requests: world.model_requests, ..w0 }),
        decreases w0.model_requests.len() - i,
    {
        let (e, r) = world.model_requests[i];
        let ghost c0 = cands@;
        if r.status == WorkStatus::Pending || r.status == WorkStatus::Running {
            world.model_requests.set(i, (e, ModelRequest { status: WorkStatus::Cancelled, ..r }));
            insert_sorted(&mut cands, r.turn);
        }
        proof {
            assert forall|x: Entity| #[trigger] cands@.contains(x) <==> exists|j: int|
                0 <= j < i + 1 && is_active(w0.model_requests@[j].1.status) && #[trigger] w0.model_requests@[j].1.turn == x by {
                if c0.contains(x) {
                    let j = choose|j: int| 0 <= j < i && is_active(w0.model_requests@[j].1.status) && #[trigger] w0.model_requests@[j].1.turn == x;
                    assert(0 <= j < i + 1);
                }
                if exists|j: int| 0 <= j < i + 1 && is_active(w0.model_requests@[j].1.status) && #[trigger] w0.model_requests@[j].1.turn == x {
                    let j = choose|j: int| 0 <= j < i + 1 && is_active(w0.model_requests@[j].1.status) && #[trigger] w0.model_requests@[j].1.turn == x;
                    if j < i {
                        assert(c0.contains(x));
                    }
                }
            }
        }
        i = i + 1;
    }
    proof {
        assert(world.model_requests@ =~= cancelled_requests(w0.model_requests@));
    }
    let ghost na = cands@.len();
    let mut i: usize = 0;
    while i < world.tool_uses.len()
        invariant
            world.tool_uses@.len() == w0.tool_uses@.len(),
            world.model_requests@ == cancelled_requests(w0.model_requests@),
            i <= w0.tool_uses@.len(),
            forall|j: int| 0 <= j < i ==> #[trigger] world.tool_uses@[j] == cancelled_tool_uses(w0.tool_uses@)[j],
            forall|j: int| i <= j < w0.tool_uses@.len() ==> #[trigger] world.tool_uses@[j] == w0.tool_uses@[j],
            strictly_increasing(cands@),
            cands@.len() <= w0.model_requests@.len() + i,
            forall|x: Entity| #[trigger] cands@.contains(x) <==> (exists|j: int|
                0 <= j < w0.model_requests@.len() && is_active(w0.model_requests@[j].1.status) && #[trigger] w0.model_requests@[j].1.turn == x)
                || (exists|j: int| 0 <= j < i && is_active(w0.tool_uses@[j].1.status) && #[trigger] w0.tool_uses@[j].1.turn == x),
            *world == (World { model_requests: world.model_requests, tool_uses: world.tool_uses, ..w0 }),
        decreases w0.tool_uses.len() - i,
    {
        let ghost c0 = cands@;
        let status = world.tool_uses[i].1.status;
        let turn = world.tool_uses[i].1.turn;
        if status == WorkStatus::Pending || status == WorkStatus::Running {
            crate::execution::set_tool_status(&mut world.tool_uses, i, WorkStatus::Cancelled);
            insert_sorted(&mut cands, turn);
        }
        proof {
            assert forall|x: Entity| #[trigger] cands@.contains(x) <==> (exists|j: int|
                0 <= j < w0.model_requests@.len() && is_active(w0.model_requests@[j].1.status) && #[trigger] w0.model_requests@[j].1.turn == x)
                || (exists|j: int| 0 <= j < i + 1 && is_active(w0.tool_uses@[j].1.status) && #[trigger] w0.tool_uses@[j].1.turn == x) by {
                if exists|j: int| 0 <= j < i + 1 && is_active(w0.tool_uses@[j].1.status) && #[trigger] w0.tool_uses@[j].1.turn == x {
                    let j = choose|j: int| 0 <= j < i + 1 && is_active(w0.tool_uses@[j].1.status) && #[trigger] w0.tool_uses@[j].1.turn == x;
                    if j < i {
                        assert(c0.contains(x));
                    }
                }
                if exists|j: int| 0 <= j < i && is_active(w0.tool_uses@[j].1.status) && #[trigger] w0.tool_uses@[j].1.turn == x {
                    let j = choose|j: int| 0 <= j < i && is_active(w0.tool_uses@[j].1.status) && #[trigger] w0.tool_uses@[j].1.turn == x;
                    assert(0 <= j < i + 1);
                }
            }
        }
        i = i + 1;
    }
    proof {
        assert(world.tool_uses@ =~= cancelled_tool_uses(w0.tool_uses@));
        assert forall|x: Entity| #[trigger] cands@.contains(x) <==> orphan_turn(w0, x) by {}
    }
    let ghost w1 = *world;
    let mut recovered: Vec<Entity> = Vec::new();
    let mut k: usize = 0;
    while k < cands.len()
        invariant
            w1.turns@ == w0.turns@,
            w1.next_entity == w0.next_entity,
            w1.ids == w0.ids,
            can_recover_work(w0),
            cands@.len() <= w0.model_requests@.len() + w0.tool_uses@.len(),
            strictly_increasing(cands@),
            forall|x: Entity| #[trigger] cands@.contains(x) <==> orphan_turn(w0, x),
            k <= cands@.len(),
            recovered@.len() <= k,
            strictly_increasing(recovered@),
            k < cands@.len() ==> forall|j: int| 0 <= j < recovered@.len() ==> (#[trigger] recovered@[j]).0 < cands@[k as int].0,
            forall|x: Entity| #[trigger] recovered@.contains(x) <==> cands@.take(k as int).contains(x) && has_row(w0.turns@, x),
            world.turns@ == advanced_turns(w0.turns@, recovered@),
            world.turns_interrupted@ == w0.turns_interrupted@ + interruptions(w0, recovered@),
            recovery_rows(w0, recovered@, world.recoveries@),
            world.next_entity == w0.next_entity + 2 * recovered@.len(),
            world.ids == Some(HarnessIds { next_sequence: (w0.ids.unwrap().next_sequence + 2 * recovered@.len()) as u64, ..w0.ids.unwrap() }),
            *world == (World {
                turns: world.turns,
                turns_interrupted: world.turns_interrupted,
                recoveries: world.recoveries,
                next_entity: world.next_entity,
                ids: world.ids,
                ..w1
            }),
        decreases cands.len() - k,
    {
        let t = cands[k];
        proof {
            assert(cands@.take(k + 1) =~= cands@.take(k as int).push(t));
            assert(!recovered@.contains(t)) by {
                if recovered@.contains(t) {
                    let j = choose|j: int| 0 <= j < recovered@.len() && recovered@[j] == t;
                    assert(recovered@[j].0 < cands@[k as int].0);
                }
            }
            assert(world.turns@.len() == w0.turns@.len());
            assert forall|j: int| 0 <= j < w0.turns@.len() implies world.turns@[j].0 == w0.turns@[j].0 by {}
            lemma_find_same_keys(w0.turns@, world.turns@, t);
        }
        match position(&world.turns, t) {
            Some(tk) => {
                proof {
                    lemma_find(w0.turns@, t);
                    assert(cands@[k as int] == t);
                    assert(cands@.contains(t));
                    assert(orphan_turn(w0, t));
                    assert(world.turns@[tk as int] == w0.turns@[tk as int]);
                }
                let ghost r0 = recovered@;
                let ghost ti0 = world.turns_interrupted@;
                let ghost rc0 = world.recoveries@;
                let turn = world.turns[tk].1;
                let generation = turn.generation + 1;
                world.turns.set(tk, (t, Turn { generation, ..turn }));
                let mut ids = world.ids.unwrap();
                let interruption = ids.sequence();
                let recovery = ids.sequence();
                world.ids = Some(ids);
                let e1 = world.spawn();
                world.turns_interrupted.push((e1, TurnInterrupted { turn: t, generation, sequence: interruption }));
                let e2 = world.spawn();
                world.recoveries.push((e2, Recovery {
                    turn: t,
                    text: String::from_str("Recovered interrupted work after restart."),
                    sequence: recovery,
                }));
                recovered.push(t);
                proof {
                    reveal_strlit("Recovered interrupted work after restart.");
                    assert(get(w0.turns@, t) == Some(turn));
                    assert(has_row(w0.turns@, t));
                    assert forall|x: Entity| #[trigger] recovered@.contains(x) <==> r0.contains(x) || x == t by {
                        if recovered@.contains(x) {
                            let j = choose|j: int| 0 <= j < recovered@.len() && recovered@[j] == x;
                            if j < r0.len() {
                                assert(r0[j] == x);
                            }
                        }
                        if r0.contains(x) {
                            let j = choose|j: int| 0 <= j < r0.len() && r0[j] == x;
                            assert(recovered@[j] == x);
                        }
                        if x == t {
                            assert(recovered@[r0.len() as int] == t);
                        }
                    }
                    assert(world.turns@ =~= advanced_turns(w0.turns@, recovered@)) by {
                        assert forall|j: int| 0 <= j < w0.turns@.len() implies #[trigger] world.turns@[j] == advanced_turns(w0.turns@, recovered@)[j] by {
                            if j != tk {
                                if w0.turns@[j].0 == t {
                                    lemma_find(w0.turns@, t);
                                }
                            }
                        }
                    }
                    assert(world.turns_interrupted@ =~= w0.turns_interrupted@ + interruptions(w0, recovered@)) by {
                        assert(interruptions(w0, recovered@) =~= interruptions(w0, r0).push(
                            (e1, TurnInterrupted { turn: t, generation, sequence: interruption }),
                        ));
                    }
                    assert forall|j: int| 0 <= j < w0.recoveries@.len() implies #[trigger] world.recoveries@[j] == w0.recoveries@[j] by {
                        assert(world.recoveries@[j] == rc0[j]);
                    }
                    assert forall|m: int| 0 <= m < recovered@.len() implies {
                        let r = #[trigger] world.recoveries@[w0.recoveries@.len() + m];
                        &&& r.0 == Entity((w0.next_entity + 2 * m + 1) as u64)
                        &&& r.1.turn == recovered@[m]
                        &&& r.1.text@ == "Recovered interrupted work after restart."@
                        &&& r.1.sequence == Sequence((w0.ids.unwrap().next_sequence + 2 * m + 1) as u64)
                    } by {
                        if m < r0.len() {
                            assert(world.recoveries@[w0.recoveries@.len() + m] == rc0[w0.recoveries@.len() + m]);
                            assert(recovered@[m] == r0[m]);
                        }
                    }
                }
            },
            None => {
                proof {
                    assert(!has_row(w0.turns@, t));
                }
            },
        }
        proof {
            let next = cands@.take(k + 1);
            let prev = cands@.take(k as int);
            assert(next[k as int] == t);
            assert(recovered@.contains(t) ==> has_row(w0.turns@, t));
            assert forall|x: Entity| #[trigger] recovered@.contains(x) <==> next.contains(x) && has_row(w0.turns@, x) by {
                if x == t {
                    assert(next.contains(t));
                }
                if next.contains(x) && x != t {
                    let j = choose|j: int| 0 <= j < next.len() && next[j] == x;
                    assert(next[k as int] == t);
                    assert(j < k);
                    assert(prev[j] == x);
                }
                if prev.contains(x) {
                    let j = choose|j: int| 0 <= j < prev.len() && prev[j] == x;
                    assert(next[j] == x);
                }
            }
            if k + 1 < cands@.len() {
                assert(cands@[k as int].0 < cands@[k + 1].0);
            }
        }
        k = k + 1;
    }
    proof {
        assert(cands@.take(cands@.len() as int) =~= cands@);
    }
    recovered
}

/// Row `i` holds the first Session of least SessionId.
pub open spec fn least_session(s: Seq<(Entity, Session)>, i: int) -> bool {
    &&& 0 <= i < s.len()
    &&& forall|j: int| 0 <= j < i ==> s[i].1.id.0 < (#[trigger] s[j]).1.id.0
    &&& forall|j: int| i < j < s.len() ==> s[i].1.id.0 <= (#[trigger] s[j]).1.id.0
}

/// Picks the Session of least SessionId, or spawns Session 1 with no head when there is none.
pub fn choose_session(world: &mut World) -> (e: Entity)
    requires
        old(world).next_entity < u64::MAX,
    ensures
        old(world).sessions@.len() > 0 ==> *final(world) == *old(world) && exists|i: int|
            least_session(old(world).sessions@, i) && e == old(world).sessions@[i].0,
        old(world).sessions@.len() == 0 ==> {
            &&& e == Entity(old(world).next_entity)
            &&& final(world).sessions@ == seq![(e, Session { id: SessionId(1), active_head: None })]
            &&& final(world).next_entity == old(world).next_entity + 1
            &&& *final(world) == (World { sessions: final(world).sessions, next_entity: final(world).next_entity, ..*old(world) })
        },
{
    if world.sessions.len() == 0 {
        let e = world.spawn();
        world.sessions.push((e, Session { id: SessionId(1), active_head: None }));
        proof {
            assert(world.sessions@ =~= seq![(e, Session { id: SessionId(1), active_head: None })]);
        }
        return e;
    }
    let mut best: usize = 0;
    let mut i: usize = 1;
    while i < world.sessions.len()
        invariant
            1 <= i <= world.sessions@.len(),
            best < i,
            least_session(world.sessions@.take(i as int), best as int),
        decreases world.sessions.len() - i,
    {
        proof {
            assert forall|j: int| 0 <= j < i implies world.sessions@.take(i + 1)[j] == #[trigger] world.sessions@.take(i as int)[j] by {}
        }
        if world.sessions[i].1.id.0 < world.sessions[best].1.id.0 {
            best = i;
        }
        proof {
            assert(world.sessions@.take(i + 1)[i as int] == world.sessions@[i as int]);
            assert(world.sessions@.take(i + 1)[best as int] == world.sessions@[best as int]);
        }
        i = i + 1;
    }
    proof {
        assert(world.sessions@.take(world.sessions@.len() as int) =~= world.sessions@);
    }
    world.sessions[best].0
}

/// Persistent context cameras of `agent` over `session`.
pub open spec fn camera_of(agent: Entity, session: Entity) -> spec_fn((Entity, ContextCamera)) -> bool {
    |r: (Entity, ContextCamera)| r.1.persistent && r.1.agent == agent && r.1.session == session
}

/// The head of Session entity `s`, or none when it has no Session row.
pub open spec fn head_of(w: World, s: Entity) -> Option<Entity> {
    match get(w.sessions@, s) {
        Some(x) => x.active_head,
        None => None,
    }
}

/// Points the first persistent context camera of `agent` over `session` at the Session's head,
/// keeping its budget, or spawns one with a budget of 4096.
pub fn ensure_context_camera(world: &mut World, agent: Entity, session: Entity)
    requires
        old(world).next_entity < u64::MAX,
    ensures
        ({
            let w = *old(world);
            let f = *final(world);
            let head = head_of(w, session);
            &&& f == (World { context_cameras: f.context_cameras, next_entity: f.next_entity, ..w })
            &&& match first_index(w.context_cameras@, camera_of(agent, session)) {
                Some(j) => {
                    let e = w.context_cameras@[j].0;
                    let k = find(w.context_cameras@, e).unwrap();
                    &&& f.context_cameras@ == w.context_cameras@.update(k, (e, ContextCamera {
                        agent,
                        session,
                        head,
                        budget: w.context_cameras@[j].1.budget,
                        persistent: true,
                    }))
                    &&& f.next_entity == w.next_entity
                },
                None => {
                    &&& f.context_cameras@ == w.context_cameras@.push((Entity(w.next_entity), ContextCamera {
                        agent,
                        session,
                        head,
                        budget: 4096,
                        persistent: true,
                    }))
                    &&& f.next_entity == w.next_entity + 1
                },
            }
        }),
{
    let ghost pred = camera_of(agent, session);
    let head = match position(&world.sessions, session) {
        Some(k) => {
            proof {
                lemma_find(world.sessions@, session);
            }
            world.sessions[k].1.active_head
        },
        None => None,
    };
    proof {
        assert(head == head_of(*old(world), session));
    }
    let mut i: usize = 0;
    while i < world.context_cameras.len()
        invariant
            pred == camera_of(agent, session),
            *world == *old(world),
            head == head_of(*old(world), session),
            i <= world.context_cameras@.len(),
            forall|j: int| 0 <= j < i ==> !pred(#[trigger] world.context_cameras@[j]),
        decreases world.context_cameras.len() - i,
    {
        let (e, c) = world.context_cameras[i];
        if c.persistent && c.agent == agent && c.session == session {
            proof {
                lemma_first_index(world.context_cameras@, pred, Some(i as int));
                lemma_find(world.context_cameras@, e);
                assert(world.context_cameras@[i as int].0 == e);
            }
            let k = position(&world.context_cameras, e).unwrap();
            world.context_cameras.set(k, (e, ContextCamera { agent, session, head, budget: c.budget, persistent: true }));
            return;
        }
        i = i + 1;
    }
    proof {
        lemma_first_index(world.context_cameras@, pred, None);
    }
    let e = world.spawn();
    world.context_cameras.push((e, ContextCamera { agent, session, head, budget: 4096, persistent: true }));
}

/// The startup recovery can run without overflow.
pub open spec fn can_recover(w: World) -> bool {
    let n = w.model_requests@.len() + w.tool_uses@.len();
    &&& w.next_entity + 8 + 2 * n <= u64::MAX
    &&& w.ids matches Some(ids) ==> ids.next_sequence + 1 + 2 * n <= u64::MAX
    &&& forall|j: int|
        0 <= j < w.turns@.len() && orphan_turn(w, #[trigger] w.turns@[j].0) ==> w.turns@[j].1.generation < u64::MAX
}

/// A pending load failure is reported as a PersistenceFailure with its message, unless it
/// repeats the last reported failure; otherwise no failure is added.
pub open spec fn failure_reported(
    before: Seq<(Entity, PersistenceFailure)>,
    after: Seq<(Entity, PersistenceFailure)>,
    state: PersistenceState,
) -> bool {
    match state.pending_failure {
        Some(m) => if state.last_failure matches Some(l) && l@ == m@ {
            after == before
        } else {
            &&& after.len() == before.len() + 1
            &&& forall|j: int| 0 <= j < before.len() ==> #[trigger] after[j] == before[j]
            &&& after.last().1.message@ == m@
        },
        None => after == before,
    }
}

/// Each recovered Turn of `l` has its generation advanced by one, and gets, in order, a
/// TurnInterrupted outcome in the new generation and a Recovery note "Recovered interrupted work
/// after restart."; the earlier outcomes and notes stay.
pub open spec fn orphans_interrupted(w: World, f: World, l: Seq<Entity>) -> bool {
    &&& f.turns@ == advanced_turns(w.turns@, l)
    &&& f.turns_interrupted@.len() == w.turns_interrupted@.len() + l.len()
    &&& forall|j: int| 0 <= j < w.turns_interrupted@.len() ==> #[trigger] f.turns_interrupted@[j] == w.turns_interrupted@[j]
    &&& forall|k: int| 0 <= k < l.len() ==> {
        let x = (#[trigger] f.turns_interrupted@[w.turns_interrupted@.len() + k]).1;
        x.turn == l[k] && x.generation == generation_of(w, l[k]) + 1
    }
    &&& f.recoveries@.len() == w.recoveries@.len() + l.len()
    &&& forall|j: int| 0 <= j < w.recoveries@.len() ==> #[trigger] f.recoveries@[j] == w.recoveries@[j]
    &&& forall|k: int| 0 <= k < l.len() ==> {
        let x = (#[trigger] f.recoveries@[w.recoveries@.len() + k]).1;
        x.turn == l[k] && x.text@ == "Recovered interrupted work after restart."@
    }
}

/// What [`recover`] makes of `w` and `s0`: the world `f`, the state `s1`, and the active Agent
/// and Session `r`.
pub open spec fn recovered(w: World, s0: PersistenceState, f: World, s1: PersistenceState, r: (Entity, Entity)) -> bool {
    &&& r.0 == fake_plan(w).0.agent
    &&& f.active_agent == Some(r.0)
    &&& f.active_session == Some(r.1)
    &&& (w.sessions@.len() > 0 ==> exists|i: int| least_session(w.sessions@, i) && r.1 == w.sessions@[i].0)
    &&& (w.sessions@.len() == 0 ==> get(f.sessions@, r.1) == Some(Session { id: SessionId(1), active_head: None }))
    &&& f.harness_ready
    &&& f.ids is Some
    &&& forall|j: int| 0 <= j < f.model_requests@.len() ==> !is_active((#[trigger] f.model_requests@[j]).1.status)
    &&& forall|j: int| 0 <= j < f.tool_uses@.len() ==> !is_active((#[trigger] f.tool_uses@[j]).1.status)
    &&& exists|j: int|
        0 <= j < f.context_cameras@.len() && (#[trigger] f.context_cameras@[j]).1.persistent
            && f.context_cameras@[j].1.agent == r.0 && f.context_cameras@[j].1.session == r.1
            && f.context_cameras@[j].1.head == get(f.sessions@, r.1).unwrap().active_head
    &&& get(f.sessions@, r.1) is Some
    &&& s1.pending_failure is None
    &&& s1.blocked == s0.blocked
    &&& s1.last_values@ == s0.last_values@
    &&& s1.next_ordinals@ == s0.next_ordinals@
    &&& failure_reported(w.persistence_failures@, f.persistence_failures@, s0)
    &&& f.model_requests@ == cancelled_requests(w.model_requests@)
    &&& f.tool_uses@ == cancelled_tool_uses(w.tool_uses@)
    &&& exists|l: Seq<Entity>| #[trigger] recovered_turns(w, l) && orphans_interrupted(w, f, l)
    &&& (w.sessions@.len() > 0 ==> f.sessions@ == w.sessions@)
    &&& f.user_messages@ == w.user_messages@
    &&& f.assistant_messages@ == w.assistant_messages@
    &&& f.model_responses@ == w.model_responses@
    &&& f.tool_outcomes@ == w.tool_outcomes@
    &&& f.turns_completed@ == w.turns_completed@
    &&& f.turns_cancelled@ == w.turns_cancelled@
    &&& f.turns_failed@ == w.turns_failed@
    &&& f.branch_selections@ == w.branch_selections@
    &&& f.model_changes@ == w.model_changes@
    &&& f.compactions@ == w.compactions@
}

/// Prepares the harness after loading: the fake capabilities are reconciled, the identity
/// allocator exists, the Session of least SessionId becomes active (Session 1 is created when
/// there is none) together with the fake Agent, the Agent's persistent context camera over it is
/// ensured and synced to its head, a pending load failure is reported, orphaned work is
/// cancelled and its Turns interrupted, and the harness becomes ready. Messages, responses, tool
/// outcomes, the other Turn outcomes, branch selections, model changes, compactions, and existing
/// Sessions are left as they were. Returns the active Agent and Session.
#[verifier::rlimit(100)]
#[verifier::spinoff_prover]
pub fn recover(world: &mut World, state: &mut PersistenceState) -> (r: (Entity, Entity))
    requires
        can_recover(*old(world)),
    ensures
        recovered(*old(world), *old(state), *final(world), *final(state), r),
{
    let ghost w0 = *world;
    let caps = reconcile_fake_capabilities(world);
    let agent = caps.agent;
    if world.ids.is_none() {
        world.ids = Some(HarnessIds::new());
    }
    let ghost w1 = *world;
    let session = choose_session(world);
    proof {
        if w1.sessions@.len() == 0 {
            lemma_find(world.sessions@, session);
            assert(world.sessions@[0].0 == session);
            assert(get(world.sessions@, session) == Some(Session { id: SessionId(1), active_head: None }));
        } else {
            let i = choose|i: int| least_session(w1.sessions@, i) && session == w1.sessions@[i].0;
            lemma_find(world.sessions@, session);
            assert(world.sessions@[i].0 == session);
        }
        assert(get(world.sessions@, session) is Some);
    }
    let ghost w2 = *world;
    ensure_context_camera(world, agent, session);
    proof {
        crate::fake::lemma_first_index_spec(w2.context_cameras@, camera_of(agent, session));
    }
    let ghost w3 = *world;
    world.active_agent = Some(agent);
    world.active_session = Some(session);
    let head = match position(&world.sessions, session) {
        Some(k) => {
            proof {
                lemma_find(world.sessions@, session);
            }
            world.sessions[k].1.active_head
        },
        None => None,
    };
    sync_persistent_context_camera(&mut world.context_cameras, agent, session, head);
    let pending = state.pending_failure.take();
    match pending {
        Some(m) => {
            record_failure(world, state, m);
        },
        None => {},
    }
    let ghost w4 = *world;
    proof {
        assert(can_recover_work(w4)) by {
            assert(w4.model_requests@ == w0.model_requests@);
            assert(w4.tool_uses@ == w0.tool_uses@);
            assert(w4.turns@ == w0.turns@);
            assert forall|j: int| 0 <= j < w4.turns@.len() && orphan_turn(w4, #[trigger] w4.turns@[j].0) implies w4.turns@[j].1.generation < u64::MAX by {
                assert(orphan_turn(w0, w0.turns@[j].0));
            }
        }
    }
    let ghost cams = world.context_cameras@;
    let l = recover_orphaned_work(world);
    world.harness_ready = true;
    proof {
        assert(w4.turns_interrupted@ == w0.turns_interrupted@);
        assert(w4.recoveries@ == w0.recoveries@);
        assert forall|t: Entity| orphan_turn(w4, t) == orphan_turn(w0, t) by {}
        assert forall|t: Entity| #[trigger] l@.contains(t) <==> orphan_turn(w0, t) && has_row(w0.turns@, t) by {
            assert(orphan_turn(w4, t) == orphan_turn(w0, t));
        }
        assert(recovered_turns(w0, l@));
        assert forall|k: int| 0 <= k < l@.len() implies {
            let x = (#[trigger] world.turns_interrupted@[w0.turns_interrupted@.len() + k]).1;
            x.turn == l@[k] && x.generation == generation_of(w0, l@[k]) + 1
        } by {
            assert(world.turns_interrupted@[w0.turns_interrupted@.len() + k] == interruptions(w4, l@)[k]);
            assert(generation_of(w4, l@[k]) == generation_of(w0, l@[k]));
            let t = l@[k];
            assert(l@.contains(t));
            lemma_find(w0.turns@, t);
            let j = find(w0.turns@, t).unwrap();
            assert(orphan_turn(w0, w0.turns@[j].0));
        }
        assert forall|k: int| 0 <= k < l@.len() implies {
            let x = (#[trigger] world.recoveries@[w0.recoveries@.len() + k]).1;
            x.turn == l@[k] && x.text@ == "Recovered interrupted work after restart."@
        } by {
            assert(world.recoveries@[w4.recoveries@.len() + k] == world.recoveries@[w0.recoveries@.len() + k]);
        }
        assert(orphans_interrupted(w0, *world, l@));
        assert(get(world.sessions@, session) == get(w3.sessions@, session));
        assert forall|j: int| 0 <= j < world.model_requests@.len() implies !is_active((#[trigger] world.model_requests@[j]).1.status) by {
            assert(world.model_requests@[j] == cancelled_requests(w4.model_requests@)[j]);
        }
        assert forall|j: int| 0 <= j < world.tool_uses@.len() implies !is_active((#[trigger] world.tool_uses@[j]).1.status) by {
            assert(world.tool_uses@[j] == cancelled_tool_uses(w4.tool_uses@)[j]);
        }
        let p = camera_of(agent, session);
        match first_index(w2.context_cameras@, p) {
            Some(jj) => {
                let e = w2.context_cameras@[jj].0;
                let k = find(w2.context_cameras@, e).unwrap();
                lemma_find(w2.context_cameras@, e);
                assert(w3.context_cameras@[k].1.persistent && w3.context_cameras@[k].1.agent == agent && w3.context_cameras@[k].1.session == session);
                assert(synced_cameras(w3.context_cameras@, agent, session, head)[k].1.persistent);
                assert(world.context_cameras@[k].1.persistent && world.context_cameras@[k].1.agent == agent);
                assert(world.context_cameras@[k].1.head == head);
            },
            None => {
                let k = w2.context_cameras@.len() as int;
                assert(w3.context_cameras@[k].1.persistent);
                assert(world.context_cameras@[k].1.persistent && world.context_cameras@[k].1.agent == agent);
                assert(world.context_cameras@[k].1.head == head);
            },
        }
    }
    (agent, session)
}

} // verus!
