//! The harness's startup: capabilities, loaded history, and recovery, in that order.
use vstd::prelude::*;

use crate::fake::{reconcile_fake_capabilities, reconciled, FakeCapabilities};
use crate::hydrate::{hydrate, hydrated, ordinals_bounded, replay_steps};
use crate::ids::Entity;
use crate::log::PersistenceState;
use crate::recovery::{can_recover, orphan_turn, recover, recovered, is_active, least_session};
use crate::replay::LoadedFile;
use crate::world::World;

verus! {

/// The stages of one frame of the harness, in the order they run.
#[derive(Debug, Clone, Copy, PartialEq, Eq, Structural)]
pub enum MajinSet {
    Input,
    Orchestrate,
    Dispatch,
    Apply,
    Project,
    Persist,
    Render,
}

fn has_orphan_work(world: &World, t: Entity) -> (b: bool)
    ensures
        b == orphan_turn(*world, t),
{
    let mut i: usize = 0;
    while i < world.model_requests.len()
        invariant
            i <= world.model_requests@.len(),
            forall|j: int| 0 <= j < i ==> !(is_active(world.model_requests@[j].1.status) && #[trigger] world.model_requests@[j].1.turn == t),
        decreases world.model_requests.len() - i,
    {
        let r = world.model_requests[i].1;
        if (r.status == crate::world::WorkStatus::Pending || r.status == crate::world::WorkStatus::Running) && r.turn == t {
            return true;
        }
        i = i + 1;
    }
    let mut i: usize = 0;
    while i < world.tool_uses.len()
        invariant
            i <= world.tool_uses@.len(),
            forall|j: int| 0 <= j < world.model_requests@.len() ==> !(is_active(world.model_requests@[j].1.status) && #[trigger] world.model_requests@[j].1.turn == t),
            forall|j: int| 0 <= j < i ==> !(is_active(world.tool_uses@[j].1.status) && #[trigger] world.tool_uses@[j].1.turn == t),
        decreases world.tool_uses.len() - i,
    {
        let status = world.tool_uses[i].1.status;
        if (status == crate::world::WorkStatus::Pending || status == crate::world::WorkStatus::Running) && world.tool_uses[i].1.turn == t {
            return true;
        }
        i = i + 1;
    }
    false
}

/// Reports whether recovery can run on `world` without overflow; see [`can_recover`].
pub fn recover_fits(world: &World) -> (b: bool)
    ensures
        b == can_recover(*world),
{
    let n = world.model_requests.len() as u128 + world.tool_uses.len() as u128;
    if world.next_entity as u128 + 8 + 2 * n > u64::MAX as u128 {
        return false;
    }
    match world.ids {
        Some(ids) => {
            if ids.next_sequence as u128 + 1 + 2 * n > u64::MAX as u128 {
                return false;
            }
        },
        None => {},
    }
    let mut j: usize = 0;
    while j < world.turns.len()
        invariant
            j <= world.turns@.len(),
            world.next_entity + 8 + 2 * (world.model_requests@.len() + world.tool_uses@.len()) <= u64::MAX,
            world.ids matches Some(ids) ==> ids.next_sequence + 1 + 2 * (world.model_requests@.len() + world.tool_uses@.len()) <= u64::MAX,
            forall|x: int| 0 <= x < j && orphan_turn(*world, #[trigger] world.turns@[x].0) ==> world.turns@[x].1.generation < u64::MAX,
        decreases world.turns.len() - j,
    {
        if world.turns[j].1.generation == u64::MAX && has_orphan_work(world, world.turns[j].0) {
            return false;
        }
        j = j + 1;
    }
    true
}

/// One startup of `w` and `s` with `files`: the fake capabilities `c` are reconciled into `wr`;
/// when persistence is enabled, the files are loaded into `wh` and `sh` (otherwise these are
/// `wr` and `s`); recovery runs on them, into `f` and `s1`, exactly when it fits, and its active
/// Agent and Session are the result.
pub open spec fn started(
    w: World,
    s: PersistenceState,
    enabled: bool,
    files: Seq<LoadedFile>,
    wr: World,
    c: FakeCapabilities,
    wh: World,
    sh: PersistenceState,
    f: World,
    s1: PersistenceState,
    r: Option<(Entity, Entity)>,
) -> bool {
    &&& reconciled(w, wr, c)
    &&& if enabled { hydrated(wr, s, files, wh, sh) } else { wh == wr && sh == s }
    &&& (r is None <==> !can_recover(wh))
    &&& match r {
        Some(x) => recovered(wh, sh, f, s1, x),
        None => f == wh && s1 == sh,
    }
}

/// Runs the harness's startup on `world`: the fake capabilities are registered, the loaded Session
/// logs are replayed when persistence is enabled, and recovery selects the active Session and
/// Agent, cancels orphaned work, and makes the harness ready. Returns the active Agent and Session;
/// returns None, after loading, only when the identity counters could not absorb recovery, which
/// never happens when an empty world starts without logs.
pub fn run(world: &mut World, state: &mut PersistenceState, enabled: bool, files: &Vec<LoadedFile>) -> (r: Option<(Entity, Entity)>)
    requires
        old(world).next_entity + 5 + replay_steps(files@).len() < u64::MAX,
        ordinals_bounded(files@),
    ensures
        exists|wr: World, c: FakeCapabilities, wh: World, sh: PersistenceState|
            #[trigger] started(*old(world), *old(state), enabled, files@, wr, c, wh, sh, *final(world), *final(state), r),
        old(world).is_empty_world() && files@.len() == 0 ==> r is Some,
        r matches Some(x) ==> {
            &&& final(world).harness_ready
            &&& final(world).active_agent == Some(x.0)
            &&& final(world).active_session == Some(x.1)
            &&& final(world).ids is Some
            &&& forall|j: int| 0 <= j < final(world).model_requests@.len() ==> !is_active((#[trigger] final(world).model_requests@[j]).1.status)
            &&& forall|j: int| 0 <= j < final(world).tool_uses@.len() ==> !is_active((#[trigger] final(world).tool_uses@[j]).1.status)
            &&& final(state).pending_failure is None
        },
{
    let c = reconcile_fake_capabilities(world);
    let ghost wr = *world;
    if enabled {
        hydrate(world, state, files);
    }
    let ghost wh = *world;
    let ghost sh = *state;
    if !recover_fits(world) {
        proof {
            assert(started(*old(world), *old(state), enabled, files@, wr, c, wh, sh, *world, *state, None));
        }
        return None;
    }
    let x = recover(world, state);
    proof {
        assert(started(*old(world), *old(state), enabled, files@, wr, c, wh, sh, *world, *state, Some(x)));
    }
    Some(x)
}

} // verus!
