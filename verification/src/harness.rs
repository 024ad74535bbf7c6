use vstd::prelude::*;

use crate::ids::{Entity, HarnessIds, MessageId, ModelRequestId, Sequence, TurnId};
use crate::text::{trim, trimmed};
use crate::world::{
    find, get, has_row, lemma_find, position, synced_cameras, sync_persistent_context_camera,
    BranchSelection, ModelRequest, Session, ToolUse, Turn, TurnCancelled, UserMessage, WorkStatus,
    World,
};

verus! {

/// Why a harness command was rejected.
#[derive(Debug, Clone, Copy, PartialEq, Eq, Structural)]
pub enum CommandFailure {
    EmptyPrompt,
    MissingSession,
    MissingAgent,
    MissingTurn,
    TurnOutsideSession,
    TurnNotActive,
    ActiveTurn,
    TurnFinished,
    HarnessNotReady,
}

/// The typed result of a harness command.
#[derive(Debug, Clone, Copy, PartialEq, Eq, Structural)]
pub enum CommandResult {
    PromptSubmitted { session: Entity, turn: Entity },
    PromptRejected { session: Entity, failure: CommandFailure },
    SessionSelected { session: Entity },
    SessionRejected { session: Entity, failure: CommandFailure },
    BranchSelected { session: Entity, head: Entity },
    BranchRejected { session: Entity, head: Entity, failure: CommandFailure },
    TurnInterrupted { turn: Entity, generation: u64 },
    InterruptRejected { turn: Entity, failure: CommandFailure },
}

/// The active Agent, its Model, and that Model's Provider all exist.
pub open spec fn agent_ready(w: World) -> bool {
    &&& w.active_agent is Some
    &&& get(w.agents@, w.active_agent.unwrap()) is Some
    &&& get(w.models@, get(w.agents@, w.active_agent.unwrap()).unwrap().model) is Some
}

/// The Session's active head exists and has no outcome yet.
pub open spec fn head_active(w: World, session: Entity) -> bool {
    match get(w.sessions@, session) {
        Some(s) => match s.active_head {
            Some(h) => !w.turn_finished(h),
            None => false,
        },
        None => false,
    }
}

/// The identity allocator can serve one more command.
pub open spec fn ids_available(w: World) -> bool {
    &&& w.ids is Some
    &&& w.ids.unwrap().next_turn < u64::MAX
    &&& w.ids.unwrap().next_message < u64::MAX
    &&& w.ids.unwrap().next_model_request < u64::MAX
    &&& w.ids.unwrap().next_sequence + 3 <= u64::MAX
    &&& w.next_entity + 3 <= u64::MAX
}

/// Reports whether the active Session's head is an unfinished Turn, so that a new prompt must
/// wait.
pub fn active_head_busy(world: &World) -> (b: bool)
    ensures
        b == (world.active_session matches Some(s) && head_active(*world, s)),
{
    match world.active_session {
        Some(s) => is_head_active(world, s),
        None => false,
    }
}

/// Reports whether the Session's active head is an unfinished Turn.
fn is_head_active(world: &World, session: Entity) -> (b: bool)
    ensures
        b == head_active(*world, session),
{
    match position(&world.sessions, session) {
        None => false,
        Some(k) => {
            proof {
                lemma_find(world.sessions@, session);
            }
            match world.sessions[k].1.active_head {
                Some(h) => !world.is_turn_finished(h),
                None => false,
            }
        },
    }
}

/// Submits a prompt to a Session.
pub struct SubmitPrompt {
    pub session: Entity,
    pub text: String,
}

impl SubmitPrompt {
    /// Why the command is rejected in `w`, checked in this order: readiness, the Session, an
    /// empty prompt after trimming, the Agent capability chain, and an unfinished active head.
    pub open spec fn rejection(self, w: World) -> Option<CommandFailure> {
        if !w.harness_ready {
            Some(CommandFailure::HarnessNotReady)
        } else if !has_row(w.sessions@, self.session) {
            Some(CommandFailure::MissingSession)
        } else if trimmed(self.text@).len() == 0 {
            Some(CommandFailure::EmptyPrompt)
        } else if !agent_ready(w) {
            Some(CommandFailure::MissingAgent)
        } else if head_active(w, self.session) {
            Some(CommandFailure::ActiveTurn)
        } else {
            None
        }
    }

    /// Creates a child Turn of the active head, its UserMessage with the trimmed text, and the
    /// Turn's first pending ModelRequest; makes the Turn the Session's active head; and moves
    /// the Agent's persistent context cameras of the Session to it.
    pub fn apply(self, world: &mut World) -> (r: CommandResult)
        requires
            old(world).harness_ready ==> ids_available(*old(world)),
        ensures
            old(world).sequences_fresh() ==> final(world).sequences_fresh(),
            match self.rejection(*old(world)) {
                Some(f) => r == (CommandResult::PromptRejected { session: self.session, failure: f })
                    && final(world).same_world(*old(world)),
                None => {
                    let w = *old(world);
                    let ids = w.ids.unwrap();
                    let agent = w.active_agent.unwrap();
                    let model = get(w.agents@, agent).unwrap().model;
                    let provider = get(w.models@, model).unwrap().provider;
                    let k = find(w.sessions@, self.session).unwrap();
                    let parent = w.sessions@[k].1.active_head;
                    let turn = Entity(w.next_entity);
                    let user = Entity((w.next_entity + 1) as u64);
                    let request = Entity((w.next_entity + 2) as u64);
                    let f = *final(world);
                    &&& r == CommandResult::PromptSubmitted { session: self.session, turn }
                    &&& f.next_entity == w.next_entity + 3
                    &&& f.turns@ == w.turns@.push(
                        (
                            turn,
                            Turn {
                                id: TurnId(ids.next_turn),
                                session: self.session,
                                parent,
                                sequence: Sequence(ids.next_sequence),
                                generation: 0,
                            },
                        ),
                    )
                    &&& f.user_messages@.len() == w.user_messages@.len() + 1
                    &&& f.user_messages@.drop_last() == w.user_messages@
                    &&& f.user_messages@.last().0 == user
                    &&& f.user_messages@.last().1.id == MessageId(ids.next_message)
                    &&& f.user_messages@.last().1.turn == turn
                    &&& f.user_messages@.last().1.sequence == Sequence((ids.next_sequence + 1) as u64)
                    &&& f.user_messages@.last().1.text@ == trimmed(self.text@)
                    &&& f.model_requests@ == w.model_requests@.push(
                        (
                            request,
                            ModelRequest {
                                id: ModelRequestId(ids.next_model_request),
                                turn,
                                agent,
                                model,
                                provider,
                                generation: 0,
                                previous_tool_use: None,
                                status: WorkStatus::Pending,
                                sequence: Sequence((ids.next_sequence + 2) as u64),
                            },
                        ),
                    )
                    &&& f.sessions@ == w.sessions@.update(
                        k,
                        (self.session, Session { active_head: Some(turn), ..w.sessions@[k].1 }),
                    )
                    &&& f.context_cameras@ == synced_cameras(
                        w.context_cameras@,
                        agent,
                        self.session,
                        Some(turn),
                    )
                    &&& f.ids == Some(
                        HarnessIds {
                            next_turn: (ids.next_turn + 1) as u64,
                            next_message: (ids.next_message + 1) as u64,
                            next_model_request: (ids.next_model_request + 1) as u64,
                            next_sequence: (ids.next_sequence + 3) as u64,
                            ..ids
                        },
                    )
                    &&& f.same_capabilities(w)
                    &&& f.assistant_messages@ == w.assistant_messages@
                    &&& f.branch_selections@ == w.branch_selections@
                    &&& f.model_changes@ == w.model_changes@
                    &&& f.compactions@ == w.compactions@
                    &&& f.recoveries@ == w.recoveries@
                    &&& f.persistence_failures@ == w.persistence_failures@
                    &&& f.model_responses@ == w.model_responses@
                    &&& f.tool_uses@ == w.tool_uses@
                    &&& f.tool_outcomes@ == w.tool_outcomes@
                    &&& f.model_tasks@ == w.model_tasks@
                    &&& f.tool_tasks@ == w.tool_tasks@
                    &&& f.same_outcomes(w)
                    &&& f.transcript_cameras@ == w.transcript_cameras@
                    &&& f.active_session == w.active_session
                    &&& f.active_agent == w.active_agent
                    &&& f.harness_ready == w.harness_ready
                },
            },
    {
        let session = self.session;
        if !world.harness_ready {
            return CommandResult::PromptRejected { session, failure: CommandFailure::HarnessNotReady };
        }
        let k = match position(&world.sessions, session) {
            None => {
                return CommandResult::PromptRejected {
                    session,
                    failure: CommandFailure::MissingSession,
                };
            },
            Some(k) => k,
        };
        proof {
            lemma_find(world.sessions@, session);
        }
        let text = trim(self.text.as_str());
        if text.unicode_len() == 0 {
            return CommandResult::PromptRejected { session, failure: CommandFailure::EmptyPrompt };
        }
        let agent = match world.active_agent {
            None => {
                return CommandResult::PromptRejected {
                    session,
                    failure: CommandFailure::MissingAgent,
                };
            },
            Some(a) => a,
        };
        let model = match position(&world.agents, agent) {
            None => {
                return CommandResult::PromptRejected {
                    session,
                    failure: CommandFailure::MissingAgent,
                };
            },
            Some(ak) => {
                proof {
                    lemma_find(world.agents@, agent);
                }
                world.agents[ak].1.model
            },
        };
        let provider = match position(&world.models, model) {
            None => {
                return CommandResult::PromptRejected {
                    session,
                    failure: CommandFailure::MissingAgent,
                };
            },
            Some(mk) => {
                proof {
                    lemma_find(world.models@, model);
                }
                world.models[mk].1.provider
            },
        };
        if is_head_active(world, session) {
            return CommandResult::PromptRejected { session, failure: CommandFailure::ActiveTurn };
        }
        let parent = world.sessions[k].1.active_head;
        let mut ids = world.ids.unwrap();
        let turn_id = ids.turn();
        let turn_sequence = ids.sequence();
        let user_id = ids.message();
        let user_sequence = ids.sequence();
        let request_id = ids.model_request();
        let request_sequence = ids.sequence();
        world.ids = Some(ids);
        let turn = world.spawn();
        world.turns.push(
            (turn, Turn { id: turn_id, session, parent, sequence: turn_sequence, generation: 0 }),
        );
        let user = world.spawn();
        world.user_messages.push(
            (user, UserMessage { id: user_id, turn, sequence: user_sequence, text }),
        );
        let request = world.spawn();
        world.model_requests.push(
            (
                request,
                ModelRequest {
                    id: request_id,
                    turn,
                    agent,
                    model,
                    provider,
                    generation: 0,
                    previous_tool_use: None,
                    status: WorkStatus::Pending,
                    sequence: request_sequence,
                },
            ),
        );
        let s = world.sessions[k].1;
        world.sessions.set(k, (session, Session { active_head: Some(turn), ..s }));
        sync_persistent_context_camera(&mut world.context_cameras, agent, session, Some(turn));
        CommandResult::PromptSubmitted { session, turn }
    }
}

/// Selects the active Session.
pub struct SelectSession {
    pub session: Entity,
}

impl SelectSession {
    /// Makes `session` the active Session when the harness is ready and the Session exists;
    /// otherwise rejects the command and changes nothing.
    pub fn apply(self, world: &mut World) -> (r: CommandResult)
        ensures
            old(world).sequences_fresh() ==> final(world).sequences_fresh(),
            !old(world).harness_ready ==> r == (CommandResult::SessionRejected {
                session: self.session,
                failure: CommandFailure::HarnessNotReady,
            }) && final(world).same_world(*old(world)),
            old(world).harness_ready && !has_row(old(world).sessions@, self.session) ==> r
                == (CommandResult::SessionRejected {
                session: self.session,
                failure: CommandFailure::MissingSession,
            }) && final(world).same_world(*old(world)),
            old(world).harness_ready && has_row(old(world).sessions@, self.session) ==> r
                == (CommandResult::SessionSelected { session: self.session })
                && final(world).active_session == Some(self.session) && final(world).same_world(
                World { active_session: Some(self.session), ..*old(world) },
            ),
    {
        if !world.harness_ready {
            return CommandResult::SessionRejected {
                session: self.session,
                failure: CommandFailure::HarnessNotReady,
            };
        }
        if position(&world.sessions, self.session).is_none() {
            return CommandResult::SessionRejected {
                session: self.session,
                failure: CommandFailure::MissingSession,
            };
        }
        world.active_session = Some(self.session);
        CommandResult::SessionSelected { session: self.session }
    }
}

/// Selects an earlier Turn as a Session's active branch head.
pub struct SelectBranch {
    pub session: Entity,
    pub head: Entity,
}

impl SelectBranch {
    /// Why the command is rejected in `w`, checked in this order: readiness, the head Turn,
    /// the Session, the Turn's Session, and an unfinished active head.
    pub open spec fn rejection(self, w: World) -> Option<CommandFailure> {
        if !w.harness_ready {
            Some(CommandFailure::HarnessNotReady)
        } else if !has_row(w.turns@, self.head) {
            Some(CommandFailure::MissingTurn)
        } else if !has_row(w.sessions@, self.session) {
            Some(CommandFailure::MissingSession)
        } else if get(w.turns@, self.head).unwrap().session != self.session {
            Some(CommandFailure::TurnOutsideSession)
        } else if head_active(w, self.session) {
            Some(CommandFailure::ActiveTurn)
        } else {
            None
        }
    }

    /// Sets the Session's active head, records a BranchSelection, and moves the active Agent's
    /// persistent context cameras of the Session to the head.
    pub fn apply(self, world: &mut World) -> (r: CommandResult)
        requires
            old(world).harness_ready ==> ids_available(*old(world)),
        ensures
            old(world).sequences_fresh() ==> final(world).sequences_fresh(),
            match self.rejection(*old(world)) {
                Some(f) => r == (CommandResult::BranchRejected {
                    session: self.session,
                    head: self.head,
                    failure: f,
                }) && final(world).same_world(*old(world)),
                None => {
                    let w = *old(world);
                    let ids = w.ids.unwrap();
                    let k = find(w.sessions@, self.session).unwrap();
                    let f = *final(world);
                    &&& r == CommandResult::BranchSelected { session: self.session, head: self.head }
                    &&& f.next_entity == w.next_entity + 1
                    &&& f.sessions@ == w.sessions@.update(
                        k,
                        (self.session, Session { active_head: Some(self.head), ..w.sessions@[k].1 }),
                    )
                    &&& f.branch_selections@ == w.branch_selections@.push(
                        (
                            Entity(w.next_entity),
                            BranchSelection {
                                session: self.session,
                                head: self.head,
                                sequence: Sequence(ids.next_sequence),
                            },
                        ),
                    )
                    &&& f.ids == Some(
                        HarnessIds { next_sequence: (ids.next_sequence + 1) as u64, ..ids },
                    )
                    &&& f.context_cameras@ == (match w.active_agent {
                        Some(a) => synced_cameras(w.context_cameras@, a, self.session, Some(self.head)),
                        None => w.context_cameras@,
                    })
                    &&& f.same_capabilities(w)
                    &&& f.turns@ == w.turns@
                    &&& f.user_messages@ == w.user_messages@
                    &&& f.assistant_messages@ == w.assistant_messages@
                    &&& f.model_changes@ == w.model_changes@
                    &&& f.compactions@ == w.compactions@
                    &&& f.recoveries@ == w.recoveries@
                    &&& f.persistence_failures@ == w.persistence_failures@
                    &&& f.same_work(w)
                    &&& f.same_outcomes(w)
                    &&& f.transcript_cameras@ == w.transcript_cameras@
                    &&& f.active_session == w.active_session
                    &&& f.active_agent == w.active_agent
                    &&& f.harness_ready == w.harness_ready
                },
            },
    {
        let session = self.session;
        let head = self.head;
        if !world.harness_ready {
            return CommandResult::BranchRejected {
                session,
                head,
                failure: CommandFailure::HarnessNotReady,
            };
        }
        let tk = match position(&world.turns, head) {
            None => {
                return CommandResult::BranchRejected {
                    session,
                    head,
                    failure: CommandFailure::MissingTurn,
                };
            },
            Some(tk) => tk,
        };
        proof {
            lemma_find(world.turns@, head);
        }
        let k = match position(&world.sessions, session) {
            None => {
                return CommandResult::BranchRejected {
                    session,
                    head,
                    failure: CommandFailure::MissingSession,
                };
            },
            Some(k) => k,
        };
        proof {
            lemma_find(world.sessions@, session);
        }
        if world.turns[tk].1.session != session {
            return CommandResult::BranchRejected {
                session,
                head,
                failure: CommandFailure::TurnOutsideSession,
            };
        }
        if is_head_active(world, session) {
            return CommandResult::BranchRejected { session, head, failure: CommandFailure::ActiveTurn };
        }
        let mut ids = world.ids.unwrap();
        let sequence = ids.sequence();
        world.ids = Some(ids);
        let s = world.sessions[k].1;
        world.sessions.set(k, (session, Session { active_head: Some(head), ..s }));
        let selection = world.spawn();
        world.branch_selections.push((selection, BranchSelection { session, head, sequence }));
        match world.active_agent {
            Some(a) => sync_persistent_context_camera(&mut world.context_cameras, a, session, Some(head)),
            None => {},
        }
        CommandResult::BranchSelected { session, head }
    }
}

/// The work is still waiting or running.
pub open spec fn is_active(status: WorkStatus) -> bool {
    status == WorkStatus::Pending || status == WorkStatus::Running
}

/// Some ModelRequest row of Turn `t` belongs to entity `e`.
pub open spec fn request_of_turn(reqs: Seq<(Entity, ModelRequest)>, e: Entity, t: Entity) -> bool {
    exists|j: int| 0 <= j < reqs.len() && (#[trigger] reqs[j]).0 == e && reqs[j].1.turn == t
}

/// Some ToolUse row of Turn `t` belongs to entity `e`.
pub open spec fn tool_use_of_turn(uses: Seq<(Entity, ToolUse)>, e: Entity, t: Entity) -> bool {
    exists|j: int| 0 <= j < uses.len() && (#[trigger] uses[j]).0 == e && uses[j].1.turn == t
}

/// Task rows that do not belong to a ModelRequest of Turn `t`.
pub open spec fn keeps_request_task(reqs: Seq<(Entity, ModelRequest)>, t: Entity) -> spec_fn(
    (Entity, ()),
) -> bool {
    |row: (Entity, ())| !request_of_turn(reqs, row.0, t)
}

/// Task rows that do not belong to a ToolUse of Turn `t`.
pub open spec fn keeps_tool_task(uses: Seq<(Entity, ToolUse)>, t: Entity) -> spec_fn(
    (Entity, ()),
) -> bool {
    |row: (Entity, ())| !tool_use_of_turn(uses, row.0, t)
}

/// The ModelRequests of Turn `t` with active work cancelled.
pub open spec fn cancel_requests(reqs: Seq<(Entity, ModelRequest)>, t: Entity) -> Seq<(Entity, ModelRequest)> {
    Seq::new(
        reqs.len(),
        |i: int|
            if reqs[i].1.turn == t && is_active(reqs[i].1.status) {
                (reqs[i].0, ModelRequest { status: WorkStatus::Cancelled, ..reqs[i].1 })
            } else {
                reqs[i]
            },
    )
}

/// The ToolUses of Turn `t` with active work cancelled.
pub open spec fn cancel_tool_uses(uses: Seq<(Entity, ToolUse)>, t: Entity) -> Seq<(Entity, ToolUse)> {
    Seq::new(
        uses.len(),
        |i: int|
            if uses[i].1.turn == t && is_active(uses[i].1.status) {
                (uses[i].0, ToolUse { status: WorkStatus::Cancelled, ..uses[i].1 })
            } else {
                uses[i]
            },
    )
}

fn is_request_of_turn(reqs: &Vec<(Entity, ModelRequest)>, e: Entity, t: Entity) -> (b: bool)
    ensures
        b == request_of_turn(reqs@, e, t),
{
    let mut i: usize = 0;
    while i < reqs.len()
        invariant
            i <= reqs@.len(),
            forall|j: int| 0 <= j < i ==> !((#[trigger] reqs@[j]).0 == e && reqs@[j].1.turn == t),
        decreases reqs.len() - i,
    {
        if reqs[i].0 == e && reqs[i].1.turn == t {
            return true;
        }
        i = i + 1;
    }
    false
}

fn is_tool_use_of_turn(uses: &Vec<(Entity, ToolUse)>, e: Entity, t: Entity) -> (b: bool)
    ensures
        b == tool_use_of_turn(uses@, e, t),
{
    let mut i: usize = 0;
    while i < uses.len()
        invariant
            i <= uses@.len(),
            forall|j: int| 0 <= j < i ==> !((#[trigger] uses@[j]).0 == e && uses@[j].1.turn == t),
        decreases uses.len() - i,
    {
        if uses[i].0 == e && uses[i].1.turn == t {
            return true;
        }
        i = i + 1;
    }
    false
}

/// Cancels the active ModelRequests of Turn `t`.
pub fn cancel_turn_requests(reqs: &mut Vec<(Entity, ModelRequest)>, t: Entity)
    ensures
        final(reqs)@ == cancel_requests(old(reqs)@, t),
{
    let ghost start = reqs@;
    let mut i: usize = 0;
    while i < reqs.len()
        invariant
            reqs@.len() == start.len(),
            i <= reqs@.len(),
            forall|j: int| 0 <= j < i ==> #[trigger] reqs@[j] == cancel_requests(start, t)[j],
            forall|j: int| i <= j < reqs@.len() ==> #[trigger] reqs@[j] == start[j],
        decreases reqs.len() - i,
    {
        let (e, r) = reqs[i];
        if r.turn == t && (r.status == WorkStatus::Pending || r.status == WorkStatus::Running) {
            reqs.set(i, (e, ModelRequest { status: WorkStatus::Cancelled, ..r }));
        }
        i = i + 1;
    }
    assert(reqs@ =~= cancel_requests(start, t));
}

/// Cancels the active ToolUses of Turn `t`.
pub fn cancel_turn_tool_uses(uses: &mut Vec<(Entity, ToolUse)>, t: Entity)
    ensures
        final(uses)@ == cancel_tool_uses(old(uses)@, t),
{
    let ghost start = uses@;
    let mut i: usize = 0;
    while i < uses.len()
        invariant
            uses@.len() == start.len(),
            i <= uses@.len(),
            forall|j: int| 0 <= j < i ==> #[trigger] uses@[j] == cancel_tool_uses(start, t)[j],
            forall|j: int| i <= j < uses@.len() ==> #[trigger] uses@[j] == start[j],
        decreases uses.len() - i,
    {
        if uses[i].1.turn == t && (uses[i].1.status == WorkStatus::Pending || uses[i].1.status
            == WorkStatus::Running) {
            let (e, mut u) = uses.remove(i);
            u.status = WorkStatus::Cancelled;
            uses.insert(i, (e, u));
        }
        i = i + 1;
    }
    assert(uses@ =~= cancel_tool_uses(start, t));
}

/// Interrupts the active Turn of a Session.
pub struct InterruptTurn {
    pub turn: Entity,
}

impl InterruptTurn {
    /// Why the command is rejected in `w`, checked in this order: readiness, the Turn, its
    /// Session, an existing outcome, and whether the Turn is the Session's active head.
    pub open spec fn rejection(self, w: World) -> Option<CommandFailure> {
        if !w.harness_ready {
            Some(CommandFailure::HarnessNotReady)
        } else if !has_row(w.turns@, self.turn) {
            Some(CommandFailure::MissingTurn)
        } else if !has_row(w.sessions@, get(w.turns@, self.turn).unwrap().session) {
            Some(CommandFailure::MissingSession)
        } else if w.turn_finished(self.turn) {
            Some(CommandFailure::TurnFinished)
        } else if get(w.sessions@, get(w.turns@, self.turn).unwrap().session).unwrap().active_head
            != Some(self.turn) {
            Some(CommandFailure::TurnNotActive)
        } else {
            None
        }
    }

    /// Increments the Turn's generation, cancels its waiting and running work, drops the
    /// transient task handles of its work, and records a TurnCancelled outcome with the new
    /// generation. Results of the old generation are stale from then on.
    pub fn apply(self, world: &mut World) -> (r: CommandResult)
        requires
            old(world).harness_ready ==> ids_available(*old(world)),
            has_row(old(world).turns@, self.turn) ==> get(old(world).turns@, self.turn).unwrap().generation
                < u64::MAX,
        ensures
            old(world).sequences_fresh() ==> final(world).sequences_fresh(),
            match self.rejection(*old(world)) {
                Some(f) => r == (CommandResult::InterruptRejected { turn: self.turn, failure: f })
                    && final(world).same_world(*old(world)),
                None => {
                    let w = *old(world);
                    let ids = w.ids.unwrap();
                    let k = find(w.turns@, self.turn).unwrap();
                    let g = (w.turns@[k].1.generation + 1) as u64;
                    let f = *final(world);
                    &&& r == CommandResult::TurnInterrupted { turn: self.turn, generation: g }
                    &&& f.next_entity == w.next_entity + 1
                    &&& f.turns@ == w.turns@.update(
                        k,
                        (self.turn, Turn { generation: g, ..w.turns@[k].1 }),
                    )
                    &&& f.model_requests@ == cancel_requests(w.model_requests@, self.turn)
                    &&& f.tool_uses@ == cancel_tool_uses(w.tool_uses@, self.turn)
                    &&& f.model_tasks@ == w.model_tasks@.filter(
                        keeps_request_task(w.model_requests@, self.turn),
                    )
                    &&& f.tool_tasks@ == w.tool_tasks@.filter(
                        keeps_tool_task(w.tool_uses@, self.turn),
                    )
                    &&& f.turns_cancelled@ == w.turns_cancelled@.push(
                        (
                            Entity(w.next_entity),
                            TurnCancelled {
                                turn: self.turn,
                                generation: g,
                                sequence: Sequence(ids.next_sequence),
                            },
                        ),
                    )
                    &&& f.ids == Some(
                        HarnessIds { next_sequence: (ids.next_sequence + 1) as u64, ..ids },
                    )
                    &&& f.same_capabilities(w)
                    &&& f.sessions@ == w.sessions@
                    &&& f.same_timeline(w)
                    &&& f.model_responses@ == w.model_responses@
                    &&& f.tool_outcomes@ == w.tool_outcomes@
                    &&& f.turns_completed@ == w.turns_completed@
                    &&& f.turns_interrupted@ == w.turns_interrupted@
                    &&& f.turns_failed@ == w.turns_failed@
                    &&& f.same_cameras(w)
                    &&& f.active_session == w.active_session
                    &&& f.active_agent == w.active_agent
                    &&& f.harness_ready == w.harness_ready
                },
            },
    {
        let t = self.turn;
        if !world.harness_ready {
            return CommandResult::InterruptRejected { turn: t, failure: CommandFailure::HarnessNotReady };
        }
        let k = match position(&world.turns, t) {
            None => {
                return CommandResult::InterruptRejected { turn: t, failure: CommandFailure::MissingTurn };
            },
            Some(k) => k,
        };
        proof {
            lemma_find(world.turns@, t);
        }
        let turn = world.turns[k].1;
        let sk = match position(&world.sessions, turn.session) {
            None => {
                return CommandResult::InterruptRejected {
                    turn: t,
                    failure: CommandFailure::MissingSession,
                };
            },
            Some(sk) => sk,
        };
        proof {
            lemma_find(world.sessions@, turn.session);
        }
        if world.is_turn_finished(t) {
            return CommandResult::InterruptRejected { turn: t, failure: CommandFailure::TurnFinished };
        }
        if world.sessions[sk].1.active_head != Some(t) {
            return CommandResult::InterruptRejected { turn: t, failure: CommandFailure::TurnNotActive };
        }
        let generation = turn.generation + 1;
        world.turns.set(k, (t, Turn { generation, ..turn }));
        let ghost reqs = world.model_requests@;
        let ghost uses = world.tool_uses@;
        let ghost model_tasks = world.model_tasks@;
        let ghost tool_tasks = world.tool_tasks@;
        let mut kept: Vec<(Entity, ())> = Vec::new();
        let mut i: usize = 0;
        while i < world.model_tasks.len()
            invariant
                i <= world.model_tasks@.len(),
                world.model_tasks@ == model_tasks,
                world.model_requests@ == reqs,
                kept@ == model_tasks.take(i as int).filter(keeps_request_task(reqs, t)),
            decreases world.model_tasks.len() - i,
        {
            proof {
                assert(model_tasks.take(i + 1).drop_last() =~= model_tasks.take(i as int));
            }
            let row = world.model_tasks[i];
            let drop = is_request_of_turn(&world.model_requests, row.0, t);
            proof {
                let s1 = model_tasks.take(i + 1);
                reveal_with_fuel(Seq::filter, 1);
                assert(s1.last() == row);
                assert(keeps_request_task(reqs, t)(row) == !drop);
                assert(s1.filter(keeps_request_task(reqs, t)) == if !drop {
                    model_tasks.take(i as int).filter(keeps_request_task(reqs, t)).push(row)
                } else {
                    model_tasks.take(i as int).filter(keeps_request_task(reqs, t))
                });
            }
            if !drop {
                kept.push(row);
            }
            i = i + 1;
        }
        proof {
            assert(model_tasks.take(i as int) =~= model_tasks);
        }
        world.model_tasks = kept;
        let mut kept: Vec<(Entity, ())> = Vec::new();
        let mut i: usize = 0;
        while i < world.tool_tasks.len()
            invariant
                i <= world.tool_tasks@.len(),
                world.tool_tasks@ == tool_tasks,
                world.tool_uses@ == uses,
                kept@ == tool_tasks.take(i as int).filter(keeps_tool_task(uses, t)),
            decreases world.tool_tasks.len() - i,
        {
            proof {
                assert(tool_tasks.take(i + 1).drop_last() =~= tool_tasks.take(i as int));
            }
            let row = world.tool_tasks[i];
            let drop = is_tool_use_of_turn(&world.tool_uses, row.0, t);
            proof {
                let s1 = tool_tasks.take(i + 1);
                reveal_with_fuel(Seq::filter, 1);
                assert(s1.last() == row);
                assert(keeps_tool_task(uses, t)(row) == !drop);
                assert(s1.filter(keeps_tool_task(uses, t)) == if !drop {
                    tool_tasks.take(i as int).filter(keeps_tool_task(uses, t)).push(row)
                } else {
                    tool_tasks.take(i as int).filter(keeps_tool_task(uses, t))
                });
            }
            if !drop {
                kept.push(row);
            }
            i = i + 1;
        }
        proof {
            assert(tool_tasks.take(i as int) =~= tool_tasks);
        }
        world.tool_tasks = kept;
        cancel_turn_requests(&mut world.model_requests, t);
        cancel_turn_tool_uses(&mut world.tool_uses, t);
        let mut ids = world.ids.unwrap();
        let sequence = ids.sequence();
        world.ids = Some(ids);
        let outcome = world.spawn();
        world.turns_cancelled.push((outcome, TurnCancelled { turn: t, generation, sequence }));
        CommandResult::TurnInterrupted { turn: t, generation }
    }
}

} // verus!
