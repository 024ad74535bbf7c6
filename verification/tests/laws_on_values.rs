use majin::collect::collect_events;
use majin::execution::{dispatch_model_requests, DispatchOutcome};
use majin::fake::reconcile_fake_capabilities;
use majin::hydrate::{apply_record, ReplayState};
use majin::recovery::recover_orphaned_work;
use majin::replay::{validate_files, LoadedFile};
use majin::{
    run, CommandResult, ContextCamera, Entity, Event, ModelApi, ModelStopReason, PersistenceState, Record,
    SessionId, SubmitPrompt, WorkStatus, World, SCHEMA_VERSION,
};

fn ready() -> (World, Entity, Entity) {
    let mut world = World::new();
    let mut state = PersistenceState::new();
    let (agent, session) = run(&mut world, &mut state, false, &Vec::new()).expect("harness starts");
    (world, agent, session)
}

fn submit(world: &mut World, session: Entity, text: &str) -> Entity {
    match (SubmitPrompt { session, text: text.to_owned() }).apply(world) {
        CommandResult::PromptSubmitted { turn, .. } => turn,
        other => panic!("prompt rejected: {other:?}"),
    }
}

fn rec(ordinal: u64, event: Event) -> Record {
    Record { schema: SCHEMA_VERSION, ordinal, event }
}

#[test]
fn event_keys_identify_their_events() {
    let turn = Event::Turn { id: 7, parent: None, sequence: 1, generation: 0 };
    let same_turn = Event::Turn { id: 7, parent: Some(3), sequence: 9, generation: 2 };
    let other_turn = Event::Turn { id: 70, parent: None, sequence: 1, generation: 0 };
    let completed = Event::TurnCompleted { turn: 7, generation: 0, sequence: 2 };
    let cancelled = Event::TurnCancelled { turn: 7, generation: 0, sequence: 2 };
    let response = Event::ModelResponse {
        request: 1,
        turn: 7,
        model_id: "fake-model".into(),
        provider_id: 1,
        generation: 0,
        response_id: "7".into(),
        api: ModelApi::Fake,
        input_tokens: 0,
        output_tokens: 1,
        stop_reason: ModelStopReason::Complete,
        opaque_replay: String::new(),
        sequence: 3,
    };
    assert_eq!(turn.key(), same_turn.key());
    assert_ne!(turn.key(), other_turn.key());
    assert_ne!(turn.key(), completed.key());
    assert_ne!(completed.key(), cancelled.key());
    assert_ne!(turn.key(), response.key());
    assert_eq!(
        Event::Session { id: 1, active_head: None }.key(),
        Event::Session { id: 2, active_head: Some(4) }.key()
    );
}

#[test]
fn reconciling_twice_spawns_nothing() {
    let mut world = World::new();
    let first = reconcile_fake_capabilities(&mut world);
    let spawned = world.next_entity;
    let providers = world.providers.len();
    let agents = world.agents.len();
    let exposures = world.agent_tools.len();
    let second = reconcile_fake_capabilities(&mut world);
    assert_eq!(first, second);
    assert_eq!(world.next_entity, spawned);
    assert_eq!(world.providers.len(), providers);
    assert_eq!(world.agents.len(), agents);
    assert_eq!(world.agent_tools.len(), exposures);
    assert_eq!(world.models.len(), 1);
    assert_eq!(world.tools.len(), 1);
    assert_eq!(world.provider_executors.len(), 1);
    assert_eq!(world.tool_executors.len(), 1);
}

#[test]
fn recovering_twice_changes_nothing() {
    let (mut world, _agent, session) = ready();
    let turn = submit(&mut world, session, "hello");
    dispatch_model_requests(&mut world);
    assert_eq!(world.model_requests[0].1.status, WorkStatus::Running);
    assert_eq!(recover_orphaned_work(&mut world), vec![turn]);
    let requests = world.model_requests.clone();
    let interrupted = world.turns_interrupted.len();
    let recoveries = world.recoveries.len();
    let next_entity = world.next_entity;
    assert!(recover_orphaned_work(&mut world).is_empty());
    assert_eq!(world.model_requests, requests);
    assert_eq!(world.turns_interrupted.len(), interrupted);
    assert_eq!(world.recoveries.len(), recoveries);
    assert_eq!(world.next_entity, next_entity);
}

#[test]
fn cameras_that_do_not_persist_are_not_collected() {
    let (mut world, agent, _session) = ready();
    let before = collect_events(&world).expect("events collect");
    let dangling = Entity(world.next_entity + 100);
    let camera = world.spawn();
    world.context_cameras.push((
        camera,
        ContextCamera { agent, session: dangling, head: None, budget: 7, persistent: false },
    ));
    let after = collect_events(&world).expect("events collect");
    assert_eq!(before.len(), after.len());
    for (a, b) in before.iter().zip(after.iter()) {
        assert_eq!(a.key, b.key);
        assert_eq!(a.session, b.session);
    }
}

#[test]
fn dispatch_leaves_running_requests_alone() {
    let (mut world, _agent, session) = ready();
    submit(&mut world, session, "hello");
    let first = dispatch_model_requests(&mut world);
    assert!(matches!(first[0].1, DispatchOutcome::Launched(_)));
    let request = world.model_requests[0];
    let tasks = world.model_tasks.len();
    let second = dispatch_model_requests(&mut world);
    assert!(second.is_empty());
    assert_eq!(world.model_requests[0], request);
    assert_eq!(world.model_tasks.len(), tasks);
}

#[test]
fn replaying_a_known_turn_rewrites_its_entity() {
    let mut world = World::new();
    let s = world.spawn();
    world.sessions.push((s, majin::Session { id: SessionId(1), active_head: None }));
    let mut replay = ReplayState::new();
    replay.sessions.push((1, s));
    let first = rec(0, Event::Turn { id: 1, parent: None, sequence: 1, generation: 0 });
    let again = rec(1, Event::Turn { id: 1, parent: None, sequence: 4, generation: 2 });
    assert_eq!(apply_record(&mut world, &mut replay, SessionId(1), &first), Ok(()));
    let entity = world.turns[0].0;
    assert_eq!(apply_record(&mut world, &mut replay, SessionId(1), &again), Ok(()));
    assert_eq!(world.turns.len(), 1);
    assert_eq!(world.turns[0].0, entity);
    assert_eq!(world.turns[0].1.sequence.0, 4);
    assert_eq!(world.turns[0].1.generation, 2);
    assert_eq!(replay.turns, vec![(1, entity)]);
}

#[test]
fn the_first_missing_capability_is_named() {
    let (world, _agent, _session) = ready();
    let files = vec![LoadedFile {
        session: SessionId(1),
        path: "session-1.jsonl".into(),
        records: vec![
            rec(0, Event::Session { id: 1, active_head: None }),
            rec(1, Event::Turn { id: 1, parent: None, sequence: 1, generation: 0 }),
            rec(2, Event::ModelChange { turn: 1, model_id: "first".into(), provider_id: 1, sequence: 2 }),
            rec(3, Event::ModelChange { turn: 1, model_id: "second".into(), provider_id: 1, sequence: 3 }),
        ],
    }];
    assert_eq!(
        validate_files(&files, &world),
        Err("Persistence load failed: missing model \"first\" for ProviderId 1.".to_string())
    );
}

#[test]
fn the_first_turn_without_a_session_is_named() {
    let mut world = World::new();
    for _ in 0..2 {
        let e = world.spawn();
        let missing = Entity(e.0 + 50);
        world.turns.push((
            e,
            majin::Turn {
                id: majin::TurnId(e.0 + 1),
                session: missing,
                parent: None,
                sequence: majin::Sequence(1),
                generation: 0,
            },
        ));
    }
    assert_eq!(collect_events(&world).err(), Some("entity 50 is missing Session".to_string()));
}
