use majin::hydrate::{apply_record, ReplayState};
use majin::log::write_due;
use majin::collect::{collect_events, EventEntry};
use majin::execution::{
    apply_model_results, apply_tool_results, dispatch_model_requests, dispatch_tool_uses,
    DispatchOutcome, ToolDispatchOutcome,
};
use majin::fake::{fake_provider_output, fake_tool_output};
use majin::log::{
    changed_events, commit_batch, parse_session_stem, persistence_batches, record_failure, still_dirty,
    SessionBatch, SessionNameError,
};
use majin::recovery::recover_orphaned_work;
use majin::replay::{validate_files, LoadedFile};
use majin::{
    run, session_path, CommandResult, Entity, Event, ModelResult, PersistenceConfig,
    PersistenceState, Record, SessionId, SubmitPrompt, ToolResult, World,
    WorkStatus, SCHEMA_VERSION,
};

fn ready() -> (World, PersistenceState, Entity) {
    let mut world = World::new();
    let mut state = PersistenceState::new();
    let (_agent, session) = run(&mut world, &mut state, false, &Vec::new()).expect("harness starts");
    (world, state, session)
}

fn submit(world: &mut World, session: Entity, text: &str) -> Entity {
    match (SubmitPrompt { session, text: text.to_owned() }).apply(world) {
        CommandResult::PromptSubmitted { turn, .. } => turn,
        other => panic!("prompt rejected: {other:?}"),
    }
}

fn complete_turn(world: &mut World, session: Entity, text: &str) -> Entity {
    let turn = submit(world, session, text);
    for _ in 0..2 {
        let mut results = Vec::new();
        for (work, outcome) in dispatch_model_requests(world) {
            if let DispatchOutcome::Launched(input) = outcome {
                let request = world.model_requests.iter().find(|(e, _)| *e == work).unwrap().1;
                results.push(ModelResult {
                    session,
                    turn,
                    work,
                    request_id: input.request_id,
                    generation: request.generation,
                    result: fake_provider_output(&input),
                });
            }
        }
        apply_model_results(world, results);
        let mut results = Vec::new();
        for (work, outcome) in dispatch_tool_uses(world) {
            if let ToolDispatchOutcome::Launched(input) = outcome {
                let tool_use = &world.tool_uses.iter().find(|(e, _)| *e == work).unwrap().1;
                results.push(ToolResult {
                    session,
                    turn,
                    work,
                    tool_call_id: tool_use.id,
                    generation: tool_use.generation,
                    result: fake_tool_output(&input),
                });
            }
        }
        apply_tool_results(world, results);
    }
    turn
}

/// Writes everything that changed, as the persistence loop does, and returns the log files.
fn persist(world: &World, state: &mut PersistenceState, files: &mut Vec<LoadedFile>) -> usize {
    let (changed, current) = changed_events(world, state).expect("events collect");
    let written = changed.len();
    let batches: Vec<SessionBatch> = persistence_batches(&changed, &state.next_ordinals);
    for batch in batches {
        let records: Vec<Record> = batch
            .records
            .iter()
            .map(|r| Record { schema: r.schema, ordinal: r.ordinal, event: r.event.copy() })
            .collect();
        match files.iter_mut().find(|f| f.session == batch.session) {
            Some(f) => f.records.extend(records),
            None => files.push(LoadedFile {
                session: batch.session,
                path: session_path("sessions", batch.session),
                records,
            }),
        }
        commit_batch(state, batch);
    }
    assert!(!still_dirty(state, current));
    written
}

fn keys(entries: &[EventEntry]) -> Vec<String> {
    entries.iter().map(|e| e.key.clone()).collect()
}

#[test]
fn default_persistence_path_is_the_session_directory() {
    let path = PersistenceConfig::from_home(Some("/home/someone".into())).path;
    assert!(path.starts_with('/'), "default path is not user-scoped: {path:?}");
    let mut parts = path.rsplit('/');
    assert_eq!(parts.next(), Some("sessions"));
    assert_eq!(parts.next(), Some(".majin"));
}

#[test]
fn persistence_config_defaults() {
    let config = PersistenceConfig::from_home(Some("/home/someone/".into()));
    assert_eq!(config.path, "/home/someone/.majin/sessions");
    assert_eq!(config.debounce_ms, 250);
    assert!(config.enabled);
    let none = PersistenceConfig::from_home(None);
    assert!(!none.enabled);
    assert!(none.path.is_empty());
    let off = PersistenceConfig::disabled();
    assert!(!off.enabled);
}

#[test]
fn session_logs_are_named_by_session_id() {
    assert_eq!(session_path("sessions", SessionId(3)), "sessions/session-3.jsonl");
    assert_eq!(session_path("sessions/", SessionId(42)), "sessions/session-42.jsonl");
    assert_eq!(session_path("", SessionId(3)), "session-3.jsonl");
    assert_ne!(session_path("root", SessionId(1)), session_path("root", SessionId(10)));
}

#[test]
fn event_keys_and_sequences() {
    let turn = Event::Turn { id: 5, parent: None, sequence: 9, generation: 0 };
    assert_eq!(turn.key(), "turn:5");
    assert_eq!(turn.sequence(), Some(9));
    let session = Event::Session { id: 1, active_head: None };
    assert_eq!(session.key(), "session");
    assert_eq!(session.sequence(), None);
    assert_eq!(Event::ContextCamera { budget: 10 }.key(), "context-camera");
    let response = Event::ModelResponse {
        request: 1,
        turn: 1,
        model_id: "fake-model".into(),
        provider_id: 1,
        generation: 0,
        response_id: "abc".into(),
        api: majin::ModelApi::Fake,
        input_tokens: 0,
        output_tokens: 1,
        stop_reason: majin::ModelStopReason::Complete,
        opaque_replay: "x".into(),
        sequence: 4,
    };
    assert_eq!(response.key(), "model-response:abc");
    assert_eq!(response.sequence(), Some(4));
    assert_eq!(Event::BranchSelection { head: 2, sequence: 7 }.key(), "branch-selection:7");
    assert_eq!(Event::TurnCompleted { turn: 3, generation: 0, sequence: 8 }.key(), "turn-completed:3");
    assert_eq!(
        Event::ToolOutcome { tool_use: 1, tool_call_id: 6, turn: 1, generation: 0, output: String::new(), sequence: 1 }.key(),
        "tool-outcome:6"
    );
    assert!(turn.same_as(&turn.copy()));
    assert!(!turn.same_as(&session));
}

#[test]
fn a_fresh_world_collects_its_session_and_camera() {
    let (world, _state, _session) = ready();
    let events = collect_events(&world).expect("collects");
    assert_eq!(keys(&events), vec!["1:session".to_owned(), "1:context-camera".to_owned()]);
    assert!(events.iter().all(|e| e.session == SessionId(1)));
}

#[test]
fn persistence_writes_only_what_changed() {
    let (mut world, mut state, session) = ready();
    let mut files = Vec::new();
    assert_eq!(persist(&world, &mut state, &mut files), 2);
    assert_eq!(files.len(), 1);
    assert_eq!(files[0].path, "sessions/session-1.jsonl");
    assert_eq!(files[0].records[0].ordinal, 0);
    assert_eq!(files[0].records[1].ordinal, 1);
    assert!(files[0].records.iter().all(|r| r.schema == SCHEMA_VERSION));

    // Nothing changed: nothing is written.
    assert_eq!(persist(&world, &mut state, &mut files), 0);

    complete_turn(&mut world, session, "hello");
    let written = persist(&world, &mut state, &mut files);
    assert!(written > 0);
    let ordinals: Vec<u64> = files[0].records.iter().map(|r| r.ordinal).collect();
    let expected: Vec<u64> = (0..ordinals.len() as u64).collect();
    assert_eq!(ordinals, expected);
    assert_eq!(persist(&world, &mut state, &mut files), 0);
}

#[test]
fn a_persisted_session_is_restored_after_restart() {
    let (mut world, mut state, session) = ready();
    let mut files = Vec::new();
    let turn = complete_turn(&mut world, session, "remember me");
    persist(&world, &mut state, &mut files);

    let mut restored = World::new();
    let mut restored_state = PersistenceState::new();
    let (_agent, restored_session) =
        run(&mut restored, &mut restored_state, true, &files).expect("restart");
    assert!(restored.harness_ready);
    assert!(restored_state.pending_failure.is_none());
    assert!(!restored_state.blocked);
    assert_eq!(restored.sessions.len(), 1);
    assert_eq!(restored.sessions[0].1.id, SessionId(1));
    assert_eq!(restored.turns.len(), 1);
    assert_eq!(restored.sessions[0].1.active_head, Some(restored.turns[0].0));
    assert_eq!(restored.active_session, Some(restored_session));
    assert_eq!(restored.user_messages.len(), 1);
    assert_eq!(restored.user_messages[0].1.text, "remember me");
    assert_eq!(restored.assistant_messages.len(), world.assistant_messages.len());
    assert_eq!(restored.turns_completed.len(), 1);
    assert_eq!(restored.tool_outcomes.len(), 1);
    let _ = turn;

    // The restored world counts as persisted: nothing new is written.
    let mut again = files;
    assert_eq!(persist(&restored, &mut restored_state, &mut again), 0);

    // Identities continue past those in use.
    let ids = restored.ids.unwrap();
    let old_ids = world.ids.unwrap();
    assert!(ids.next_turn >= old_ids.next_turn);
    assert!(ids.next_sequence >= old_ids.next_sequence);
    submit(&mut restored, restored_session, "after restart");
    let new_turn = restored.turns.last().unwrap().1;
    assert!(new_turn.id.0 > restored.turns[0].1.id.0);
}

#[test]
fn invalid_logs_block_persistence_and_change_nothing() {
    let (world, _state, _session) = ready();
    // Two files for the same Session.
    let session_record = |ordinal| Record { schema: SCHEMA_VERSION, ordinal, event: Event::Session { id: 1, active_head: None } };
    let duplicate = vec![
        LoadedFile { session: SessionId(1), path: "a".into(), records: vec![session_record(1)] },
        LoadedFile { session: SessionId(1), path: "b".into(), records: vec![session_record(1)] },
    ];
    assert!(validate_files(&duplicate, &world).is_err());

    // An unknown schema.
    let schema = vec![LoadedFile {
        session: SessionId(1),
        path: "a".into(),
        records: vec![Record { schema: SCHEMA_VERSION + 1, ordinal: 1, event: Event::Session { id: 1, active_head: None } }],
    }];
    assert!(validate_files(&schema, &world).is_err());

    // A message of a Turn that the log never introduced.
    let dangling = vec![LoadedFile {
        session: SessionId(1),
        path: "a".into(),
        records: vec![
            session_record(1),
            Record {
                schema: SCHEMA_VERSION,
                ordinal: 2,
                event: Event::UserMessage { id: 1, turn: 77, sequence: 1, text: "orphan".into() },
            },
        ],
    }];
    assert!(validate_files(&dangling, &world).is_err());

    let valid = vec![LoadedFile { session: SessionId(1), path: "a".into(), records: vec![session_record(1)] }];
    assert!(validate_files(&valid, &world).is_ok());

    let mut restored = World::new();
    let mut state = PersistenceState::new();
    let started = run(&mut restored, &mut state, true, &dangling);
    assert!(started.is_some());
    assert!(state.blocked);
    assert!(restored.turns.is_empty());
    assert!(restored.user_messages.is_empty());
    assert_eq!(restored.persistence_failures.len(), 1);
}

#[test]
fn persistence_failures_are_reported_once_per_message() {
    let (mut world, mut state, _session) = ready();
    record_failure(&mut world, &mut state, "Persistence save failed: disk full".into());
    record_failure(&mut world, &mut state, "Persistence save failed: disk full".into());
    assert_eq!(world.persistence_failures.len(), 1);
    record_failure(&mut world, &mut state, "Persistence save failed: other".into());
    assert_eq!(world.persistence_failures.len(), 2);
    assert_eq!(world.persistence_failures[1].1.message, "Persistence save failed: other");
}

#[test]
fn orphaned_work_is_cancelled_and_the_turn_interrupted_on_restart() {
    let (mut world, mut state, session) = ready();
    let mut files = Vec::new();
    let turn = submit(&mut world, session, "left running");
    let launched = dispatch_model_requests(&mut world);
    assert_eq!(launched.len(), 1);
    assert_eq!(world.model_requests[0].1.status, WorkStatus::Running);
    persist(&world, &mut state, &mut files);

    let mut restored = World::new();
    let mut restored_state = PersistenceState::new();
    run(&mut restored, &mut restored_state, true, &files).expect("restart");
    assert_eq!(restored.model_requests.len(), 1);
    assert_eq!(restored.model_requests[0].1.status, WorkStatus::Cancelled);
    assert_eq!(restored.turns_interrupted.len(), 1);
    assert_eq!(restored.turns_interrupted[0].1.generation, 1);
    assert_eq!(restored.turns[0].1.generation, 1);
    assert_eq!(restored.recoveries.len(), 1);
    assert_eq!(restored.recoveries[0].1.text, "Recovered interrupted work after restart.");
    assert!(restored.turns_failed.is_empty());
    assert_eq!(restored.turns_interrupted[0].1.turn, restored.turns[0].0);
    let _ = turn;
    // A second recovery finds nothing more to do.
    assert!(recover_orphaned_work(&mut restored).is_empty());
    // The head stays on the interrupted Turn, which is finished, so a new prompt is accepted.
    let active = restored.active_session.unwrap();
    submit(&mut restored, active, "continue");
}

#[test]
fn log_file_names_give_their_session() {
    assert_eq!(parse_session_stem("session-3"), Ok(SessionId(3)));
    assert_eq!(parse_session_stem("session-+7"), Ok(SessionId(7)));
    assert_eq!(parse_session_stem("session-007"), Ok(SessionId(7)));
    assert_eq!(parse_session_stem("session-18446744073709551615"), Ok(SessionId(u64::MAX)));
    assert_eq!(parse_session_stem("session-18446744073709551616"), Err(SessionNameError::TooLarge));
    assert_eq!(parse_session_stem("session-"), Err(SessionNameError::Empty));
    assert_eq!(parse_session_stem("session-+"), Err(SessionNameError::InvalidDigit));
    assert_eq!(parse_session_stem("session-1x"), Err(SessionNameError::InvalidDigit));
    assert_eq!(parse_session_stem("session--1"), Err(SessionNameError::InvalidDigit));
    assert_eq!(parse_session_stem("log-1"), Err(SessionNameError::NotSessionLog));
    assert_eq!(parse_session_stem("sess"), Err(SessionNameError::NotSessionLog));
    for n in [0u64, 9, 10, 12345] {
        let stem = session_path("", SessionId(n)).trim_end_matches(".jsonl").to_owned();
        assert_eq!(parse_session_stem(&stem), Ok(SessionId(n)));
    }
}

#[test]
fn committed_values_are_read_back() {
    // After a write, the state holds exactly the persisted value of every key.
    let (mut world, mut state, session) = ready();
    let mut files = Vec::new();
    complete_turn(&mut world, session, "read back");
    persist(&world, &mut state, &mut files);
    let all = collect_events(&world).unwrap();
    assert_eq!(state.last_values.len(), all.len());
    for entry in &all {
        let (_, value) = state.last_values.iter().find(|(k, _)| *k == entry.key).expect("persisted key");
        assert!(value.same_as(&entry.event));
    }
}

#[test]
fn writes_wait_for_the_debounce_unless_exiting() {
    assert!(!write_due(100, 250, false));
    assert!(write_due(250, 250, false));
    assert!(write_due(0, 250, true));
    assert!(write_due(0, 0, false));
}

fn rec(ordinal: u64, event: Event) -> Record {
    Record { schema: SCHEMA_VERSION, ordinal, event }
}

#[test]
fn cross_session_active_head_is_rejected_before_replay() {
    let world = World::new();
    let files = vec![
        LoadedFile {
            session: SessionId(1),
            path: "session-1.jsonl".into(),
            records: vec![rec(0, Event::Session { id: 1, active_head: Some(5) })],
        },
        LoadedFile {
            session: SessionId(2),
            path: "session-2.jsonl".into(),
            records: vec![
                rec(0, Event::Session { id: 2, active_head: None }),
                rec(1, Event::Turn { id: 5, parent: None, sequence: 1, generation: 0 }),
            ],
        },
    ];
    assert_eq!(
        validate_files(&files, &world),
        Err("Persistence load failed: Session.active_head references TurnId 5 outside Session SessionId(1).".to_string())
    );
}

#[test]
fn malformed_logs_name_their_fault() {
    let world = World::new();
    let ordinals = vec![LoadedFile {
        session: SessionId(1),
        path: "session-1.jsonl".into(),
        records: vec![rec(3, Event::Session { id: 1, active_head: None }), rec(3, Event::ContextCamera { budget: 4096 })],
    }];
    assert_eq!(
        validate_files(&ordinals, &world),
        Err("Persistence load failed: non-increasing ordinal in session-1.jsonl.".to_string())
    );
    let schema = vec![LoadedFile {
        session: SessionId(1),
        path: "session-1.jsonl".into(),
        records: vec![Record { schema: 999, ordinal: 0, event: Event::Session { id: 1, active_head: None } }],
    }];
    assert_eq!(
        validate_files(&schema, &world),
        Err("Persistence load failed: unsupported schema version 999 in session-1.jsonl.".to_string())
    );
    let duplicate = vec![
        LoadedFile { session: SessionId(4), path: "a".into(), records: vec![rec(0, Event::Session { id: 4, active_head: None })] },
        LoadedFile { session: SessionId(4), path: "b".into(), records: vec![rec(0, Event::Session { id: 4, active_head: None })] },
    ];
    assert_eq!(
        validate_files(&duplicate, &world),
        Err("Persistence load failed: duplicate Session SessionId(4).".to_string())
    );
    let no_session = vec![LoadedFile { session: SessionId(1), path: "x.jsonl".into(), records: vec![rec(0, Event::ContextCamera { budget: 1 })] }];
    assert_eq!(
        validate_files(&no_session, &world),
        Err("Persistence load failed: x.jsonl has no Session record.".to_string())
    );
}

#[test]
fn a_missing_capability_is_named() {
    let (world, _state, _session) = ready();
    let files = vec![LoadedFile {
        session: SessionId(1),
        path: "session-1.jsonl".into(),
        records: vec![
            rec(0, Event::Session { id: 1, active_head: None }),
            rec(1, Event::Turn { id: 1, parent: None, sequence: 1, generation: 0 }),
            rec(2, Event::ModelChange { turn: 1, model_id: "other".into(), provider_id: 1, sequence: 2 }),
        ],
    }];
    assert_eq!(
        validate_files(&files, &world),
        Err("Persistence load failed: missing model \"other\" for ProviderId 1.".to_string())
    );
}

#[test]
fn replaying_a_turn_with_an_unknown_parent_names_both_turns() {
    let mut world = World::new();
    let s = world.spawn();
    world.sessions.push((s, majin::Session { id: SessionId(1), active_head: None }));
    let mut replay = ReplayState::new();
    replay.sessions.push((1, s));
    let r = apply_record(&mut world, &mut replay, SessionId(1), &rec(0, Event::Turn { id: 2, parent: Some(1), sequence: 2, generation: 0 }));
    assert_eq!(r, Err("missing replay parent TurnId 1 for TurnId 2".to_string()));
    assert!(world.turns.is_empty());
    assert!(replay.turns.is_empty());
}

#[test]
fn two_sessions_with_one_id_cannot_be_collected() {
    let mut world = World::new();
    for _ in 0..2 {
        let e = world.spawn();
        world.sessions.push((e, majin::Session { id: SessionId(1), active_head: None }));
    }
    assert_eq!(collect_events(&world).err(), Some("duplicate SessionId 1".to_string()));
}
