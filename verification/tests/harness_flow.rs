use majin::harness::active_head_busy;
use majin::tui::{handle_key, Key, KeyAction};
use majin::execution::{
    apply_model_results, apply_tool_results, dispatch_model_requests, dispatch_tool_uses,
    DispatchOutcome, ModelVerdict, ToolDispatchOutcome,
};
use majin::fake::{fake_provider_output, fake_tool_output};
use majin::tui::{handle_wheel, spawn_tui_view, sync_transcript_camera, Wheel};
use majin::{
    project_transcript, run, CommandFailure, CommandResult, Entity, InterruptTurn, ModelApi,
    ModelOutput, ModelReply, ModelResult, ModelStopReason, ModelUsage, PersistenceState,
    ProviderFailure, SelectBranch, SelectSession, Sequence, Session, SessionId, SubmitPrompt,
    ToolCallId, ToolId, ToolResult, TranscriptRow, Turn, TurnId, World,
};

fn ready() -> (World, PersistenceState, Entity, Entity) {
    let mut world = World::new();
    let mut state = PersistenceState::new();
    let (agent, session) = run(&mut world, &mut state, false, &Vec::new()).expect("harness starts");
    (world, state, agent, session)
}

fn rows(world: &World, camera: Entity) -> Vec<(&'static str, String)> {
    project_transcript(world, camera)
        .into_iter()
        .map(|row| match row {
            TranscriptRow::User(t) => ("user", t),
            TranscriptRow::Assistant(t) => ("assistant", t),
            TranscriptRow::Error(t) => ("error", t),
        })
        .collect()
}

fn submit(world: &mut World, session: Entity, text: &str) -> Entity {
    match (SubmitPrompt { session, text: text.to_owned() }).apply(world) {
        CommandResult::PromptSubmitted { turn, .. } => turn,
        other => panic!("prompt rejected: {other:?}"),
    }
}

fn request_of(world: &World, work: Entity) -> majin::ModelRequest {
    world.model_requests.iter().find(|(e, _)| *e == work).expect("request").1
}

/// Dispatches the pending model requests and answers each with the fake Provider.
fn model_step(world: &mut World, session: Entity) -> Vec<ModelVerdict> {
    let mut results = Vec::new();
    for (work, outcome) in dispatch_model_requests(world) {
        if let DispatchOutcome::Launched(input) = outcome {
            let request = request_of(world, work);
            results.push(ModelResult {
                session,
                turn: request.turn,
                work,
                request_id: input.request_id,
                generation: request.generation,
                result: fake_provider_output(&input),
            });
        }
    }
    apply_model_results(world, results)
}

/// Dispatches the pending tool uses and answers each with the fake tool.
fn tool_step(world: &mut World, session: Entity) -> Vec<bool> {
    let mut results = Vec::new();
    for (work, outcome) in dispatch_tool_uses(world) {
        if let ToolDispatchOutcome::Launched(input) = outcome {
            let tool_use = &world.tool_uses.iter().find(|(e, _)| *e == work).expect("tool use").1;
            results.push(ToolResult {
                session,
                turn: tool_use.turn,
                work,
                tool_call_id: tool_use.id,
                generation: tool_use.generation,
                result: fake_tool_output(&input),
            });
        }
    }
    apply_tool_results(world, results)
}

fn assistant_texts(world: &World, turn: Entity) -> Vec<String> {
    world
        .assistant_messages
        .iter()
        .filter(|(_, m)| m.turn == turn)
        .map(|(_, m)| m.text.clone())
        .collect()
}

fn tool_call_output(input: &str, stop_reason: ModelStopReason) -> ModelOutput {
    ModelOutput {
        reply: ModelReply::ToolCall { tool_id: ToolId(1), input: input.into() },
        assistant_content: Some("injected tool call".into()),
        response_id: "injected-response".into(),
        api: ModelApi::Fake,
        usage: ModelUsage { input_tokens: 1, output_tokens: 1 },
        stop_reason,
        opaque_replay: "injected".into(),
    }
}

fn final_output(assistant_content: Option<&str>) -> ModelOutput {
    ModelOutput {
        reply: ModelReply::Final { text: "provided final".into() },
        assistant_content: assistant_content.map(str::to_owned),
        response_id: "provided-final".into(),
        api: ModelApi::Fake,
        usage: ModelUsage { input_tokens: 1, output_tokens: 1 },
        stop_reason: ModelStopReason::Complete,
        opaque_replay: "provided-final".into(),
    }
}

#[test]
fn startup_creates_a_terminal_view_for_the_active_session() {
    let (mut world, _state, _agent, session) = ready();
    let (view, viewport) = spawn_tui_view(&mut world);
    let camera = world
        .transcript_cameras
        .iter()
        .find(|(e, _)| *e == view.transcript_camera)
        .expect("transcript camera")
        .1;
    assert_eq!(camera.session, session);
    assert_eq!(camera.head, None);
    assert_eq!(viewport.scroll_from_bottom, 0);
    assert!(view.composer.is_empty());
}

#[test]
fn selecting_a_session_updates_the_transcript_camera() {
    let (mut world, _state, _agent, _session) = ready();
    let (view, _viewport) = spawn_tui_view(&mut world);
    let session = world.spawn();
    world.sessions.push((session, Session { id: SessionId(2), active_head: None }));
    let head = world.spawn();
    world.turns.push((
        head,
        Turn { id: TurnId(1), session, parent: None, sequence: Sequence(1), generation: 0 },
    ));
    world.sessions.last_mut().unwrap().1.active_head = Some(head);

    assert_eq!(
        (SelectSession { session }).apply(&mut world),
        CommandResult::SessionSelected { session }
    );
    sync_transcript_camera(&mut world, view.transcript_camera);

    assert_eq!(world.active_session, Some(session));
    let camera = world.transcript_cameras.iter().find(|(e, _)| *e == view.transcript_camera).unwrap().1;
    assert_eq!(camera.session, session);
    assert_eq!(camera.head, Some(head));
}

#[test]
fn mouse_scroll_moves_the_terminal_viewport() {
    let (mut world, _state, _agent, _session) = ready();
    let (_view, mut viewport) = spawn_tui_view(&mut world);
    handle_wheel(&mut viewport, Wheel::Up);
    assert_eq!(viewport.scroll_from_bottom, 3);
    handle_wheel(&mut viewport, Wheel::Down);
    assert_eq!(viewport.scroll_from_bottom, 0);
}

#[test]
fn commands_reject_before_harness_ready() {
    let mut world = World::new();
    let session = world.spawn();
    let result = (SubmitPrompt { session, text: "blocked".into() }).apply(&mut world);
    assert!(!world.harness_ready);
    assert_eq!(
        result,
        CommandResult::PromptRejected { session, failure: CommandFailure::HarnessNotReady }
    );
    assert!(world.turns.is_empty());
}

#[test]
fn startup_registers_capabilities_and_one_session() {
    let (world, state, agent, session) = ready();
    assert!(world.harness_ready);
    assert_eq!(world.active_agent, Some(agent));
    assert_eq!(world.active_session, Some(session));
    assert_eq!(world.providers.len(), 1);
    assert_eq!(world.models.len(), 1);
    assert_eq!(world.models[0].1.model_id, "fake-model");
    assert_eq!(world.tools.len(), 1);
    assert_eq!(world.tools[0].1.name, "fake_tool");
    assert_eq!(world.agents.len(), 1);
    assert_eq!(world.sessions.len(), 1);
    assert_eq!(world.sessions[0].1.id, SessionId(1));
    assert_eq!(world.sessions[0].1.active_head, None);
    assert_eq!(world.context_cameras.len(), 1);
    assert!(world.ids.is_some());
    assert!(state.pending_failure.is_none());
}

#[test]
fn a_prompt_runs_the_fake_tool_and_completes_the_turn() {
    let (mut world, _state, _agent, session) = ready();
    let (view, _viewport) = spawn_tui_view(&mut world);
    let turn = submit(&mut world, session, "  hello  ");

    let user = &world.user_messages.iter().find(|(_, m)| m.turn == turn).unwrap().1;
    assert_eq!(user.text, "hello");
    assert_eq!(world.sessions[0].1.active_head, Some(turn));

    assert_eq!(model_step(&mut world, session), vec![ModelVerdict::ToolCall]);
    assert_eq!(world.tool_uses.len(), 1);
    assert_eq!(world.tool_uses[0].1.input, "hello");
    assert_eq!(tool_step(&mut world, session), vec![true]);
    assert_eq!(world.tool_outcomes.len(), 1);
    assert_eq!(world.tool_outcomes[0].1.output, "Fake tool completed: hello");
    assert_eq!(model_step(&mut world, session), vec![ModelVerdict::Final]);

    assert_eq!(world.turns_completed.len(), 1);
    assert_eq!(world.turns_completed[0].1.turn, turn);
    assert!(world.turns_failed.is_empty());
    assert_eq!(
        assistant_texts(&world, turn),
        vec!["Calling fake_tool.".to_owned(), "Fake harness completed the request.".to_owned()]
    );
    assert_eq!(world.model_responses.len(), 2);
    assert_eq!(world.model_responses[0].1.response_id, "fake-response-1");

    sync_transcript_camera(&mut world, view.transcript_camera);
    assert_eq!(
        rows(&world, view.transcript_camera),
        vec![
            ("user", "hello".to_owned()),
            ("assistant", "Calling fake_tool.".to_owned()),
            ("assistant", "Fake harness completed the request.".to_owned()),
        ]
    );
    // Nothing is left to dispatch.
    assert!(dispatch_model_requests(&mut world).is_empty());
    assert!(dispatch_tool_uses(&mut world).is_empty());
}

#[test]
fn empty_prompts_and_busy_heads_are_rejected() {
    let (mut world, _state, _agent, session) = ready();
    assert_eq!(
        (SubmitPrompt { session, text: "   ".into() }).apply(&mut world),
        CommandResult::PromptRejected { session, failure: CommandFailure::EmptyPrompt }
    );
    let missing = Entity(999);
    assert_eq!(
        (SubmitPrompt { session: missing, text: "hi".into() }).apply(&mut world),
        CommandResult::PromptRejected { session: missing, failure: CommandFailure::MissingSession }
    );
    submit(&mut world, session, "first");
    assert_eq!(
        (SubmitPrompt { session, text: "second".into() }).apply(&mut world),
        CommandResult::PromptRejected { session, failure: CommandFailure::ActiveTurn }
    );
    assert_eq!(world.turns.len(), 1);
}

#[test]
fn stale_model_results_are_ignored_and_valid_results_apply_once() {
    let (mut world, _state, _agent, session) = ready();
    let turn = submit(&mut world, session, "stale result");
    let launched = dispatch_model_requests(&mut world);
    assert_eq!(launched.len(), 1);
    let work = launched[0].0;
    let request = request_of(&world, work);
    let verdicts = apply_model_results(
        &mut world,
        vec![
            ModelResult {
                session,
                turn,
                work,
                request_id: request.id,
                generation: request.generation + 1,
                result: Ok(tool_call_output("stale", ModelStopReason::ToolUse)),
            },
            ModelResult {
                session,
                turn,
                work,
                request_id: request.id,
                generation: request.generation,
                result: Ok(tool_call_output("valid", ModelStopReason::ToolUse)),
            },
            ModelResult {
                session,
                turn,
                work,
                request_id: request.id,
                generation: request.generation,
                result: Ok(tool_call_output("again", ModelStopReason::ToolUse)),
            },
        ],
    );
    assert_eq!(verdicts, vec![ModelVerdict::Stale, ModelVerdict::ToolCall, ModelVerdict::Stale]);
    assert_eq!(world.model_responses.len(), 1);
    assert_eq!(world.tool_uses.len(), 1);
    assert_eq!(world.tool_uses[0].1.input, "valid");
    assert!(world.turns_failed.is_empty());
}

#[test]
fn stale_tool_results_are_ignored_and_valid_results_apply_once() {
    let (mut world, _state, _agent, session) = ready();
    let turn = submit(&mut world, session, "stale result");
    assert_eq!(model_step(&mut world, session), vec![ModelVerdict::ToolCall]);
    let launched = dispatch_tool_uses(&mut world);
    assert_eq!(launched.len(), 1);
    let work = launched[0].0;
    let tool_use = &world.tool_uses[0].1;
    let (id, generation) = (tool_use.id, tool_use.generation);
    let fresh = apply_tool_results(
        &mut world,
        vec![
            ToolResult {
                session,
                turn,
                work,
                tool_call_id: ToolCallId(id.0 + 1),
                generation,
                result: Ok("stale".into()),
            },
            ToolResult { session, turn, work, tool_call_id: id, generation, result: Ok("valid".into()) },
        ],
    );
    assert_eq!(fresh, vec![false, true]);
    assert_eq!(world.tool_outcomes.len(), 1);
    assert_eq!(world.tool_outcomes[0].1.output, "valid");
    assert!(world.turns_failed.is_empty());
}

#[test]
fn invalid_provider_outputs_record_the_response_then_fail() {
    for output in [tool_call_output("wrong stop", ModelStopReason::Complete), final_output(Some("wrong continuation"))] {
        let (mut world, _state, _agent, session) = ready();
        let turn = submit(&mut world, session, "pending model");
        let work = dispatch_model_requests(&mut world)[0].0;
        let request = request_of(&world, work);
        let verdicts = apply_model_results(
            &mut world,
            vec![ModelResult {
                session,
                turn,
                work,
                request_id: request.id,
                generation: request.generation,
                result: Ok(output),
            }],
        );
        assert_eq!(verdicts, vec![ModelVerdict::Mismatch]);
        assert_eq!(world.model_responses.len(), 1);
        assert!(world.tool_uses.is_empty());
        assert!(world.turns_completed.is_empty());
        assert_eq!(world.turns_failed.len(), 1);
        assert_eq!(world.turns_failed[0].1.turn, turn);
    }
}

#[test]
fn provider_failures_fail_the_turn() {
    let (mut world, _state, _agent, session) = ready();
    let turn = submit(&mut world, session, "fails");
    let work = dispatch_model_requests(&mut world)[0].0;
    let request = request_of(&world, work);
    let verdicts = apply_model_results(
        &mut world,
        vec![ModelResult {
            session,
            turn,
            work,
            request_id: request.id,
            generation: request.generation,
            result: Err(ProviderFailure { message: "provider down".into() }),
        }],
    );
    assert_eq!(verdicts, vec![ModelVerdict::ProviderFailed]);
    assert!(world.model_responses.is_empty());
    assert_eq!(world.turns_failed.len(), 1);
    match &world.turns_failed[0].1.failure {
        majin::TurnFailure::Provider(f) => assert_eq!(f.message, "provider down"),
        other => panic!("unexpected failure {other:?}"),
    }
    // The head is finished, so a new prompt is accepted.
    submit(&mut world, session, "again");
}

#[test]
fn final_reply_text_is_persisted_when_provider_omits_assistant_content() {
    let (mut world, _state, _agent, session) = ready();
    let turn = submit(&mut world, session, "pending tool");
    assert_eq!(model_step(&mut world, session), vec![ModelVerdict::ToolCall]);
    assert_eq!(tool_step(&mut world, session), vec![true]);
    let work = dispatch_model_requests(&mut world)[0].0;
    let request = request_of(&world, work);
    assert!(request.previous_tool_use.is_some());
    let verdicts = apply_model_results(
        &mut world,
        vec![ModelResult {
            session,
            turn,
            work,
            request_id: request.id,
            generation: request.generation,
            result: Ok(final_output(None)),
        }],
    );
    assert_eq!(verdicts, vec![ModelVerdict::Final]);
    assert_eq!(
        assistant_texts(&world, turn),
        vec!["Calling fake_tool.".to_owned(), "provided final".to_owned()]
    );
    assert_eq!(world.turns_completed.len(), 1);
}

#[test]
fn interrupting_model_work_rejects_late_results_without_new_outcomes() {
    let (mut world, _state, _agent, session) = ready();
    let turn = submit(&mut world, session, "interrupt me");
    let work = dispatch_model_requests(&mut world)[0].0;
    let request = request_of(&world, work);
    let result = (InterruptTurn { turn }).apply(&mut world);
    assert_eq!(result, CommandResult::TurnInterrupted { turn, generation: 1 });
    let verdicts = apply_model_results(
        &mut world,
        vec![ModelResult {
            session,
            turn,
            work,
            request_id: request.id,
            generation: request.generation,
            result: Err(ProviderFailure { message: "late model".into() }),
        }],
    );
    assert_eq!(verdicts, vec![ModelVerdict::Stale]);
    assert_eq!(world.turns_cancelled.len(), 1);
    assert!(world.turns_failed.is_empty());
    assert!(world.turns_completed.is_empty());
    assert!(world.tool_outcomes.is_empty());
    assert!(world.model_responses.is_empty());
    assert_eq!(request_of(&world, work).status, majin::WorkStatus::Cancelled);
    assert_eq!(
        (InterruptTurn { turn }).apply(&mut world),
        CommandResult::InterruptRejected { turn, failure: CommandFailure::TurnFinished }
    );
}

#[test]
fn interrupting_tool_work_rejects_late_results_without_new_outcomes() {
    let (mut world, _state, _agent, session) = ready();
    let turn = submit(&mut world, session, "interrupt me");
    assert_eq!(model_step(&mut world, session), vec![ModelVerdict::ToolCall]);
    let work = dispatch_tool_uses(&mut world)[0].0;
    let (id, generation) = (world.tool_uses[0].1.id, world.tool_uses[0].1.generation);
    (InterruptTurn { turn }).apply(&mut world);
    let fresh = apply_tool_results(
        &mut world,
        vec![ToolResult { session, turn, work, tool_call_id: id, generation, result: Ok("late tool".into()) }],
    );
    assert_eq!(fresh, vec![false]);
    assert_eq!(world.turns_cancelled.len(), 1);
    assert!(world.turns_failed.is_empty());
    assert!(world.turns_completed.is_empty());
    assert!(world.tool_outcomes.is_empty());
    assert_eq!(world.model_responses.len(), 1);
}

#[test]
fn selecting_an_earlier_branch_moves_the_transcript() {
    let (mut world, _state, _agent, session) = ready();
    let (view, _viewport) = spawn_tui_view(&mut world);
    let first = submit(&mut world, session, "one");
    model_step(&mut world, session);
    tool_step(&mut world, session);
    model_step(&mut world, session);
    let second = submit(&mut world, session, "two");
    assert_eq!(world.turns.iter().find(|(e, _)| *e == second).unwrap().1.parent, Some(first));
    (InterruptTurn { turn: second }).apply(&mut world);

    assert_eq!(
        (SelectBranch { session, head: first }).apply(&mut world),
        CommandResult::BranchSelected { session, head: first }
    );
    sync_transcript_camera(&mut world, view.transcript_camera);
    let shown = rows(&world, view.transcript_camera);
    assert_eq!(shown[0], ("user", "one".to_owned()));
    assert!(shown.iter().all(|(_, t)| t != "two"));

    let missing = Entity(12345);
    assert_eq!(
        (SelectBranch { session, head: missing }).apply(&mut world),
        CommandResult::BranchRejected { session, head: missing, failure: CommandFailure::MissingTurn }
    );
}

#[test]
fn queued_text_waits_in_the_composer_while_work_is_active() {
    let (mut world, _state, _agent, _session) = ready();
    let (mut view, mut viewport) = spawn_tui_view(&mut world);
    let mut send = |world: &mut World, view: &mut majin::TuiView, text: &str| {
        for c in text.chars() {
            handle_key(view, &mut viewport, Key::Char(c), false, false, true, active_head_busy(world));
        }
        let busy = active_head_busy(world);
        if let KeyAction::Submit(text) = handle_key(view, &mut viewport, Key::Enter, false, false, true, busy) {
            let session = world.active_session.unwrap();
            (SubmitPrompt { session, text }).apply(world);
        }
    };
    send(&mut world, &mut view, "first");
    assert!(view.composer.is_empty());
    send(&mut world, &mut view, "second");
    assert_eq!(view.composer, "second");
    assert_eq!(world.turns.len(), 1);
    assert!(active_head_busy(&world));
}
