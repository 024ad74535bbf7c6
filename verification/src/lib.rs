//! Majin: a terminal agent harness. This library holds its domain state, commands, projections,
//! execution bookkeeping, and event-log persistence, each with a specification of what it does.
//!
//! The world is a set of tables of entities and their components. Commands change it, cameras
//! project it, dispatch and result application run provider and tool work against it, and the
//! persistence modules collect its durable facts into per-Session logs and replay them.
pub mod camera;
pub mod collect;
pub mod context;
pub mod events;
pub mod execution;
pub mod fake;
pub mod harness;
pub mod hydrate;
pub mod ids;
pub mod key_laws;
pub mod laws;
pub mod log;
pub mod logfile;
pub mod order;
pub mod projection_laws;
pub mod recovery;
pub mod replay;
pub mod replay_laws;
pub mod startup;
pub mod text;
pub mod tui;
pub mod world;

pub use camera::{project_transcript, TranscriptRow};
pub use context::{project_context, ContextDocument, ContextEntry, ProjectionError};
pub use events::{Event, Record, StoredTurnFailure, StoredTurnFailureKind, SCHEMA_VERSION};
pub use execution::{ModelOutput, ModelReply, ModelResult, ToolResult};
pub use harness::{CommandFailure, CommandResult, InterruptTurn, SelectBranch, SelectSession, SubmitPrompt};
pub use ids::{
    Entity, HarnessIds, MessageId, ModelRequestId, ProviderId, Sequence, SessionId, ToolCallId,
    ToolId, TurnId,
};
pub use log::{session_path, PersistenceConfig, PersistenceState};
pub use startup::{run, MajinSet};
pub use tui::{TerminalTranscriptViewport, TuiView};
pub use world::{
    Agent, AgentTool, AssistantMessage, BranchSelection, Compaction, ContextCamera, Model,
    ModelApi, ModelChange, ModelRequest, ModelResponse, ModelStopReason, ModelUsage, Provider,
    ProviderFailure, Recovery, RecoveryFailure, Session, ToolDefinition, ToolFailure, ToolOutcome,
    ToolUse, TranscriptCamera, Turn, TurnCancelled, TurnCompleted, TurnFailed, TurnFailure,
    TurnInterrupted, UserMessage, WorkStatus, World,
};
