use vstd::prelude::*;

use crate::camera::{branch, branch_order, walk_branch, BranchError};
use vstd::string::StringSliceAdditionalSpecFns;
use crate::ids::{Entity, ToolCallId};
use crate::order::{is_sorted_perm, reorder, sort_order, Key};
use crate::world::{
    get, lemma_find, position, AssistantMessage, Compaction, ContextCamera, ModelChange, Recovery,
    ToolOutcome, ToolUse, UserMessage, World,
};

verus! {

/// One provider-neutral context entry.
#[derive(Debug)]
pub enum ContextEntry {
    User(String),
    Assistant(String),
    ToolUse { tool_call_id: ToolCallId, tool: String, input: String },
    ToolOutcome { tool_call_id: ToolCallId, tool: String, output: String },
    ModelChange(String),
    Compaction(String),
    Recovery(String),
}

/// Ordered provider-neutral camera output.
#[derive(Debug)]
pub struct ContextDocument {
    pub entries: Vec<ContextEntry>,
}

/// Why a context projection failed.
#[derive(Debug, Clone, Copy, PartialEq, Eq, Structural)]
pub enum ProjectionError {
    MissingCamera,
    MissingTurn,
    CrossSession,
    Cycle,
    MissingModel,
}

/// The abstract value of an entry: its kind (user, assistant, tool use, tool outcome, model
/// change, compaction, recovery, numbered from zero), its tool call ID (zero when it has none),
/// its text or tool name, and, for tool entries, the tool input or output.
pub type EntryView = (nat, u64, Seq<char>, Seq<char>);

impl ContextEntry {
    pub open spec fn view(&self) -> EntryView {
        match self {
            ContextEntry::User(t) => (0, 0, t@, Seq::empty()),
            ContextEntry::Assistant(t) => (1, 0, t@, Seq::empty()),
            ContextEntry::ToolUse { tool_call_id, tool, input } => (2, tool_call_id.0, tool@, input@),
            ContextEntry::ToolOutcome { tool_call_id, tool, output } => (
                3,
                tool_call_id.0,
                tool@,
                output@,
            ),
            ContextEntry::ModelChange(t) => (4, 0, t@, Seq::empty()),
            ContextEntry::Compaction(t) => (5, 0, t@, Seq::empty()),
            ContextEntry::Recovery(t) => (6, 0, t@, Seq::empty()),
        }
    }

    /// The budget cost of the entry: the UTF-8 length of its text, tool input, or tool output
    /// (as the machine's `usize` holds it).
    pub open spec fn cost(v: EntryView) -> nat {
        if v.0 == 2 || v.0 == 3 {
            (vstd::utf8::encode_utf8(v.3).len() as usize) as nat
        } else {
            (vstd::utf8::encode_utf8(v.2).len() as usize) as nat
        }
    }

    fn byte_len(t: &String) -> (n: usize)
        ensures
            n == vstd::utf8::encode_utf8(t@).len() as usize,
    {
        let s = t.as_str();
        let n = s.len();
        assert(s.spec_bytes() == vstd::utf8::encode_utf8(s@));
        n
    }

    fn cost_exec(&self) -> (c: usize)
        ensures
            c == ContextEntry::cost(self.view()),
    {
        match self {
            ContextEntry::ToolUse { input, .. } => Self::byte_len(input),
            ContextEntry::ToolOutcome { output, .. } => Self::byte_len(output),
            ContextEntry::User(t) => Self::byte_len(t),
            ContextEntry::Assistant(t) => Self::byte_len(t),
            ContextEntry::ModelChange(t) => Self::byte_len(t),
            ContextEntry::Compaction(t) => Self::byte_len(t),
            ContextEntry::Recovery(t) => Self::byte_len(t),
        }
    }

    /// Returns an entry with the same value.
    pub fn copy(&self) -> (r: ContextEntry)
        ensures
            r.view() == self.view(),
    {
        match self {
            ContextEntry::User(t) => ContextEntry::User(t.clone()),
            ContextEntry::Assistant(t) => ContextEntry::Assistant(t.clone()),
            ContextEntry::ToolUse { tool_call_id, tool, input } => ContextEntry::ToolUse {
                tool_call_id: *tool_call_id,
                tool: tool.clone(),
                input: input.clone(),
            },
            ContextEntry::ToolOutcome { tool_call_id, tool, output } => ContextEntry::ToolOutcome {
                tool_call_id: *tool_call_id,
                tool: tool.clone(),
                output: output.clone(),
            },
            ContextEntry::ModelChange(t) => ContextEntry::ModelChange(t.clone()),
            ContextEntry::Compaction(t) => ContextEntry::Compaction(t.clone()),
            ContextEntry::Recovery(t) => ContextEntry::Recovery(t.clone()),
        }
    }
}

/// The name of a tool entity, or the empty name when it has no ToolDefinition.
pub open spec fn tool_name(w: World, tool: Entity) -> Seq<char> {
    match get(w.tools@, tool) {
        Some(d) => d.name@,
        None => Seq::empty(),
    }
}

/// The tool of a ToolUse entity, if it is one.
pub open spec fn outcome_tool(w: World, tool_use: Entity) -> Option<Entity> {
    match get(w.tool_uses@, tool_use) {
        Some(u) => Some(u.tool),
        None => None,
    }
}

/// The entries of the user messages on branch `b`.
pub open spec fn user_entries(s: Seq<(Entity, UserMessage)>, b: Seq<Entity>) -> Seq<(Key, EntryView)>
    decreases s.len(),
{
    if s.len() == 0 {
        Seq::empty()
    } else {
        let rest = user_entries(s.drop_last(), b);
        let m = s.last().1;
        if b.contains(m.turn) {
            rest.push(((branch_order(b, m.turn) as u64, m.sequence.0, m.id.0, 0), (0, 0, m.text@, Seq::empty())))
        } else {
            rest
        }
    }
}

/// The entries of the assistant messages on branch `b`.
pub open spec fn assistant_entries(s: Seq<(Entity, AssistantMessage)>, b: Seq<Entity>) -> Seq<(Key, EntryView)>
    decreases s.len(),
{
    if s.len() == 0 {
        Seq::empty()
    } else {
        let rest = assistant_entries(s.drop_last(), b);
        let m = s.last().1;
        if b.contains(m.turn) {
            rest.push(((branch_order(b, m.turn) as u64, m.sequence.0, m.id.0, 1), (1, 0, m.text@, Seq::empty())))
        } else {
            rest
        }
    }
}

/// The entries of the tool uses on branch `b`.
pub open spec fn tool_use_entries(w: World, s: Seq<(Entity, ToolUse)>, b: Seq<Entity>) -> Seq<(Key, EntryView)>
    decreases s.len(),
{
    if s.len() == 0 {
        Seq::empty()
    } else {
        let rest = tool_use_entries(w, s.drop_last(), b);
        let u = s.last().1;
        if b.contains(u.turn) {
            rest.push(
                (
                    (branch_order(b, u.turn) as u64, u.sequence.0, u.id.0, 2),
                    (2, u.id.0, tool_name(w, u.tool), u.input@),
                ),
            )
        } else {
            rest
        }
    }
}

/// The entries of the tool outcomes on branch `b`.
pub open spec fn tool_outcome_entries(w: World, s: Seq<(Entity, ToolOutcome)>, b: Seq<Entity>) -> Seq<(Key, EntryView)>
    decreases s.len(),
{
    if s.len() == 0 {
        Seq::empty()
    } else {
        let rest = tool_outcome_entries(w, s.drop_last(), b);
        let o = s.last().1;
        if b.contains(o.turn) {
            rest.push(
                (
                    (branch_order(b, o.turn) as u64, o.sequence.0, o.tool_call_id.0, 3),
                    (
                        3,
                        o.tool_call_id.0,
                        match outcome_tool(w, o.tool_use) {
                            Some(t) => tool_name(w, t),
                            None => Seq::empty(),
                        },
                        o.output@,
                    ),
                ),
            )
        } else {
            rest
        }
    }
}

/// The entries of the model changes on branch `b`, or `None` when one names a missing Model.
pub open spec fn model_change_entries(w: World, s: Seq<(Entity, ModelChange)>, b: Seq<Entity>) -> Option<Seq<(Key, EntryView)>>
    decreases s.len(),
{
    if s.len() == 0 {
        Some(Seq::empty())
    } else {
        match model_change_entries(w, s.drop_last(), b) {
            None => None,
            Some(rest) => {
                let c = s.last().1;
                if b.contains(c.turn) {
                    match get(w.models@, c.model) {
                        None => None,
                        Some(m) => Some(
                            rest.push(
                                (
                                    (branch_order(b, c.turn) as u64, c.sequence.0, 0, 4),
                                    (4, 0, m.model_id@, Seq::empty()),
                                ),
                            ),
                        ),
                    }
                } else {
                    Some(rest)
                }
            },
        }
    }
}

/// The entries of the compactions on branch `b`.
pub open spec fn compaction_entries(s: Seq<(Entity, Compaction)>, b: Seq<Entity>) -> Seq<(Key, EntryView)>
    decreases s.len(),
{
    if s.len() == 0 {
        Seq::empty()
    } else {
        let rest = compaction_entries(s.drop_last(), b);
        let c = s.last().1;
        if b.contains(c.turn) {
            rest.push(((branch_order(b, c.turn) as u64, c.sequence.0, 0, 5), (5, 0, c.summary@, Seq::empty())))
        } else {
            rest
        }
    }
}

/// The entries of the recoveries on branch `b`.
pub open spec fn recovery_entries(s: Seq<(Entity, Recovery)>, b: Seq<Entity>) -> Seq<(Key, EntryView)>
    decreases s.len(),
{
    if s.len() == 0 {
        Seq::empty()
    } else {
        let rest = recovery_entries(s.drop_last(), b);
        let c = s.last().1;
        if b.contains(c.turn) {
            rest.push(((branch_order(b, c.turn) as u64, c.sequence.0, 0, 6), (6, 0, c.text@, Seq::empty())))
        } else {
            rest
        }
    }
}

/// The newest entries that fit in `remaining`, scanning from the newest: an entry is kept when
/// its cost fits in what the newer kept entries left.
pub open spec fn fit_budget(s: Seq<EntryView>, remaining: nat) -> Seq<EntryView>
    decreases s.len(),
{
    if s.len() == 0 {
        Seq::empty()
    } else {
        let e = s.last();
        if ContextEntry::cost(e) <= remaining {
            fit_budget(s.drop_last(), (remaining - ContextEntry::cost(e)) as nat).push(e)
        } else {
            fit_budget(s.drop_last(), remaining)
        }
    }
}

/// The keys of keyed entries.
pub open spec fn entry_keys(items: Seq<(Key, EntryView)>) -> Seq<Key> {
    items.map_values(|it: (Key, EntryView)| it.0)
}

/// The values of keyed entries.
pub open spec fn entry_values(items: Seq<(Key, EntryView)>) -> Seq<EntryView> {
    items.map_values(|it: (Key, EntryView)| it.1)
}

/// All keyed entries of branch `b`, or `None` when a model change names a missing Model.
pub open spec fn branch_entries(w: World, b: Seq<Entity>) -> Option<Seq<(Key, EntryView)>> {
    match model_change_entries(w, w.model_changes@, b) {
        None => None,
        Some(changes) => Some(
            user_entries(w.user_messages@, b) + assistant_entries(w.assistant_messages@, b)
                + tool_use_entries(w, w.tool_uses@, b) + tool_outcome_entries(w, w.tool_outcomes@, b)
                + changes + compaction_entries(w.compactions@, b) + recovery_entries(w.recoveries@, b),
        ),
    }
}

/// `entries` are the entries of branch `b`, stably sorted by Turn position from the root,
/// sequence, ID, and kind, then cut to the camera budget from the newest entry backwards.
pub open spec fn context_ok(w: World, b: Seq<Entity>, budget: nat, entries: Seq<EntryView>) -> bool {
    match branch_entries(w, b) {
        None => false,
        Some(items) => exists|p: Seq<int>|
            #[trigger] is_sorted_perm(entry_keys(items), p) && entries == fit_budget(
                reorder(entry_values(items), p),
                budget,
            ),
    }
}

/// The projection of context camera `camera`: a missing camera, a broken branch, or a model
/// change that names a missing Model is an error; otherwise the ordered, budgeted entries.
pub open spec fn context_matches(w: World, camera: Entity, r: Result<Seq<EntryView>, ProjectionError>) -> bool {
    match get(w.context_cameras@, camera) {
        None => r == Err::<Seq<EntryView>, ProjectionError>(ProjectionError::MissingCamera),
        Some(c) => match branch(w.turns@, c.session, c.head) {
            Err(BranchError::MissingTurn) => r == Err::<Seq<EntryView>, ProjectionError>(ProjectionError::MissingTurn),
            Err(BranchError::CrossSession) => r == Err::<Seq<EntryView>, ProjectionError>(ProjectionError::CrossSession),
            Err(BranchError::Cycle) => r == Err::<Seq<EntryView>, ProjectionError>(ProjectionError::Cycle),
            Ok(b) => match branch_entries(w, b) {
                None => r == Err::<Seq<EntryView>, ProjectionError>(ProjectionError::MissingModel),
                Some(_) => r matches Ok(entries) && context_ok(w, b, c.budget as nat, entries),
            },
        },
    }
}


/// The abstract values of entries.
pub open spec fn views(entries: Seq<ContextEntry>) -> Seq<EntryView> {
    entries.map_values(|e: ContextEntry| e.view())
}

fn push_users(world: &World, b: &Vec<Entity>, keys: &mut Vec<Key>, entries: &mut Vec<ContextEntry>)
    requires
        b@.no_duplicates(),
    ensures
        final(keys)@ == old(keys)@ + entry_keys(user_entries(world.user_messages@, b@)),
        views(final(entries)@) == views(old(entries)@) + entry_values(user_entries(world.user_messages@, b@)),
{
    let ghost k0 = keys@;
    let ghost e0 = views(entries@);
    let n = b.len();
    let mut i: usize = 0;
    while i < world.user_messages.len()
        invariant
            n == b@.len(),
            b@.no_duplicates(),
            i <= world.user_messages@.len(),
            keys@ == k0 + entry_keys(user_entries(world.user_messages@.take(i as int), b@)),
            views(entries@) == e0 + entry_values(user_entries(world.user_messages@.take(i as int), b@)),
        decreases world.user_messages.len() - i,
    {
        let x = &world.user_messages[i].1;
        proof {
            assert(world.user_messages@.take(i + 1).drop_last() =~= world.user_messages@.take(i as int));
            assert(world.user_messages@.take(i + 1).last() == world.user_messages@[i as int]);
        }
        match crate::camera::index_in(b, x.turn) {
            Some(at) => {
                
                keys.push(((n - 1 - at) as u64, x.sequence.0, x.id.0, 0));
                let ghost before_push = entries@;
                entries.push(ContextEntry::User(x.text.clone()));
                proof {
                    let t = user_entries(world.user_messages@.take(i + 1), b@);
                    assert(entry_keys(t) =~= entry_keys(user_entries(world.user_messages@.take(i as int), b@)).push(t.last().0));
                    assert(entry_values(t) =~= entry_values(user_entries(world.user_messages@.take(i as int), b@)).push(t.last().1));
                    assert(keys@ =~= k0 + entry_keys(t));
                    assert(views(entries@) =~= views(before_push).push(entries@.last().view()));
                    assert(views(entries@) =~= e0 + entry_values(t));
                }
            },
            None => {},
        }
        i = i + 1;
    }
    proof {
        assert(world.user_messages@.take(i as int) =~= world.user_messages@);
    }
}

fn push_assistants(world: &World, b: &Vec<Entity>, keys: &mut Vec<Key>, entries: &mut Vec<ContextEntry>)
    requires
        b@.no_duplicates(),
    ensures
        final(keys)@ == old(keys)@ + entry_keys(assistant_entries(world.assistant_messages@, b@)),
        views(final(entries)@) == views(old(entries)@) + entry_values(assistant_entries(world.assistant_messages@, b@)),
{
    let ghost k0 = keys@;
    let ghost e0 = views(entries@);
    let n = b.len();
    let mut i: usize = 0;
    while i < world.assistant_messages.len()
        invariant
            n == b@.len(),
            b@.no_duplicates(),
            i <= world.assistant_messages@.len(),
            keys@ == k0 + entry_keys(assistant_entries(world.assistant_messages@.take(i as int), b@)),
            views(entries@) == e0 + entry_values(assistant_entries(world.assistant_messages@.take(i as int), b@)),
        decreases world.assistant_messages.len() - i,
    {
        let x = &world.assistant_messages[i].1;
        proof {
            assert(world.assistant_messages@.take(i + 1).drop_last() =~= world.assistant_messages@.take(i as int));
            assert(world.assistant_messages@.take(i + 1).last() == world.assistant_messages@[i as int]);
        }
        match crate::camera::index_in(b, x.turn) {
            Some(at) => {
                
                keys.push(((n - 1 - at) as u64, x.sequence.0, x.id.0, 1));
                let ghost before_push = entries@;
                entries.push(ContextEntry::Assistant(x.text.clone()));
                proof {
                    let t = assistant_entries(world.assistant_messages@.take(i + 1), b@);
                    assert(entry_keys(t) =~= entry_keys(assistant_entries(world.assistant_messages@.take(i as int), b@)).push(t.last().0));
                    assert(entry_values(t) =~= entry_values(assistant_entries(world.assistant_messages@.take(i as int), b@)).push(t.last().1));
                    assert(keys@ =~= k0 + entry_keys(t));
                    assert(views(entries@) =~= views(before_push).push(entries@.last().view()));
                    assert(views(entries@) =~= e0 + entry_values(t));
                }
            },
            None => {},
        }
        i = i + 1;
    }
    proof {
        assert(world.assistant_messages@.take(i as int) =~= world.assistant_messages@);
    }
}

fn push_tool_uses(world: &World, b: &Vec<Entity>, keys: &mut Vec<Key>, entries: &mut Vec<ContextEntry>)
    requires
        b@.no_duplicates(),
    ensures
        final(keys)@ == old(keys)@ + entry_keys(tool_use_entries(*world, world.tool_uses@, b@)),
        views(final(entries)@) == views(old(entries)@) + entry_values(tool_use_entries(*world, world.tool_uses@, b@)),
{
    let ghost k0 = keys@;
    let ghost e0 = views(entries@);
    let n = b.len();
    let mut i: usize = 0;
    while i < world.tool_uses.len()
        invariant
            n == b@.len(),
            b@.no_duplicates(),
            i <= world.tool_uses@.len(),
            keys@ == k0 + entry_keys(tool_use_entries(*world, world.tool_uses@.take(i as int), b@)),
            views(entries@) == e0 + entry_values(tool_use_entries(*world, world.tool_uses@.take(i as int), b@)),
        decreases world.tool_uses.len() - i,
    {
        let x = &world.tool_uses[i].1;
        proof {
            assert(world.tool_uses@.take(i + 1).drop_last() =~= world.tool_uses@.take(i as int));
            assert(world.tool_uses@.take(i + 1).last() == world.tool_uses@[i as int]);
        }
        match crate::camera::index_in(b, x.turn) {
            Some(at) => {
                
                let name = tool_name_of(world, x.tool);
                keys.push(((n - 1 - at) as u64, x.sequence.0, x.id.0, 2));
                let ghost before_push = entries@;
                entries.push(ContextEntry::ToolUse { tool_call_id: x.id, tool: name, input: x.input.clone() });
                proof {
                    let t = tool_use_entries(*world, world.tool_uses@.take(i + 1), b@);
                    assert(entry_keys(t) =~= entry_keys(tool_use_entries(*world, world.tool_uses@.take(i as int), b@)).push(t.last().0));
                    assert(entry_values(t) =~= entry_values(tool_use_entries(*world, world.tool_uses@.take(i as int), b@)).push(t.last().1));
                    assert(keys@ =~= k0 + entry_keys(t));
                    assert(views(entries@) =~= views(before_push).push(entries@.last().view()));
                    assert(views(entries@) =~= e0 + entry_values(t));
                }
            },
            None => {},
        }
        i = i + 1;
    }
    proof {
        assert(world.tool_uses@.take(i as int) =~= world.tool_uses@);
    }
}

fn push_tool_outcomes(world: &World, b: &Vec<Entity>, keys: &mut Vec<Key>, entries: &mut Vec<ContextEntry>)
    requires
        b@.no_duplicates(),
    ensures
        final(keys)@ == old(keys)@ + entry_keys(tool_outcome_entries(*world, world.tool_outcomes@, b@)),
        views(final(entries)@) == views(old(entries)@) + entry_values(tool_outcome_entries(*world, world.tool_outcomes@, b@)),
{
    let ghost k0 = keys@;
    let ghost e0 = views(entries@);
    let n = b.len();
    let mut i: usize = 0;
    while i < world.tool_outcomes.len()
        invariant
            n == b@.len(),
            b@.no_duplicates(),
            i <= world.tool_outcomes@.len(),
            keys@ == k0 + entry_keys(tool_outcome_entries(*world, world.tool_outcomes@.take(i as int), b@)),
            views(entries@) == e0 + entry_values(tool_outcome_entries(*world, world.tool_outcomes@.take(i as int), b@)),
        decreases world.tool_outcomes.len() - i,
    {
        let x = &world.tool_outcomes[i].1;
        proof {
            assert(world.tool_outcomes@.take(i + 1).drop_last() =~= world.tool_outcomes@.take(i as int));
            assert(world.tool_outcomes@.take(i + 1).last() == world.tool_outcomes@[i as int]);
        }
        match crate::camera::index_in(b, x.turn) {
            Some(at) => {
                
                let name = outcome_tool_name(world, x.tool_use);
                keys.push(((n - 1 - at) as u64, x.sequence.0, x.tool_call_id.0, 3));
                let ghost before_push = entries@;
                entries.push(ContextEntry::ToolOutcome { tool_call_id: x.tool_call_id, tool: name, output: x.output.clone() });
                proof {
                    let t = tool_outcome_entries(*world, world.tool_outcomes@.take(i + 1), b@);
                    assert(entry_keys(t) =~= entry_keys(tool_outcome_entries(*world, world.tool_outcomes@.take(i as int), b@)).push(t.last().0));
                    assert(entry_values(t) =~= entry_values(tool_outcome_entries(*world, world.tool_outcomes@.take(i as int), b@)).push(t.last().1));
                    assert(keys@ =~= k0 + entry_keys(t));
                    assert(views(entries@) =~= views(before_push).push(entries@.last().view()));
                    assert(views(entries@) =~= e0 + entry_values(t));
                }
            },
            None => {},
        }
        i = i + 1;
    }
    proof {
        assert(world.tool_outcomes@.take(i as int) =~= world.tool_outcomes@);
    }
}

fn push_compactions(world: &World, b: &Vec<Entity>, keys: &mut Vec<Key>, entries: &mut Vec<ContextEntry>)
    requires
        b@.no_duplicates(),
    ensures
        final(keys)@ == old(keys)@ + entry_keys(compaction_entries(world.compactions@, b@)),
        views(final(entries)@) == views(old(entries)@) + entry_values(compaction_entries(world.compactions@, b@)),
{
    let ghost k0 = keys@;
    let ghost e0 = views(entries@);
    let n = b.len();
    let mut i: usize = 0;
    while i < world.compactions.len()
        invariant
            n == b@.len(),
            b@.no_duplicates(),
            i <= world.compactions@.len(),
            keys@ == k0 + entry_keys(compaction_entries(world.compactions@.take(i as int), b@)),
            views(entries@) == e0 + entry_values(compaction_entries(world.compactions@.take(i as int), b@)),
        decreases world.compactions.len() - i,
    {
        let x = &world.compactions[i].1;
        proof {
            assert(world.compactions@.take(i + 1).drop_last() =~= world.compactions@.take(i as int));
            assert(world.compactions@.take(i + 1).last() == world.compactions@[i as int]);
        }
        match crate::camera::index_in(b, x.turn) {
            Some(at) => {
                
                keys.push(((n - 1 - at) as u64, x.sequence.0, 0, 5));
                let ghost before_push = entries@;
                entries.push(ContextEntry::Compaction(x.summary.clone()));
                proof {
                    let t = compaction_entries(world.compactions@.take(i + 1), b@);
                    assert(entry_keys(t) =~= entry_keys(compaction_entries(world.compactions@.take(i as int), b@)).push(t.last().0));
                    assert(entry_values(t) =~= entry_values(compaction_entries(world.compactions@.take(i as int), b@)).push(t.last().1));
                    assert(keys@ =~= k0 + entry_keys(t));
                    assert(views(entries@) =~= views(before_push).push(entries@.last().view()));
                    assert(views(entries@) =~= e0 + entry_values(t));
                }
            },
            None => {},
        }
        i = i + 1;
    }
    proof {
        assert(world.compactions@.take(i as int) =~= world.compactions@);
    }
}

fn push_recoveries(world: &World, b: &Vec<Entity>, keys: &mut Vec<Key>, entries: &mut Vec<ContextEntry>)
    requires
        b@.no_duplicates(),
    ensures
        final(keys)@ == old(keys)@ + entry_keys(recovery_entries(world.recoveries@, b@)),
        views(final(entries)@) == views(old(entries)@) + entry_values(recovery_entries(world.recoveries@, b@)),
{
    let ghost k0 = keys@;
    let ghost e0 = views(entries@);
    let n = b.len();
    let mut i: usize = 0;
    while i < world.recoveries.len()
        invariant
            n == b@.len(),
            b@.no_duplicates(),
            i <= world.recoveries@.len(),
            keys@ == k0 + entry_keys(recovery_entries(world.recoveries@.take(i as int), b@)),
            views(entries@) == e0 + entry_values(recovery_entries(world.recoveries@.take(i as int), b@)),
        decreases world.recoveries.len() - i,
    {
        let x = &world.recoveries[i].1;
        proof {
            assert(world.recoveries@.take(i + 1).drop_last() =~= world.recoveries@.take(i as int));
            assert(world.recoveries@.take(i + 1).last() == world.recoveries@[i as int]);
        }
        match crate::camera::index_in(b, x.turn) {
            Some(at) => {
                
                keys.push(((n - 1 - at) as u64, x.sequence.0, 0, 6));
                let ghost before_push = entries@;
                entries.push(ContextEntry::Recovery(x.text.clone()));
                proof {
                    let t = recovery_entries(world.recoveries@.take(i + 1), b@);
                    assert(entry_keys(t) =~= entry_keys(recovery_entries(world.recoveries@.take(i as int), b@)).push(t.last().0));
                    assert(entry_values(t) =~= entry_values(recovery_entries(world.recoveries@.take(i as int), b@)).push(t.last().1));
                    assert(keys@ =~= k0 + entry_keys(t));
                    assert(views(entries@) =~= views(before_push).push(entries@.last().view()));
                    assert(views(entries@) =~= e0 + entry_values(t));
                }
            },
            None => {},
        }
        i = i + 1;
    }
    proof {
        assert(world.recoveries@.take(i as int) =~= world.recoveries@);
    }
}

fn tool_name_of(world: &World, tool: Entity) -> (name: String)
    ensures
        name@ == tool_name(*world, tool),
{
    match position(&world.tools, tool) {
        Some(k) => {
            proof {
                lemma_find(world.tools@, tool);
            }
            world.tools[k].1.name.clone()
        },
        None => String::new(),
    }
}

fn outcome_tool_name(world: &World, tool_use: Entity) -> (name: String)
    ensures
        name@ == (match outcome_tool(*world, tool_use) {
            Some(t) => tool_name(*world, t),
            None => Seq::empty(),
        }),
{
    match position(&world.tool_uses, tool_use) {
        Some(k) => {
            proof {
                lemma_find(world.tool_uses@, tool_use);
            }
            tool_name_of(world, world.tool_uses[k].1.tool)
        },
        None => String::new(),
    }
}


fn push_model_changes(world: &World, b: &Vec<Entity>, keys: &mut Vec<Key>, entries: &mut Vec<ContextEntry>) -> (ok: bool)
    requires
        b@.no_duplicates(),
    ensures
        ok == (model_change_entries(*world, world.model_changes@, b@) is Some),
        ok ==> final(keys)@ == old(keys)@ + entry_keys(model_change_entries(*world, world.model_changes@, b@).unwrap()),
        ok ==> views(final(entries)@) == views(old(entries)@) + entry_values(model_change_entries(*world, world.model_changes@, b@).unwrap()),
{
    let ghost k0 = keys@;
    let ghost e0 = views(entries@);
    let n = b.len();
    let mut i: usize = 0;
    while i < world.model_changes.len()
        invariant
            n == b@.len(),
            b@.no_duplicates(),
            i <= world.model_changes@.len(),
            model_change_entries(*world, world.model_changes@.take(i as int), b@) is Some,
            keys@ == k0 + entry_keys(model_change_entries(*world, world.model_changes@.take(i as int), b@).unwrap()),
            views(entries@) == e0 + entry_values(model_change_entries(*world, world.model_changes@.take(i as int), b@).unwrap()),
        decreases world.model_changes.len() - i,
    {
        let x = world.model_changes[i].1;
        proof {
            assert(world.model_changes@.take(i + 1).drop_last() =~= world.model_changes@.take(i as int));
            assert(world.model_changes@.take(i + 1).last() == world.model_changes@[i as int]);
        }
        match crate::camera::index_in(b, x.turn) {
            Some(at) => {
                let mk = match position(&world.models, x.model) {
                    None => {
                        proof {
                            lemma_model_changes_none(*world, world.model_changes@, b@, i as int);
                        }
                        return false;
                    },
                    Some(mk) => mk,
                };
                proof {
                    lemma_find(world.models@, x.model);
                }
                let ghost before_push = entries@;
                keys.push(((n - 1 - at) as u64, x.sequence.0, 0, 4));
                entries.push(ContextEntry::ModelChange(world.models[mk].1.model_id.clone()));
                proof {
                    let t = model_change_entries(*world, world.model_changes@.take(i + 1), b@).unwrap();
                    let t0 = model_change_entries(*world, world.model_changes@.take(i as int), b@).unwrap();
                    assert(entry_keys(t) =~= entry_keys(t0).push(t.last().0));
                    assert(entry_values(t) =~= entry_values(t0).push(t.last().1));
                    assert(keys@ =~= k0 + entry_keys(t));
                    assert(views(entries@) =~= views(before_push).push(entries@.last().view()));
                    assert(views(entries@) =~= e0 + entry_values(t));
                }
            },
            None => {},
        }
        i = i + 1;
    }
    proof {
        assert(world.model_changes@.take(i as int) =~= world.model_changes@);
    }
    true
}

/// A failure among the first rows fails the whole table.
proof fn lemma_model_changes_none(w: World, s: Seq<(Entity, ModelChange)>, b: Seq<Entity>, i: int)
    requires
        0 <= i < s.len(),
        model_change_entries(w, s.take(i + 1), b) is None,
    ensures
        model_change_entries(w, s, b) is None,
    decreases s.len() - i,
{
    if i + 1 < s.len() {
        assert(s.take(i + 2).drop_last() =~= s.take(i + 1));
        lemma_model_changes_none(w, s, b, i + 1);
    } else {
        assert(s.take(i + 1) =~= s);
    }
}

/// Keeps the newest entries that fit in `budget`.
fn fit_entries(sorted: Vec<ContextEntry>, budget: usize) -> (kept: Vec<ContextEntry>)
    ensures
        views(kept@) == fit_budget(views(sorted@), budget as nat),
{
    let ghost all = views(sorted@);
    let mut sorted = sorted;
    let mut reversed: Vec<ContextEntry> = Vec::new();
    let mut remaining = budget;
    // Scan from the newest entry; `reversed` collects the kept entries newest first.
    while sorted.len() > 0
        invariant
            views(sorted@) == all.take(sorted@.len() as int),
            sorted@.len() <= all.len(),
            fit_budget(all, budget as nat) == fit_budget(views(sorted@), remaining as nat) + views(reversed@).reverse(),
        decreases sorted.len(),
    {
        let ghost prefix = views(sorted@);
        let e = sorted.pop().unwrap();
        let cost = e.cost_exec();
        proof {
            assert(views(sorted@) =~= prefix.drop_last());
            assert(prefix.last() == e.view());
        }
        if cost <= remaining {
            remaining = remaining - cost;
            let ghost r0 = views(reversed@);
            reversed.push(e);
            proof {
                assert(views(reversed@) =~= r0.push(e.view()));
                assert(views(reversed@).reverse() =~= seq![e.view()] + r0.reverse());
                assert(fit_budget(prefix, (remaining + cost) as nat) == fit_budget(prefix.drop_last(), remaining as nat).push(e.view()));
                assert(fit_budget(prefix.drop_last(), remaining as nat).push(e.view()) + r0.reverse()
                    =~= fit_budget(prefix.drop_last(), remaining as nat) + (seq![e.view()] + r0.reverse()));
            }
        }
        proof {
            assert(views(sorted@) =~= all.take(sorted@.len() as int));
        }
    }
    proof {
        assert(fit_budget(views(sorted@), remaining as nat) =~= Seq::empty());
    }
    let mut kept: Vec<ContextEntry> = Vec::new();
    while reversed.len() > 0
        invariant
            fit_budget(all, budget as nat) == views(kept@) + views(reversed@).reverse(),
        decreases reversed.len(),
    {
        let ghost r0 = views(reversed@);
        let ghost k0 = views(kept@);
        let e = reversed.pop().unwrap();
        kept.push(e);
        proof {
            assert(views(reversed@) =~= r0.drop_last());
            assert(views(kept@) =~= k0.push(e.view()));
            assert(r0.reverse() =~= seq![e.view()] + r0.drop_last().reverse());
            assert(k0 + r0.reverse() =~= views(kept@) + views(reversed@).reverse());
        }
    }
    proof {
        assert(views(reversed@).reverse() =~= Seq::empty());
        assert(views(kept@) + Seq::<EntryView>::empty() =~= views(kept@));
    }
    kept
}

/// Projects context camera `camera` into an ordered, budgeted ContextDocument.
pub fn project_context(world: &World, camera: Entity) -> (r: Result<ContextDocument, ProjectionError>)
    ensures
        context_matches(*world, camera, match r {
            Ok(d) => Ok(views(d.entries@)),
            Err(e) => Err(e),
        }),
{
    let ck = match position(&world.context_cameras, camera) {
        None => {
            return Err(ProjectionError::MissingCamera);
        },
        Some(ck) => ck,
    };
    proof {
        lemma_find(world.context_cameras@, camera);
    }
    let cam = world.context_cameras[ck].1;
    let b = match walk_branch(world, cam.session, cam.head) {
        Err(BranchError::MissingTurn) => {
            return Err(ProjectionError::MissingTurn);
        },
        Err(BranchError::CrossSession) => {
            return Err(ProjectionError::CrossSession);
        },
        Err(BranchError::Cycle) => {
            return Err(ProjectionError::Cycle);
        },
        Ok(b) => b,
    };
    let mut keys: Vec<Key> = Vec::new();
    let mut entries: Vec<ContextEntry> = Vec::new();
    push_users(world, &b, &mut keys, &mut entries);
    push_assistants(world, &b, &mut keys, &mut entries);
    push_tool_uses(world, &b, &mut keys, &mut entries);
    push_tool_outcomes(world, &b, &mut keys, &mut entries);
    if !push_model_changes(world, &b, &mut keys, &mut entries) {
        return Err(ProjectionError::MissingModel);
    }
    push_compactions(world, &b, &mut keys, &mut entries);
    push_recoveries(world, &b, &mut keys, &mut entries);
    let ghost items = branch_entries(*world, b@).unwrap();
    proof {
        let w = *world;
        let bb = b@;
        let changes = model_change_entries(w, w.model_changes@, bb).unwrap();
        let u = user_entries(w.user_messages@, bb);
        let a = assistant_entries(w.assistant_messages@, bb);
        let tu = tool_use_entries(w, w.tool_uses@, bb);
        let to = tool_outcome_entries(w, w.tool_outcomes@, bb);
        let c = compaction_entries(w.compactions@, bb);
        let rc = recovery_entries(w.recoveries@, bb);
        assert(items == u + a + tu + to + changes + c + rc);
        assert(entry_keys(items) =~= entry_keys(u) + entry_keys(a) + entry_keys(tu) + entry_keys(to) + entry_keys(changes) + entry_keys(c) + entry_keys(rc));
        assert(entry_values(items) =~= entry_values(u) + entry_values(a) + entry_values(tu) + entry_values(to) + entry_values(changes) + entry_values(c) + entry_values(rc));
        assert(keys@ =~= entry_keys(items));
        assert(views(entries@) =~= entry_values(items));
    }
    let p = sort_order(&keys);
    let mut sorted: Vec<ContextEntry> = Vec::new();
    let mut j: usize = 0;
    while j < p.len()
        invariant
            j <= p@.len(),
            p@.len() == keys@.len(),
            keys@.len() == entries@.len(),
            is_sorted_perm(keys@, p@.map_values(|x: usize| x as int)),
            views(sorted@) =~= reorder(views(entries@), p@.map_values(|x: usize| x as int)).take(j as int),
        decreases p.len() - j,
    {
        proof {
            let q = p@.map_values(|x: usize| x as int);
            assert(q[j as int] == p@[j as int] as int);
        }
        let ghost s0 = views(sorted@);
        sorted.push(entries[p[j]].copy());
        proof {
            assert(views(sorted@) =~= s0.push(sorted@.last().view()));
        }
        j = j + 1;
    }
    let ghost q = p@.map_values(|x: usize| x as int);
    proof {
        assert(views(sorted@) =~= reorder(views(entries@), q));
    }
    let kept = fit_entries(sorted, cam.budget);
    proof {
        assert(is_sorted_perm(entry_keys(items), q));
        assert(views(kept@) == fit_budget(reorder(entry_values(items), q), cam.budget as nat));
        assert(context_ok(*world, b@, cam.budget as nat, views(kept@)));
    }
    Ok(ContextDocument { entries: kept })
}

} // verus!
