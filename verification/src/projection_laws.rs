//! What the projections keep and in which order they list it.
use vstd::prelude::*;

use crate::camera::{assistant_items, branch_order, item_keys, item_rows, transcript_ok, user_items, TranscriptRow};
use crate::context::{
    outcome_tool, tool_name, assistant_entries, branch_entries, compaction_entries, context_ok, entry_keys, entry_values, fit_budget,
    model_change_entries, recovery_entries, tool_outcome_entries, tool_use_entries, user_entries, ContextEntry,
    EntryView,
};
use crate::ids::Entity;
use crate::order::{is_sorted_perm, key_lt, reorder, Key};
use crate::world::{get, AssistantMessage, Compaction, ModelChange, Recovery, ToolOutcome, ToolUse, UserMessage, World};

verus! {

/// The summed budget cost of entries.
pub open spec fn total_cost(s: Seq<EntryView>) -> nat
    decreases s.len(),
{
    if s.len() == 0 {
        0
    } else {
        total_cost(s.drop_last()) + ContextEntry::cost(s.last())
    }
}

/// The kept entries never cost more than the budget.
pub proof fn law_fit_within_budget(s: Seq<EntryView>, remaining: nat)
    ensures
        total_cost(fit_budget(s, remaining)) <= remaining,
    decreases s.len(),
{
    if s.len() > 0 {
        let e = s.last();
        if ContextEntry::cost(e) <= remaining {
            law_fit_within_budget(s.drop_last(), (remaining - ContextEntry::cost(e)) as nat);
            let k = fit_budget(s.drop_last(), (remaining - ContextEntry::cost(e)) as nat);
            assert(k.push(e).drop_last() =~= k);
        } else {
            law_fit_within_budget(s.drop_last(), remaining);
        }
    }
}

/// One entry alone is kept exactly when its cost fits in the budget.
pub proof fn law_fit_single(e: EntryView, remaining: nat)
    ensures
        fit_budget(seq![e], remaining) == (if ContextEntry::cost(e) <= remaining {
            seq![e]
        } else {
            Seq::<EntryView>::empty()
        }),
{
    reveal_with_fuel(fit_budget, 2);
    assert(seq![e].drop_last() =~= Seq::<EntryView>::empty());
    assert(seq![e].last() == e);
    assert(Seq::<EntryView>::empty().push(e) =~= seq![e]);
}

/// Fitting scans from the newest entry: for entries split into older ones `a` and newer ones
/// `b`, the kept entries are the kept newer ones, preceded by the older ones that fit in what the
/// kept newer ones left. An entry that does not fit is skipped without stopping the scan.
pub proof fn law_fit_splits(a: Seq<EntryView>, b: Seq<EntryView>, remaining: nat)
    ensures
        total_cost(fit_budget(b, remaining)) <= remaining,
        fit_budget(a + b, remaining) == fit_budget(a, (remaining - total_cost(fit_budget(b, remaining))) as nat)
            + fit_budget(b, remaining),
    decreases b.len(),
{
    law_fit_within_budget(b, remaining);
    if b.len() == 0 {
        assert(a + b =~= a);
    } else {
        let e = b.last();
        let c = ContextEntry::cost(e);
        let b1 = b.drop_last();
        assert((a + b).drop_last() =~= a + b1);
        assert((a + b).last() == e);
        if c <= remaining {
            let r1 = (remaining - c) as nat;
            law_fit_splits(a, b1, r1);
            let k = fit_budget(b1, r1);
            assert(fit_budget(b, remaining) == k.push(e));
            assert(k.push(e).drop_last() =~= k);
            assert(total_cost(k.push(e)) == total_cost(k) + c);
            assert((fit_budget(a, (r1 - total_cost(k)) as nat) + k).push(e) =~= fit_budget(a, (r1 - total_cost(k)) as nat)
                + k.push(e));
        } else {
            law_fit_splits(a, b1, remaining);
        }
    }
}

/// Where an item of a projection comes from: its Turn, its sequence number, the ID that breaks
/// ties between items of one sequence number, and its kind.
pub type Origin = (Entity, u64, u64, u64);

/// Item `x` comes no later than item `y` on branch `b` (listed head first): `x`'s Turn is nearer
/// the root, or it is the same Turn and `x` has a smaller sequence number, or the same sequence
/// number and a smaller tie-breaking ID, or the same of both and a kind no greater.
pub open spec fn comes_before(b: Seq<Entity>, x: Origin, y: Origin) -> bool {
    ||| b.index_of(x.0) > b.index_of(y.0)
    ||| b.index_of(x.0) == b.index_of(y.0) && x.1 < y.1
    ||| b.index_of(x.0) == b.index_of(y.0) && x.1 == y.1 && x.2 < y.2
    ||| b.index_of(x.0) == b.index_of(y.0) && x.1 == y.1 && x.2 == y.2 && x.3 <= y.3
}

/// `p` lists every position of `origins` once, each origin coming no later than those after it.
pub open spec fn listed_in_order(b: Seq<Entity>, origins: Seq<Origin>, p: Seq<int>) -> bool {
    &&& p.len() == origins.len()
    &&& forall|k: int| 0 <= k < origins.len() ==> p.contains(k)
    &&& forall|i: int| 0 <= i < p.len() ==> 0 <= #[trigger] p[i] < origins.len()
    &&& forall|i: int, j: int| 0 <= i < j < p.len() ==> comes_before(b, origins[#[trigger] p[i]], origins[#[trigger] p[j]])
}

/// The origins of sources.
pub open spec fn origins_of<V>(sources: Seq<(Origin, V)>) -> Seq<Origin> {
    sources.map_values(|x: (Origin, V)| x.0)
}

/// The values of sources.
pub open spec fn values_of<V>(sources: Seq<(Origin, V)>) -> Seq<V> {
    sources.map_values(|x: (Origin, V)| x.1)
}

proof fn lemma_index_in_range(b: Seq<Entity>, t: Entity)
    requires
        b.contains(t),
    ensures
        0 <= b.index_of(t) < b.len(),
        0 <= branch_order(b, t) < b.len(),
{
    let k = b.index_of(t);
    assert(b[k] == t);
}

/// Keys built from the Turn's position from the root and the rest of the origin sort the
/// origins in order.
proof fn lemma_sorted_origins(b: Seq<Entity>, keys: Seq<Key>, origins: Seq<Origin>, p: Seq<int>)
    requires
        b.len() < u64::MAX,
        keys.len() == origins.len(),
        is_sorted_perm(keys, p),
        forall|k: int| 0 <= k < origins.len() ==> b.contains((#[trigger] origins[k]).0)
            && keys[k] == (branch_order(b, origins[k].0) as u64, origins[k].1, origins[k].2, origins[k].3),
    ensures
        listed_in_order(b, origins, p),
{
    assert forall|i: int, j: int| 0 <= i < j < p.len() implies comes_before(b, origins[#[trigger] p[i]], origins[#[trigger] p[j]]) by {
        let x = p[i];
        let y = p[j];
        assert(key_lt(keys[x], x, keys[y], y));
        lemma_index_in_range(b, origins[x].0);
        lemma_index_in_range(b, origins[y].0);
    }
}

/// The items are the sources keyed by the Turn's position from the root and the rest of their
/// origin.
pub open spec fn keys_from<V>(b: Seq<Entity>, items: Seq<(Key, V)>, sources: Seq<(Origin, V)>) -> bool {
    &&& items.len() == sources.len()
    &&& forall|k: int| 0 <= k < sources.len() ==> b.contains((#[trigger] sources[k]).0.0) && items[k] == (
        (branch_order(b, sources[k].0.0) as u64, sources[k].0.1, sources[k].0.2, sources[k].0.3),
        sources[k].1,
    )
}

proof fn lemma_keys_from_concat<V>(b: Seq<Entity>, a: Seq<(Key, V)>, sa: Seq<(Origin, V)>, c: Seq<(Key, V)>, sc: Seq<(Origin, V)>)
    requires
        keys_from(b, a, sa),
        keys_from(b, c, sc),
    ensures
        keys_from(b, a + c, sa + sc),
{
    assert forall|k: int| 0 <= k < (sa + sc).len() implies b.contains((#[trigger] (sa + sc)[k]).0.0) && (a + c)[k] == (
        (branch_order(b, (sa + sc)[k].0.0) as u64, (sa + sc)[k].0.1, (sa + sc)[k].0.2, (sa + sc)[k].0.3),
        (sa + sc)[k].1,
    ) by {
        if k < sa.len() {
            assert((sa + sc)[k] == sa[k]);
            assert((a + c)[k] == a[k]);
        } else {
            assert((sa + sc)[k] == sc[k - sa.len()]);
            assert((a + c)[k] == c[k - sa.len()]);
        }
    }
}

/// Sorting items keyed from their sources lists the sources' values in order of their origins.
proof fn lemma_sorted_sources<V>(b: Seq<Entity>, items: Seq<(Key, V)>, sources: Seq<(Origin, V)>, keys: Seq<Key>, values: Seq<V>, p: Seq<int>)
    requires
        b.len() < u64::MAX,
        keys_from(b, items, sources),
        keys == items.map_values(|it: (Key, V)| it.0),
        values == items.map_values(|it: (Key, V)| it.1),
        is_sorted_perm(keys, p),
    ensures
        listed_in_order(b, origins_of(sources), p),
        values == values_of(sources),
{
    let o = origins_of(sources);
    assert forall|k: int| 0 <= k < o.len() implies b.contains((#[trigger] o[k]).0)
        && keys[k] == (branch_order(b, o[k].0) as u64, o[k].1, o[k].2, o[k].3) by {
        assert(o[k] == sources[k].0);
    }
    lemma_sorted_origins(b, keys, o, p);
    assert(values =~= values_of(sources));
}

/// The user messages on branch `b`, in table order, with their origins and rows.
pub open spec fn user_rows(s: Seq<(Entity, UserMessage)>, b: Seq<Entity>) -> Seq<(Origin, TranscriptRow)>
    decreases s.len(),
{
    if s.len() == 0 {
        Seq::empty()
    } else {
        let rest = user_rows(s.drop_last(), b);
        let m = s.last().1;
        if b.contains(m.turn) {
            rest.push(((m.turn, m.sequence.0, m.id.0, 0), TranscriptRow::User(m.text)))
        } else {
            rest
        }
    }
}

/// The assistant messages on branch `b`, in table order, with their origins and rows.
pub open spec fn assistant_rows(s: Seq<(Entity, AssistantMessage)>, b: Seq<Entity>) -> Seq<(Origin, TranscriptRow)>
    decreases s.len(),
{
    if s.len() == 0 {
        Seq::empty()
    } else {
        let rest = assistant_rows(s.drop_last(), b);
        let m = s.last().1;
        if b.contains(m.turn) {
            rest.push(((m.turn, m.sequence.0, m.id.0, 0), TranscriptRow::Assistant(m.text)))
        } else {
            rest
        }
    }
}

/// The rows a transcript of branch `b` is made of: its user messages, then its assistant
/// messages.
pub open spec fn transcript_sources(world: World, b: Seq<Entity>) -> Seq<(Origin, TranscriptRow)> {
    user_rows(world.user_messages@, b) + assistant_rows(world.assistant_messages@, b)
}

proof fn lemma_user_items(s: Seq<(Entity, UserMessage)>, b: Seq<Entity>)
    ensures
        keys_from(b, user_items(s, b), user_rows(s, b)),
    decreases s.len(),
{
    if s.len() > 0 {
        lemma_user_items(s.drop_last(), b);
    }
}

proof fn lemma_assistant_items(s: Seq<(Entity, AssistantMessage)>, b: Seq<Entity>)
    ensures
        keys_from(b, assistant_items(s, b), assistant_rows(s, b)),
    decreases s.len(),
{
    if s.len() > 0 {
        lemma_assistant_items(s.drop_last(), b);
    }
}

/// The transcript of a branch lists the user and assistant messages of its Turns, each once, in
/// order of Turn from the root (a Turn's rows before those of its descendants), then sequence
/// number, then message ID.
pub proof fn law_transcript_in_branch_order(world: World, b: Seq<Entity>, rows: Seq<TranscriptRow>)
    requires
        b.len() < u64::MAX,
        transcript_ok(world, b, rows),
    ensures
        exists|p: Seq<int>|
            #[trigger] listed_in_order(b, origins_of(transcript_sources(world, b)), p)
                && rows == reorder(values_of(transcript_sources(world, b)), p),
{
    let items = user_items(world.user_messages@, b) + assistant_items(world.assistant_messages@, b);
    let p = choose|p: Seq<int>| #[trigger] is_sorted_perm(item_keys(items), p) && rows == reorder(item_rows(items), p);
    lemma_user_items(world.user_messages@, b);
    lemma_assistant_items(world.assistant_messages@, b);
    lemma_keys_from_concat(
        b,
        user_items(world.user_messages@, b),
        user_rows(world.user_messages@, b),
        assistant_items(world.assistant_messages@, b),
        assistant_rows(world.assistant_messages@, b),
    );
    lemma_sorted_sources(b, items, transcript_sources(world, b), item_keys(items), item_rows(items), p);
}

/// The user messages on branch `b` as context entries, with their origins.
pub open spec fn user_sources(s: Seq<(Entity, UserMessage)>, b: Seq<Entity>) -> Seq<(Origin, EntryView)>
    decreases s.len(),
{
    if s.len() == 0 {
        Seq::empty()
    } else {
        let rest = user_sources(s.drop_last(), b);
        let m = s.last().1;
        if b.contains(m.turn) {
            rest.push(((m.turn, m.sequence.0, m.id.0, 0), (0, 0, m.text@, Seq::empty())))
        } else {
            rest
        }
    }
}

/// The assistant messages on branch `b` as context entries, with their origins.
pub open spec fn assistant_sources(s: Seq<(Entity, AssistantMessage)>, b: Seq<Entity>) -> Seq<(Origin, EntryView)>
    decreases s.len(),
{
    if s.len() == 0 {
        Seq::empty()
    } else {
        let rest = assistant_sources(s.drop_last(), b);
        let m = s.last().1;
        if b.contains(m.turn) {
            rest.push(((m.turn, m.sequence.0, m.id.0, 1), (1, 0, m.text@, Seq::empty())))
        } else {
            rest
        }
    }
}

/// The ToolUses on branch `b` as context entries (tool name and input), with their origins.
pub open spec fn tool_use_sources(w: World, s: Seq<(Entity, ToolUse)>, b: Seq<Entity>) -> Seq<(Origin, EntryView)>
    decreases s.len(),
{
    if s.len() == 0 {
        Seq::empty()
    } else {
        let rest = tool_use_sources(w, s.drop_last(), b);
        let u = s.last().1;
        if b.contains(u.turn) {
            rest.push(((u.turn, u.sequence.0, u.id.0, 2), (2, u.id.0, tool_name(w, u.tool), u.input@)))
        } else {
            rest
        }
    }
}

/// The tool outcomes on branch `b` as context entries (the ToolUse's tool name and the output),
/// with their origins.
pub open spec fn tool_outcome_sources(w: World, s: Seq<(Entity, ToolOutcome)>, b: Seq<Entity>) -> Seq<(Origin, EntryView)>
    decreases s.len(),
{
    if s.len() == 0 {
        Seq::empty()
    } else {
        let rest = tool_outcome_sources(w, s.drop_last(), b);
        let o = s.last().1;
        if b.contains(o.turn) {
            let name = match outcome_tool(w, o.tool_use) {
                Some(t) => tool_name(w, t),
                None => Seq::empty(),
            };
            rest.push(((o.turn, o.sequence.0, o.tool_call_id.0, 3), (3, o.tool_call_id.0, name, o.output@)))
        } else {
            rest
        }
    }
}

/// The model changes on branch `b` as context entries (the Model's ID), with their origins.
pub open spec fn model_change_sources(w: World, s: Seq<(Entity, ModelChange)>, b: Seq<Entity>) -> Seq<(Origin, EntryView)>
    decreases s.len(),
{
    if s.len() == 0 {
        Seq::empty()
    } else {
        let rest = model_change_sources(w, s.drop_last(), b);
        let c = s.last().1;
        if b.contains(c.turn) {
            rest.push(((c.turn, c.sequence.0, 0, 4), (4, 0, get(w.models@, c.model).unwrap().model_id@, Seq::empty())))
        } else {
            rest
        }
    }
}

/// The compactions on branch `b` as context entries, with their origins.
pub open spec fn compaction_sources(s: Seq<(Entity, Compaction)>, b: Seq<Entity>) -> Seq<(Origin, EntryView)>
    decreases s.len(),
{
    if s.len() == 0 {
        Seq::empty()
    } else {
        let rest = compaction_sources(s.drop_last(), b);
        let c = s.last().1;
        if b.contains(c.turn) {
            rest.push(((c.turn, c.sequence.0, 0, 5), (5, 0, c.summary@, Seq::empty())))
        } else {
            rest
        }
    }
}

/// The recovery notes on branch `b` as context entries, with their origins.
pub open spec fn recovery_sources(s: Seq<(Entity, Recovery)>, b: Seq<Entity>) -> Seq<(Origin, EntryView)>
    decreases s.len(),
{
    if s.len() == 0 {
        Seq::empty()
    } else {
        let rest = recovery_sources(s.drop_last(), b);
        let c = s.last().1;
        if b.contains(c.turn) {
            rest.push(((c.turn, c.sequence.0, 0, 6), (6, 0, c.text@, Seq::empty())))
        } else {
            rest
        }
    }
}

/// What a context of branch `b` is made of: user messages (kind 0), assistant messages (1),
/// ToolUses (2, by tool call ID), tool outcomes (3, by tool call ID), model changes (4),
/// compactions (5), and recovery notes (6).
pub open spec fn context_sources(w: World, b: Seq<Entity>) -> Seq<(Origin, EntryView)> {
    user_sources(w.user_messages@, b) + assistant_sources(w.assistant_messages@, b) + tool_use_sources(w, w.tool_uses@, b)
        + tool_outcome_sources(w, w.tool_outcomes@, b) + model_change_sources(w, w.model_changes@, b)
        + compaction_sources(w.compactions@, b) + recovery_sources(w.recoveries@, b)
}

proof fn lemma_user_entries(s: Seq<(Entity, UserMessage)>, b: Seq<Entity>)
    ensures
        keys_from(b, user_entries(s, b), user_sources(s, b)),
    decreases s.len(),
{
    if s.len() > 0 {
        lemma_user_entries(s.drop_last(), b);
    }
}

proof fn lemma_assistant_entries(s: Seq<(Entity, AssistantMessage)>, b: Seq<Entity>)
    ensures
        keys_from(b, assistant_entries(s, b), assistant_sources(s, b)),
    decreases s.len(),
{
    if s.len() > 0 {
        lemma_assistant_entries(s.drop_last(), b);
    }
}

proof fn lemma_tool_use_entries(w: World, s: Seq<(Entity, ToolUse)>, b: Seq<Entity>)
    ensures
        keys_from(b, tool_use_entries(w, s, b), tool_use_sources(w, s, b)),
    decreases s.len(),
{
    if s.len() > 0 {
        lemma_tool_use_entries(w, s.drop_last(), b);
    }
}

proof fn lemma_tool_outcome_entries(w: World, s: Seq<(Entity, ToolOutcome)>, b: Seq<Entity>)
    ensures
        keys_from(b, tool_outcome_entries(w, s, b), tool_outcome_sources(w, s, b)),
    decreases s.len(),
{
    if s.len() > 0 {
        lemma_tool_outcome_entries(w, s.drop_last(), b);
    }
}

proof fn lemma_model_change_entries(w: World, s: Seq<(Entity, ModelChange)>, b: Seq<Entity>)
    ensures
        model_change_entries(w, s, b) matches Some(e) ==> keys_from(b, e, model_change_sources(w, s, b)),
    decreases s.len(),
{
    if s.len() > 0 {
        lemma_model_change_entries(w, s.drop_last(), b);
    }
}

proof fn lemma_compaction_entries(s: Seq<(Entity, Compaction)>, b: Seq<Entity>)
    ensures
        keys_from(b, compaction_entries(s, b), compaction_sources(s, b)),
    decreases s.len(),
{
    if s.len() > 0 {
        lemma_compaction_entries(s.drop_last(), b);
    }
}

proof fn lemma_recovery_entries(s: Seq<(Entity, Recovery)>, b: Seq<Entity>)
    ensures
        keys_from(b, recovery_entries(s, b), recovery_sources(s, b)),
    decreases s.len(),
{
    if s.len() > 0 {
        lemma_recovery_entries(s.drop_last(), b);
    }
}

proof fn lemma_context_keys(w: World, b: Seq<Entity>)
    requires
        branch_entries(w, b) is Some,
    ensures
        keys_from(b, branch_entries(w, b).unwrap(), context_sources(w, b)),
{
    lemma_user_entries(w.user_messages@, b);
    lemma_assistant_entries(w.assistant_messages@, b);
    lemma_tool_use_entries(w, w.tool_uses@, b);
    lemma_tool_outcome_entries(w, w.tool_outcomes@, b);
    lemma_model_change_entries(w, w.model_changes@, b);
    lemma_compaction_entries(w.compactions@, b);
    lemma_recovery_entries(w.recoveries@, b);
    let changes = model_change_entries(w, w.model_changes@, b).unwrap();
    let e1 = user_entries(w.user_messages@, b);
    let o1 = user_sources(w.user_messages@, b);
    let e2 = e1 + assistant_entries(w.assistant_messages@, b);
    let o2 = o1 + assistant_sources(w.assistant_messages@, b);
    lemma_keys_from_concat(b, e1, o1, assistant_entries(w.assistant_messages@, b), assistant_sources(w.assistant_messages@, b));
    let e3 = e2 + tool_use_entries(w, w.tool_uses@, b);
    let o3 = o2 + tool_use_sources(w, w.tool_uses@, b);
    lemma_keys_from_concat(b, e2, o2, tool_use_entries(w, w.tool_uses@, b), tool_use_sources(w, w.tool_uses@, b));
    let e4 = e3 + tool_outcome_entries(w, w.tool_outcomes@, b);
    let o4 = o3 + tool_outcome_sources(w, w.tool_outcomes@, b);
    lemma_keys_from_concat(b, e3, o3, tool_outcome_entries(w, w.tool_outcomes@, b), tool_outcome_sources(w, w.tool_outcomes@, b));
    let e5 = e4 + changes;
    let o5 = o4 + model_change_sources(w, w.model_changes@, b);
    lemma_keys_from_concat(b, e4, o4, changes, model_change_sources(w, w.model_changes@, b));
    let e6 = e5 + compaction_entries(w.compactions@, b);
    let o6 = o5 + compaction_sources(w.compactions@, b);
    lemma_keys_from_concat(b, e5, o5, compaction_entries(w.compactions@, b), compaction_sources(w.compactions@, b));
    lemma_keys_from_concat(b, e6, o6, recovery_entries(w.recoveries@, b), recovery_sources(w.recoveries@, b));
}

/// A context lists the entries of its branch, each once, in order of Turn from the root (a
/// Turn's entries before those of its descendants), then sequence number, then ID, then kind,
/// and then keeps the newest of them that fit in the budget.
pub proof fn law_context_in_branch_order(w: World, b: Seq<Entity>, budget: nat, entries: Seq<EntryView>)
    requires
        b.len() < u64::MAX,
        context_ok(w, b, budget, entries),
    ensures
        branch_entries(w, b) is Some,
        exists|p: Seq<int>|
            #[trigger] listed_in_order(b, origins_of(context_sources(w, b)), p)
                && entries == fit_budget(reorder(values_of(context_sources(w, b)), p), budget),
{
    let items = branch_entries(w, b).unwrap();
    let p = choose|p: Seq<int>|
        #[trigger] is_sorted_perm(entry_keys(items), p) && entries == fit_budget(reorder(entry_values(items), p), budget);
    lemma_context_keys(w, b);
    lemma_sorted_sources(b, items, context_sources(w, b), entry_keys(items), entry_values(items), p);
}

/// The exposures of tools to `agent` among rows `s` whose tool has a ToolDefinition, in table
/// order, each with what the provider sees of its tool: ID, name, and description.
pub open spec fn agent_exposures(w: World, s: Seq<(Entity, crate::world::AgentTool)>, agent: Entity) -> Seq<
    (crate::world::AgentTool, (crate::ids::ToolId, Seq<char>, Seq<char>)),
>
    decreases s.len(),
{
    if s.len() == 0 {
        Seq::empty()
    } else {
        let rest = agent_exposures(w, s.drop_last(), agent);
        let x = s.last().1;
        if x.agent == agent && get(w.tools@, x.tool) is Some {
            let d = get(w.tools@, x.tool).unwrap();
            rest.push((x, (d.tool_id, d.name@, d.description@)))
        } else {
            rest
        }
    }
}

/// Exposure `x` comes no later than `y`: by exposure order, then tool entity handle.
pub open spec fn exposure_before(x: crate::world::AgentTool, y: crate::world::AgentTool) -> bool {
    x.order < y.order || (x.order == y.order && x.tool.0 <= y.tool.0)
}

proof fn lemma_exposure_items(w: World, s: Seq<(Entity, crate::world::AgentTool)>, agent: Entity)
    ensures
        crate::execution::exposure_items(w, s, agent).len() == agent_exposures(w, s, agent).len(),
        forall|k: int| 0 <= k < agent_exposures(w, s, agent).len() ==> crate::execution::exposure_items(w, s, agent)[k]
            == (((#[trigger] agent_exposures(w, s, agent)[k]).0.order as u64, agent_exposures(w, s, agent)[k].0.tool.0, 0u64, 0u64),
            agent_exposures(w, s, agent)[k].1),
    decreases s.len(),
{
    if s.len() > 0 {
        lemma_exposure_items(w, s.drop_last(), agent);
    }
}

/// The tools given to a provider for `agent` are its exposed tools, each once, ordered by
/// exposure order, ties broken by tool entity handle: `tools` list them as `p` orders the
/// exposures.
pub open spec fn exposures_in_order(w: World, agent: Entity, tools: Seq<(crate::ids::ToolId, Seq<char>, Seq<char>)>, p: Seq<int>) -> bool {
    let xs = agent_exposures(w, w.agent_tools@, agent);
    &&& p.len() == xs.len()
    &&& forall|k: int| 0 <= k < xs.len() ==> p.contains(k)
    &&& forall|i: int| 0 <= i < p.len() ==> 0 <= #[trigger] p[i] < xs.len()
    &&& tools.len() == p.len()
    &&& forall|i: int| 0 <= i < p.len() ==> #[trigger] tools[i] == xs[p[i]].1
    &&& forall|i: int, j: int| 0 <= i < j < p.len() ==> exposure_before(xs[#[trigger] p[i]].0, xs[#[trigger] p[j]].0)
}

/// The tools exposed to an Agent come in exposure order, then tool entity order.
pub proof fn law_exposed_tools_in_order(w: World, agent: Entity, tools: Seq<(crate::ids::ToolId, Seq<char>, Seq<char>)>)
    requires
        crate::execution::exposed_tools_match(w, agent, tools),
    ensures
        exists|p: Seq<int>| #[trigger] exposures_in_order(w, agent, tools, p),
{
    let items = crate::execution::exposure_items(w, w.agent_tools@, agent);
    let xs = agent_exposures(w, w.agent_tools@, agent);
    let keys = crate::execution::exposure_keys(items);
    let p = choose|p: Seq<int>|
        #[trigger] is_sorted_perm(keys, p) && tools == reorder(crate::execution::exposure_values(items), p);
    lemma_exposure_items(w, w.agent_tools@, agent);
    assert forall|i: int, j: int| 0 <= i < j < p.len() implies exposure_before(xs[#[trigger] p[i]].0, xs[#[trigger] p[j]].0) by {
        let x = p[i];
        let y = p[j];
        assert(key_lt(keys[x], x, keys[y], y));
        assert(keys[x] == items[x].0);
        assert(keys[y] == items[y].0);
    }
    assert forall|i: int| 0 <= i < p.len() implies #[trigger] tools[i] == xs[p[i]].1 by {
        assert(tools[i] == crate::execution::exposure_values(items)[p[i]]);
    }
    assert(keys.len() == items.len());
    assert(exposures_in_order(w, agent, tools, p));
}

} // verus!
