//! The temporary fake Provider and fake tool, and the capability entities that expose them.
use vstd::prelude::*;

use crate::context::{views, ContextEntry, EntryView};
use crate::execution::{ModelOutput, ModelReply, ProviderInput, ToolInput};
use crate::ids::{Entity, ProviderId, ToolId};
use crate::text::{concat, decimal, with_decimal};
use crate::world::{
    Agent, AgentTool, Model, ModelApi, ModelStopReason, ModelUsage, Provider, ProviderFailure,
    ToolDefinition, ToolFailure, World,
};

verus! {

/// The text of the last user entry of a context, or the empty text when it has none.
pub open spec fn last_user_text(entries: Seq<EntryView>) -> Seq<char>
    decreases entries.len(),
{
    if entries.len() == 0 {
        Seq::empty()
    } else if entries.last().0 == 0 {
        entries.last().2
    } else {
        last_user_text(entries.drop_last())
    }
}

/// The text of the fake Provider's final reply.
pub open spec fn fake_final_text() -> Seq<char> {
    "Fake harness completed the request."@
}

fn last_user_entry(entries: &Vec<ContextEntry>) -> (t: String)
    ensures
        t@ == last_user_text(views(entries@)),
{
    let ghost vs = views(entries@);
    let mut i: usize = entries.len();
    proof {
        assert(vs.take(i as int) =~= vs);
    }
    while i > 0
        invariant
            i <= entries@.len(),
            vs == views(entries@),
            last_user_text(vs) == last_user_text(vs.take(i as int)),
        decreases i,
    {
        proof {
            assert(vs.take(i as int).drop_last() =~= vs.take(i - 1));
        }
        match &entries[i - 1] {
            ContextEntry::User(text) => {
                return text.clone();
            },
            _ => {},
        }
        i = i - 1;
    }
    proof {
        assert(vs.take(0) =~= Seq::<EntryView>::empty());
    }
    String::new()
}

/// The fake Provider's answer to one request.
///
/// A continuation gets the final reply "Fake harness completed the request.", repeated as the
/// assistant content, with a complete stop and the opaque replay "fake-final". A first request
/// calls the Agent's first exposed tool with the text of the last user entry of the context
/// (empty when there is none), with the assistant content "Calling fake_tool.", a tool-use stop
/// and the opaque replay "fake-tool-call:" followed by that input; with no exposed tool it fails
/// with "Agent exposes no Tool for the fake Provider.". Every answer has the response ID
/// "fake-response-" followed by the request ID, the fake API, and usage of zero input tokens
/// and one output token.
pub fn fake_provider_output(input: &ProviderInput) -> (r: Result<ModelOutput, ProviderFailure>)
    ensures
        !input.continuation && input.tools@.len() == 0 <==> r is Err,
        r matches Err(f) ==> f.message@ == "Agent exposes no Tool for the fake Provider."@,
        r matches Ok(o) ==> {
            &&& o.response_id@ == "fake-response-"@ + decimal(input.request_id.0 as nat)
            &&& o.api == ModelApi::Fake
            &&& o.usage == (ModelUsage { input_tokens: 0, output_tokens: 1 })
            &&& if input.continuation {
                &&& o.reply matches ModelReply::Final { text } && text@ == fake_final_text()
                &&& o.assistant_content matches Some(c) && c@ == fake_final_text()
                &&& o.stop_reason == ModelStopReason::Complete
                &&& o.opaque_replay@ == "fake-final"@
            } else {
                let call_input = last_user_text(views(input.context.entries@));
                &&& o.reply matches ModelReply::ToolCall { tool_id, input: i }
                    && tool_id == input.tools@[0].id && i@ == call_input
                &&& o.assistant_content matches Some(c) && c@ == "Calling fake_tool."@
                &&& o.stop_reason == ModelStopReason::ToolUse
                &&& o.opaque_replay@ == "fake-tool-call:"@ + call_input
            }
        },
{
    proof {
        reveal_strlit("Fake harness completed the request.");
        reveal_strlit("Agent exposes no Tool for the fake Provider.");
        reveal_strlit("Calling fake_tool.");
        reveal_strlit("fake-final");
    }
    let (reply, assistant_content, stop_reason, opaque_replay) = if input.continuation {
        (
            ModelReply::Final { text: String::from_str("Fake harness completed the request.") },
            Some(String::from_str("Fake harness completed the request.")),
            ModelStopReason::Complete,
            String::from_str("fake-final"),
        )
    } else {
        if input.tools.len() == 0 {
            return Err(ProviderFailure { message: String::from_str("Agent exposes no Tool for the fake Provider.") });
        }
        let text = last_user_entry(&input.context.entries);
        let opaque_replay = concat("fake-tool-call:", text.as_str());
        (
            ModelReply::ToolCall { tool_id: input.tools[0].id, input: text },
            Some(String::from_str("Calling fake_tool.")),
            ModelStopReason::ToolUse,
            opaque_replay,
        )
    };
    Ok(ModelOutput {
        reply,
        assistant_content,
        response_id: with_decimal("fake-response-", input.request_id.0),
        api: ModelApi::Fake,
        usage: ModelUsage { input_tokens: 0, output_tokens: 1 },
        stop_reason,
        opaque_replay,
    })
}

/// The fake tool's answer: "Fake tool completed: " followed by its input.
pub fn fake_tool_output(input: &ToolInput) -> (r: Result<String, ToolFailure>)
    ensures
        r matches Ok(t) && t@ == "Fake tool completed: "@ + input.input@,
{
    Ok(concat("Fake tool completed: ", input.input.as_str()))
}

/// Row `i` satisfies `p`, no earlier row that satisfies `p` has an entity as small, and no later
/// one has a smaller entity: it is the first row of least entity among those that satisfy `p`.
pub open spec fn is_least<T>(s: Seq<(Entity, T)>, p: spec_fn((Entity, T)) -> bool, i: int) -> bool {
    &&& 0 <= i < s.len()
    &&& p(s[i])
    &&& forall|j: int| 0 <= j < i && #[trigger] p(s[j]) ==> s[i].0.0 < s[j].0.0
    &&& forall|j: int| i < j < s.len() && #[trigger] p(s[j]) ==> s[i].0.0 <= s[j].0.0
}

/// The first row of least entity among the rows that satisfy `p`, if any row does.
pub open spec fn least_index<T>(s: Seq<(Entity, T)>, p: spec_fn((Entity, T)) -> bool) -> Option<int> {
    if exists|i: int| is_least(s, p, i) {
        Some(choose|i: int| is_least(s, p, i))
    } else {
        None
    }
}

/// The first row that satisfies `p`, if any row does.
pub open spec fn first_index<T>(s: Seq<(Entity, T)>, p: spec_fn((Entity, T)) -> bool) -> Option<int> {
    if exists|i: int| 0 <= i < s.len() && p(s[i]) {
        Some(choose|i: int| 0 <= i < s.len() && p(s[i]) && forall|j: int| 0 <= j < i ==> !p(#[trigger] s[j]))
    } else {
        None
    }
}

proof fn lemma_least_unique<T>(s: Seq<(Entity, T)>, p: spec_fn((Entity, T)) -> bool, i: int, j: int)
    requires
        is_least(s, p, i),
        is_least(s, p, j),
    ensures
        i == j,
{
    if i < j {
        assert(p(s[i]));
    } else if j < i {
        assert(p(s[j]));
    }
}

proof fn lemma_least_index<T>(s: Seq<(Entity, T)>, p: spec_fn((Entity, T)) -> bool, r: Option<int>)
    requires
        match r {
            Some(i) => is_least(s, p, i),
            None => forall|j: int| 0 <= j < s.len() ==> !p(#[trigger] s[j]),
        },
    ensures
        least_index(s, p) == r,
{
    match r {
        Some(i) => {
            let c = choose|x: int| is_least(s, p, x);
            lemma_least_unique(s, p, i, c);
        },
        None => {
            if exists|x: int| is_least(s, p, x) {
                let c = choose|x: int| is_least(s, p, x);
                assert(p(s[c]));
            }
        },
    }
}

pub(crate) proof fn lemma_first_index<T>(s: Seq<(Entity, T)>, p: spec_fn((Entity, T)) -> bool, r: Option<int>)
    requires
        match r {
            Some(i) => 0 <= i < s.len() && p(s[i]) && forall|j: int| 0 <= j < i ==> !p(#[trigger] s[j]),
            None => forall|j: int| 0 <= j < s.len() ==> !p(#[trigger] s[j]),
        },
    ensures
        first_index(s, p) == r,
{
    match r {
        Some(i) => {
            assert(0 <= i < s.len() && p(s[i]));
            let c = choose|x: int| 0 <= x < s.len() && p(s[x]) && forall|j: int| 0 <= j < x ==> !p(#[trigger] s[j]);
            if c < i {
                assert(!p(s[c]));
            } else if i < c {
                assert(!p(s[i]));
            }
        },
        None => {},
    }
}

proof fn lemma_first_exists<T>(s: Seq<(Entity, T)>, p: spec_fn((Entity, T)) -> bool, n: int)
    requires
        0 <= n <= s.len(),
        exists|i: int| 0 <= i < n && p(s[i]),
    ensures
        exists|i: int| 0 <= i < n && p(s[i]) && forall|j: int| 0 <= j < i ==> !p(#[trigger] s[j]),
    decreases n,
{
    if exists|i: int| 0 <= i < n - 1 && p(s[i]) {
        lemma_first_exists(s, p, n - 1);
        let i = choose|i: int| 0 <= i < n - 1 && p(s[i]) && forall|j: int| 0 <= j < i ==> !p(#[trigger] s[j]);
        assert(0 <= i < n);
    } else {
        assert(p(s[n - 1]));
        assert forall|j: int| 0 <= j < n - 1 implies !p(#[trigger] s[j]) by {}
    }
}

/// What [`first_index`] answers: the first row that satisfies `p`, or none when no row does.
pub proof fn lemma_first_index_spec<T>(s: Seq<(Entity, T)>, p: spec_fn((Entity, T)) -> bool)
    ensures
        match first_index(s, p) {
            Some(i) => 0 <= i < s.len() && p(s[i]) && forall|j: int| 0 <= j < i ==> !p(#[trigger] s[j]),
            None => forall|j: int| 0 <= j < s.len() ==> !p(#[trigger] s[j]),
        },
{
    if exists|i: int| 0 <= i < s.len() && p(s[i]) {
        lemma_first_exists(s, p, s.len() as int);
    }
}

/// Providers with the fake ProviderId.
pub open spec fn fake_provider_row() -> spec_fn((Entity, Provider)) -> bool {
    |r: (Entity, Provider)| r.1.provider_id == ProviderId(1)
}

/// Models served by `provider`.
pub open spec fn model_of(provider: Entity) -> spec_fn((Entity, Model)) -> bool {
    |r: (Entity, Model)| r.1.provider == provider
}

/// Tools with the fake ToolId.
pub open spec fn fake_tool_row() -> spec_fn((Entity, ToolDefinition)) -> bool {
    |r: (Entity, ToolDefinition)| r.1.tool_id == ToolId(1)
}

/// Agents that select `model`.
pub open spec fn agent_of(model: Entity) -> spec_fn((Entity, Agent)) -> bool {
    |r: (Entity, Agent)| r.1.model == model
}

/// Exposures of `tool` to `agent`.
pub open spec fn exposure_of(agent: Entity, tool: Entity) -> spec_fn((Entity, AgentTool)) -> bool {
    |r: (Entity, AgentTool)| r.1.agent == agent && r.1.tool == tool
}

fn least_fake_provider(s: &Vec<(Entity, Provider)>) -> (r: Option<usize>)
    ensures
        least_index(s@, fake_provider_row()) == match r {
            Some(i) => Some(i as int),
            None => None::<int>,
        },
        r matches Some(i) ==> i < s@.len(),
{
    let ghost p = fake_provider_row();
    let mut best: Option<usize> = None;
    let mut i: usize = 0;
    while i < s.len()
        invariant
            p == fake_provider_row(),
            i <= s@.len(),
            match best {
                Some(b) => is_least(s@.take(i as int), p, b as int),
                None => forall|j: int| 0 <= j < i ==> !p(#[trigger] s@[j]),
            },
        decreases s.len() - i,
    {
        proof {
            assert(forall|j: int| 0 <= j < i ==> s@.take(i + 1)[j] == #[trigger] s@.take(i as int)[j]);
        }
        if s[i].1.provider_id == ProviderId(1) {
            let better = match best {
                None => true,
                Some(b) => s[i].0.0 < s[b].0.0,
            };
            if better {
                best = Some(i);
            }
        }
        proof {
            assert(s@.take(i + 1)[i as int] == s@[i as int]);
        }
        i = i + 1;
    }
    proof {
        assert(s@.take(s@.len() as int) =~= s@);
        lemma_least_index(s@, p, match best {
            Some(b) => Some(b as int),
            None => None,
        });
    }
    best
}

fn least_model_of(s: &Vec<(Entity, Model)>, provider: Entity) -> (r: Option<usize>)
    ensures
        least_index(s@, model_of(provider)) == match r {
            Some(i) => Some(i as int),
            None => None::<int>,
        },
        r matches Some(i) ==> i < s@.len(),
{
    let ghost p = model_of(provider);
    let mut best: Option<usize> = None;
    let mut i: usize = 0;
    while i < s.len()
        invariant
            p == model_of(provider),
            i <= s@.len(),
            match best {
                Some(b) => is_least(s@.take(i as int), p, b as int),
                None => forall|j: int| 0 <= j < i ==> !p(#[trigger] s@[j]),
            },
        decreases s.len() - i,
    {
        proof {
            assert(forall|j: int| 0 <= j < i ==> s@.take(i + 1)[j] == #[trigger] s@.take(i as int)[j]);
        }
        if s[i].1.provider == provider {
            let better = match best {
                None => true,
                Some(b) => s[i].0.0 < s[b].0.0,
            };
            if better {
                best = Some(i);
            }
        }
        proof {
            assert(s@.take(i + 1)[i as int] == s@[i as int]);
        }
        i = i + 1;
    }
    proof {
        assert(s@.take(s@.len() as int) =~= s@);
        lemma_least_index(s@, p, match best {
            Some(b) => Some(b as int),
            None => None,
        });
    }
    best
}

fn least_fake_tool(s: &Vec<(Entity, ToolDefinition)>) -> (r: Option<usize>)
    ensures
        least_index(s@, fake_tool_row()) == match r {
            Some(i) => Some(i as int),
            None => None::<int>,
        },
        r matches Some(i) ==> i < s@.len(),
{
    let ghost p = fake_tool_row();
    let mut best: Option<usize> = None;
    let mut i: usize = 0;
    while i < s.len()
        invariant
            p == fake_tool_row(),
            i <= s@.len(),
            match best {
                Some(b) => is_least(s@.take(i as int), p, b as int),
                None => forall|j: int| 0 <= j < i ==> !p(#[trigger] s@[j]),
            },
        decreases s.len() - i,
    {
        proof {
            assert(forall|j: int| 0 <= j < i ==> s@.take(i + 1)[j] == #[trigger] s@.take(i as int)[j]);
        }
        if s[i].1.tool_id == ToolId(1) {
            let better = match best {
                None => true,
                Some(b) => s[i].0.0 < s[b].0.0,
            };
            if better {
                best = Some(i);
            }
        }
        proof {
            assert(s@.take(i + 1)[i as int] == s@[i as int]);
        }
        i = i + 1;
    }
    proof {
        assert(s@.take(s@.len() as int) =~= s@);
        lemma_least_index(s@, p, match best {
            Some(b) => Some(b as int),
            None => None,
        });
    }
    best
}

fn least_agent_of(s: &Vec<(Entity, Agent)>, model: Entity) -> (r: Option<usize>)
    ensures
        least_index(s@, agent_of(model)) == match r {
            Some(i) => Some(i as int),
            None => None::<int>,
        },
        r matches Some(i) ==> i < s@.len(),
{
    let ghost p = agent_of(model);
    let mut best: Option<usize> = None;
    let mut i: usize = 0;
    while i < s.len()
        invariant
            p == agent_of(model),
            i <= s@.len(),
            match best {
                Some(b) => is_least(s@.take(i as int), p, b as int),
                None => forall|j: int| 0 <= j < i ==> !p(#[trigger] s@[j]),
            },
        decreases s.len() - i,
    {
        proof {
            assert(forall|j: int| 0 <= j < i ==> s@.take(i + 1)[j] == #[trigger] s@.take(i as int)[j]);
        }
        if s[i].1.model == model {
            let better = match best {
                None => true,
                Some(b) => s[i].0.0 < s[b].0.0,
            };
            if better {
                best = Some(i);
            }
        }
        proof {
            assert(s@.take(i + 1)[i as int] == s@[i as int]);
        }
        i = i + 1;
    }
    proof {
        assert(s@.take(s@.len() as int) =~= s@);
        lemma_least_index(s@, p, match best {
            Some(b) => Some(b as int),
            None => None,
        });
    }
    best
}

fn first_exposure_of(s: &Vec<(Entity, AgentTool)>, agent: Entity, tool: Entity) -> (r: Option<usize>)
    ensures
        first_index(s@, exposure_of(agent, tool)) == match r {
            Some(i) => Some(i as int),
            None => None::<int>,
        },
        r matches Some(i) ==> i < s@.len(),
{
    let ghost p = exposure_of(agent, tool);
    let mut i: usize = 0;
    while i < s.len()
        invariant
            p == exposure_of(agent, tool),
            i <= s@.len(),
            forall|j: int| 0 <= j < i ==> !p(#[trigger] s@[j]),
        decreases s.len() - i,
    {
        if s[i].1.agent == agent && s[i].1.tool == tool {
            proof {
                lemma_first_index(s@, p, Some(i as int));
            }
            return Some(i);
        }
        i = i + 1;
    }
    proof {
        lemma_first_index(s@, p, None);
    }
    None
}

/// The capability entities that expose the fake Provider and tool to the Agent.
#[derive(Debug, Clone, Copy, PartialEq, Eq, Structural)]
pub struct FakeCapabilities {
    pub provider: Entity,
    pub model: Entity,
    pub tool: Entity,
    pub agent: Entity,
    pub exposure: Entity,
}

/// The entity of the found row, or the fresh entity `fresh`.
pub open spec fn found_or<T>(s: Seq<(Entity, T)>, i: Option<int>, fresh: int) -> Entity {
    match i {
        Some(k) => s[k].0,
        None => Entity(fresh as u64),
    }
}

/// One entity is spawned when nothing was found.
pub open spec fn spawns(i: Option<int>) -> int {
    if i is Some { 0 } else { 1 }
}

/// The capability entities that reconciliation reuses or spawns, and how many it spawns: the
/// least fake Provider, the least Model it serves, the least fake tool, the least Agent of that
/// Model, and the first exposure of the tool to the Agent; each one missing is spawned in that
/// order.
pub open spec fn fake_plan(w: World) -> (FakeCapabilities, int) {
    let n0 = w.next_entity as int;
    let ip = least_index(w.providers@, fake_provider_row());
    let p = found_or(w.providers@, ip, n0);
    let n1 = n0 + spawns(ip);
    let im = least_index(w.models@, model_of(p));
    let m = found_or(w.models@, im, n1);
    let n2 = n1 + spawns(im);
    let it = least_index(w.tools@, fake_tool_row());
    let t = found_or(w.tools@, it, n2);
    let n3 = n2 + spawns(it);
    let ia = least_index(w.agents@, agent_of(m));
    let a = found_or(w.agents@, ia, n3);
    let n4 = n3 + spawns(ia);
    let ix = first_index(w.agent_tools@, exposure_of(a, t));
    let x = found_or(w.agent_tools@, ix, n4);
    (FakeCapabilities { provider: p, model: m, tool: t, agent: a, exposure: x }, n4 + spawns(ix) - n0)
}

/// `f` is `s` with row `i` (or a new last row when `i` is None) set to entity `e` and value `v`.
pub open spec fn set_or_push<T>(s: Seq<(Entity, T)>, f: Seq<(Entity, T)>, i: Option<int>, e: Entity, v: spec_fn(T) -> bool) -> bool {
    match i {
        Some(k) => {
            &&& f.len() == s.len()
            &&& forall|j: int| 0 <= j < s.len() && j != k ==> #[trigger] f[j] == s[j]
            &&& f[k].0 == e
            &&& v(f[k].1)
        },
        None => {
            &&& f.len() == s.len() + 1
            &&& forall|j: int| 0 <= j < s.len() ==> #[trigger] f[j] == s[j]
            &&& f[s.len() as int].0 == e
            &&& v(f[s.len() as int].1)
        },
    }
}

/// The table has a unit row for `e`, added at the end when it had none.
pub open spec fn with_unit_row(s: Seq<(Entity, ())>, e: Entity) -> Seq<(Entity, ())> {
    if crate::world::has_row(s, e) { s } else { s.push((e, ())) }
}

/// What [`reconcile_fake_capabilities`] makes of `w`: the world `f` and the capabilities `c`.
pub open spec fn reconciled(w: World, f: World, c: FakeCapabilities) -> bool {
    let plan = fake_plan(w);
    let ip = least_index(w.providers@, fake_provider_row());
    let im = least_index(w.models@, model_of(c.provider));
    let it = least_index(w.tools@, fake_tool_row());
    let ia = least_index(w.agents@, agent_of(c.model));
    let ix = first_index(w.agent_tools@, exposure_of(c.agent, c.tool));
    &&& c == plan.0
    &&& f.next_entity == w.next_entity + plan.1
    &&& f.providers@ == (if ip is Some { w.providers@ } else {
        w.providers@.push((c.provider, Provider { provider_id: ProviderId(1) }))
    })
    &&& f.provider_executors@ == with_unit_row(w.provider_executors@, c.provider)
    &&& set_or_push(w.models@, f.models@, im, c.model, |m: Model| m.provider == c.provider && m.model_id@ == "fake-model"@)
    &&& set_or_push(w.tools@, f.tools@, it, c.tool, |d: ToolDefinition|
        d.tool_id == ToolId(1) && d.name@ == "fake_tool"@ && d.description@ == "Temporary fake tool capability."@)
    &&& f.tool_executors@ == with_unit_row(w.tool_executors@, c.tool)
    &&& f.agents@ == (if ia is Some { w.agents@ } else { w.agents@.push((c.agent, Agent { model: c.model })) })
    &&& f.agent_tools@ == match ix {
        Some(k) => w.agent_tools@.update(k, (c.exposure, AgentTool { agent: c.agent, tool: c.tool, order: 0 })),
        None => w.agent_tools@.push((c.exposure, AgentTool { agent: c.agent, tool: c.tool, order: 0 })),
    }
    &&& f.sessions@ == w.sessions@
    &&& f.turns@ == w.turns@
    &&& f.same_timeline(w)
    &&& f.same_work(w)
    &&& f.same_outcomes(w)
    &&& f.same_cameras(w)
    &&& f.same_resources(w)
}

/// Reuses or spawns the fake Provider with its executor, its "fake-model" Model, the
/// "fake_tool" tool with its executor, an Agent of the Model, and the exposure of the tool to
/// the Agent at order zero, as [`fake_plan`] chooses them. A reused Model is renamed
/// "fake-model", a reused tool gets the fake definition, a reused exposure gets order zero.
/// Nothing else changes.
#[verifier::rlimit(100)]
#[verifier::spinoff_prover]
pub fn reconcile_fake_capabilities(world: &mut World) -> (c: FakeCapabilities)
    requires
        old(world).next_entity + 5 <= u64::MAX,
    ensures
        reconciled(*old(world), *final(world), c),
{
    let ghost w0 = *world;
    let provider = match least_fake_provider(&world.providers) {
        Some(i) => world.providers[i].0,
        None => {
            let e = world.spawn();
            world.providers.push((e, Provider { provider_id: ProviderId(1) }));
            e
        },
    };
    if !crate::world::contains(&world.provider_executors, provider) {
        world.provider_executors.push((provider, ()));
    }
    let ghost w1 = *world;
    let model = match least_model_of(&world.models, provider) {
        Some(i) => {
            let (e, _) = world.models.remove(i);
            world.models.insert(i, (e, Model { provider, model_id: String::from_str("fake-model") }));
            e
        },
        None => {
            let e = world.spawn();
            world.models.push((e, Model { provider, model_id: String::from_str("fake-model") }));
            e
        },
    };
    proof {
        reveal_strlit("fake-model");
    }
    let ghost w2 = *world;
    let tool = match least_fake_tool(&world.tools) {
        Some(i) => {
            let (e, _) = world.tools.remove(i);
            world.tools.insert(i, (e, ToolDefinition {
                tool_id: ToolId(1),
                name: String::from_str("fake_tool"),
                description: String::from_str("Temporary fake tool capability."),
            }));
            e
        },
        None => {
            let e = world.spawn();
            world.tools.push((e, ToolDefinition {
                tool_id: ToolId(1),
                name: String::from_str("fake_tool"),
                description: String::from_str("Temporary fake tool capability."),
            }));
            e
        },
    };
    if !crate::world::contains(&world.tool_executors, tool) {
        world.tool_executors.push((tool, ()));
    }
    let ghost w3 = *world;
    let agent = match least_agent_of(&world.agents, model) {
        Some(i) => world.agents[i].0,
        None => {
            let e = world.spawn();
            world.agents.push((e, Agent { model }));
            e
        },
    };
    let exposure = match first_exposure_of(&world.agent_tools, agent, tool) {
        Some(i) => {
            let e = world.agent_tools[i].0;
            world.agent_tools.set(i, (e, AgentTool { agent, tool, order: 0 }));
            e
        },
        None => {
            let e = world.spawn();
            world.agent_tools.push((e, AgentTool { agent, tool, order: 0 }));
            e
        },
    };
    proof {
        reveal_strlit("fake_tool");
        reveal_strlit("Temporary fake tool capability.");
    }
    FakeCapabilities { provider, model, tool, agent, exposure }
}

proof fn lemma_least_exists<T>(s: Seq<(Entity, T)>, p: spec_fn((Entity, T)) -> bool, n: int)
    requires
        0 <= n <= s.len(),
        exists|i: int| 0 <= i < n && p(s[i]),
    ensures
        exists|i: int|
            0 <= i < n && p(s[i]) && (forall|j: int| 0 <= j < i && #[trigger] p(s[j]) ==> s[i].0.0 < s[j].0.0)
                && (forall|j: int| i < j < n && #[trigger] p(s[j]) ==> s[i].0.0 <= s[j].0.0),
    decreases n,
{
    if exists|i: int| 0 <= i < n - 1 && p(s[i]) {
        lemma_least_exists(s, p, n - 1);
        let i = choose|i: int|
            0 <= i < n - 1 && p(s[i]) && (forall|j: int| 0 <= j < i && #[trigger] p(s[j]) ==> s[i].0.0 < s[j].0.0)
                && (forall|j: int| i < j < n - 1 && #[trigger] p(s[j]) ==> s[i].0.0 <= s[j].0.0);
        if p(s[n - 1]) && s[n - 1].0.0 < s[i].0.0 {
            assert forall|j: int| 0 <= j < n - 1 && #[trigger] p(s[j]) implies s[n - 1].0.0 < s[j].0.0 by {
                if j < i {
                    assert(s[i].0.0 < s[j].0.0);
                } else if i < j {
                    assert(s[i].0.0 <= s[j].0.0);
                }
            }
            assert(0 <= n - 1 < n && p(s[n - 1]));
        } else {
            assert forall|j: int| i < j < n && #[trigger] p(s[j]) implies s[i].0.0 <= s[j].0.0 by {
                if j < n - 1 {
                    assert(s[i].0.0 <= s[j].0.0);
                }
            }
            assert(0 <= i < n && p(s[i]));
        }
    } else {
        assert(p(s[n - 1]));
        assert forall|j: int| 0 <= j < n - 1 && #[trigger] p(s[j]) implies s[n - 1].0.0 < s[j].0.0 by {}
        assert(0 <= n - 1 < n && p(s[n - 1]));
    }
}

/// What [`least_index`] answers: a least row, or none when no row satisfies `p`.
proof fn lemma_least_index_spec<T>(s: Seq<(Entity, T)>, p: spec_fn((Entity, T)) -> bool)
    ensures
        match least_index(s, p) {
            Some(i) => is_least(s, p, i),
            None => forall|j: int| 0 <= j < s.len() ==> !p(#[trigger] s[j]),
        },
{
    if exists|i: int| 0 <= i < s.len() && p(s[i]) {
        lemma_least_exists(s, p, s.len() as int);
        let i = choose|i: int|
            0 <= i < s.len() && p(s[i]) && (forall|j: int| 0 <= j < i && #[trigger] p(s[j]) ==> s[i].0.0 < s[j].0.0)
                && (forall|j: int| i < j < s.len() && #[trigger] p(s[j]) ==> s[i].0.0 <= s[j].0.0);
        assert(is_least(s, p, i));
    }
}

/// After reconciliation the least row of `p` is the reused row, or the one row added.
proof fn lemma_least_after<T>(s: Seq<(Entity, T)>, f: Seq<(Entity, T)>, p: spec_fn((Entity, T)) -> bool, e: Entity)
    requires
        match least_index(s, p) {
            Some(k) => f.len() == s.len() && s[k].0 == e && f[k].0 == e && p(f[k])
                && forall|j: int| 0 <= j < s.len() && j != k ==> #[trigger] f[j] == s[j],
            None => f.len() == s.len() + 1 && f[s.len() as int].0 == e && p(f[s.len() as int])
                && forall|j: int| 0 <= j < s.len() ==> #[trigger] f[j] == s[j],
        },
    ensures
        least_index(f, p) is Some,
        f[least_index(f, p).unwrap()].0 == e,
{
    lemma_least_index_spec(s, p);
    match least_index(s, p) {
        Some(k) => {
            assert forall|j: int| 0 <= j < k && #[trigger] p(f[j]) implies f[k].0.0 < f[j].0.0 by {
                assert(f[j] == s[j]);
            }
            assert forall|j: int| k < j < f.len() && #[trigger] p(f[j]) implies f[k].0.0 <= f[j].0.0 by {
                assert(f[j] == s[j]);
            }
            lemma_least_index(f, p, Some(k));
        },
        None => {
            let n = s.len() as int;
            assert forall|j: int| 0 <= j < n && #[trigger] p(f[j]) implies f[n].0.0 < f[j].0.0 by {
                assert(f[j] == s[j]);
            }
            lemma_least_index(f, p, Some(n));
        },
    }
}

/// Reconciliation leaves a linked capability graph: the fake Provider with its executor, a
/// "fake-model" Model it serves, the "fake_tool" tool with its executor, an Agent of that Model,
/// and the exposure of the tool to the Agent at order zero. Reconciling a second time finds
/// everything the first time made: it answers the same capabilities, spawns no entity, and
/// leaves the Providers, executors, Agents, and exposures as they were; every Model and tool row
/// keeps its entity.
pub proof fn law_reconcile_is_idempotent(w: World, f: World, c: FakeCapabilities, g: World, c2: FakeCapabilities)
    requires
        reconciled(w, f, c),
        reconciled(f, g, c2),
    ensures
        c2 == c,
        g.next_entity == f.next_entity,
        g.providers@ == f.providers@,
        g.provider_executors@ == f.provider_executors@,
        g.tool_executors@ == f.tool_executors@,
        g.agents@ == f.agents@,
        g.agent_tools@ == f.agent_tools@,
        crate::world::same_keys(g.models@, f.models@),
        crate::world::same_keys(g.tools@, f.tools@),
        exists|i: int| 0 <= i < f.providers@.len() && f.providers@[i] == (c.provider, Provider { provider_id: ProviderId(1) }),
        crate::world::has_row(f.provider_executors@, c.provider),
        exists|i: int| 0 <= i < f.models@.len() && f.models@[i].0 == c.model && f.models@[i].1.provider == c.provider
            && f.models@[i].1.model_id@ == "fake-model"@,
        exists|i: int| 0 <= i < f.tools@.len() && f.tools@[i].0 == c.tool && f.tools@[i].1.tool_id == ToolId(1)
            && f.tools@[i].1.name@ == "fake_tool"@,
        crate::world::has_row(f.tool_executors@, c.tool),
        exists|i: int| 0 <= i < f.agents@.len() && f.agents@[i] == (c.agent, Agent { model: c.model }),
        exists|i: int| 0 <= i < f.agent_tools@.len()
            && f.agent_tools@[i] == (c.exposure, AgentTool { agent: c.agent, tool: c.tool, order: 0 }),
{
    let fp = fake_provider_row();
    let ft = fake_tool_row();
    let mp = model_of(c.provider);
    let ap = agent_of(c.model);
    let xp = exposure_of(c.agent, c.tool);
    // Each capability is found in `f` at the entity the first reconciliation chose.
    lemma_least_index_spec(w.providers@, fp);
    lemma_least_after(w.providers@, f.providers@, fp, c.provider);
    lemma_least_index_spec(w.models@, mp);
    lemma_least_after(w.models@, f.models@, mp, c.model);
    lemma_least_index_spec(w.tools@, ft);
    lemma_least_after(w.tools@, f.tools@, ft, c.tool);
    lemma_least_index_spec(w.agents@, ap);
    lemma_least_after(w.agents@, f.agents@, ap, c.agent);
    lemma_first_index_spec(w.agent_tools@, xp);
    match first_index(w.agent_tools@, xp) {
        Some(k) => {
            assert forall|j: int| 0 <= j < k implies !xp(#[trigger] f.agent_tools@[j]) by {
                assert(f.agent_tools@[j] == w.agent_tools@[j]);
            }
            lemma_first_index(f.agent_tools@, xp, Some(k));
        },
        None => {
            let n = w.agent_tools@.len() as int;
            assert forall|j: int| 0 <= j < n implies !xp(#[trigger] f.agent_tools@[j]) by {
                assert(f.agent_tools@[j] == w.agent_tools@[j]);
            }
            lemma_first_index(f.agent_tools@, xp, Some(n));
        },
    }
    let pf = fake_plan(f);
    assert(pf.0 == c);
    assert(pf.1 == 0);
    // The executors have their rows already.
    crate::world::lemma_find(f.provider_executors@, c.provider);
    crate::world::lemma_find(f.tool_executors@, c.tool);
    if !crate::world::has_row(w.provider_executors@, c.provider) {
        assert(f.provider_executors@.drop_last() =~= w.provider_executors@);
    }
    if !crate::world::has_row(w.tool_executors@, c.tool) {
        assert(f.tool_executors@.drop_last() =~= w.tool_executors@);
    }
    assert(g.agent_tools@ =~= f.agent_tools@);
    let ip = least_index(f.providers@, fp).unwrap();
    assert(f.providers@[ip] == (c.provider, Provider { provider_id: ProviderId(1) }));
    let ia = least_index(f.agents@, ap).unwrap();
    assert(f.agents@[ia] == (c.agent, Agent { model: c.model }));
    let kx = first_index(f.agent_tools@, xp).unwrap();
    assert(f.agent_tools@[kx] == (c.exposure, AgentTool { agent: c.agent, tool: c.tool, order: 0 }));
    match least_index(w.models@, mp) {
        Some(k) => assert(f.models@[k].0 == c.model),
        None => assert(f.models@[w.models@.len() as int].0 == c.model),
    }
    match least_index(w.tools@, ft) {
        Some(k) => assert(f.tools@[k].0 == c.tool),
        None => assert(f.tools@[w.tools@.len() as int].0 == c.tool),
    }
}

} // verus!
