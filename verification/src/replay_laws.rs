//! What replay keeps of its identity maps.
use vstd::prelude::*;

use crate::events::EventView;
use crate::hydrate::{
    assign, first_key, first_text, lemma_first_key, lemma_first_text, lemma_upserted, lookup, pushed, record_applied,
    record_fails, text_views, upserted, ReplayState,
};
use crate::ids::{Entity, SessionId};
use crate::world::{
    find, get, lemma_find, lemma_find_none, lemma_find_push, lemma_find_same_keys, same_keys, AssistantMessage,
    ModelRequest, ModelResponse, ToolUse, Turn, UserMessage, World,
};

verus! {

/// Map `m` from stable IDs to entities is exact for table `rows`: it sends each ID to the entity
/// whose component has that ID, every component's ID is sent to its entity, and every entity in
/// either is below `bound`.
pub open spec fn map_exact<T>(rows: Seq<(Entity, T)>, m: Seq<(u64, Entity)>, id: spec_fn(T) -> u64, bound: u64) -> bool {
    &&& forall|x: u64| #[trigger] lookup(m, x) is Some ==> mapped_to(rows, id, x, lookup(m, x).unwrap())
    &&& forall|e: Entity| #[trigger] get(rows, e) is Some ==> lookup(m, id(get(rows, e).unwrap())) == Some(e)
    &&& forall|j: int| 0 <= j < rows.len() ==> (#[trigger] rows[j]).0.0 < bound
    &&& forall|j: int| 0 <= j < m.len() ==> (#[trigger] m[j]).1.0 < bound
}

/// Entity `e` has a component in `rows` whose ID is `x`.
pub open spec fn mapped_to<T>(rows: Seq<(Entity, T)>, id: spec_fn(T) -> u64, x: u64, e: Entity) -> bool {
    get(rows, e) is Some && id(get(rows, e).unwrap()) == x
}

/// The stable ID of a Turn.
pub open spec fn turn_key() -> spec_fn(Turn) -> u64 {
    |t: Turn| t.id.0
}

/// The stable ID of a user message.
pub open spec fn user_message_key() -> spec_fn(UserMessage) -> u64 {
    |m: UserMessage| m.id.0
}

/// The stable ID of an assistant message.
pub open spec fn assistant_message_key() -> spec_fn(AssistantMessage) -> u64 {
    |m: AssistantMessage| m.id.0
}

/// The stable ID of a ModelRequest.
pub open spec fn request_key() -> spec_fn(ModelRequest) -> u64 {
    |q: ModelRequest| q.id.0
}

/// The stable ID of a ToolUse.
pub open spec fn tool_use_key() -> spec_fn(ToolUse) -> u64 {
    |u: ToolUse| u.id.0
}

/// The entity that text-keyed map `m` gives key `k`: that of its first row with the key.
pub open spec fn text_lookup(m: Seq<(Seq<char>, Entity)>, k: Seq<char>) -> Option<Entity> {
    match first_text(m, k) {
        Some(i) => Some(m[i].1),
        None => None,
    }
}

/// Entity `e` has a ModelResponse in `rows` whose response ID is `k`.
pub open spec fn response_at(rows: Seq<(Entity, ModelResponse)>, k: Seq<char>, e: Entity) -> bool {
    get(rows, e) is Some && get(rows, e).unwrap().response_id@ == k
}

/// Map `m` from response IDs to entities is exact for the ModelResponse table `rows`, as
/// [`map_exact`] says of maps keyed by number.
pub open spec fn response_map_exact(rows: Seq<(Entity, ModelResponse)>, m: Seq<(Seq<char>, Entity)>, bound: u64) -> bool {
    &&& forall|k: Seq<char>| #[trigger] text_lookup(m, k) is Some ==> response_at(rows, k, text_lookup(m, k).unwrap())
    &&& forall|e: Entity| #[trigger] get(rows, e) is Some ==> text_lookup(m, get(rows, e).unwrap().response_id@) == Some(e)
    &&& forall|j: int| 0 <= j < rows.len() ==> (#[trigger] rows[j]).0.0 < bound
    &&& forall|j: int| 0 <= j < m.len() ==> (#[trigger] m[j]).1.0 < bound
}

/// Each identity map of the replay is exact for its table of the world.
pub open spec fn replay_maps_exact(w: World, r: ReplayState) -> bool {
    &&& response_map_exact(w.model_responses@, text_views(r.responses@), w.next_entity)
    &&& map_exact(w.turns@, r.turns@, turn_key(), w.next_entity)
    &&& map_exact(w.user_messages@, r.user_messages@, user_message_key(), w.next_entity)
    &&& map_exact(w.assistant_messages@, r.assistant_messages@, assistant_message_key(), w.next_entity)
    &&& map_exact(w.model_requests@, r.requests@, request_key(), w.next_entity)
    &&& map_exact(w.tool_uses@, r.tool_uses@, tool_use_key(), w.next_entity)
}

proof fn lemma_first_key_push(m: Seq<(u64, Entity)>, row: (u64, Entity), x: u64)
    ensures
        first_key(m.push(row), x) == (match first_key(m, x) {
            Some(i) => Some(i),
            None => if row.0 == x {
                Some(m.len() as int)
            } else {
                None
            },
        }),
{
    assert(m.push(row).drop_last() =~= m);
}

proof fn lemma_exact_bound<T>(rows: Seq<(Entity, T)>, m: Seq<(u64, Entity)>, id: spec_fn(T) -> u64, b: u64, b2: u64)
    requires
        map_exact(rows, m, id, b),
        b <= b2,
    ensures
        map_exact(rows, m, id, b2),
{
}

/// Replaying a record of a known identity rewrites that entity's component with the same ID.
proof fn lemma_exact_known<T>(
    rows: Seq<(Entity, T)>,
    rows2: Seq<(Entity, T)>,
    m: Seq<(u64, Entity)>,
    id: spec_fn(T) -> u64,
    b: u64,
    b2: u64,
    x0: u64,
    t: Entity,
    p: spec_fn(T) -> bool,
)
    requires
        map_exact(rows, m, id, b),
        b <= b2,
        lookup(m, x0) == Some(t),
        upserted(rows, rows2, t, p),
        forall|v: T| #[trigger] p(v) ==> id(v) == x0,
    ensures
        map_exact(rows2, m, id, b2),
{
    assert(get(rows, t) is Some);
    lemma_find(rows, t);
    let k = find(rows, t).unwrap();
    assert(same_keys(rows, rows2));
    assert forall|e: Entity| e != t implies #[trigger] get(rows2, e) == get(rows, e) by {
        lemma_find_same_keys(rows, rows2, e);
        lemma_find(rows, e);
        if let Some(ke) = find(rows, e) {
            assert(ke != k);
            assert(rows2[ke] == rows[ke]);
        }
    }
    lemma_find_same_keys(rows, rows2, t);
    assert(get(rows2, t) == Some(rows2[k].1));
    assert(p(rows2[k].1));
    assert forall|x: u64| #[trigger] lookup(m, x) is Some implies mapped_to(rows2, id, x, lookup(m, x).unwrap()) by {
        let e = lookup(m, x).unwrap();
        assert(get(rows, e) is Some);
        if e == t {
            assert(id(get(rows, t).unwrap()) == x0);
        }
    }
    assert forall|e: Entity| #[trigger] get(rows2, e) is Some implies lookup(m, id(get(rows2, e).unwrap())) == Some(e) by {
        if e != t {
            assert(get(rows, e) == get(rows2, e));
        }
    }
    assert forall|j: int| 0 <= j < rows2.len() implies (#[trigger] rows2[j]).0.0 < b2 by {
        assert(rows2[j].0 == rows[j].0);
    }
}

/// Replaying a record of a new identity adds a component with that ID on the next entity and
/// maps the ID to it.
proof fn lemma_exact_new<T>(
    rows: Seq<(Entity, T)>,
    rows2: Seq<(Entity, T)>,
    m: Seq<(u64, Entity)>,
    id: spec_fn(T) -> u64,
    b: u64,
    x0: u64,
    p: spec_fn(T) -> bool,
)
    requires
        map_exact(rows, m, id, b),
        b < u64::MAX,
        lookup(m, x0) is None,
        pushed(rows, rows2, Entity(b), p),
        forall|v: T| #[trigger] p(v) ==> id(v) == x0,
    ensures
        map_exact(rows2, assign(m, x0, Entity(b)), id, (b + 1) as u64),
{
    let n = Entity(b);
    let m2 = assign(m, x0, n);
    lemma_first_key(m, x0);
    assert(m2 == m.push((x0, n)));
    assert(rows2 =~= rows.push(rows2.last()));
    assert forall|j: int| 0 <= j < rows.len() implies (#[trigger] rows[j]).0 != n by {}
    lemma_find_none(rows, n);
    lemma_find_push(rows, rows2.last(), n);
    assert(get(rows2, n) == Some(rows2.last().1));
    assert(p(rows2.last().1));
    assert forall|e: Entity| e != n implies #[trigger] get(rows2, e) == get(rows, e) by {
        lemma_find_push(rows, rows2.last(), e);
        lemma_find(rows, e);
    }
    assert forall|x: u64| #[trigger] lookup(m2, x) is Some implies mapped_to(rows2, id, x, lookup(m2, x).unwrap()) by {
        lemma_first_key_push(m, (x0, n), x);
        if x != x0 {
            lemma_first_key(m, x);
            let i = first_key(m, x).unwrap();
            assert(m[i].1.0 < b);
            assert(lookup(m, x) == Some(m[i].1));
            assert(get(rows, m[i].1) is Some);
        }
    }
    assert forall|e: Entity| #[trigger] get(rows2, e) is Some implies lookup(m2, id(get(rows2, e).unwrap())) == Some(e) by {
        let v = get(rows2, e).unwrap();
        lemma_first_key_push(m, (x0, n), id(v));
        if e != n {
            assert(get(rows, e) == Some(v));
            assert(lookup(m, id(v)) == Some(e));
        }
    }
    assert forall|j: int| 0 <= j < m2.len() implies (#[trigger] m2[j]).1.0 < b + 1 by {
        if j < m.len() {
            assert(m2[j] == m[j]);
        }
    }
    assert forall|j: int| 0 <= j < rows2.len() implies (#[trigger] rows2[j]).0.0 < b + 1 by {
        if j < rows.len() {
            assert(rows2[j] == rows[j]);
        }
    }
}

proof fn lemma_first_text_push(m: Seq<(Seq<char>, Entity)>, row: (Seq<char>, Entity), k: Seq<char>)
    ensures
        first_text(m.push(row), k) == (match first_text(m, k) {
            Some(i) => Some(i),
            None => if row.0 == k {
                Some(m.len() as int)
            } else {
                None
            },
        }),
{
    assert(m.push(row).drop_last() =~= m);
}

proof fn lemma_response_known(
    rows: Seq<(Entity, ModelResponse)>,
    rows2: Seq<(Entity, ModelResponse)>,
    m: Seq<(Seq<char>, Entity)>,
    b: u64,
    b2: u64,
    k0: Seq<char>,
    t: Entity,
    p: spec_fn(ModelResponse) -> bool,
)
    requires
        response_map_exact(rows, m, b),
        b <= b2,
        text_lookup(m, k0) == Some(t),
        upserted(rows, rows2, t, p),
        forall|v: ModelResponse| #[trigger] p(v) ==> v.response_id@ == k0,
    ensures
        response_map_exact(rows2, m, b2),
{
    assert(get(rows, t) is Some);
    lemma_find(rows, t);
    let k = find(rows, t).unwrap();
    assert(same_keys(rows, rows2));
    assert forall|e: Entity| e != t implies #[trigger] get(rows2, e) == get(rows, e) by {
        lemma_find_same_keys(rows, rows2, e);
        lemma_find(rows, e);
        if let Some(ke) = find(rows, e) {
            assert(ke != k);
            assert(rows2[ke] == rows[ke]);
        }
    }
    lemma_find_same_keys(rows, rows2, t);
    assert(get(rows2, t) == Some(rows2[k].1));
    assert(p(rows2[k].1));
    assert forall|x: Seq<char>| #[trigger] text_lookup(m, x) is Some implies response_at(rows2, x, text_lookup(m, x).unwrap()) by {
        let e = text_lookup(m, x).unwrap();
        assert(get(rows, e) is Some);
        if e == t {
            assert(get(rows, t).unwrap().response_id@ == k0);
        }
    }
    assert forall|e: Entity| #[trigger] get(rows2, e) is Some implies text_lookup(m, get(rows2, e).unwrap().response_id@) == Some(e) by {
        if e != t {
            assert(get(rows, e) == get(rows2, e));
        }
    }
    assert forall|j: int| 0 <= j < rows2.len() implies (#[trigger] rows2[j]).0.0 < b2 by {
        assert(rows2[j].0 == rows[j].0);
    }
}

proof fn lemma_response_new(
    rows: Seq<(Entity, ModelResponse)>,
    rows2: Seq<(Entity, ModelResponse)>,
    m: Seq<(Seq<char>, Entity)>,
    b: u64,
    k0: Seq<char>,
    p: spec_fn(ModelResponse) -> bool,
)
    requires
        response_map_exact(rows, m, b),
        b < u64::MAX,
        first_text(m, k0) is None,
        pushed(rows, rows2, Entity(b), p),
        forall|v: ModelResponse| #[trigger] p(v) ==> v.response_id@ == k0,
    ensures
        response_map_exact(rows2, m.push((k0, Entity(b))), (b + 1) as u64),
{
    let n = Entity(b);
    let m2 = m.push((k0, n));
    assert(rows2 =~= rows.push(rows2.last()));
    assert forall|j: int| 0 <= j < rows.len() implies (#[trigger] rows[j]).0 != n by {}
    lemma_find_none(rows, n);
    lemma_find_push(rows, rows2.last(), n);
    assert(get(rows2, n) == Some(rows2.last().1));
    assert(p(rows2.last().1));
    assert forall|e: Entity| e != n implies #[trigger] get(rows2, e) == get(rows, e) by {
        lemma_find_push(rows, rows2.last(), e);
        lemma_find(rows, e);
    }
    assert forall|x: Seq<char>| #[trigger] text_lookup(m2, x) is Some implies response_at(rows2, x, text_lookup(m2, x).unwrap()) by {
        lemma_first_text_push(m, (k0, n), x);
        if x != k0 {
            lemma_first_text(m, x);
            let i = first_text(m, x).unwrap();
            assert(m[i].1.0 < b);
            assert(text_lookup(m, x) == Some(m[i].1));
            assert(get(rows, m[i].1) is Some);
        }
    }
    assert forall|e: Entity| #[trigger] get(rows2, e) is Some implies text_lookup(m2, get(rows2, e).unwrap().response_id@) == Some(e) by {
        let v = get(rows2, e).unwrap();
        lemma_first_text_push(m, (k0, n), v.response_id@);
        if e != n {
            assert(get(rows, e) == Some(v));
            assert(text_lookup(m, v.response_id@) == Some(e));
        }
    }
    assert forall|j: int| 0 <= j < m2.len() implies (#[trigger] m2[j]).1.0 < b + 1 by {
        if j < m.len() {
            assert(m2[j] == m[j]);
        }
    }
    assert forall|j: int| 0 <= j < rows2.len() implies (#[trigger] rows2[j]).0.0 < b + 1 by {
        if j < rows.len() {
            assert(rows2[j] == rows[j]);
        }
    }
}

/// Replay keeps its identity maps exact: after a record is replayed, each map from stable Turn,
/// message, request, response, and ToolUse IDs still sends every ID to the one entity whose
/// component has that ID, and every such component's ID to its entity. A repeated identity rewrites the
/// component of the entity it already has; a new one gets the next entity.
pub proof fn law_replay_keeps_maps_exact(w: World, r: ReplayState, sid: SessionId, e: EventView, f: World, r2: ReplayState)
    requires
        replay_maps_exact(w, r),
        w.next_entity < u64::MAX,
        !record_fails(w, r, sid, e),
        record_applied(w, r, sid, e, f, r2),
    ensures
        replay_maps_exact(f, r2),
{
    reveal(record_applied);
    reveal(record_fails);
    let ne = w.next_entity;
    assert(f.next_entity >= ne);
    if f.turns@ == w.turns@ && r2.turns@ == r.turns@ {
        lemma_exact_bound(w.turns@, r.turns@, turn_key(), ne, f.next_entity);
    }
    if f.user_messages@ == w.user_messages@ && r2.user_messages@ == r.user_messages@ {
        lemma_exact_bound(w.user_messages@, r.user_messages@, user_message_key(), ne, f.next_entity);
    }
    if f.assistant_messages@ == w.assistant_messages@ && r2.assistant_messages@ == r.assistant_messages@ {
        lemma_exact_bound(w.assistant_messages@, r.assistant_messages@, assistant_message_key(), ne, f.next_entity);
    }
    if f.model_requests@ == w.model_requests@ && r2.requests@ == r.requests@ {
        lemma_exact_bound(w.model_requests@, r.requests@, request_key(), ne, f.next_entity);
    }
    if f.tool_uses@ == w.tool_uses@ && r2.tool_uses@ == r.tool_uses@ {
        lemma_exact_bound(w.tool_uses@, r.tool_uses@, tool_use_key(), ne, f.next_entity);
    }
    let rv = text_views(r.responses@);
    assert(response_map_exact(w.model_responses@, rv, ne));
    if f.model_responses@ == w.model_responses@ && text_views(r2.responses@) == rv {
        assert(response_map_exact(f.model_responses@, text_views(r2.responses@), f.next_entity));
    }
    let s = lookup(r.sessions@, sid.0).unwrap();
    match e {
        EventView::Turn { id, parent, sequence, generation } => {
            let known = lookup(r.turns@, id);
            let parent_entity = match parent {
                Some(p) => Some(lookup(r.turns@, p).unwrap()),
                None => None,
            };
            let p = |v: Turn| v.id.0 == id;
            match known {
                Some(t) => {
                    let turn = Turn { id: crate::ids::TurnId(id), session: s, parent: parent_entity, sequence: crate::ids::Sequence(sequence), generation };
                    lemma_upserted(w.turns@, t, turn, p);
                    lemma_exact_known(w.turns@, f.turns@, r.turns@, turn_key(), ne, f.next_entity, id, t, p);
                },
                None => {
                    lemma_exact_new(w.turns@, f.turns@, r.turns@, turn_key(), ne, id, p);
                },
            }
        },
        EventView::UserMessage { id, turn, sequence, text } => {
            let t = lookup(r.turns@, turn).unwrap();
            let p = crate::hydrate::user_message_is(id, t, sequence, text);
            match lookup(r.user_messages@, id) {
                Some(m) => lemma_exact_known(w.user_messages@, f.user_messages@, r.user_messages@, user_message_key(), ne, f.next_entity, id, m, p),
                None => lemma_exact_new(w.user_messages@, f.user_messages@, r.user_messages@, user_message_key(), ne, id, p),
            }
        },
        EventView::AssistantMessage { id, turn, sequence, text } => {
            let t = lookup(r.turns@, turn).unwrap();
            let p = crate::hydrate::assistant_message_is(id, t, sequence, text);
            match lookup(r.assistant_messages@, id) {
                Some(m) => lemma_exact_known(w.assistant_messages@, f.assistant_messages@, r.assistant_messages@, assistant_message_key(), ne, f.next_entity, id, m, p),
                None => lemma_exact_new(w.assistant_messages@, f.assistant_messages@, r.assistant_messages@, assistant_message_key(), ne, id, p),
            }
        },
        EventView::ModelRequest { id, turn, model_id, provider_id, generation, previous_tool_use, status, sequence } => {
            let p = |v: ModelRequest| v.id.0 == id;
            match lookup(r.requests@, id) {
                Some(q) => {
                    let model = crate::hydrate::model_entity(w, model_id, provider_id).unwrap();
                    let req = ModelRequest {
                        id: crate::ids::ModelRequestId(id),
                        turn: lookup(r.turns@, turn).unwrap(),
                        agent: crate::hydrate::agent_entity(w, model).unwrap(),
                        model,
                        provider: crate::hydrate::provider_of(w, model),
                        generation,
                        previous_tool_use: match previous_tool_use {
                            Some(x) => Some(lookup(r.tool_uses@, x).unwrap()),
                            None => None,
                        },
                        status,
                        sequence: crate::ids::Sequence(sequence),
                    };
                    lemma_upserted(w.model_requests@, q, req, p);
                    lemma_exact_known(w.model_requests@, f.model_requests@, r.requests@, request_key(), ne, f.next_entity, id, q, p);
                },
                None => lemma_exact_new(w.model_requests@, f.model_requests@, r.requests@, request_key(), ne, id, p),
            }
        },
        EventView::ToolUse { id, turn, tool_id, model_id, provider_id, .. } => {
            let model = crate::hydrate::model_entity(w, model_id, provider_id).unwrap();
            let t = lookup(r.turns@, turn).unwrap();
            let p = crate::hydrate::tool_use_is(
                e,
                t,
                crate::hydrate::agent_entity(w, model).unwrap(),
                crate::hydrate::tool_entity(w, tool_id).unwrap(),
                model,
                crate::hydrate::provider_of(w, model),
            );
            match lookup(r.tool_uses@, id) {
                Some(u) => lemma_exact_known(w.tool_uses@, f.tool_uses@, r.tool_uses@, tool_use_key(), ne, f.next_entity, id, u, p),
                None => lemma_exact_new(w.tool_uses@, f.tool_uses@, r.tool_uses@, tool_use_key(), ne, id, p),
            }
        },
        EventView::ModelResponse { request, turn, model_id, provider_id, response_id, .. } => {
            let model = crate::hydrate::model_entity(w, model_id, provider_id).unwrap();
            let qe = lookup(r.requests@, request).unwrap();
            let t = lookup(r.turns@, turn).unwrap();
            let p = crate::hydrate::response_is(e, qe, t, model, crate::hydrate::provider_of(w, model));
            lemma_first_text(rv, response_id);
            match first_text(rv, response_id) {
                Some(i) => lemma_response_known(w.model_responses@, f.model_responses@, rv, ne, f.next_entity, response_id, rv[i].1, p),
                None => lemma_response_new(w.model_responses@, f.model_responses@, rv, ne, response_id, p),
            }
        },
        _ => {},
    }
}

/// Replay starts exact: with no Turns, messages, requests, responses, or ToolUses in the world
/// and empty identity maps, every map is exact.
pub proof fn law_fresh_replay_maps_exact(w: World, r: ReplayState)
    requires
        w.turns@.len() == 0,
        w.user_messages@.len() == 0,
        w.assistant_messages@.len() == 0,
        w.model_requests@.len() == 0,
        w.model_responses@.len() == 0,
        w.tool_uses@.len() == 0,
        r.turns@.len() == 0,
        r.user_messages@.len() == 0,
        r.assistant_messages@.len() == 0,
        r.requests@.len() == 0,
        r.responses@.len() == 0,
        r.tool_uses@.len() == 0,
    ensures
        replay_maps_exact(w, r),
{
    assert forall|x: u64| #[trigger] lookup(r.turns@, x) is None by {}
    assert forall|x: u64| #[trigger] lookup(r.user_messages@, x) is None by {}
    assert forall|x: u64| #[trigger] lookup(r.assistant_messages@, x) is None by {}
    assert forall|x: u64| #[trigger] lookup(r.requests@, x) is None by {}
    assert forall|x: u64| #[trigger] lookup(r.tool_uses@, x) is None by {}
    assert forall|k: Seq<char>| #[trigger] text_lookup(text_views(r.responses@), k) is None by {}
    assert forall|e: Entity| #[trigger] get(w.turns@, e) is None by {}
    assert forall|e: Entity| #[trigger] get(w.user_messages@, e) is None by {}
    assert forall|e: Entity| #[trigger] get(w.assistant_messages@, e) is None by {}
    assert forall|e: Entity| #[trigger] get(w.model_requests@, e) is None by {}
    assert forall|e: Entity| #[trigger] get(w.model_responses@, e) is None by {}
    assert forall|e: Entity| #[trigger] get(w.tool_uses@, e) is None by {}
}

} // verus!
