use vstd::prelude::*;

use crate::ids::Entity;
use crate::order::{is_sorted_perm, reorder, sort_order, Key};
use crate::world::{
    find, get, lemma_find, position, AssistantMessage, TranscriptCamera, Turn, UserMessage,
    World,
};

verus! {

/// One row of a projected transcript.
#[derive(Debug)]
pub enum TranscriptRow {
    User(String),
    Assistant(String),
    Error(String),
}

impl TranscriptRow {
    /// Returns an equal row.
    pub fn copy(&self) -> (r: TranscriptRow)
        ensures
            r == *self,
    {
        match self {
            TranscriptRow::User(t) => TranscriptRow::User(t.clone()),
            TranscriptRow::Assistant(t) => TranscriptRow::Assistant(t.clone()),
            TranscriptRow::Error(t) => TranscriptRow::Error(t.clone()),
        }
    }
}

/// Why a selected branch cannot be walked.
#[derive(Debug, Clone, Copy, PartialEq, Eq, Structural)]
pub enum BranchError {
    MissingTurn,
    CrossSession,
    Cycle,
}

/// Walks parent links from `current`, after having visited `visited` (head first).
pub open spec fn walk(
    turns: Seq<(Entity, Turn)>,
    session: Entity,
    current: Option<Entity>,
    visited: Seq<Entity>,
    fuel: nat,
) -> Result<Seq<Entity>, BranchError>
    decreases fuel,
{
    if fuel == 0 {
        Err(BranchError::Cycle)
    } else {
        match current {
            None => Ok(visited),
            Some(e) => match get(turns, e) {
                None => Err(BranchError::MissingTurn),
                Some(turn) => if turn.session != session {
                    Err(BranchError::CrossSession)
                } else if visited.contains(e) {
                    Err(BranchError::Cycle)
                } else {
                    walk(turns, session, turn.parent, visited.push(e), (fuel - 1) as nat)
                },
            },
        }
    }
}

/// The Turns of the branch ending at `head`, head first; or why the branch is broken
/// (a missing Turn, a Turn of another Session, or a parent cycle).
pub open spec fn branch(turns: Seq<(Entity, Turn)>, session: Entity, head: Option<Entity>) -> Result<
    Seq<Entity>,
    BranchError,
> {
    walk(turns, session, head, Seq::empty(), turns.len() + 1)
}

/// The position of Turn `t` on branch `b` counted from the root.
pub open spec fn branch_order(b: Seq<Entity>, t: Entity) -> int {
    b.len() - 1 - b.index_of(t)
}

/// The transcript items of the user messages on branch `b`, with their sort keys.
pub open spec fn user_items(s: Seq<(Entity, UserMessage)>, b: Seq<Entity>) -> Seq<
    (Key, TranscriptRow),
>
    decreases s.len(),
{
    if s.len() == 0 {
        Seq::empty()
    } else {
        let rest = user_items(s.drop_last(), b);
        let m = s.last().1;
        if b.contains(m.turn) {
            rest.push(
                (
                    (branch_order(b, m.turn) as u64, m.sequence.0, m.id.0, 0),
                    TranscriptRow::User(m.text),
                ),
            )
        } else {
            rest
        }
    }
}

/// The transcript items of the assistant messages on branch `b`, with their sort keys.
pub open spec fn assistant_items(s: Seq<(Entity, AssistantMessage)>, b: Seq<Entity>) -> Seq<
    (Key, TranscriptRow),
>
    decreases s.len(),
{
    if s.len() == 0 {
        Seq::empty()
    } else {
        let rest = assistant_items(s.drop_last(), b);
        let m = s.last().1;
        if b.contains(m.turn) {
            rest.push(
                (
                    (branch_order(b, m.turn) as u64, m.sequence.0, m.id.0, 0),
                    TranscriptRow::Assistant(m.text),
                ),
            )
        } else {
            rest
        }
    }
}

/// The sort keys of transcript items.
pub open spec fn item_keys(items: Seq<(Key, TranscriptRow)>) -> Seq<Key> {
    items.map_values(|it: (Key, TranscriptRow)| it.0)
}

/// The rows of transcript items.
pub open spec fn item_rows(items: Seq<(Key, TranscriptRow)>) -> Seq<TranscriptRow> {
    items.map_values(|it: (Key, TranscriptRow)| it.1)
}

/// The message text of a branch walk error.
pub open spec fn branch_error_text(e: BranchError) -> Seq<char> {
    match e {
        BranchError::MissingTurn => "Transcript branch contains a missing Turn."@,
        BranchError::CrossSession => "Transcript branch crosses into another Session."@,
        BranchError::Cycle => "Transcript branch contains a cycle."@,
    }
}

/// The transcript of `camera`: a single error row when its branch is broken; otherwise the
/// user and assistant messages of the branch's Turns, sorted by Turn position from the root,
/// then sequence, then message ID (user messages before assistant messages on full ties).
pub open spec fn transcript_matches(world: World, camera: TranscriptCamera, rows: Seq<TranscriptRow>) -> bool {
    match branch(world.turns@, camera.session, camera.head) {
        Err(e) => rows.len() == 1 && (rows[0] matches TranscriptRow::Error(t) && t@ == branch_error_text(e)),
        Ok(b) => transcript_ok(world, b, rows),
    }
}

/// `rows` are the message rows of branch `b` in stable sorted order.
pub open spec fn transcript_ok(world: World, b: Seq<Entity>, rows: Seq<TranscriptRow>) -> bool {
    let items = user_items(world.user_messages@, b) + assistant_items(world.assistant_messages@, b);
    exists|p: Seq<int>|
        #[trigger] is_sorted_perm(item_keys(items), p) && rows == reorder(item_rows(items), p)
}

/// Distinct entities that all have Turn rows are no more numerous than the rows.
proof fn lemma_visited_bound(turns: Seq<(Entity, Turn)>, visited: Seq<Entity>)
    requires
        visited.no_duplicates(),
        forall|i: int| 0 <= i < visited.len() ==> find(turns, #[trigger] visited[i]) is Some,
    ensures
        visited.len() <= turns.len(),
{
    let keys = turns.map_values(|r: (Entity, Turn)| r.0);
    assert forall|x: Entity| visited.to_set().contains(x) implies keys.to_set().contains(x) by {
        let i = choose|i: int| 0 <= i < visited.len() && visited[i] == x;
        lemma_find(turns, visited[i]);
        let k = find(turns, visited[i]).unwrap();
        assert(keys[k] == x);
    }
    visited.unique_seq_to_set();
    keys.lemma_cardinality_of_set();
    vstd::set_lib::lemma_len_subset(visited.to_set(), keys.to_set());
}

pub(crate) fn contains_entity(v: &Vec<Entity>, e: Entity) -> (b: bool)
    ensures
        b == v@.contains(e),
{
    let mut i: usize = 0;
    while i < v.len()
        invariant
            i <= v@.len(),
            forall|j: int| 0 <= j < i ==> v@[j] != e,
        decreases v.len() - i,
    {
        if v[i] == e {
            return true;
        }
        i = i + 1;
    }
    false
}

/// Walks the branch ending at `head` in `world`, head first.
pub fn walk_branch(world: &World, session: Entity, head: Option<Entity>) -> (r: Result<
    Vec<Entity>,
    BranchError,
>)
    ensures
        match r {
            Ok(v) => branch(world.turns@, session, head) == Ok::<Seq<Entity>, BranchError>(v@)
                && v@.no_duplicates(),
            Err(e) => branch(world.turns@, session, head) == Err::<Seq<Entity>, BranchError>(e),
        },
{
    let ghost n = world.turns@.len();
    let mut visited: Vec<Entity> = Vec::new();
    let mut current = head;
    loop
        invariant
            n == world.turns@.len(),
            visited@.len() <= n,
            visited@.no_duplicates(),
            forall|i: int| 0 <= i < visited@.len() ==> find(world.turns@, #[trigger] visited@[i]) is Some,
            branch(world.turns@, session, head) == walk(
                world.turns@,
                session,
                current,
                visited@,
                (n + 1 - visited@.len()) as nat,
            ),
        decreases n - visited@.len(),
    {
        match current {
            None => {
                return Ok(visited);
            },
            Some(e) => {
                let k = match position(&world.turns, e) {
                    None => {
                        return Err(BranchError::MissingTurn);
                    },
                    Some(k) => k,
                };
                proof {
                    lemma_find(world.turns@, e);
                }
                let turn = world.turns[k].1;
                if turn.session != session {
                    return Err(BranchError::CrossSession);
                }
                if contains_entity(&visited, e) {
                    return Err(BranchError::Cycle);
                }
                let ghost before = visited@;
                visited.push(e);
                current = turn.parent;
                proof {
                    assert forall|i: int| 0 <= i < visited@.len() implies find(
                        world.turns@,
                        #[trigger] visited@[i],
                    ) is Some by {
                        if i < before.len() {
                            assert(visited@[i] == before[i]);
                        }
                    }
                    assert forall|i: int, j: int|
                        0 <= i < visited@.len() && 0 <= j < visited@.len() && i != j implies visited@[i]
                        != visited@[j] by {
                        if i < before.len() && j < before.len() {
                            assert(visited@[i] == before[i] && visited@[j] == before[j]);
                        } else if i < before.len() {
                            assert(visited@[i] == before[i]);
                        } else {
                            assert(visited@[j] == before[j]);
                        }
                    }
                    lemma_visited_bound(world.turns@, visited@);
                }
            },
        }
    }
}

pub(crate) fn index_in(v: &Vec<Entity>, e: Entity) -> (r: Option<usize>)
    requires
        v@.no_duplicates(),
    ensures
        match r {
            Some(i) => v@.contains(e) && i as int == v@.index_of(e),
            None => !v@.contains(e),
        },
{
    let mut i: usize = 0;
    while i < v.len()
        invariant
            i <= v@.len(),
            v@.no_duplicates(),
            forall|j: int| 0 <= j < i ==> v@[j] != e,
        decreases v.len() - i,
    {
        if v[i] == e {
            proof {
                assert(v@.contains(e));
                let k = v@.index_of(e);
                assert(v@[k] == e);
            }
            return Some(i);
        }
        i = i + 1;
    }
    None
}

/// Projects the transcript of `camera` from `world`.
pub fn project_camera(world: &World, camera: TranscriptCamera) -> (rows: Vec<TranscriptRow>)
    ensures
        transcript_matches(*world, camera, rows@),
{
    let path = match walk_branch(world, camera.session, camera.head) {
        Err(e) => {
            let text = match e {
                BranchError::MissingTurn => "Transcript branch contains a missing Turn.",
                BranchError::CrossSession => "Transcript branch crosses into another Session.",
                BranchError::Cycle => "Transcript branch contains a cycle.",
            };
            proof {
                reveal_strlit("Transcript branch contains a missing Turn.");
                reveal_strlit("Transcript branch crosses into another Session.");
                reveal_strlit("Transcript branch contains a cycle.");
            }
            let mut rows = Vec::new();
            rows.push(TranscriptRow::Error(String::from_str(text)));
            assert(rows@[0] matches TranscriptRow::Error(t) && t@ == branch_error_text(e));
            return rows;
        },
        Ok(b) => b,
    };
    let n = path.len();
    let mut keys: Vec<Key> = Vec::new();
    let mut texts: Vec<TranscriptRow> = Vec::new();
    let mut i: usize = 0;
    while i < world.user_messages.len()
        invariant
            n == path@.len(),
            path@.no_duplicates(),
            i <= world.user_messages@.len(),
            keys@.len() == texts@.len(),
            forall|j: int|
                0 <= j < keys@.len() ==> (#[trigger] keys@[j], texts@[j]) == user_items(
                    world.user_messages@.take(i as int),
                    path@,
                )[j],
            keys@.len() == user_items(world.user_messages@.take(i as int), path@).len(),
        decreases world.user_messages.len() - i,
    {
        let m = &world.user_messages[i].1;
        proof {
            assert(world.user_messages@.take(i + 1).drop_last() =~= world.user_messages@.take(
                i as int,
            ));
        }
        match index_in(&path, m.turn) {
            Some(at) => {
                keys.push(((n - 1 - at) as u64, m.sequence.0, m.id.0, 0));
                texts.push(TranscriptRow::User(m.text.clone()));
            },
            None => {},
        }
        i = i + 1;
    }
    proof {
        assert(world.user_messages@.take(i as int) =~= world.user_messages@);
    }
    let ghost users = user_items(world.user_messages@, path@);
    let u = keys.len();
    let mut i: usize = 0;
    while i < world.assistant_messages.len()
        invariant
            n == path@.len(),
            path@.no_duplicates(),
            i <= world.assistant_messages@.len(),
            keys@.len() == texts@.len(),
            users.len() == u,
            u <= keys@.len(),
            forall|j: int|
                0 <= j < keys@.len() ==> (#[trigger] keys@[j], texts@[j]) == (users
                    + assistant_items(world.assistant_messages@.take(i as int), path@))[j],
            keys@.len() == u + assistant_items(
                world.assistant_messages@.take(i as int),
                path@,
            ).len(),
        decreases world.assistant_messages.len() - i,
    {
        let m = &world.assistant_messages[i].1;
        proof {
            assert(world.assistant_messages@.take(i + 1).drop_last()
                =~= world.assistant_messages@.take(i as int));
        }
        match index_in(&path, m.turn) {
            Some(at) => {
                keys.push(((n - 1 - at) as u64, m.sequence.0, m.id.0, 0));
                texts.push(TranscriptRow::Assistant(m.text.clone()));
            },
            None => {},
        }
        i = i + 1;
    }
    proof {
        assert(world.assistant_messages@.take(i as int) =~= world.assistant_messages@);
    }
    let ghost items = user_items(world.user_messages@, path@) + assistant_items(
        world.assistant_messages@,
        path@,
    );
    proof {
        assert forall|j: int| 0 <= j < keys@.len() implies #[trigger] texts@[j] == item_rows(
            items,
        )[j] && keys@[j] == item_keys(items)[j] by {
            assert((keys@[j], texts@[j]) == items[j]);
        }
        assert(keys@ =~= item_keys(items));
        assert(texts@ =~= item_rows(items));
    }
    let p = sort_order(&keys);
    let mut rows: Vec<TranscriptRow> = Vec::new();
    let mut j: usize = 0;
    while j < p.len()
        invariant
            j <= p@.len(),
            p@.len() == keys@.len(),
            keys@.len() == texts@.len(),
            is_sorted_perm(keys@, p@.map_values(|x: usize| x as int)),
            rows@ =~= reorder(texts@, p@.map_values(|x: usize| x as int)).take(j as int),
        decreases p.len() - j,
    {
        proof {
            let q = p@.map_values(|x: usize| x as int);
            assert(q[j as int] == p@[j as int] as int);
        }
        rows.push(texts[p[j]].copy());
        j = j + 1;
    }
    proof {
        let q = p@.map_values(|x: usize| x as int);
        assert(rows@ =~= reorder(texts@, q));
        assert(is_sorted_perm(item_keys(items), q));
        assert(branch(world.turns@, camera.session, camera.head) == Ok::<Seq<Entity>, BranchError>(path@));
        assert(texts@ == item_rows(items));
        assert(rows@ == reorder(item_rows(items), q));
        assert(is_sorted_perm(item_keys(items), q) && rows@ == reorder(item_rows(items), q));
        assert(exists|p: Seq<int>|
            #[trigger] is_sorted_perm(item_keys(items), p) && rows@ == reorder(item_rows(items), p));
        let ghost w = *world;
        assert(w.user_messages@ == world.user_messages@);
        assert(items == user_items(w.user_messages@, path@) + assistant_items(w.assistant_messages@, path@));
        assert(match branch(w.turns@, camera.session, camera.head) { Ok(b) => b == path@, Err(_) => false });
        assert(transcript_ok(w, path@, rows@));
        assert(transcript_matches(w, camera, rows@));
    }
    rows
}

/// Projects the transcript of the transcript camera `camera`.
pub fn project_transcript(world: &World, camera: Entity) -> (rows: Vec<TranscriptRow>)
    requires
        get(world.transcript_cameras@, camera) is Some,
    ensures
        transcript_matches(*world, get(world.transcript_cameras@, camera).unwrap(), rows@),
{
    let k = position(&world.transcript_cameras, camera).unwrap();
    proof {
        lemma_find(world.transcript_cameras@, camera);
    }
    let cam = world.transcript_cameras[k].1;
    project_camera(world, cam)
}

} // verus!
