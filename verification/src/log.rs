//! Persistence of the world's events: one append-only log per Session, written in batches of
//! the events that changed since the last write.
use vstd::prelude::*;

use crate::collect::{collect_events, keyed_views, EventEntry};
use crate::events::{event_sequence, Event, EventView, Record, SCHEMA_VERSION};
use crate::ids::{Entity, HarnessIds, Sequence, SessionId};
use crate::order::{is_sorted_perm, reorder, sort_order, Key};
use crate::text::{concat, decimal, str_eq, with_decimal};
use crate::world::{PersistenceFailure, World};

verus! {

/// Where and how the Session logs are written.
#[derive(Debug)]
pub struct PersistenceConfig {
    /// Directory containing one append-only log per Session.
    pub path: String,
    /// How long changes wait before a write, in milliseconds.
    pub debounce_ms: u64,
    pub enabled: bool,
}

impl PersistenceConfig {
    /// Persistence switched off.
    pub fn disabled() -> (c: PersistenceConfig)
        ensures
            !c.enabled,
            c.path@ == Seq::<char>::empty(),
            c.debounce_ms == 0,
    {
        PersistenceConfig { path: String::new(), debounce_ms: 0, enabled: false }
    }

    /// Logs under `.majin/sessions` in the home directory, with a 250 ms debounce; switched off
    /// when there is no home directory.
    pub fn from_home(home: Option<String>) -> (c: PersistenceConfig)
        ensures
            match home {
                Some(h) => c.enabled && c.debounce_ms == 250 && c.path@ == joined(h@, ".majin/sessions"@),
                None => !c.enabled && c.path@ == Seq::<char>::empty() && c.debounce_ms == 0,
            },
    {
        match home {
            Some(h) => PersistenceConfig { path: join(h.as_str(), ".majin/sessions"), debounce_ms: 250, enabled: true },
            None => PersistenceConfig::disabled(),
        }
    }
}

/// `name` under directory `dir`: the name alone under the empty directory, otherwise joined with
/// one separator.
pub open spec fn joined(dir: Seq<char>, name: Seq<char>) -> Seq<char> {
    if dir.len() == 0 {
        name
    } else if dir.last() == '/' {
        dir + name
    } else {
        dir + "/"@ + name
    }
}

fn join(dir: &str, name: &str) -> (p: String)
    ensures
        p@ == joined(dir@, name@),
{
    proof {
        reveal_strlit("/");
    }
    let n = dir.unicode_len();
    if n == 0 {
        String::from_str(name)
    } else if dir.get_char(n - 1) == '/' {
        concat(dir, name)
    } else {
        let mut p = concat(dir, "/");
        p.append(name);
        p
    }
}

/// The file name of Session `session`'s log.
pub open spec fn session_file(session: SessionId) -> Seq<char> {
    "session-"@ + decimal(session.0 as nat) + ".jsonl"@
}

/// The path of Session `session`'s log under `root`.
pub fn session_path(root: &str, session: SessionId) -> (p: String)
    ensures
        p@ == joined(root@, session_file(session)),
{
    let mut name = with_decimal("session-", session.0);
    name.append(".jsonl");
    join(root, name.as_str())
}

/// Why a log file name does not name a Session.
#[derive(Debug, Clone, Copy, PartialEq, Eq, Structural)]
pub enum SessionNameError {
    /// The name does not start with "session-".
    NotSessionLog,
    /// Nothing follows "session-".
    Empty,
    /// A character that is not a decimal digit (after an optional leading '+').
    InvalidDigit,
    /// The number does not fit in 64 bits.
    TooLarge,
}

/// The value of decimal digit `c`.
pub open spec fn digit_value(c: char) -> nat {
    (c as nat - '0' as nat) as nat
}

/// Reads the digits of `s` from position `i` onto `acc`, left to right, stopping at the first
/// character that is not a digit or the first digit that takes the value past `u64::MAX`.
pub open spec fn scan_digits(s: Seq<char>, i: int, acc: nat) -> Result<nat, SessionNameError>
    decreases s.len() - i,
{
    if i >= s.len() || i < 0 {
        Ok(acc)
    } else if !('0' <= s[i] && s[i] <= '9') {
        Err(SessionNameError::InvalidDigit)
    } else if acc * 10 + digit_value(s[i]) > u64::MAX {
        Err(SessionNameError::TooLarge)
    } else {
        scan_digits(s, i + 1, acc * 10 + digit_value(s[i]))
    }
}

/// The unsigned number written in `s`: an optional '+' and then decimal digits.
pub open spec fn number_of(s: Seq<char>) -> Result<nat, SessionNameError> {
    if s.len() == 0 {
        Err(SessionNameError::Empty)
    } else {
        let body = if s[0] == '+' { s.skip(1) } else { s };
        if body.len() == 0 {
            Err(SessionNameError::InvalidDigit)
        } else {
            scan_digits(body, 0, 0)
        }
    }
}

/// The Session named by a log file's stem: "session-" and its SessionId.
pub open spec fn session_of_stem(stem: Seq<char>) -> Result<SessionId, SessionNameError> {
    let prefix = "session-"@;
    if stem.len() < prefix.len() || stem.take(prefix.len() as int) != prefix {
        Err(SessionNameError::NotSessionLog)
    } else {
        match number_of(stem.skip(prefix.len() as int)) {
            Ok(n) => Ok(SessionId(n as u64)),
            Err(e) => Err(e),
        }
    }
}

/// Reads the Session of a log file from the file's stem; see [`session_of_stem`].
pub fn parse_session_stem(stem: &str) -> (r: Result<SessionId, SessionNameError>)
    ensures
        r == session_of_stem(stem@),
{
    proof {
        reveal_strlit("session-");
    }
    let n = stem.unicode_len();
    if n < 8 {
        return Err(SessionNameError::NotSessionLog);
    }
    let head = stem.substring_char(0, 8);
    if !str_eq(head, "session-") {
        proof {
            assert(head@ =~= stem@.take(8));
        }
        return Err(SessionNameError::NotSessionLog);
    }
    proof {
        assert(head@ =~= stem@.take(8));
    }
    let ghost rest = stem@.skip(8);
    if n == 8 {
        proof {
            assert(rest.len() == 0);
        }
        return Err(SessionNameError::Empty);
    }
    let mut i: usize = 8;
    if stem.get_char(8) == '+' {
        i = 9;
    }
    let ghost body = if rest[0] == '+' { rest.skip(1) } else { rest };
    proof {
        assert(body =~= stem@.skip(i as int));
    }
    if i == n {
        return Err(SessionNameError::InvalidDigit);
    }
    let start = i;
    let mut acc: u64 = 0;
    proof {
        assert(stem@.skip(8) =~= rest);
        assert(session_of_stem(stem@) == match scan_digits(body, 0, 0) {
            Ok(v) => Ok(SessionId(v as u64)),
            Err(e) => Err::<SessionId, SessionNameError>(e),
        });
    }
    while i < n
        invariant
            8 <= start <= i <= n,
            session_of_stem(stem@) == match scan_digits(body, 0, 0) {
                Ok(v) => Ok(SessionId(v as u64)),
                Err(e) => Err::<SessionId, SessionNameError>(e),
            },
            n == stem@.len(),
            body =~= stem@.skip(start as int),
            scan_digits(body, 0, 0) == scan_digits(body, i - start, acc as nat),
        decreases n - i,
    {
        let c = stem.get_char(i);
        if !('0' <= c && c <= '9') {
            proof {
                assert(body[i - start] == c);
            }
            return Err(SessionNameError::InvalidDigit);
        }
        let d = (c as u32 - '0' as u32) as u64;
        let v = acc as u128 * 10 + d as u128;
        proof {
            assert(body[i - start] == c);
            assert(digit_value(c) == d);
        }
        if v > u64::MAX as u128 {
            return Err(SessionNameError::TooLarge);
        }
        acc = v as u64;
        i = i + 1;
    }
    Ok(SessionId(acc))
}

/// What the persistence of a running harness remembers between writes.
#[derive(Debug)]
pub struct PersistenceState {
    /// The last persisted value of each event key.
    pub last_values: Vec<(String, Event)>,
    /// The next record ordinal of each Session's log.
    pub next_ordinals: Vec<(SessionId, u64)>,
    /// A load failure stopped persistence.
    pub blocked: bool,
    /// A load failure waiting to be reported.
    pub pending_failure: Option<String>,
    /// The last failure reported, so that a repeat is reported once.
    pub last_failure: Option<String>,
}

impl PersistenceState {
    /// Nothing persisted yet.
    pub fn new() -> (s: PersistenceState)
        ensures
            s.last_values@.len() == 0,
            s.next_ordinals@.len() == 0,
            !s.blocked,
            s.pending_failure is None,
            s.last_failure is None,
    {
        PersistenceState {
            last_values: Vec::new(),
            next_ordinals: Vec::new(),
            blocked: false,
            pending_failure: None,
            last_failure: None,
        }
    }
}

/// What [`record_failure`] makes of world `w` and state `s0`: reporting `message` again in a row
/// changes nothing; otherwise the message becomes the last failure and a PersistenceFailure with
/// it and the next sequence number is spawned on the next entity.
pub open spec fn failure_recorded(w: World, s0: PersistenceState, f: World, s1: PersistenceState, message: Seq<char>) -> bool {
    let repeated = s0.last_failure matches Some(m) && m@ == message;
    &&& s1.last_values@ == s0.last_values@
    &&& s1.next_ordinals@ == s0.next_ordinals@
    &&& s1.blocked == s0.blocked
    &&& s1.pending_failure == s0.pending_failure
    &&& if repeated {
        &&& f.same_world(w)
        &&& s1.last_failure == s0.last_failure
    } else {
        let sequence = match w.ids {
            Some(ids) => ids.next_sequence,
            None => 0,
        };
        &&& s1.last_failure matches Some(m) && m@ == message
        &&& f.persistence_failures@.len() == w.persistence_failures@.len() + 1
        &&& f.persistence_failures@.drop_last() == w.persistence_failures@
        &&& f.persistence_failures@.last().0 == Entity(w.next_entity)
        &&& f.persistence_failures@.last().1.message@ == message
        &&& f.persistence_failures@.last().1.sequence == Sequence(sequence)
        &&& f.next_entity == w.next_entity + 1
        &&& f.ids == match w.ids {
            Some(ids) => Some(HarnessIds { next_sequence: (ids.next_sequence + 1) as u64, ..ids }),
            None => None,
        }
        &&& f.same_capabilities(w)
        &&& f.sessions@ == w.sessions@
        &&& f.turns@ == w.turns@
        &&& f.user_messages@ == w.user_messages@
        &&& f.assistant_messages@ == w.assistant_messages@
        &&& f.branch_selections@ == w.branch_selections@
        &&& f.model_changes@ == w.model_changes@
        &&& f.compactions@ == w.compactions@
        &&& f.recoveries@ == w.recoveries@
        &&& f.same_work(w)
        &&& f.same_outcomes(w)
        &&& f.same_cameras(w)
        &&& f.active_session == w.active_session
        &&& f.active_agent == w.active_agent
        &&& f.harness_ready == w.harness_ready
    }
}

/// Reports a persistence failure as a PersistenceFailure entity, unless it repeats the last
/// reported failure. The report takes the next sequence number, or sequence zero when the world
/// has no identity allocator yet.
pub fn record_failure(world: &mut World, state: &mut PersistenceState, message: String)
    requires
        old(world).next_entity < u64::MAX,
        old(world).ids matches Some(ids) ==> ids.next_sequence < u64::MAX,
    ensures
        failure_recorded(*old(world), *old(state), *final(world), *final(state), message@),
{
    let repeated = match &state.last_failure {
        Some(m) => str_eq(m.as_str(), message.as_str()),
        None => false,
    };
    if repeated {
        return;
    }
    state.last_failure = Some(message.clone());
    let sequence = match world.ids {
        Some(ids) => {
            let mut ids = ids;
            let s = ids.sequence();
            world.ids = Some(ids);
            s
        },
        None => Sequence(0),
    };
    let ghost before = world.persistence_failures@;
    let e = world.spawn();
    world.persistence_failures.push((e, PersistenceFailure { message, sequence }));
    proof {
        assert(world.persistence_failures@.drop_last() =~= before);
    }
}

/// Lexicographic order of texts by character code.
pub open spec fn text_lt(a: Seq<char>, b: Seq<char>) -> bool
    decreases a.len(),
{
    if a.len() == 0 {
        b.len() > 0
    } else if b.len() == 0 {
        false
    } else if a[0] != b[0] {
        (a[0] as u32) < (b[0] as u32)
    } else {
        text_lt(a.drop_first(), b.drop_first())
    }
}

/// Compares two texts in lexicographic order of character codes.
pub fn less_text(a: &str, b: &str) -> (r: bool)
    ensures
        r == text_lt(a@, b@),
{
    let n = a.unicode_len();
    let m = b.unicode_len();
    let mut i: usize = 0;
    proof {
        assert(a@.skip(0) =~= a@);
        assert(b@.skip(0) =~= b@);
    }
    while i < n && i < m
        invariant
            n == a@.len(),
            m == b@.len(),
            i <= n,
            i <= m,
            text_lt(a@, b@) == text_lt(a@.skip(i as int), b@.skip(i as int)),
        decreases n - i,
    {
        let x = a.get_char(i);
        let y = b.get_char(i);
        proof {
            assert(a@.skip(i as int)[0] == x);
            assert(b@.skip(i as int)[0] == y);
            assert(a@.skip(i as int).drop_first() =~= a@.skip(i + 1));
            assert(b@.skip(i as int).drop_first() =~= b@.skip(i + 1));
        }
        if x != y {
            return (x as u32) < (y as u32);
        }
        i = i + 1;
    }
    i < m
}

/// The keys and values of the last persisted events.
pub open spec fn last_views(s: Seq<(String, Event)>) -> Seq<(Seq<char>, EventView)> {
    s.map_values(|x: (String, Event)| (x.0@, x.1.view()))
}

/// The value recorded for key `k`: that of its first row.
pub open spec fn value_of(lv: Seq<(Seq<char>, EventView)>, k: Seq<char>) -> Option<EventView>
    decreases lv.len(),
{
    if lv.len() == 0 {
        None
    } else {
        match value_of(lv.drop_last(), k) {
            Some(v) => Some(v),
            None => if lv.last().0 == k {
                Some(lv.last().1)
            } else {
                None
            },
        }
    }
}

/// The entries whose value differs from the last persisted value of their key, in order.
pub open spec fn changed_of(c: Seq<(Seq<char>, SessionId, EventView)>, lv: Seq<(Seq<char>, EventView)>) -> Seq<(Seq<char>, SessionId, EventView)>
    decreases c.len(),
{
    if c.len() == 0 {
        Seq::empty()
    } else {
        let prev = changed_of(c.drop_last(), lv);
        if value_of(lv, c.last().0) == Some(c.last().2) {
            prev
        } else {
            prev.push(c.last())
        }
    }
}

fn lookup_value<'a>(last: &'a Vec<(String, Event)>, k: &str) -> (r: Option<&'a Event>)
    ensures
        match r {
            Some(e) => value_of(last_views(last@), k@) == Some(e.view()),
            None => value_of(last_views(last@), k@) is None,
        },
{
    let ghost lv = last_views(last@);
    let mut i: usize = 0;
    while i < last.len()
        invariant
            lv == last_views(last@),
            i <= last@.len(),
            value_of(lv.take(i as int), k@) is None,
        decreases last.len() - i,
    {
        proof {
            assert(lv.take(i + 1).drop_last() =~= lv.take(i as int));
        }
        if str_eq(last[i].0.as_str(), k) {
            proof {
                assert(lv.take(i + 1).last() == lv[i as int]);
                assert(lv[i as int].0 == k@);
                assert(value_of(lv.take(i + 1), k@) == Some(lv[i as int].1));
                lemma_value_of_found(lv, i as int + 1, k@);
            }
            return Some(&last[i].1);
        }
        i = i + 1;
    }
    proof {
        assert(lv.take(lv.len() as int) =~= lv);
    }
    None
}

proof fn lemma_value_of_found(lv: Seq<(Seq<char>, EventView)>, n: int, k: Seq<char>)
    requires
        0 <= n <= lv.len(),
        value_of(lv.take(n), k) is Some,
    ensures
        value_of(lv, k) == value_of(lv.take(n), k),
    decreases lv.len() - n,
{
    if n < lv.len() {
        assert(lv.take(n + 1).drop_last() =~= lv.take(n));
        lemma_value_of_found(lv, n + 1, k);
    } else {
        assert(lv.take(n) =~= lv);
    }
}

/// What changed since the last write: the changed entries, and how many entries the world has.
pub fn changed_events(world: &World, state: &PersistenceState) -> (r: Result<(Vec<EventEntry>, usize), String>)
    ensures
        r is Ok <==> (collect_events_ok(*world)),
        r matches Ok((c, n)) ==> {
            let all = crate::collect::keyed(crate::collect::raw_events(*world)).unwrap();
            &&& keyed_views(c@) == changed_of(all, last_views(state.last_values@))
            &&& n == all.len()
        },
{
    let all = match collect_events(world) {
        Err(m) => {
            return Err(concat("Persistence serialization failed: ", m.as_str()));
        },
        Ok(v) => v,
    };
    let ghost av = keyed_views(all@);
    let ghost lv = last_views(state.last_values@);
    let mut changed: Vec<EventEntry> = Vec::new();
    let mut i: usize = 0;
    while i < all.len()
        invariant
            av == keyed_views(all@),
            lv == last_views(state.last_values@),
            i <= all@.len(),
            keyed_views(changed@) == changed_of(av.take(i as int), lv),
        decreases all.len() - i,
    {
        proof {
            assert(av.take(i + 1).drop_last() =~= av.take(i as int));
            assert(av.take(i + 1).last() == av[i as int]);
        }
        let same = match lookup_value(&state.last_values, all[i].key.as_str()) {
            Some(e) => e.same_as(&all[i].event),
            None => false,
        };
        if !same {
            let ghost before = changed@;
            changed.push(EventEntry { key: all[i].key.clone(), session: all[i].session, event: all[i].event.copy() });
            proof {
                assert(keyed_views(changed@) =~= keyed_views(before).push(av[i as int]));
            }
        }
        i = i + 1;
    }
    proof {
        assert(av.take(av.len() as int) =~= av);
    }
    let n = all.len();
    Ok((changed, n))
}

/// The world's events can be collected.
pub open spec fn collect_events_ok(w: World) -> bool {
    &&& !crate::collect::collection_fails(w)
    &&& !crate::collect::duplicate_session_ids(crate::collect::raw_events(w))
    &&& crate::collect::keyed(crate::collect::raw_events(w)) is Some
}

/// The changed entries of Session `sid`, keys and values, in order.
pub open spec fn group_of(c: Seq<(Seq<char>, SessionId, EventView)>, sid: SessionId) -> Seq<(Seq<char>, EventView)>
    decreases c.len(),
{
    if c.len() == 0 {
        Seq::empty()
    } else {
        let prev = group_of(c.drop_last(), sid);
        if c.last().1 == sid {
            prev.push((c.last().0, c.last().2))
        } else {
            prev
        }
    }
}

/// How many keys of `g` precede `k` in text order.
pub open spec fn count_less(g: Seq<(Seq<char>, EventView)>, k: Seq<char>) -> nat
    decreases g.len(),
{
    if g.len() == 0 {
        0
    } else {
        count_less(g.drop_last(), k) + if text_lt(g.last().0, k) { 1nat } else { 0nat }
    }
}

/// The write order of a Session's changed events: by sequence number (zero when the event has
/// none), then by key in text order.
pub open spec fn group_keys(g: Seq<(Seq<char>, EventView)>) -> Seq<Key> {
    Seq::new(
        g.len(),
        |i: int|
            (
                match event_sequence(g[i].1) {
                    Some(s) => s,
                    None => 0u64,
                },
                count_less(g, g[i].0) as u64,
                0u64,
                0u64,
            ),
    )
}

/// The next ordinal recorded for Session `sid`: that of its first row, or zero.
pub open spec fn ordinal_of(ords: Seq<(SessionId, u64)>, sid: SessionId) -> u64
    decreases ords.len(),
{
    if ords.len() == 0 {
        0
    } else if exists|j: int| 0 <= j < ords.len() - 1 && #[trigger] ords[j].0 == sid {
        ordinal_of(ords.drop_last(), sid)
    } else if ords.last().0 == sid {
        ords.last().1
    } else {
        0
    }
}

/// The records of one Session to append to its log, with the keys they persist.
#[derive(Debug)]
pub struct SessionBatch {
    pub session: SessionId,
    pub keys: Vec<String>,
    pub records: Vec<Record>,
}

/// `b` holds the changed events of its Session in write order, numbered from the Session's next
/// ordinal.
pub open spec fn batch_matches(b: SessionBatch, c: Seq<(Seq<char>, SessionId, EventView)>, ords: Seq<(SessionId, u64)>) -> bool {
    batch_from(b, c, ordinal_of(ords, b.session))
}

/// `b` holds the changed events of its Session in write order, numbered from `base`.
pub open spec fn batch_from(b: SessionBatch, c: Seq<(Seq<char>, SessionId, EventView)>, base: u64) -> bool {
    let g = group_of(c, b.session);
    exists|p: Seq<int>|
        #[trigger] is_sorted_perm(group_keys(g), p) && {
            let o = reorder(g, p);
            &&& b.keys@.len() == o.len()
            &&& b.records@.len() == o.len()
            &&& forall|i: int|
                0 <= i < o.len() ==> {
                    &&& (#[trigger] b.keys@[i])@ == o[i].0
                    &&& b.records@[i].schema == SCHEMA_VERSION
                    &&& b.records@[i].ordinal == base + i
                    &&& b.records@[i].event.view() == o[i].1
                }
        }
}

fn insert_sorted_id(v: &mut Vec<u64>, e: u64)
    requires
        forall|a: int, b: int| 0 <= a < b < old(v)@.len() ==> (#[trigger] old(v)@[a]) < (#[trigger] old(v)@[b]),
    ensures
        forall|a: int, b: int| 0 <= a < b < final(v)@.len() ==> (#[trigger] final(v)@[a]) < (#[trigger] final(v)@[b]),
        forall|x: u64| #[trigger] final(v)@.contains(x) <==> old(v)@.contains(x) || x == e,
{
    let ghost start = v@;
    let mut i: usize = 0;
    while i < v.len() && v[i] < e
        invariant
            v@ == start,
            i <= v@.len(),
            forall|j: int| 0 <= j < i ==> (#[trigger] v@[j]) < e,
        decreases v.len() - i,
    {
        i = i + 1;
    }
    if i < v.len() && v[i] == e {
        proof {
            assert forall|x: u64| #[trigger] v@.contains(x) <==> start.contains(x) || x == e by {
                if x == e {
                    assert(v@[i as int] == e);
                }
            }
        }
        return;
    }
    v.insert(i, e);
    proof {
        assert forall|a: int, b: int| 0 <= a < b < v@.len() implies (#[trigger] v@[a]) < (#[trigger] v@[b]) by {
            if b < i {
            } else if a < i && b == i {
            } else if a < i && b > i {
                assert(v@[b] == start[b - 1]);
                assert(start[b - 1] >= e) by {
                    if start[b - 1] < e {
                        assert(start[i as int] <= start[b - 1]);
                    }
                }
            } else if a == i {
                assert(v@[b] == start[b - 1]);
                if b - 1 > i {
                    assert(start[i as int] < start[b - 1]);
                }
            } else {
                assert(v@[a] == start[a - 1]);
                assert(v@[b] == start[b - 1]);
            }
        }
        assert forall|x: u64| #[trigger] v@.contains(x) <==> start.contains(x) || x == e by {
            if v@.contains(x) {
                let j = choose|j: int| 0 <= j < v@.len() && v@[j] == x;
                if j < i {
                    assert(start[j] == x);
                } else if j > i {
                    assert(start[j - 1] == x);
                }
            }
            if start.contains(x) {
                let j = choose|j: int| 0 <= j < start.len() && start[j] == x;
                if j < i {
                    assert(v@[j] == x);
                } else {
                    assert(v@[j + 1] == x);
                }
            }
            if x == e {
                assert(v@[i as int] == e);
            }
        }
    }
}

fn next_ordinal(ords: &Vec<(SessionId, u64)>, sid: SessionId) -> (r: u64)
    ensures
        r == ordinal_of(ords@, sid),
        r == 0 || exists|j: int| 0 <= j < ords@.len() && ords@[j].1 == r,
{
    let mut i: usize = 0;
    while i < ords.len()
        invariant
            i <= ords@.len(),
            forall|j: int| 0 <= j < i ==> (#[trigger] ords@[j]).0 != sid,
        decreases ords.len() - i,
    {
        if ords[i].0 == sid {
            proof {
                lemma_ordinal_first(ords@, i as int, sid);
            }
            return ords[i].1;
        }
        i = i + 1;
    }
    proof {
        lemma_ordinal_none(ords@, sid);
    }
    0
}

proof fn lemma_ordinal_first(ords: Seq<(SessionId, u64)>, i: int, sid: SessionId)
    requires
        0 <= i < ords.len(),
        ords[i].0 == sid,
        forall|j: int| 0 <= j < i ==> (#[trigger] ords[j]).0 != sid,
    ensures
        ordinal_of(ords, sid) == ords[i].1,
    decreases ords.len(),
{
    if i < ords.len() - 1 {
        assert(ords.drop_last()[i] == ords[i]);
        assert forall|j: int| 0 <= j < i implies (#[trigger] ords.drop_last()[j]).0 != sid by {
            assert(ords.drop_last()[j] == ords[j]);
        }
        lemma_ordinal_first(ords.drop_last(), i, sid);
    } else {
        assert(!exists|j: int| 0 <= j < ords.len() - 1 && #[trigger] ords[j].0 == sid);
    }
}

proof fn lemma_ordinal_none(ords: Seq<(SessionId, u64)>, sid: SessionId)
    requires
        forall|j: int| 0 <= j < ords.len() ==> (#[trigger] ords[j]).0 != sid,
    ensures
        ordinal_of(ords, sid) == 0,
    decreases ords.len(),
{
    if ords.len() > 0 {
        assert forall|j: int| 0 <= j < ords.len() - 1 implies (#[trigger] ords.drop_last()[j]).0 != sid by {
            assert(ords.drop_last()[j] == ords[j]);
        }
        lemma_ordinal_none(ords.drop_last(), sid);
    }
}

/// The keys and values at positions `idx` of `cv`.
pub open spec fn pick(cv: Seq<(Seq<char>, SessionId, EventView)>, idx: Seq<usize>) -> Seq<(Seq<char>, EventView)> {
    Seq::new(idx.len(), |k: int| (cv[idx[k] as int].0, cv[idx[k] as int].2))
}

fn session_batch(changed: &Vec<EventEntry>, sid: SessionId, base: u64) -> (b: SessionBatch)
    requires
        base + changed@.len() <= u64::MAX,
    ensures
        b.session == sid,
        batch_from(b, keyed_views(changed@), base),
{
    let ghost cv = keyed_views(changed@);
    let mut idx: Vec<usize> = Vec::new();
    let mut i: usize = 0;
    while i < changed.len()
        invariant
            cv == keyed_views(changed@),
            i <= changed@.len(),
            pick(cv, idx@) == group_of(cv.take(i as int), sid),
            idx@.len() <= i,
            forall|k: int| 0 <= k < idx@.len() ==> (#[trigger] idx@[k]) < i,
        decreases changed.len() - i,
    {
        proof {
            assert(cv.take(i + 1).drop_last() =~= cv.take(i as int));
            assert(cv.take(i + 1).last() == cv[i as int]);
        }
        if changed[i].session == sid {
            let ghost before = idx@;
            idx.push(i);
            proof {
                assert(pick(cv, idx@) =~= pick(cv, before).push((cv[i as int].0, cv[i as int].2)));
            }
        }
        i = i + 1;
    }
    proof {
        assert(cv.take(cv.len() as int) =~= cv);
    }
    let ghost g = pick(cv, idx@);
    let n = idx.len();
    let mut keys: Vec<Key> = Vec::new();
    let mut k: usize = 0;
    while k < n
        invariant
            cv == keyed_views(changed@),
            g == pick(cv, idx@),
            g == group_of(cv, sid),
            n == idx@.len(),
            n <= changed@.len(),
            forall|x: int| 0 <= x < n ==> (#[trigger] idx@[x]) < changed@.len(),
            k <= n,
            keys@.len() == k,
            forall|x: int| 0 <= x < k ==> #[trigger] keys@[x] == group_keys(g)[x],
        decreases n - k,
    {
        let key_k = &changed[idx[k]].key;
        let mut rank: u64 = 0;
        let mut j: usize = 0;
        while j < n
            invariant
                cv == keyed_views(changed@),
                g == pick(cv, idx@),
                n == idx@.len(),
                n <= changed@.len(),
                forall|x: int| 0 <= x < n ==> (#[trigger] idx@[x]) < changed@.len(),
                k < n,
                key_k@ == g[k as int].0,
                j <= n,
                rank == count_less(g.take(j as int), g[k as int].0),
                rank <= j,
            decreases n - j,
        {
            proof {
                assert(g.take(j + 1).drop_last() =~= g.take(j as int));
                assert(g.take(j + 1).last() == g[j as int]);
                assert(g[j as int].0 == changed@[idx@[j as int] as int].key@);
            }
            if less_text(changed[idx[j]].key.as_str(), key_k.as_str()) {
                rank = rank + 1;
            }
            j = j + 1;
        }
        proof {
            assert(g.take(n as int) =~= g);
            assert(g[k as int].1 == changed@[idx@[k as int] as int].event.view());
        }
        let sequence = match changed[idx[k]].event.sequence() {
            Some(s) => s,
            None => 0,
        };
        keys.push((sequence, rank, 0, 0));
        k = k + 1;
    }
    proof {
        assert(keys@ =~= group_keys(g));
    }
    let perm = sort_order(&keys);
    let ghost p = perm@.map_values(|x: usize| x as int);
    let mut out_keys: Vec<String> = Vec::new();
    let mut records: Vec<Record> = Vec::new();
    let mut t: usize = 0;
    while t < perm.len()
        invariant
            cv == keyed_views(changed@),
            g == pick(cv, idx@),
            g == group_of(cv, sid),
            n == idx@.len(),
            forall|x: int| 0 <= x < n ==> (#[trigger] idx@[x]) < changed@.len(),
            is_sorted_perm(group_keys(g), p),
            p == perm@.map_values(|x: usize| x as int),
            base + changed@.len() <= u64::MAX,
            n <= changed@.len(),
            t <= perm@.len(),
            out_keys@.len() == t,
            records@.len() == t,
            forall|i: int| 0 <= i < t ==> {
                &&& (#[trigger] out_keys@[i])@ == reorder(g, p)[i].0
                &&& records@[i].schema == SCHEMA_VERSION
                &&& records@[i].ordinal == base + i
                &&& records@[i].event.view() == reorder(g, p)[i].1
            },
        decreases perm.len() - t,
    {
        proof {
            assert(p[t as int] == perm@[t as int] as int);
            assert(group_keys(g).len() == n);
            assert(0 <= p[t as int] < n);
            assert(reorder(g, p)[t as int] == g[p[t as int]]);
        }
        let x = idx[perm[t]];
        out_keys.push(changed[x].key.clone());
        records.push(Record { schema: SCHEMA_VERSION, ordinal: base + t as u64, event: changed[x].event.copy() });
        t = t + 1;
    }
    let b = SessionBatch { session: sid, keys: out_keys, records };
    proof {
        assert(is_sorted_perm(group_keys(group_of(cv, b.session)), p));
    }
    b
}

/// Some batch is for Session `x`.
pub open spec fn batches_cover(batches: Seq<SessionBatch>, x: u64) -> bool {
    exists|i: int| 0 <= i < batches.len() && (#[trigger] batches[i]).session.0 == x
}

/// Some changed entry belongs to Session `x`.
pub open spec fn changed_in(changed: Seq<EventEntry>, x: u64) -> bool {
    exists|j: int| 0 <= j < changed.len() && (#[trigger] changed[j]).session.0 == x
}

/// Groups the changed events by Session, in increasing SessionId order; see [`batch_matches`].
pub fn persistence_batches(changed: &Vec<EventEntry>, ords: &Vec<(SessionId, u64)>) -> (batches: Vec<SessionBatch>)
    requires
        forall|j: int| 0 <= j < ords@.len() ==> (#[trigger] ords@[j]).1 + changed@.len() <= u64::MAX,
    ensures
        forall|a: int, b: int| 0 <= a < b < batches@.len() ==> (#[trigger] batches@[a]).session.0 < (#[trigger] batches@[b]).session.0,
        forall|x: u64| #[trigger] batches_cover(batches@, x) <==> changed_in(changed@, x),
        forall|i: int| 0 <= i < batches@.len() ==> batch_matches(#[trigger] batches@[i], keyed_views(changed@), ords@),
{
    let mut sids: Vec<u64> = Vec::new();
    let mut i: usize = 0;
    while i < changed.len()
        invariant
            i <= changed@.len(),
            forall|a: int, b: int| 0 <= a < b < sids@.len() ==> (#[trigger] sids@[a]) < (#[trigger] sids@[b]),
            forall|x: u64| #[trigger] sids@.contains(x) <==> exists|j: int| 0 <= j < i && (#[trigger] changed@[j]).session.0 == x,
        decreases changed.len() - i,
    {
        let ghost before = sids@;
        insert_sorted_id(&mut sids, changed[i].session.0);
        proof {
            assert forall|x: u64| #[trigger] sids@.contains(x) <==> exists|j: int| 0 <= j < i + 1 && (#[trigger] changed@[j]).session.0 == x by {
                if exists|j: int| 0 <= j < i + 1 && (#[trigger] changed@[j]).session.0 == x {
                    let j = choose|j: int| 0 <= j < i + 1 && (#[trigger] changed@[j]).session.0 == x;
                    if j < i {
                        assert(before.contains(x));
                    }
                }
                if before.contains(x) {
                    let j = choose|j: int| 0 <= j < i && (#[trigger] changed@[j]).session.0 == x;
                    assert(0 <= j < i + 1);
                }
            }
        }
        i = i + 1;
    }
    let mut batches: Vec<SessionBatch> = Vec::new();
    let len = changed.len();
    let mut k: usize = 0;
    while k < sids.len()
        invariant
            len == changed@.len(),
            forall|j: int| 0 <= j < ords@.len() ==> (#[trigger] ords@[j]).1 + changed@.len() <= u64::MAX,
            k <= sids@.len(),
            batches@.len() == k,
            forall|i: int| 0 <= i < k ==> (#[trigger] batches@[i]).session.0 == sids@[i],
            forall|i: int| 0 <= i < k ==> batch_matches(#[trigger] batches@[i], keyed_views(changed@), ords@),
        decreases sids.len() - k,
    {
        let sid = SessionId(sids[k]);
        let base = next_ordinal(ords, sid);
        proof {
            if base != 0 {
                let j = choose|j: int| 0 <= j < ords@.len() && ords@[j].1 == base;
                assert(ords@[j].1 + changed@.len() <= u64::MAX);
            }
        }
        let b = session_batch(changed, sid, base);
        batches.push(b);
        k = k + 1;
    }
    proof {
        assert forall|x: u64| #[trigger] batches_cover(batches@, x) <==> changed_in(changed@, x) by {
            if exists|i: int| 0 <= i < batches@.len() && (#[trigger] batches@[i]).session.0 == x {
                let i = choose|i: int| 0 <= i < batches@.len() && (#[trigger] batches@[i]).session.0 == x;
                assert(sids@[i] == x);
                assert(sids@.contains(x));
            }
            if exists|j: int| 0 <= j < changed@.len() && (#[trigger] changed@[j]).session.0 == x {
                assert(sids@.contains(x));
                let i = choose|i: int| 0 <= i < sids@.len() && sids@[i] == x;
                assert(batches@[i].session.0 == x);
            }
        }
    }
    batches
}

/// The first row of key `k`.
pub open spec fn index_of_key(lv: Seq<(Seq<char>, EventView)>, k: Seq<char>) -> Option<int> {
    if exists|j: int| 0 <= j < lv.len() && lv[j].0 == k {
        Some(choose|j: int| 0 <= j < lv.len() && lv[j].0 == k && forall|i: int| 0 <= i < j ==> (#[trigger] lv[i]).0 != k)
    } else {
        None
    }
}

/// `lv` with key `k` recorded as `v`: its first row replaced, or a new row at the end.
pub open spec fn upsert_value(lv: Seq<(Seq<char>, EventView)>, k: Seq<char>, v: EventView) -> Seq<(Seq<char>, EventView)> {
    match index_of_key(lv, k) {
        Some(j) => lv.update(j, (k, v)),
        None => lv.push((k, v)),
    }
}

/// `lv` with every key of `items` recorded, in order.
pub open spec fn committed(lv: Seq<(Seq<char>, EventView)>, items: Seq<(Seq<char>, EventView)>) -> Seq<(Seq<char>, EventView)>
    decreases items.len(),
{
    if items.len() == 0 {
        lv
    } else {
        upsert_value(committed(lv, items.drop_last()), items.last().0, items.last().1)
    }
}

/// The keys and events of a batch.
pub open spec fn batch_items(b: SessionBatch) -> Seq<(Seq<char>, EventView)> {
    Seq::new(b.keys@.len(), |i: int| (b.keys@[i]@, b.records@[i].event.view()))
}

/// `ords` with Session `sid`'s next ordinal set to `v`: its first row replaced, or a new row.
pub open spec fn upsert_ordinal(ords: Seq<(SessionId, u64)>, sid: SessionId, v: u64) -> Seq<(SessionId, u64)> {
    if exists|j: int| 0 <= j < ords.len() && ords[j].0 == sid {
        let j = choose|j: int| 0 <= j < ords.len() && ords[j].0 == sid && forall|i: int| 0 <= i < j ==> (#[trigger] ords[i]).0 != sid;
        ords.update(j, (sid, v))
    } else {
        ords.push((sid, v))
    }
}

fn key_position(last: &Vec<(String, Event)>, key: &str) -> (r: Option<usize>)
    ensures
        index_of_key(last_views(last@), key@) == match r {
            Some(i) => Some(i as int),
            None => None::<int>,
        },
        r matches Some(i) ==> i < last@.len(),
{
    let ghost lv = last_views(last@);
    let mut i: usize = 0;
    while i < last.len()
        invariant
            lv == last_views(last@),
            i <= last@.len(),
            forall|j: int| 0 <= j < i ==> (#[trigger] lv[j]).0 != key@,
        decreases last.len() - i,
    {
        if str_eq(last[i].0.as_str(), key) {
            proof {
                assert(lv[i as int].0 == key@);
                let c = choose|j: int| 0 <= j < lv.len() && lv[j].0 == key@ && forall|x: int| 0 <= x < j ==> (#[trigger] lv[x]).0 != key@;
                if c < i {
                    assert(lv[c].0 != key@);
                } else if i < c {
                    assert(lv[i as int].0 != key@);
                }
            }
            return Some(i);
        }
        i = i + 1;
    }
    None
}

#[verifier::spinoff_prover]
fn set_value(last: &mut Vec<(String, Event)>, key: String, event: Event)
    ensures
        last_views(final(last)@) == upsert_value(last_views(old(last)@), key@, event.view()),
{
    let ghost lv = last_views(last@);
    let ghost k0 = key@;
    let ghost e0 = event.view();
    match key_position(last, key.as_str()) {
        Some(i) => {
            last.remove(i);
            last.insert(i, (key, event));
            proof {
                assert(last_views(last@) =~= lv.update(i as int, (k0, e0)));
            }
        },
        None => {
            last.push((key, event));
            proof {
                assert(last_views(last@) =~= lv.push((k0, e0)));
            }
        },
    }
}

/// What [`commit_batch`] makes of state `s0`: each key of the batch now has its written value,
/// and the batch's Session's next ordinal advances past its records.
pub open spec fn batch_committed(s0: PersistenceState, s1: PersistenceState, batch: SessionBatch) -> bool {
    &&& last_views(s1.last_values@) == committed(last_views(s0.last_values@), batch_items(batch))
    &&& s1.next_ordinals@ == upsert_ordinal(
        s0.next_ordinals@,
        batch.session,
        (ordinal_of(s0.next_ordinals@, batch.session) + batch.records@.len()) as u64,
    )
    &&& s1.blocked == s0.blocked
    &&& s1.pending_failure == s0.pending_failure
    &&& s1.last_failure == s0.last_failure
}

/// Records a written batch: each of its keys now has its written value, and its Session's next
/// ordinal advances past its records.
pub fn commit_batch(state: &mut PersistenceState, batch: SessionBatch)
    requires
        batch.keys@.len() == batch.records@.len(),
        ordinal_of(old(state).next_ordinals@, batch.session) + batch.records@.len() <= u64::MAX,
    ensures
        batch_committed(*old(state), *final(state), batch),
{
    let ghost items = batch_items(batch);
    let ghost lv0 = last_views(state.last_values@);
    let base = next_ordinal(&state.next_ordinals, batch.session);
    let n = batch.records.len();
    let SessionBatch { session, keys, records } = batch;
    let mut keys = keys;
    let mut records = records;
    let ghost ks = keys@;
    let ghost rs = records@;
    let mut i: usize = 0;
    while i < n
        invariant
            n == ks.len(),
            n == rs.len(),
            items == Seq::new(ks.len(), |j: int| (ks[j]@, rs[j].event.view())),
            i <= n,
            keys@ == ks.skip(i as int),
            records@ == rs.skip(i as int),
            last_views(state.last_values@) == committed(lv0, items.take(i as int)),
            state.next_ordinals@ == old(state).next_ordinals@,
            state.blocked == old(state).blocked,
            state.pending_failure == old(state).pending_failure,
            state.last_failure == old(state).last_failure,
        decreases n - i,
    {
        proof {
            assert(keys@.len() > 0);
            assert(records@.len() > 0);
        }
        let key = keys.remove(0);
        let record = records.remove(0);
        proof {
            assert(key == ks[i as int]);
            assert(record == rs[i as int]);
            assert(keys@ =~= ks.skip(i + 1));
            assert(records@ =~= rs.skip(i + 1));
            assert(items.take(i + 1).drop_last() =~= items.take(i as int));
            assert(items.take(i + 1).last() == (key@, record.event.view()));
        }
        set_value(&mut state.last_values, key, record.event);
        i = i + 1;
    }
    proof {
        assert(items.take(n as int) =~= items);
    }
    let next = base + n as u64;
    let ghost lv1 = last_views(state.last_values@);
    let mut j: usize = 0;
    while j < state.next_ordinals.len()
        invariant
            j <= state.next_ordinals@.len(),
            state.next_ordinals@ == old(state).next_ordinals@,
            last_views(state.last_values@) == lv1,
            lv1 == committed(lv0, items),
            items == batch_items(batch),
            lv0 == last_views(old(state).last_values@),
            base == ordinal_of(old(state).next_ordinals@, batch.session),
            n == batch.records@.len(),
            session == batch.session,
            next == base + n,
            state.blocked == old(state).blocked,
            state.pending_failure == old(state).pending_failure,
            state.last_failure == old(state).last_failure,
            forall|x: int| 0 <= x < j ==> (#[trigger] state.next_ordinals@[x]).0 != session,
        decreases state.next_ordinals.len() - j,
    {
        if state.next_ordinals[j].0 == session {
            proof {
                let o = state.next_ordinals@;
                let c = choose|x: int| 0 <= x < o.len() && o[x].0 == session && forall|y: int| 0 <= y < x ==> (#[trigger] o[y]).0 != session;
                if c < j {
                    assert(o[c].0 != session);
                } else if j < c {
                    assert(o[j as int].0 != session);
                }
            }
            state.next_ordinals.set(j, (session, next));
            return;
        }
        j = j + 1;
    }
    state.next_ordinals.push((session, next));
}

/// Settles one batch after its append: a batch that was written is committed and the writing
/// goes on; a failed append is reported, as [`record_failure`] reports it, with its message, the
/// batch is not committed, and the writing stops. Returns whether the writing goes on.
pub fn after_append(
    world: &mut World,
    state: &mut PersistenceState,
    batch: SessionBatch,
    outcome: Result<(), String>,
) -> (go_on: bool)
    requires
        batch.keys@.len() == batch.records@.len(),
        ordinal_of(old(state).next_ordinals@, batch.session) + batch.records@.len() <= u64::MAX,
        old(world).next_entity < u64::MAX,
        old(world).ids matches Some(ids) ==> ids.next_sequence < u64::MAX,
    ensures
        go_on == outcome is Ok,
        outcome is Ok ==> *final(world) == *old(world) && batch_committed(*old(state), *final(state), batch),
        outcome matches Err(m) ==> failure_recorded(*old(world), *old(state), *final(world), *final(state), m@),
{
    match outcome {
        Ok(()) => {
            commit_batch(state, batch);
            true
        },
        Err(message) => {
            record_failure(world, state, message);
            false
        },
    }
}

/// Whether changes waiting `waited_ms` milliseconds are written now: once the debounce has
/// passed, or at once when the harness is exiting.
pub fn write_due(waited_ms: u128, debounce_ms: u64, exiting: bool) -> (b: bool)
    ensures
        b == (exiting || waited_ms >= debounce_ms),
{
    exiting || waited_ms >= debounce_ms as u128
}

/// After a write, whether some collected event is still unpersisted: the persisted keys do not
/// yet cover all `current` collected entries.
pub fn still_dirty(state: &PersistenceState, current: usize) -> (b: bool)
    ensures
        b == (state.last_values@.len() != current),
{
    state.last_values.len() != current
}

} // verus!
