//! Loading persisted Session logs back into a world: validation of the loaded files, then the
//! replay of their records.
use vstd::prelude::*;

use crate::collect::entry_views;
use crate::events::{Event, EventView, Record, SCHEMA_VERSION};
use crate::world::lemma_find;
use crate::ids::SessionId;
use crate::text::{concat, decimal, push_decimal, str_eq, with_decimal};
use crate::world::World;

verus! {
/// One loaded Session log.
#[derive(Debug)]
pub struct LoadedFile {
    pub session: SessionId,
    pub path: String,
    pub records: Vec<Record>,
}

/// Every record of `files`, each with its file's Session, file by file.
pub open spec fn flat(files: Seq<LoadedFile>) -> Seq<(SessionId, EventView)>
    decreases files.len(),
{
    if files.len() == 0 {
        Seq::empty()
    } else {
        flat(files.drop_last()) + Seq::new(files.last().records@.len(), |i: int| (files.last().session, files.last().records@[i].event.view()))
    }
}

/// The kinds of stable IDs that must not be shared across Sessions.
pub enum IdKind {
    Turn,
    Request,
    ToolCall,
    Message,
}

/// The stable ID of kind `k` that event `e` introduces.
pub open spec fn introduced(e: EventView, k: IdKind) -> Option<u64> {
    match (k, e) {
        (IdKind::Turn, EventView::Turn { id, .. }) => Some(id),
        (IdKind::Request, EventView::ModelRequest { id, .. }) => Some(id),
        (IdKind::ToolCall, EventView::ToolUse { id, .. }) => Some(id),
        (IdKind::Message, EventView::UserMessage { id, .. }) => Some(id),
        (IdKind::Message, EventView::AssistantMessage { id, .. }) => Some(id),
        _ => None,
    }
}

/// The response ID that event `e` introduces.
pub open spec fn introduced_response(e: EventView) -> Option<Seq<char>> {
    match e {
        EventView::ModelResponse { response_id, .. } => Some(response_id),
        _ => None,
    }
}

/// Some record introduces ID `x` of kind `k`.
pub open spec fn known(fl: Seq<(SessionId, EventView)>, k: IdKind, x: u64) -> bool {
    exists|i: int| 0 <= i < fl.len() && #[trigger] introduced(fl[i].1, k) == Some(x)
}

/// Some record of Session `s` introduces Turn ID `t`.
pub open spec fn turn_in(fl: Seq<(SessionId, EventView)>, t: u64, s: SessionId) -> bool {
    exists|i: int| 0 <= i < fl.len() && #[trigger] introduced(fl[i].1, IdKind::Turn) == Some(t) && fl[i].0 == s
}

/// The first Provider row with ProviderId `p`.
pub open spec fn provider_index(w: World, p: u64) -> Option<int> {
    if exists|i: int| 0 <= i < w.providers@.len() && w.providers@[i].1.provider_id.0 == p {
        Some(choose|i: int| 0 <= i < w.providers@.len() && w.providers@[i].1.provider_id.0 == p
            && forall|j: int| 0 <= j < i ==> (#[trigger] w.providers@[j]).1.provider_id.0 != p)
    } else {
        None
    }
}

/// Model ID `m` names a Model of the first Provider with ProviderId `p`.
pub open spec fn model_known(w: World, m: Seq<char>, p: u64) -> bool {
    match provider_index(w, p) {
        Some(i) => exists|j: int|
            0 <= j < w.models@.len() && (#[trigger] w.models@[j]).1.provider == w.providers@[i].0 && w.models@[j].1.model_id@ == m,
        None => false,
    }
}

/// Some tool has ToolId `t`.
pub open spec fn tool_known(w: World, t: u64) -> bool {
    exists|j: int| 0 <= j < w.tools@.len() && (#[trigger] w.tools@[j]).1.tool_id.0 == t
}

/// The message of a duplicate Session log.
pub open spec fn duplicate_session_message(s: SessionId) -> Seq<char> {
    "Persistence load failed: duplicate Session SessionId("@ + decimal(s.0 as nat) + ")."@
}

/// The start of the message of an ID of kind `k` found in two Sessions.
pub open spec fn duplicate_id_prefix(k: IdKind) -> Seq<char> {
    match k {
        IdKind::Turn => "Persistence load failed: duplicate TurnId "@,
        IdKind::Request => "Persistence load failed: duplicate ModelRequestId "@,
        IdKind::ToolCall => "Persistence load failed: duplicate ToolCallId "@,
        IdKind::Message => "Persistence load failed: duplicate MessageId "@,
    }
}

/// The message of a Turn reference `field` to Turn ID `t` that is no Turn of Session `s`; the
/// field is named at the end of `prefix`.
pub open spec fn turn_ref_message(prefix: Seq<char>, t: u64, s: SessionId) -> Seq<char> {
    prefix + decimal(t as nat) + " outside Session SessionId("@ + decimal(s.0 as nat) + ")."@
}


/// The events of the first `k` records of file `f`, each with the file's Session.
pub open spec fn file_prefix(f: LoadedFile, k: int) -> Seq<(SessionId, EventView)> {
    Seq::new(k as nat, |i: int| (f.session, f.records@[i].event.view()))
}

/// The kind of stable ID that event `e` introduces, if any.
pub open spec fn introduced_kind(e: EventView) -> Option<IdKind> {
    match e {
        EventView::Turn { .. } => Some(IdKind::Turn),
        EventView::ModelRequest { .. } => Some(IdKind::Request),
        EventView::ToolUse { .. } => Some(IdKind::ToolCall),
        EventView::UserMessage { .. } => Some(IdKind::Message),
        EventView::AssistantMessage { .. } => Some(IdKind::Message),
        _ => None,
    }
}

/// The message of the ID that event `e` of Session `s` introduces when an earlier record `prev`
/// of another Session introduced it already.
pub open spec fn clash_message(prev: Seq<(SessionId, EventView)>, s: SessionId, e: EventView) -> Option<Seq<char>> {
    match introduced_kind(e) {
        Some(k) => {
            let x = introduced(e, k).unwrap();
            if exists|i: int| 0 <= i < prev.len() && #[trigger] introduced(prev[i].1, k) == Some(x) && prev[i].0 != s {
                Some(duplicate_id_prefix(k) + decimal(x as nat) + "."@)
            } else {
                None
            }
        },
        None => match introduced_response(e) {
            Some(x) => if exists|i: int| 0 <= i < prev.len() && #[trigger] introduced_response(prev[i].1) == Some(x) && prev[i].0 != s {
                Some("Persistence load failed: duplicate response ID \""@ + x + "\"."@)
            } else {
                None
            },
            None => None,
        },
    }
}

/// The message of record `k` of file `fi` in the first pass, checked in order: its schema, its
/// ordinal against the record before it, a Session record's SessionId, and then an ID that an
/// earlier record of another Session introduced.
pub open spec fn record_check(files: Seq<LoadedFile>, fi: int, k: int) -> Option<Seq<char>> {
    let f = files[fi];
    let rs = f.records@;
    let p = f.path@;
    if rs[k].schema != SCHEMA_VERSION {
        Some("Persistence load failed: unsupported schema version "@ + decimal(rs[k].schema as nat) + " in "@ + p + "."@)
    } else if k > 0 && rs[k].ordinal <= rs[k - 1].ordinal {
        Some("Persistence load failed: non-increasing ordinal in "@ + p + "."@)
    } else if rs[k].event.view() is Session {
        if rs[k].event.view()->Session_id != f.session.0 {
            Some("Persistence load failed: Session record ID does not match "@ + p + "."@)
        } else {
            None
        }
    } else {
        clash_message(flat(files.take(fi)) + file_prefix(f, k), f.session, rs[k].event.view())
    }
}

/// The message of the first of the first `n` records of file `fi` that fails the first pass.
pub open spec fn first_record_error(files: Seq<LoadedFile>, fi: int, n: int) -> Option<Seq<char>>
    decreases n,
{
    if n <= 0 {
        None
    } else {
        match first_record_error(files, fi, n - 1) {
            Some(m) => Some(m),
            None => record_check(files, fi, n - 1),
        }
    }
}

/// File `f` has a Session record.
pub open spec fn has_session_record(f: LoadedFile) -> bool {
    exists|k: int| 0 <= k < f.records@.len() && (#[trigger] f.records@[k]).event.view() is Session
}

/// The first-pass message of file `fi`: an earlier file of the same Session, then its first
/// failing record, then the lack of a Session record.
pub open spec fn file_check(files: Seq<LoadedFile>, fi: int) -> Option<Seq<char>> {
    if exists|i: int| 0 <= i < fi && #[trigger] files[i].session == files[fi].session {
        Some(duplicate_session_message(files[fi].session))
    } else {
        match first_record_error(files, fi, files[fi].records@.len() as int) {
            Some(m) => Some(m),
            None => if !has_session_record(files[fi]) {
                Some("Persistence load failed: "@ + files[fi].path@ + " has no Session record."@)
            } else {
                None
            },
        }
    }
}

/// The message of the first of the first `n` files that fails the first pass.
pub open spec fn first_file_error(files: Seq<LoadedFile>, n: int) -> Option<Seq<char>>
    decreases n,
{
    if n <= 0 {
        None
    } else {
        match first_file_error(files, n - 1) {
            Some(m) => Some(m),
            None => file_check(files, n - 1),
        }
    }
}

/// The message of the first reference of event `e` of Session `s` that does not resolve, in the
/// order the check takes them (its Turn, then a request's previous ToolUse, a response's request,
/// or a tool outcome's ToolUse).
pub open spec fn ref_message(fl: Seq<(SessionId, EventView)>, s: SessionId, e: EventView) -> Option<Seq<char>> {
    let ev = "Persistence load failed: event.turn references TurnId "@;
    let turn_check = |t: u64, pre: Seq<char>| if turn_in(fl, t, s) { None::<Seq<char>> } else { Some(turn_ref_message(pre, t, s)) };
    match e {
        EventView::Session { active_head, .. } => match active_head {
            Some(h) => turn_check(h, "Persistence load failed: Session.active_head references TurnId "@),
            None => None,
        },
        EventView::Turn { parent, .. } => match parent {
            Some(p) => turn_check(p, "Persistence load failed: Turn.parent references TurnId "@),
            None => None,
        },
        EventView::UserMessage { turn, .. } => turn_check(turn, ev),
        EventView::AssistantMessage { turn, .. } => turn_check(turn, ev),
        EventView::ToolUse { turn, .. } => turn_check(turn, ev),
        EventView::TurnCompleted { turn, .. } => turn_check(turn, ev),
        EventView::TurnCancelled { turn, .. } => turn_check(turn, ev),
        EventView::TurnInterrupted { turn, .. } => turn_check(turn, ev),
        EventView::TurnFailed { turn, .. } => turn_check(turn, ev),
        EventView::ModelChange { turn, .. } => turn_check(turn, ev),
        EventView::Compaction { turn, .. } => turn_check(turn, ev),
        EventView::Recovery { turn, .. } => turn_check(turn, ev),
        EventView::BranchSelection { head, .. } => turn_check(head, "Persistence load failed: BranchSelection.head references TurnId "@),
        EventView::ModelRequest { turn, previous_tool_use, .. } => if !turn_in(fl, turn, s) {
            Some(turn_ref_message(ev, turn, s))
        } else {
            match previous_tool_use {
                Some(t) => if known(fl, IdKind::ToolCall, t) { None } else {
                    Some("Persistence load failed: missing ToolCallId "@ + decimal(t as nat) + "."@)
                },
                None => None,
            }
        },
        EventView::ModelResponse { turn, request, .. } => if !turn_in(fl, turn, s) {
            Some(turn_ref_message(ev, turn, s))
        } else if known(fl, IdKind::Request, request) {
            None
        } else {
            Some("Persistence load failed: missing ModelRequestId "@ + decimal(request as nat) + "."@)
        },
        EventView::ToolOutcome { turn, tool_use, tool_call_id, .. } => if !turn_in(fl, turn, s) {
            Some(turn_ref_message(ev, turn, s))
        } else if known(fl, IdKind::ToolCall, tool_use) && tool_use == tool_call_id {
            None
        } else {
            Some("Persistence load failed: invalid ToolOutcome reference "@ + decimal(tool_use as nat) + "."@)
        },
        EventView::ContextCamera { .. } => None,
    }
}

/// The message of the first of the first `n` records of `fl` with a reference that does not
/// resolve.
pub open spec fn first_ref_error(fl: Seq<(SessionId, EventView)>, n: int) -> Option<Seq<char>>
    decreases n,
{
    if n <= 0 {
        None
    } else {
        match first_ref_error(fl, n - 1) {
            Some(m) => Some(m),
            None => ref_message(fl, fl[n - 1].0, fl[n - 1].1),
        }
    }
}

/// The message of the first missing capability of a model reference: its Provider, then the
/// Model of that Provider.
pub open spec fn model_message(w: World, m: Seq<char>, p: u64) -> Option<Seq<char>> {
    if provider_index(w, p) is None {
        Some("Persistence load failed: missing ProviderId "@ + decimal(p as nat) + "."@)
    } else if !model_known(w, m, p) {
        Some("Persistence load failed: missing model \""@ + m + "\" for ProviderId "@ + decimal(p as nat) + "."@)
    } else {
        None
    }
}

/// The message of the first capability that event `e` misses in `w`: its Provider, its Model, and
/// then a ToolUse's tool.
pub open spec fn cap_message(w: World, e: EventView) -> Option<Seq<char>> {
    match e {
        EventView::ModelRequest { model_id, provider_id, .. } => model_message(w, model_id, provider_id),
        EventView::ModelResponse { model_id, provider_id, .. } => model_message(w, model_id, provider_id),
        EventView::ModelChange { model_id, provider_id, .. } => model_message(w, model_id, provider_id),
        EventView::ToolUse { model_id, provider_id, tool_id, .. } => match model_message(w, model_id, provider_id) {
            Some(x) => Some(x),
            None => if tool_known(w, tool_id) { None } else {
                Some("Persistence load failed: missing ToolId "@ + decimal(tool_id as nat) + "."@)
            },
        },
        _ => None,
    }
}

/// The message of the first of the first `n` records of `fl` that misses a capability of `w`.
pub open spec fn first_cap_error(w: World, fl: Seq<(SessionId, EventView)>, n: int) -> Option<Seq<char>>
    decreases n,
{
    if n <= 0 {
        None
    } else {
        match first_cap_error(w, fl, n - 1) {
            Some(m) => Some(m),
            None => cap_message(w, fl[n - 1].1),
        }
    }
}

/// Why `files` cannot be replayed into `w`, as the check reports it: first, file by file, a
/// second log of one Session, then record by record a bad schema, a non-increasing ordinal, a
/// Session record of another Session, or an ID that another Session introduced earlier, then a
/// file without a Session record; second, record by record, a reference that does not resolve;
/// third, record by record, a missing capability.
pub open spec fn validation(files: Seq<LoadedFile>, w: World) -> Option<Seq<char>> {
    let fl = flat(files);
    match first_file_error(files, files.len() as int) {
        Some(m) => Some(m),
        None => match first_ref_error(fl, fl.len() as int) {
            Some(m) => Some(m),
            None => first_cap_error(w, fl, fl.len() as int),
        },
    }
}

/// The loaded files can be replayed into `w`: the check finds nothing wrong.
pub open spec fn files_valid(files: Seq<LoadedFile>, w: World) -> bool {
    validation(files, w) is None
}

fn introduced_exec(e: &Event, k: &IdKind) -> (r: Option<u64>)
    ensures
        r == introduced(e.view(), *k),
{
    match (k, e) {
        (IdKind::Turn, Event::Turn { id, .. }) => Some(*id),
        (IdKind::Request, Event::ModelRequest { id, .. }) => Some(*id),
        (IdKind::ToolCall, Event::ToolUse { id, .. }) => Some(*id),
        (IdKind::Message, Event::UserMessage { id, .. }) => Some(*id),
        (IdKind::Message, Event::AssistantMessage { id, .. }) => Some(*id),
        _ => None,
    }
}

fn duplicate_prefix(k: &IdKind) -> (p: &'static str)
    ensures
        p@ == duplicate_id_prefix(*k),
{
    match k {
        IdKind::Turn => "Persistence load failed: duplicate TurnId ",
        IdKind::Request => "Persistence load failed: duplicate ModelRequestId ",
        IdKind::ToolCall => "Persistence load failed: duplicate ToolCallId ",
        IdKind::Message => "Persistence load failed: duplicate MessageId ",
    }
}

/// `prefix`, then `path`, then `suffix`.
fn path_message(prefix: &str, path: &str, suffix: &str) -> (m: String)
    ensures
        m@ == prefix@ + path@ + suffix@,
{
    let mut m = concat(prefix, path);
    m.append(suffix);
    m
}

/// `prefix`, then the decimal rendering of `n`, then `suffix`.
fn number_message(prefix: &str, n: u64, suffix: &str) -> (m: String)
    ensures
        m@ == prefix@ + decimal(n as nat) + suffix@,
{
    let mut m = with_decimal(prefix, n);
    m.append(suffix);
    m
}

fn turn_in_exec(fl: &Vec<(SessionId, Event)>, t: u64, s: SessionId) -> (b: bool)
    ensures
        b == turn_in(entry_views(fl@), t, s),
{
    let ghost v = entry_views(fl@);
    let mut i: usize = 0;
    while i < fl.len()
        invariant
            v == entry_views(fl@),
            i <= fl@.len(),
            forall|j: int| 0 <= j < i ==> !(#[trigger] introduced(v[j].1, IdKind::Turn) == Some(t) && v[j].0 == s),
        decreases fl.len() - i,
    {
        if fl[i].0 == s && introduced_exec(&fl[i].1, &IdKind::Turn) == Some(t) {
            proof {
                assert(v[i as int] == (fl@[i as int].0, fl@[i as int].1.view()));
                assert(introduced(v[i as int].1, IdKind::Turn) == Some(t) && v[i as int].0 == s);
            }
            return true;
        }
        i = i + 1;
    }
    false
}

fn known_exec(fl: &Vec<(SessionId, Event)>, k: IdKind, x: u64) -> (b: bool)
    ensures
        b == known(entry_views(fl@), k, x),
{
    let ghost v = entry_views(fl@);
    let mut i: usize = 0;
    while i < fl.len()
        invariant
            v == entry_views(fl@),
            i <= fl@.len(),
            forall|j: int| 0 <= j < i ==> #[trigger] introduced(v[j].1, k) != Some(x),
        decreases fl.len() - i,
    {
        if introduced_exec(&fl[i].1, &k) == Some(x) {
            proof {
                assert(v[i as int] == (fl@[i as int].0, fl@[i as int].1.view()));
                assert(introduced(v[i as int].1, k) == Some(x));
            }
            return true;
        }
        i = i + 1;
    }
    false
}

fn turn_ref_exec(fl: &Vec<(SessionId, Event)>, prefix: &str, t: u64, sid: SessionId) -> (r: Option<String>)
    ensures
        r is None <==> turn_in(entry_views(fl@), t, sid),
        r matches Some(m) ==> m@ == turn_ref_message(prefix@, t, sid),
{
    if turn_in_exec(fl, t, sid) {
        None
    } else {
        let mut m = number_message(prefix, t, " outside Session SessionId(");
        push_decimal(&mut m, sid.0);
        m.append(").");
        Some(m)
    }
}

pub(crate) fn provider_position(w: &World, p: u64) -> (r: Option<usize>)
    ensures
        provider_index(*w, p) == match r {
            Some(i) => Some(i as int),
            None => None::<int>,
        },
        r matches Some(i) ==> i < w.providers@.len(),
{
    let mut i: usize = 0;
    while i < w.providers.len()
        invariant
            i <= w.providers@.len(),
            forall|j: int| 0 <= j < i ==> (#[trigger] w.providers@[j]).1.provider_id.0 != p,
        decreases w.providers.len() - i,
    {
        if w.providers[i].1.provider_id.0 == p {
            proof {
                let c = choose|x: int| 0 <= x < w.providers@.len() && w.providers@[x].1.provider_id.0 == p
                    && forall|j: int| 0 <= j < x ==> (#[trigger] w.providers@[j]).1.provider_id.0 != p;
                if c < i {
                    assert(w.providers@[c].1.provider_id.0 != p);
                } else if i < c {
                    assert(w.providers@[i as int].1.provider_id.0 != p);
                }
            }
            return Some(i);
        }
        i = i + 1;
    }
    None
}

fn model_known_exec(w: &World, m: &String, p: u64) -> (b: bool)
    ensures
        b == model_known(*w, m@, p),
{
    let pi = match provider_position(w, p) {
        Some(i) => i,
        None => {
            return false;
        },
    };
    let provider = w.providers[pi].0;
    let mut j: usize = 0;
    while j < w.models.len()
        invariant
            j <= w.models@.len(),
            provider_index(*w, p) == Some(pi as int),
            pi < w.providers@.len(),
            provider == w.providers@[pi as int].0,
            forall|x: int| 0 <= x < j ==> !((#[trigger] w.models@[x]).1.provider == provider && w.models@[x].1.model_id@ == m@),
        decreases w.models.len() - j,
    {
        if w.models[j].1.provider == provider && str_eq(w.models[j].1.model_id.as_str(), m.as_str()) {
            proof {
                assert(w.models@[j as int].1.provider == w.providers@[pi as int].0 && w.models@[j as int].1.model_id@ == m@);
            }
            return true;
        }
        j = j + 1;
    }
    false
}

fn tool_known_exec(w: &World, t: u64) -> (b: bool)
    ensures
        b == tool_known(*w, t),
{
    let mut j: usize = 0;
    while j < w.tools.len()
        invariant
            j <= w.tools@.len(),
            forall|x: int| 0 <= x < j ==> (#[trigger] w.tools@[x]).1.tool_id.0 != t,
        decreases w.tools.len() - j,
    {
        if w.tools[j].1.tool_id.0 == t {
            return true;
        }
        j = j + 1;
    }
    false
}


fn clash_exec(prev: &Vec<(SessionId, Event)>, s: SessionId, e: &Event) -> (r: Option<String>)
    ensures
        match r {
            Some(m) => clash_message(entry_views(prev@), s, e.view()) == Some(m@),
            None => clash_message(entry_views(prev@), s, e.view()) is None,
        },
{
    let ghost pv = entry_views(prev@);
    let kind = match e {
        Event::Turn { .. } => Some(IdKind::Turn),
        Event::ModelRequest { .. } => Some(IdKind::Request),
        Event::ToolUse { .. } => Some(IdKind::ToolCall),
        Event::UserMessage { .. } => Some(IdKind::Message),
        Event::AssistantMessage { .. } => Some(IdKind::Message),
        _ => None,
    };
    match kind {
        Some(k) => {
            let x = introduced_exec(e, &k).unwrap();
            let mut i: usize = 0;
            while i < prev.len()
                invariant
                    pv == entry_views(prev@),
                    i <= prev@.len(),
                    introduced(e.view(), k) == Some(x),
                    forall|j: int| 0 <= j < i ==> !(#[trigger] introduced(pv[j].1, k) == Some(x) && pv[j].0 != s),
                decreases prev.len() - i,
            {
                proof {
                    assert(pv[i as int] == (prev@[i as int].0, prev@[i as int].1.view()));
                }
                if prev[i].0 != s && introduced_exec(&prev[i].1, &k) == Some(x) {
                    proof {
                        assert(introduced_kind(e.view()) == Some(k));
                        assert(introduced(pv[i as int].1, k) == Some(x) && pv[i as int].0 != s);
                    }
                    return Some(number_message(duplicate_prefix(&k), x, "."));
                }
                i = i + 1;
            }
            None
        },
        None => match e {
            Event::ModelResponse { response_id, .. } => {
                let mut i: usize = 0;
                while i < prev.len()
                    invariant
                        pv == entry_views(prev@),
                        i <= prev@.len(),
                        introduced_response(e.view()) == Some(response_id@),
                        forall|j: int| 0 <= j < i ==> !(#[trigger] introduced_response(pv[j].1) == Some(response_id@) && pv[j].0 != s),
                    decreases prev.len() - i,
                {
                    proof {
                        assert(pv[i as int] == (prev@[i as int].0, prev@[i as int].1.view()));
                    }
                    if prev[i].0 != s {
                        match &prev[i].1 {
                            Event::ModelResponse { response_id: y, .. } => {
                                if str_eq(y.as_str(), response_id.as_str()) {
                                    proof {
                                        assert(introduced_kind(e.view()) is None);
                                        assert(introduced_response(pv[i as int].1) == Some(response_id@) && pv[i as int].0 != s);
                                    }
                                    return Some(path_message("Persistence load failed: duplicate response ID \"", response_id.as_str(), "\"."));
                                }
                            },
                            _ => {},
                        }
                    }
                    i = i + 1;
                }
                None
            },
            _ => None,
        },
    }
}

fn ref_exec(fl: &Vec<(SessionId, Event)>, s: SessionId, e: &Event) -> (r: Option<String>)
    ensures
        match r {
            Some(m) => ref_message(entry_views(fl@), s, e.view()) == Some(m@),
            None => ref_message(entry_views(fl@), s, e.view()) is None,
        },
{
    let ev = "Persistence load failed: event.turn references TurnId ";
    match e {
        Event::Session { active_head, .. } => match active_head {
            Some(h) => turn_ref_exec(fl, "Persistence load failed: Session.active_head references TurnId ", *h, s),
            None => None,
        },
        Event::Turn { parent, .. } => match parent {
            Some(p) => turn_ref_exec(fl, "Persistence load failed: Turn.parent references TurnId ", *p, s),
            None => None,
        },
        Event::UserMessage { turn, .. } => turn_ref_exec(fl, ev, *turn, s),
        Event::AssistantMessage { turn, .. } => turn_ref_exec(fl, ev, *turn, s),
        Event::ToolUse { turn, .. } => turn_ref_exec(fl, ev, *turn, s),
        Event::TurnCompleted { turn, .. } => turn_ref_exec(fl, ev, *turn, s),
        Event::TurnCancelled { turn, .. } => turn_ref_exec(fl, ev, *turn, s),
        Event::TurnInterrupted { turn, .. } => turn_ref_exec(fl, ev, *turn, s),
        Event::TurnFailed { turn, .. } => turn_ref_exec(fl, ev, *turn, s),
        Event::ModelChange { turn, .. } => turn_ref_exec(fl, ev, *turn, s),
        Event::Compaction { turn, .. } => turn_ref_exec(fl, ev, *turn, s),
        Event::Recovery { turn, .. } => turn_ref_exec(fl, ev, *turn, s),
        Event::BranchSelection { head, .. } => turn_ref_exec(fl, "Persistence load failed: BranchSelection.head references TurnId ", *head, s),
        Event::ModelRequest { turn, previous_tool_use, .. } => {
            let r = turn_ref_exec(fl, ev, *turn, s);
            if r.is_some() {
                return r;
            }
            match previous_tool_use {
                Some(t) => if known_exec(fl, IdKind::ToolCall, *t) {
                    None
                } else {
                    Some(number_message("Persistence load failed: missing ToolCallId ", *t, "."))
                },
                None => None,
            }
        },
        Event::ModelResponse { turn, request, .. } => {
            let r = turn_ref_exec(fl, ev, *turn, s);
            if r.is_some() {
                return r;
            }
            if known_exec(fl, IdKind::Request, *request) {
                None
            } else {
                Some(number_message("Persistence load failed: missing ModelRequestId ", *request, "."))
            }
        },
        Event::ToolOutcome { turn, tool_use, tool_call_id, .. } => {
            let r = turn_ref_exec(fl, ev, *turn, s);
            if r.is_some() {
                return r;
            }
            if known_exec(fl, IdKind::ToolCall, *tool_use) && *tool_use == *tool_call_id {
                None
            } else {
                Some(number_message("Persistence load failed: invalid ToolOutcome reference ", *tool_use, "."))
            }
        },
        Event::ContextCamera { .. } => None,
    }
}

fn model_exec(w: &World, m: &String, p: u64) -> (r: Option<String>)
    ensures
        match r {
            Some(x) => model_message(*w, m@, p) == Some(x@),
            None => model_message(*w, m@, p) is None,
        },
{
    match provider_position(w, p) {
        None => Some(number_message("Persistence load failed: missing ProviderId ", p, ".")),
        Some(_) => if model_known_exec(w, m, p) {
            None
        } else {
            let mut x = path_message("Persistence load failed: missing model \"", m.as_str(), "\" for ProviderId ");
            push_decimal(&mut x, p);
            x.append(".");
            Some(x)
        },
    }
}

#[verifier::rlimit(50)]
fn cap_exec(w: &World, e: &Event) -> (r: Option<String>)
    ensures
        match r {
            Some(m) => cap_message(*w, e.view()) == Some(m@),
            None => cap_message(*w, e.view()) is None,
        },
{
    match e {
        Event::ModelRequest { model_id, provider_id, .. } => model_exec(w, model_id, *provider_id),
        Event::ModelResponse { model_id, provider_id, .. } => model_exec(w, model_id, *provider_id),
        Event::ModelChange { model_id, provider_id, .. } => model_exec(w, model_id, *provider_id),
        Event::ToolUse { model_id, provider_id, tool_id, .. } => {
            let r = model_exec(w, model_id, *provider_id);
            if r.is_some() {
                return r;
            }
            if tool_known_exec(w, *tool_id) {
                None
            } else {
                Some(number_message("Persistence load failed: missing ToolId ", *tool_id, "."))
            }
        },
        _ => None,
    }
}

/// Checks that the loaded files can be replayed into `world`, and reports the first problem in
/// the order [`validation`] describes.
pub fn validate_files(files: &Vec<LoadedFile>, world: &World) -> (r: Result<(), String>)
    ensures
        r is Ok <==> files_valid(files@, *world),
        r matches Err(m) ==> validation(files@, *world) == Some(m@),
{
    let mut seen: Vec<(SessionId, Event)> = Vec::new();
    let mut fi: usize = 0;
    while fi < files.len()
        invariant
            fi <= files@.len(),
            entry_views(seen@) == flat(files@.take(fi as int)),
            first_file_error(files@, fi as int) is None,
        decreases files.len() - fi,
    {
        let mut j: usize = 0;
        while j < fi
            invariant
                fi < files@.len(),
                j <= fi,
                first_file_error(files@, fi as int) is None,
                forall|i: int| 0 <= i < j ==> files@[i].session != files@[fi as int].session,
            decreases fi - j,
        {
            if files[j].session == files[fi].session {
                let m = number_message("Persistence load failed: duplicate Session SessionId(", files[fi].session.0, ").");
                proof {
                    assert(files@[j as int].session == files@[fi as int].session);
                    assert(file_check(files@, fi as int) == Some(m@));
                    assert(first_file_error(files@, fi + 1) == Some(m@));
                    lemma_file_error_stays(files@, fi + 1, files@.len() as int);
                }
                return Err(m);
            }
            j = j + 1;
        }
        let ghost base = flat(files@.take(fi as int));
        let ghost file = files@[fi as int];
        let rs = &files[fi].records;
        let mut has_session = false;
        let mut k: usize = 0;
        while k < rs.len()
            invariant
                fi < files@.len(),
                file == files@[fi as int],
                rs == &files@[fi as int].records,
                base == flat(files@.take(fi as int)),
                k <= rs@.len(),
                entry_views(seen@) == base + file_prefix(file, k as int),
                first_file_error(files@, fi as int) is None,
                forall|i: int| 0 <= i < fi ==> files@[i].session != files@[fi as int].session,
                first_record_error(files@, fi as int, k as int) is None,
                has_session == exists|x: int| 0 <= x < k && (#[trigger] rs@[x]).event.view() is Session,
            decreases rs.len() - k,
        {
            let path = files[fi].path.as_str();
            let failure: Option<String> = if rs[k].schema != SCHEMA_VERSION {
                let mut m = number_message("Persistence load failed: unsupported schema version ", rs[k].schema as u64, " in ");
                m.append(path);
                m.append(".");
                Some(m)
            } else if k > 0 && rs[k].ordinal <= rs[k - 1].ordinal {
                Some(path_message("Persistence load failed: non-increasing ordinal in ", path, "."))
            } else {
                match &rs[k].event {
                    Event::Session { id, .. } => {
                        if *id != files[fi].session.0 {
                            Some(path_message("Persistence load failed: Session record ID does not match ", path, "."))
                        } else {
                            None
                        }
                    },
                    e => clash_exec(&seen, files[fi].session, e),
                }
            };
            proof {
                assert(failure matches Some(m) ==> record_check(files@, fi as int, k as int) == Some(m@));
                assert(failure is None ==> record_check(files@, fi as int, k as int) is None);
            }
            match failure {
                Some(m) => {
                    proof {
                        assert(first_record_error(files@, fi as int, k + 1) == Some(m@));
                        lemma_record_error_stays(files@, fi as int, k + 1, rs@.len() as int);
                        assert(file_check(files@, fi as int) == Some(m@));
                        assert(first_file_error(files@, fi + 1) == Some(m@));
                        lemma_file_error_stays(files@, fi + 1, files@.len() as int);
                    }
                    return Err(m);
                },
                None => {},
            }
            match &rs[k].event {
                Event::Session { .. } => {
                    has_session = true;
                },
                _ => {},
            }
            let ghost before = seen@;
            seen.push((files[fi].session, rs[k].event.copy()));
            proof {
                assert(entry_views(seen@) =~= entry_views(before).push((file.session, file.records@[k as int].event.view())));
                assert(file_prefix(file, k + 1) =~= file_prefix(file, k as int).push((file.session, file.records@[k as int].event.view())));
                assert(first_record_error(files@, fi as int, k + 1) is None);
            }
            k = k + 1;
        }
        if !has_session {
            let m = path_message("Persistence load failed: ", files[fi].path.as_str(), " has no Session record.");
            proof {
                assert(!has_session_record(file));
                assert(file_check(files@, fi as int) == Some(m@));
                assert(first_file_error(files@, fi + 1) == Some(m@));
                lemma_file_error_stays(files@, fi + 1, files@.len() as int);
            }
            return Err(m);
        }
        proof {
            assert(has_session_record(file));
            assert(file_check(files@, fi as int) is None);
            assert(files@.take(fi + 1).drop_last() =~= files@.take(fi as int));
            assert(files@.take(fi + 1).last() == file);
            assert(file_prefix(file, rs@.len() as int) =~= Seq::new(file.records@.len(), |i: int| (file.session, file.records@[i].event.view())));
        }
        fi = fi + 1;
    }
    proof {
        assert(files@.take(files@.len() as int) =~= files@);
    }
    let fl = seen;
    let ghost v = entry_views(fl@);
    let mut i: usize = 0;
    while i < fl.len()
        invariant
            v == entry_views(fl@),
            v == flat(files@),
            first_file_error(files@, files@.len() as int) is None,
            i <= fl@.len(),
            first_ref_error(v, i as int) is None,
        decreases fl.len() - i,
    {
        proof {
            assert(v[i as int] == (fl@[i as int].0, fl@[i as int].1.view()));
        }
        match ref_exec(&fl, fl[i].0, &fl[i].1) {
            Some(m) => {
                proof {
                    assert(first_ref_error(v, i + 1) == Some(m@));
                    lemma_ref_error_stays(v, i + 1, v.len() as int);
                }
                return Err(m);
            },
            None => {},
        }
        i = i + 1;
    }
    let mut i: usize = 0;
    while i < fl.len()
        invariant
            v == entry_views(fl@),
            v == flat(files@),
            first_file_error(files@, files@.len() as int) is None,
            first_ref_error(v, v.len() as int) is None,
            i <= fl@.len(),
            first_cap_error(*world, v, i as int) is None,
        decreases fl.len() - i,
    {
        proof {
            assert(v[i as int] == (fl@[i as int].0, fl@[i as int].1.view()));
        }
        match cap_exec(world, &fl[i].1) {
            Some(m) => {
                proof {
                    assert(first_cap_error(*world, v, i + 1) == Some(m@));
                    lemma_cap_error_stays(*world, v, i + 1, v.len() as int);
                }
                return Err(m);
            },
            None => {},
        }
        i = i + 1;
    }
    Ok(())
}

proof fn lemma_file_error_stays(files: Seq<LoadedFile>, i: int, n: int)
    requires
        0 <= i <= n,
        first_file_error(files, i) is Some,
    ensures
        first_file_error(files, n) == first_file_error(files, i),
    decreases n - i,
{
    if i < n {
        lemma_file_error_stays(files, i, n - 1);
    }
}

proof fn lemma_record_error_stays(files: Seq<LoadedFile>, fi: int, i: int, n: int)
    requires
        0 <= i <= n,
        first_record_error(files, fi, i) is Some,
    ensures
        first_record_error(files, fi, n) == first_record_error(files, fi, i),
    decreases n - i,
{
    if i < n {
        lemma_record_error_stays(files, fi, i, n - 1);
    }
}

proof fn lemma_ref_error_stays(fl: Seq<(SessionId, EventView)>, i: int, n: int)
    requires
        0 <= i <= n,
        first_ref_error(fl, i) is Some,
    ensures
        first_ref_error(fl, n) == first_ref_error(fl, i),
    decreases n - i,
{
    if i < n {
        lemma_ref_error_stays(fl, i, n - 1);
    }
}

proof fn lemma_cap_error_stays(w: World, fl: Seq<(SessionId, EventView)>, i: int, n: int)
    requires
        0 <= i <= n,
        first_cap_error(w, fl, i) is Some,
    ensures
        first_cap_error(w, fl, n) == first_cap_error(w, fl, i),
    decreases n - i,
{
    if i < n {
        lemma_cap_error_stays(w, fl, i, n - 1);
    }
}

} // verus!
