//! The terminal view's state and its decisions: the composer, the transcript scroll, and the
//! transcript's lines. Drawing them is left to the terminal front end.
use vstd::prelude::*;

use crate::camera::TranscriptRow;
use crate::ids::Entity;
use crate::text::{push_char, trim, trimmed};
use crate::world::{get, lemma_find, position, World};

verus! {

/// The terminal view: the prompt being composed and the transcript camera it shows.
#[derive(Debug)]
pub struct TuiView {
    pub composer: String,
    pub transcript_camera: Entity,
}

/// How far the transcript is scrolled up from its bottom, in lines.
#[derive(Debug, Clone, Copy, PartialEq, Eq, Structural)]
pub struct TerminalTranscriptViewport {
    pub scroll_from_bottom: usize,
}

/// A key the view reacts to.
#[derive(Debug, Clone, Copy, PartialEq, Eq, Structural)]
pub enum Key {
    Esc,
    Enter,
    Backspace,
    Char(char),
    Up,
    Down,
    PageUp,
    PageDown,
    Home,
    End,
    Other,
}

/// What a key asks of the harness.
#[derive(Debug)]
pub enum KeyAction {
    Nothing,
    Exit,
    Submit(String),
}

/// `a + b`, or the largest value when it does not fit.
pub open spec fn plus_sat(a: usize, b: usize) -> usize {
    if a + b > usize::MAX { usize::MAX } else { (a + b) as usize }
}

/// `a - b`, or zero when it would be negative.
pub open spec fn minus_sat(a: usize, b: usize) -> usize {
    if a < b { 0 } else { (a - b) as usize }
}

fn add_sat(a: usize, b: usize) -> (r: usize)
    ensures
        r == plus_sat(a, b),
{
    if a > usize::MAX - b { usize::MAX } else { a + b }
}

fn sub_sat(a: usize, b: usize) -> (r: usize)
    ensures
        r == minus_sat(a, b),
{
    if a < b { 0 } else { a - b }
}

/// Applies one key press to the view.
///
/// Releases and keys held with Control or Alt do nothing. Escape exits. Enter submits the
/// trimmed composer text when it is not empty, the active Session exists, and the Session's head
/// has no unfinished work (`head_busy` is false), then clears the composer and scrolls to the
/// bottom; while the head is busy the text waits in the composer. Backspace deletes the last character; a character is
/// appended. Up and Down scroll one line, Page Up and Page Down ten lines, saturating; Home
/// scrolls to the top and End to the bottom.
pub fn handle_key(
    view: &mut TuiView,
    viewport: &mut TerminalTranscriptViewport,
    key: Key,
    release: bool,
    control_or_alt: bool,
    session_exists: bool,
    head_busy: bool,
) -> (action: KeyAction)
    ensures
        final(view).transcript_camera == old(view).transcript_camera,
        ({
            let c = old(view).composer@;
            let s = old(viewport).scroll_from_bottom;
            let f = final(viewport).scroll_from_bottom;
            if release || control_or_alt {
                action is Nothing && final(view).composer@ == c && f == s
            } else {
                match key {
                    Key::Esc => action is Exit && final(view).composer@ == c && f == s,
                    Key::Enter => if trimmed(c).len() > 0 && session_exists && !head_busy {
                        action matches KeyAction::Submit(t) && t@ == trimmed(c) && final(view).composer@.len() == 0 && f == 0
                    } else {
                        action is Nothing && final(view).composer@ == c && f == s
                    },
                    Key::Backspace => action is Nothing && final(view).composer@ == (if c.len() > 0 { c.drop_last() } else { c })
                        && f == s,
                    Key::Char(ch) => action is Nothing && final(view).composer@ == c.push(ch) && f == s,
                    Key::Up => action is Nothing && final(view).composer@ == c && f == plus_sat(s, 1),
                    Key::Down => action is Nothing && final(view).composer@ == c && f == minus_sat(s, 1),
                    Key::PageUp => action is Nothing && final(view).composer@ == c && f == plus_sat(s, 10),
                    Key::PageDown => action is Nothing && final(view).composer@ == c && f == minus_sat(s, 10),
                    Key::Home => action is Nothing && final(view).composer@ == c && f == usize::MAX,
                    Key::End => action is Nothing && final(view).composer@ == c && f == 0,
                    Key::Other => action is Nothing && final(view).composer@ == c && f == s,
                }
            }
        }),
{
    if release || control_or_alt {
        return KeyAction::Nothing;
    }
    match key {
        Key::Esc => KeyAction::Exit,
        Key::Enter => {
            let text = trim(view.composer.as_str());
            if text.unicode_len() > 0 && session_exists && !head_busy {
                view.composer = String::new();
                viewport.scroll_from_bottom = 0;
                KeyAction::Submit(text)
            } else {
                KeyAction::Nothing
            }
        },
        Key::Backspace => {
            let n = view.composer.unicode_len();
            if n > 0 {
                let kept = String::from_str(view.composer.as_str().substring_char(0, n - 1));
                proof {
                    assert(kept@ =~= old(view).composer@.drop_last());
                }
                view.composer = kept;
            }
            KeyAction::Nothing
        },
        Key::Char(ch) => {
            push_char(&mut view.composer, ch);
            KeyAction::Nothing
        },
        Key::Up => {
            viewport.scroll_from_bottom = add_sat(viewport.scroll_from_bottom, 1);
            KeyAction::Nothing
        },
        Key::Down => {
            viewport.scroll_from_bottom = sub_sat(viewport.scroll_from_bottom, 1);
            KeyAction::Nothing
        },
        Key::PageUp => {
            viewport.scroll_from_bottom = add_sat(viewport.scroll_from_bottom, 10);
            KeyAction::Nothing
        },
        Key::PageDown => {
            viewport.scroll_from_bottom = sub_sat(viewport.scroll_from_bottom, 10);
            KeyAction::Nothing
        },
        Key::Home => {
            viewport.scroll_from_bottom = usize::MAX;
            KeyAction::Nothing
        },
        Key::End => {
            viewport.scroll_from_bottom = 0;
            KeyAction::Nothing
        },
        Key::Other => KeyAction::Nothing,
    }
}

/// A mouse wheel turn over the view.
#[derive(Debug, Clone, Copy, PartialEq, Eq, Structural)]
pub enum Wheel {
    Up,
    Down,
    Other,
}

/// Scrolls three lines per wheel step, saturating.
pub fn handle_wheel(viewport: &mut TerminalTranscriptViewport, wheel: Wheel)
    ensures
        final(viewport).scroll_from_bottom == match wheel {
            Wheel::Up => plus_sat(old(viewport).scroll_from_bottom, 3),
            Wheel::Down => minus_sat(old(viewport).scroll_from_bottom, 3),
            Wheel::Other => old(viewport).scroll_from_bottom,
        },
{
    match wheel {
        Wheel::Up => {
            viewport.scroll_from_bottom = add_sat(viewport.scroll_from_bottom, 3);
        },
        Wheel::Down => {
            viewport.scroll_from_bottom = sub_sat(viewport.scroll_from_bottom, 3);
        },
        Wheel::Other => {},
    }
}

/// Where the transcript is drawn from: the largest scroll, the stored scroll clamped to it, and
/// the first line shown.
pub open spec fn scroll_window(scroll_from_bottom: usize, lines: usize, height: u16) -> (usize, usize, usize) {
    let visible = if height < 2 { 0usize } else { (height - 2) as usize };
    let max_scroll = minus_sat(lines, visible);
    let kept = if scroll_from_bottom < max_scroll { scroll_from_bottom } else { max_scroll };
    (max_scroll, kept, (max_scroll - kept) as usize)
}

/// Clamps the stored scroll to the transcript drawn in an area `height` rows tall (two of them
/// border) and returns the largest scroll and the first line shown; see [`scroll_window`].
pub fn clamp_scroll(viewport: &mut TerminalTranscriptViewport, lines: usize, height: u16) -> (r: (usize, usize))
    ensures
        r.0 == scroll_window(old(viewport).scroll_from_bottom, lines, height).0,
        final(viewport).scroll_from_bottom == scroll_window(old(viewport).scroll_from_bottom, lines, height).1,
        r.1 == scroll_window(old(viewport).scroll_from_bottom, lines, height).2,
{
    let visible: usize = if height < 2 { 0 } else { (height - 2) as usize };
    let max_scroll = sub_sat(lines, visible);
    if viewport.scroll_from_bottom > max_scroll {
        viewport.scroll_from_bottom = max_scroll;
    }
    (max_scroll, max_scroll - viewport.scroll_from_bottom)
}

/// Points the transcript camera at the active Session and its head, when both exist.
pub fn sync_transcript_camera(world: &mut World, camera: Entity)
    ensures
        ({
            let w = *old(world);
            let f = *final(world);
            match (w.active_session, w.active_session matches Some(s) && get(w.sessions@, s) is Some) {
                (Some(s), true) => match crate::world::find(w.transcript_cameras@, camera) {
                    Some(k) => f.transcript_cameras@ == w.transcript_cameras@.update(k, (camera, crate::world::TranscriptCamera {
                        session: s,
                        head: get(w.sessions@, s).unwrap().active_head,
                    })),
                    None => f.transcript_cameras@ == w.transcript_cameras@,
                },
                _ => f.transcript_cameras@ == w.transcript_cameras@,
            }
        }),
        *final(world) == (World { transcript_cameras: final(world).transcript_cameras, ..*old(world) }),
{
    let s = match world.active_session {
        Some(s) => s,
        None => {
            return;
        },
    };
    let head = match position(&world.sessions, s) {
        Some(k) => {
            proof {
                lemma_find(world.sessions@, s);
            }
            world.sessions[k].1.active_head
        },
        None => {
            return;
        },
    };
    match position(&world.transcript_cameras, camera) {
        Some(k) => {
            proof {
                lemma_find(world.transcript_cameras@, camera);
            }
            world.transcript_cameras.set(k, (camera, crate::world::TranscriptCamera { session: s, head }));
        },
        None => {},
    }
}

/// Opens the terminal view: spawns a transcript camera over the active Session and its head, and
/// returns an empty composer that shows it and the camera's viewport, scrolled to the bottom.
pub fn spawn_tui_view(world: &mut World) -> (r: (TuiView, TerminalTranscriptViewport))
    requires
        old(world).active_session matches Some(s) && get(old(world).sessions@, s) is Some,
        old(world).next_entity < u64::MAX,
    ensures
        ({
            let w = *old(world);
            let s = w.active_session.unwrap();
            let camera = Entity(w.next_entity);
            &&& r.0.transcript_camera == camera
            &&& r.0.composer@.len() == 0
            &&& r.1.scroll_from_bottom == 0
            &&& final(world).transcript_cameras@ == w.transcript_cameras@.push((camera, crate::world::TranscriptCamera {
                session: s,
                head: get(w.sessions@, s).unwrap().active_head,
            }))
            &&& *final(world) == (World {
                next_entity: (w.next_entity + 1) as u64,
                transcript_cameras: final(world).transcript_cameras,
                ..w
            })
        }),
{
    let s = world.active_session.unwrap();
    let k = position(&world.sessions, s).unwrap();
    proof {
        lemma_find(old(world).sessions@, s);
    }
    let head = world.sessions[k].1.active_head;
    let camera = world.spawn();
    world.transcript_cameras.push((camera, crate::world::TranscriptCamera { session: s, head }));
    (TuiView { composer: String::new(), transcript_camera: camera }, TerminalTranscriptViewport { scroll_from_bottom: 0 })
}

/// Where the line that starts at `i` ends: the first newline at or after `i`, or the end.
pub open spec fn line_end(s: Seq<char>, i: int) -> int
    decreases s.len() - i,
{
    if i >= s.len() {
        s.len() as int
    } else if s[i] == '\n' {
        i
    } else {
        line_end(s, i + 1)
    }
}

/// The lines of `s` from position `i`: split at newlines, a carriage return before a newline
/// dropped, and no empty line after a final newline.
pub open spec fn lines_from(s: Seq<char>, i: int) -> Seq<Seq<char>>
    decreases s.len() - i,
{
    if i >= s.len() || i < 0 {
        Seq::empty()
    } else {
        let e = line_end(s, i);
        let raw = s.subrange(i, e);
        let line = if e < s.len() && raw.len() > 0 && raw.last() == '\r' { raw.drop_last() } else { raw };
        if i < e + 1 && e < s.len() {
            seq![line] + lines_from(s, e + 1)
        } else {
            seq![line]
        }
    }
}

proof fn lemma_line_end(s: Seq<char>, i: int, j: int)
    requires
        0 <= i <= j <= s.len(),
        forall|k: int| i <= k < j ==> s[k] != '\n',
    ensures
        line_end(s, i) == line_end(s, j),
        i <= line_end(s, i) <= s.len(),
    decreases j - i,
{
    if i < j {
        lemma_line_end(s, i + 1, j);
    } else {
        lemma_line_end_bound(s, i);
    }
}

proof fn lemma_line_end_bound(s: Seq<char>, i: int)
    requires
        0 <= i <= s.len(),
    ensures
        i <= line_end(s, i) <= s.len(),
    decreases s.len() - i,
{
    if i < s.len() && s[i] != '\n' {
        lemma_line_end_bound(s, i + 1);
    }
}

/// The lines of `s`.
pub fn text_lines(s: &str) -> (lines: Vec<String>)
    ensures
        lines@.map_values(|l: String| l@) == lines_from(s@, 0),
{
    let n = s.unicode_len();
    let mut lines: Vec<String> = Vec::new();
    let mut start: usize = 0;
    let mut i: usize = 0;
    while i < n
        invariant
            n == s@.len(),
            start <= i <= n,
            forall|k: int| start <= k < i ==> s@[k] != '\n',
            lines@.map_values(|l: String| l@) + lines_from(s@, start as int) == lines_from(s@, 0),
        decreases n - i,
    {
        if s.get_char(i) == '\n' {
            proof {
                lemma_line_end(s@, start as int, i as int);
                assert(line_end(s@, start as int) == i);
            }
            let mut end = i;
            if end > start && s.get_char(end - 1) == '\r' {
                end = end - 1;
            }
            let line = String::from_str(s.substring_char(start, end));
            let ghost before = lines@;
            proof {
                let raw = s@.subrange(start as int, i as int);
                let want = if raw.len() > 0 && raw.last() == '\r' { raw.drop_last() } else { raw };
                assert(line@ =~= want);
                assert(lines_from(s@, start as int) == seq![want] + lines_from(s@, i + 1));
            }
            lines.push(line);
            proof {
                assert(lines@.map_values(|l: String| l@) =~= before.map_values(|l: String| l@).push(line@));
                assert(before.map_values(|l: String| l@).push(line@) + lines_from(s@, i + 1) =~= before.map_values(|l: String| l@) + (seq![line@] + lines_from(s@, i + 1)));
            }
            start = i + 1;
        }
        i = i + 1;
    }
    if start < n {
        proof {
            lemma_line_end(s@, start as int, n as int);
            assert(lines_from(s@, start as int) == seq![s@.subrange(start as int, n as int)] + lines_from(s@, n as int + 1));
            assert(lines_from(s@, n as int + 1) == Seq::<Seq<char>>::empty());
        }
        let line = String::from_str(s.substring_char(start, n));
        let ghost before = lines@;
        lines.push(line);
        proof {
            assert(lines@.map_values(|l: String| l@) =~= before.map_values(|l: String| l@).push(s@.subrange(start as int, n as int)));
            assert(lines@.map_values(|l: String| l@) =~= lines_from(s@, 0));
        }
    } else {
        proof {
            assert(lines_from(s@, start as int) == Seq::<Seq<char>>::empty());
            assert(lines@.map_values(|l: String| l@) =~= lines_from(s@, 0));
        }
    }
    lines
}

/// The kind of one drawn transcript line.
#[derive(Debug, Clone, Copy, PartialEq, Eq, Structural)]
pub enum LineKind {
    UserTitle,
    AssistantTitle,
    ErrorTitle,
    Body,
    Blank,
}

/// One drawn transcript line.
#[derive(Debug)]
pub struct TranscriptLine {
    pub kind: LineKind,
    pub text: String,
}

/// The drawn lines of one row: its title (" YOU ", " MAJIN ", or " ERROR "), each line of its
/// body indented by two spaces, and a blank line.
pub open spec fn row_lines(r: TranscriptRow) -> Seq<(LineKind, Seq<char>)> {
    let (kind, title, body) = match r {
        TranscriptRow::User(b) => (LineKind::UserTitle, " YOU "@, b@),
        TranscriptRow::Assistant(b) => (LineKind::AssistantTitle, " MAJIN "@, b@),
        TranscriptRow::Error(b) => (LineKind::ErrorTitle, " ERROR "@, b@),
    };
    let ls = lines_from(body, 0);
    seq![(kind, title)] + Seq::new(ls.len(), |i: int| (LineKind::Body, "  "@ + ls[i])) + seq![(LineKind::Blank, Seq::<char>::empty())]
}

/// The drawn lines of the first `n` rows.
pub open spec fn rows_lines(rows: Seq<TranscriptRow>, n: int) -> Seq<(LineKind, Seq<char>)>
    decreases n,
{
    if n <= 0 {
        Seq::empty()
    } else {
        rows_lines(rows, n - 1) + row_lines(rows[n - 1])
    }
}

/// The views of drawn lines.
pub open spec fn line_views(s: Seq<TranscriptLine>) -> Seq<(LineKind, Seq<char>)> {
    s.map_values(|l: TranscriptLine| (l.kind, l.text@))
}

/// The transcript as drawn lines; see [`row_lines`].
pub fn transcript_lines(items: &Vec<TranscriptRow>) -> (lines: Vec<TranscriptLine>)
    ensures
        line_views(lines@) == rows_lines(items@, items@.len() as int),
{
    let mut lines: Vec<TranscriptLine> = Vec::new();
    let mut i: usize = 0;
    while i < items.len()
        invariant
            i <= items@.len(),
            line_views(lines@) == rows_lines(items@, i as int),
        decreases items.len() - i,
    {
        proof {
            reveal_strlit(" YOU ");
            reveal_strlit(" MAJIN ");
            reveal_strlit(" ERROR ");
            reveal_strlit("  ");
        }
        let ghost start = line_views(lines@);
        let (kind, title, body) = match &items[i] {
            TranscriptRow::User(b) => (LineKind::UserTitle, " YOU ", b),
            TranscriptRow::Assistant(b) => (LineKind::AssistantTitle, " MAJIN ", b),
            TranscriptRow::Error(b) => (LineKind::ErrorTitle, " ERROR ", b),
        };
        lines.push(TranscriptLine { kind, text: String::from_str(title) });
        let body_lines = text_lines(body.as_str());
        let ghost ls = lines_from(body@, 0);
        let mut j: usize = 0;
        while j < body_lines.len()
            invariant
                body_lines@.map_values(|l: String| l@) == ls,
                j <= body_lines@.len(),
                line_views(lines@) == start + seq![(kind, title@)] + Seq::new(j as nat, |x: int| (LineKind::Body, "  "@ + ls[x])),
            decreases body_lines.len() - j,
        {
            let ghost before = line_views(lines@);
            let text = crate::text::concat("  ", body_lines[j].as_str());
            lines.push(TranscriptLine { kind: LineKind::Body, text });
            proof {
                assert(body_lines@[j as int]@ == ls[j as int]);
                assert(line_views(lines@) =~= before.push((LineKind::Body, "  "@ + ls[j as int])));
                let a = Seq::new(j as nat, |x: int| (LineKind::Body, "  "@ + ls[x]));
                let b = Seq::new((j + 1) as nat, |x: int| (LineKind::Body, "  "@ + ls[x]));
                assert(b =~= a.push((LineKind::Body, "  "@ + ls[j as int])));
                assert(line_views(lines@) =~= start + seq![(kind, title@)] + b);
            }
            j = j + 1;
        }
        let ghost mid = line_views(lines@);
        lines.push(TranscriptLine { kind: LineKind::Blank, text: String::new() });
        proof {
            assert(body_lines@.map_values(|l: String| l@).len() == ls.len());
            assert(row_lines(items@[i as int]) == seq![(kind, title@)] + Seq::new(ls.len(), |x: int| (LineKind::Body, "  "@ + ls[x])) + seq![(LineKind::Blank, Seq::<char>::empty())]);
            assert(line_views(lines@) =~= mid.push((LineKind::Blank, Seq::<char>::empty())));
            assert(rows_lines(items@, i + 1) == rows_lines(items@, i as int) + row_lines(items@[i as int]));
            assert(line_views(lines@) =~= rows_lines(items@, i + 1));
        }
        i = i + 1;
    }
    lines
}

} // verus!
