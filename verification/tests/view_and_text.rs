use majin::order::sort_order;
use majin::text::{str_eq, trim, with_decimal};
use majin::tui::{
    clamp_scroll, handle_key, text_lines, transcript_lines, Key, KeyAction, LineKind,
};
use majin::{
    Entity, HarnessIds, TerminalTranscriptViewport, TranscriptRow, TuiView,
};

fn view() -> (TuiView, TerminalTranscriptViewport) {
    (TuiView { composer: String::new(), transcript_camera: Entity(7) }, TerminalTranscriptViewport { scroll_from_bottom: 0 })
}

fn press(v: &mut TuiView, p: &mut TerminalTranscriptViewport, key: Key) -> KeyAction {
    handle_key(v, p, key, false, false, true, false)
}

#[test]
fn trimming_removes_surrounding_whitespace() {
    assert_eq!(trim("  hello  "), "hello");
    assert_eq!(trim("\t a b \n"), "a b");
    assert_eq!(trim("   "), "");
    assert_eq!(trim(""), "");
    assert_eq!(trim("x"), "x");
}

#[test]
fn decimals_and_concatenation() {
    assert_eq!(with_decimal("turn:", 0), "turn:0");
    assert_eq!(with_decimal("turn:", 5), "turn:5");
    assert_eq!(with_decimal("n", u64::MAX), "n18446744073709551615");
    assert_eq!(majin::text::concat("ab", "cd"), "abcd");
    assert!(str_eq("same", "same"));
    assert!(!str_eq("same", "sane"));
}

#[test]
fn typing_and_submitting_a_prompt() {
    let (mut v, mut p) = view();
    for c in " hi there ".chars() {
        assert!(matches!(press(&mut v, &mut p, Key::Char(c)), KeyAction::Nothing));
    }
    assert_eq!(v.composer, " hi there ");
    press(&mut v, &mut p, Key::Backspace);
    assert_eq!(v.composer, " hi there");
    p.scroll_from_bottom = 5;
    match press(&mut v, &mut p, Key::Enter) {
        KeyAction::Submit(text) => assert_eq!(text, "hi there"),
        other => panic!("expected a submit, got {other:?}"),
    }
    assert!(v.composer.is_empty());
    assert_eq!(p.scroll_from_bottom, 0);
    assert_eq!(v.transcript_camera, Entity(7));
}

#[test]
fn blank_prompts_and_missing_sessions_do_not_submit() {
    let (mut v, mut p) = view();
    v.composer = "   ".into();
    assert!(matches!(press(&mut v, &mut p, Key::Enter), KeyAction::Nothing));
    assert_eq!(v.composer, "   ");
    v.composer = "text".into();
    assert!(matches!(handle_key(&mut v, &mut p, Key::Enter, false, false, false, false), KeyAction::Nothing));
    assert_eq!(v.composer, "text");
    // Releases and modified keys are ignored.
    assert!(matches!(handle_key(&mut v, &mut p, Key::Char('x'), true, false, true, false), KeyAction::Nothing));
    assert!(matches!(handle_key(&mut v, &mut p, Key::Char('x'), false, true, true, false), KeyAction::Nothing));
    assert!(matches!(handle_key(&mut v, &mut p, Key::Esc, false, true, true, false), KeyAction::Nothing));
    assert_eq!(v.composer, "text");
    assert!(matches!(press(&mut v, &mut p, Key::Esc), KeyAction::Exit));
    v.composer.clear();
    press(&mut v, &mut p, Key::Backspace);
    assert!(v.composer.is_empty());
}

#[test]
fn keys_scroll_the_transcript() {
    let (mut v, mut p) = view();
    press(&mut v, &mut p, Key::Up);
    assert_eq!(p.scroll_from_bottom, 1);
    press(&mut v, &mut p, Key::PageUp);
    assert_eq!(p.scroll_from_bottom, 11);
    press(&mut v, &mut p, Key::Down);
    assert_eq!(p.scroll_from_bottom, 10);
    press(&mut v, &mut p, Key::PageDown);
    press(&mut v, &mut p, Key::PageDown);
    assert_eq!(p.scroll_from_bottom, 0);
    press(&mut v, &mut p, Key::Home);
    assert_eq!(p.scroll_from_bottom, usize::MAX);
    press(&mut v, &mut p, Key::Up);
    assert_eq!(p.scroll_from_bottom, usize::MAX);
    press(&mut v, &mut p, Key::End);
    assert_eq!(p.scroll_from_bottom, 0);
}

#[test]
fn scrolling_is_clamped_to_the_transcript() {
    let mut p = TerminalTranscriptViewport { scroll_from_bottom: usize::MAX };
    // 30 lines in a 12-row area with a border: 10 visible, so at most 20 lines of scroll.
    assert_eq!(clamp_scroll(&mut p, 30, 12), (20, 0));
    assert_eq!(p.scroll_from_bottom, 20);
    p.scroll_from_bottom = 5;
    assert_eq!(clamp_scroll(&mut p, 30, 12), (20, 15));
    assert_eq!(p.scroll_from_bottom, 5);
    assert_eq!(clamp_scroll(&mut p, 4, 12), (0, 0));
    assert_eq!(p.scroll_from_bottom, 0);
    assert_eq!(clamp_scroll(&mut p, 3, 1), (3, 3));
}

#[test]
fn text_is_split_into_lines() {
    assert_eq!(text_lines("a\nb"), vec!["a".to_owned(), "b".to_owned()]);
    assert_eq!(text_lines("a\r\nb\n"), vec!["a".to_owned(), "b".to_owned()]);
    assert_eq!(text_lines("a\n\nb"), vec!["a".to_owned(), String::new(), "b".to_owned()]);
    assert!(text_lines("").is_empty());
}

#[test]
fn transcript_rows_are_drawn_with_titles() {
    let lines = transcript_lines(&vec![
        TranscriptRow::User("hi\nthere".into()),
        TranscriptRow::Assistant("ok".into()),
        TranscriptRow::Error("bad".into()),
    ]);
    let drawn: Vec<(LineKind, String)> = lines.into_iter().map(|l| (l.kind, l.text)).collect();
    assert_eq!(
        drawn,
        vec![
            (LineKind::UserTitle, " YOU ".to_owned()),
            (LineKind::Body, "  hi".to_owned()),
            (LineKind::Body, "  there".to_owned()),
            (LineKind::Blank, String::new()),
            (LineKind::AssistantTitle, " MAJIN ".to_owned()),
            (LineKind::Body, "  ok".to_owned()),
            (LineKind::Blank, String::new()),
            (LineKind::ErrorTitle, " ERROR ".to_owned()),
            (LineKind::Body, "  bad".to_owned()),
            (LineKind::Blank, String::new()),
        ]
    );
}

#[test]
fn identities_count_up_from_one() {
    let mut ids = HarnessIds::new();
    assert_eq!(ids.turn().0, 1);
    assert_eq!(ids.turn().0, 2);
    assert_eq!(ids.message().0, 1);
    assert_eq!(ids.sequence().0, 1);
    assert_eq!(ids.sequence().0, 2);
    assert_eq!(ids.model_request().0, 1);
    assert_eq!(ids.tool_call().0, 1);
}

#[test]
fn restoring_identities_moves_past_the_maxima_and_never_back() {
    let mut ids = HarnessIds::new();
    ids.restore_from_maxima(4, 0, 9, 2, 20);
    assert_eq!(ids.next_turn, 5);
    assert_eq!(ids.next_message, 1);
    assert_eq!(ids.next_model_request, 10);
    assert_eq!(ids.next_tool_call, 3);
    assert_eq!(ids.next_sequence, 21);
    ids.restore_from_maxima(1, 1, 1, 1, 1);
    assert_eq!(ids.next_turn, 5);
    assert_eq!(ids.next_message, 2);
    assert_eq!(ids.next_sequence, 21);
}

#[test]
fn sort_order_is_stable() {
    let keys = vec![(2, 0, 0, 0), (1, 5, 0, 0), (2, 0, 0, 0), (1, 1, 3, 0), (0, 9, 9, 9)];
    assert_eq!(sort_order(&keys), vec![4, 3, 1, 0, 2]);
    assert!(sort_order(&Vec::new()).is_empty());
}
