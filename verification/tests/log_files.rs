use majin::log::{after_append, changed_events, persistence_batches};
use majin::logfile::{is_blank, require_records, scan_log, LineParse, LogLine};
use majin::{run, Event, PersistenceState, Record, World, SCHEMA_VERSION};

fn rec(ordinal: u64) -> Record {
    Record { schema: SCHEMA_VERSION, ordinal, event: Event::Session { id: 1, active_head: None } }
}

fn parsed(ordinal: u64, len: usize) -> LogLine {
    LogLine { len, complete: true, parse: LineParse::Parsed(rec(ordinal)) }
}

#[test]
fn blank_lines_are_skipped_and_records_kept_in_order() {
    let lines = vec![
        parsed(0, 10),
        LogLine { len: 2, complete: true, parse: LineParse::Blank },
        parsed(1, 12),
    ];
    let scan = scan_log("logs/session-1.jsonl", lines).expect("log reads");
    let ordinals: Vec<u64> = scan.records.iter().map(|r| r.ordinal).collect();
    assert_eq!(ordinals, vec![0, 1]);
    assert_eq!(scan.truncate_to, None);
}

#[test]
fn an_unfinished_last_line_is_cut_off() {
    let lines = vec![
        parsed(0, 10),
        LogLine { len: 3, complete: true, parse: LineParse::Blank },
        LogLine { len: 5, complete: false, parse: LineParse::Truncated("EOF while parsing".into()) },
    ];
    let scan = scan_log("logs/session-1.jsonl", lines).expect("log reads");
    assert_eq!(scan.records.len(), 1);
    assert_eq!(scan.truncate_to, Some(13));
}

#[test]
fn a_finished_line_that_ends_early_blocks_loading() {
    let lines = vec![
        parsed(0, 10),
        LogLine { len: 5, complete: true, parse: LineParse::Truncated("EOF while parsing".into()) },
        parsed(1, 10),
    ];
    assert_eq!(
        scan_log("logs/session-1.jsonl", lines).err(),
        Some("Persistence log decode failed for logs/session-1.jsonl: EOF while parsing".to_string())
    );
}

#[test]
fn the_first_malformed_line_is_reported() {
    let lines = vec![
        parsed(0, 10),
        LogLine { len: 4, complete: true, parse: LineParse::Invalid("expected value".into()) },
        LogLine { len: 4, complete: false, parse: LineParse::Invalid("later".into()) },
    ];
    assert_eq!(
        scan_log("p.jsonl", lines).err(),
        Some("Persistence log decode failed for p.jsonl: expected value".to_string())
    );
}

#[test]
fn an_empty_log_blocks_loading() {
    assert_eq!(require_records("p.jsonl", Vec::new()).err(), Some("Persistence log is empty: p.jsonl".to_string()));
    assert_eq!(require_records("p.jsonl", vec![rec(0)]).map(|r| r.len()), Ok(1));
}

#[test]
fn whitespace_is_told_apart() {
    assert!(is_blank(b""));
    assert!(is_blank(b" \t\r\n\x0c"));
    assert!(!is_blank(b" x "));
    assert!(!is_blank(b"\x0b"));
}

#[test]
fn a_written_batch_is_committed_and_a_failed_one_reported() {
    let mut world = World::new();
    let mut state = PersistenceState::new();
    run(&mut world, &mut state, false, &Vec::new()).expect("harness starts");
    let (changed, _) = changed_events(&world, &state).expect("events collect");
    let mut batches = persistence_batches(&changed, &state.next_ordinals);
    let batch = batches.remove(0);
    let failures = world.persistence_failures.len();
    assert!(!after_append(&mut world, &mut state, batch, Err("Persistence save failed: disk full".into())));
    assert!(state.last_values.is_empty());
    assert_eq!(world.persistence_failures.len(), failures + 1);
    assert_eq!(world.persistence_failures.last().unwrap().1.message, "Persistence save failed: disk full");
    let (changed, _) = changed_events(&world, &state).expect("events collect");
    let mut batches = persistence_batches(&changed, &state.next_ordinals);
    let batch = batches.remove(0);
    let session = batch.session;
    let keys = batch.keys.len();
    assert!(after_append(&mut world, &mut state, batch, Ok(())));
    assert_eq!(state.last_values.len(), keys);
    assert!(state.next_ordinals.iter().any(|(s, n)| *s == session && *n == keys as u64));
}
