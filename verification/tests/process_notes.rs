use collector::logs::Timestamp;
use collector::notes::{contains_text, NoteStore};

fn now() -> Timestamp {
    Timestamp { secs: 1_700_000_000, nanos: 42 }
}

#[test]
fn a_written_note_is_read_back_trimmed() {
    let mut notes = NoteStore::new();
    let rec = notes.update("100:5".to_string(), "  Investigating unexpected CPU spike \n", now()).unwrap();
    assert_eq!(rec.note, "Investigating unexpected CPU spike");
    assert_eq!(rec.instance_id, "100:5");
    assert_eq!(rec.updated_at, now());
    assert_eq!(notes.note_for(&"100:5".to_string()), Some("Investigating unexpected CPU spike".to_string()));
}

#[test]
fn an_empty_note_clears_it() {
    let mut notes = NoteStore::new();
    notes.update("100:5".to_string(), "first", now());
    assert!(notes.update("100:5".to_string(), "   ", now()).is_none());
    assert_eq!(notes.note_for(&"100:5".to_string()), None);
    assert!(notes.update("100:5".to_string(), "", now()).is_none());
    assert_eq!(notes.note_for(&"100:5".to_string()), None);
}

#[test]
fn notes_are_scoped_to_the_process_instance() {
    let mut notes = NoteStore::new();
    notes.update("100:5".to_string(), "old instance", now());
    notes.update("100:9".to_string(), "new instance", now());
    assert_eq!(notes.note_for(&"100:5".to_string()), Some("old instance".to_string()));
    assert_eq!(notes.note_for(&"100:9".to_string()), Some("new instance".to_string()));
    notes.update("100:5".to_string(), "rewritten", now());
    assert_eq!(notes.note_for(&"100:5".to_string()), Some("rewritten".to_string()));
    assert_eq!(notes.note_for(&"100:9".to_string()), Some("new instance".to_string()));
}

#[test]
fn notes_of_vanished_instances_are_dropped() {
    let mut notes = NoteStore::new();
    notes.update("1:1".to_string(), "a", now());
    notes.update("2:2".to_string(), "b", now());
    notes.update("3:3".to_string(), "c", now());
    notes.retain_instances(&vec!["2:2".to_string(), "9:9".to_string()]);
    assert_eq!(notes.note_for(&"1:1".to_string()), None);
    assert_eq!(notes.note_for(&"2:2".to_string()), Some("b".to_string()));
    assert_eq!(notes.note_for(&"3:3".to_string()), None);
    assert_eq!(notes.note_for(&"9:9".to_string()), None);
}

#[test]
fn record_for_returns_the_whole_record() {
    let mut notes = NoteStore::new();
    notes.update("7:8".to_string(), " n ", Timestamp { secs: 3, nanos: 4 });
    let rec = notes.record_for(&"7:8".to_string()).unwrap();
    assert_eq!(rec.note, "n");
    assert_eq!(rec.updated_at, Timestamp { secs: 3, nanos: 4 });
    assert!(notes.record_for(&"7:9".to_string()).is_none());
}

#[test]
fn text_membership() {
    let items = vec!["a".to_string(), "bc".to_string()];
    assert!(contains_text(&items, &"bc".to_string()));
    assert!(!contains_text(&items, &"b".to_string()));
}
