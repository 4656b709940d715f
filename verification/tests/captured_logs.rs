use collector::logs::{
    capture_line, frame_record, live_stream_step, split_records, LiveReceive, LogTail, LogWindow,
    ManagedLogLine, OffsetCounter, StreamStep, Timestamp, MAX_LOG_LINES,
};

fn line(offset: u64, message: &str) -> ManagedLogLine {
    ManagedLogLine {
        offset,
        timestamp: Timestamp { secs: 1_700_000_000, nanos: offset as u32 },
        stream: "stdout".to_string(),
        message: message.to_string(),
    }
}

#[test]
fn offsets_count_up_from_zero() {
    let mut counter = OffsetCounter::new();
    assert_eq!(counter.allocate(), 0);
    assert_eq!(counter.allocate(), 1);
    let l = capture_line(&mut counter, "stderr".to_string(), "boom".to_string(), Timestamp { secs: 5, nanos: 6 });
    assert_eq!(l.offset, 2);
    assert_eq!(l.stream, "stderr");
    assert_eq!(l.message, "boom");
    assert_eq!(l.timestamp, Timestamp { secs: 5, nanos: 6 });
    assert_eq!(counter.peek(), 3);
}

#[test]
fn tail_keeps_all_lines_below_the_bound() {
    let mut tail = LogTail::new();
    for i in 0..3 {
        tail.record(line(i, "x"));
    }
    let snap = tail.snapshot();
    assert_eq!(snap.len(), 3);
    assert_eq!(snap.iter().map(|l| l.offset).collect::<Vec<_>>(), vec![0, 1, 2]);
}

#[test]
fn tail_drops_oldest_lines_past_the_bound() {
    let mut tail = LogTail::new();
    let total = MAX_LOG_LINES as u64 + 3;
    for i in 0..total {
        tail.record(line(i, "x"));
    }
    assert_eq!(tail.len(), MAX_LOG_LINES);
    let snap = tail.snapshot();
    assert_eq!(snap.first().unwrap().offset, 3);
    assert_eq!(snap.last().unwrap().offset, total - 1);
    for (k, l) in snap.iter().enumerate() {
        assert_eq!(l.offset, k as u64 + 3);
    }
}

#[test]
fn window_defaults_and_caps() {
    assert_eq!(LogWindow::from_query(None, None), LogWindow { offset: 0, limit: 200 });
    assert_eq!(LogWindow::from_query(Some(7), Some(5)), LogWindow { offset: 7, limit: 5 });
    assert_eq!(LogWindow::from_query(None, Some(5000)), LogWindow { offset: 0, limit: 1000 });
    assert_eq!(LogWindow::from_query(None, Some(1000)), LogWindow { offset: 0, limit: 1000 });
    assert_eq!(LogWindow::from_query(Some(3), Some(0)), LogWindow { offset: 3, limit: 0 });
}

#[test]
fn window_selects_from_offset_up_to_limit() {
    let lines: Vec<ManagedLogLine> = vec![line(0, "a"), line(1, "b"), line(5, "c"), line(2, "d"), line(9, "e")];
    let w = LogWindow { offset: 2, limit: 2 };
    let page = w.select(&lines);
    assert_eq!(page.iter().map(|l| l.message.as_str()).collect::<Vec<_>>(), vec!["c", "d"]);
    let all = LogWindow { offset: 0, limit: 10 }.select(&lines);
    assert_eq!(all.len(), 5);
    let none = LogWindow { offset: 10, limit: 10 }.select(&lines);
    assert!(none.is_empty());
}

#[test]
fn stored_text_is_split_into_records() {
    assert_eq!(split_records(""), vec![String::new()]);
    assert_eq!(split_records("{\"a\":1}\n"), vec!["{\"a\":1}".to_string()]);
    assert_eq!(
        split_records("  one\ntwo\n\nthree \n\n"),
        vec!["one".to_string(), "two".to_string(), String::new(), "three".to_string()]
    );
}

#[test]
fn records_are_framed_with_a_line_feed() {
    assert_eq!(frame_record("{\"offset\":0}"), "{\"offset\":0}\n");
    assert_eq!(frame_record(""), "\n");
}

#[test]
fn live_deliveries_become_stream_steps() {
    match live_stream_step(LiveReceive::Line(line(4, "hi"))) {
        StreamStep::Emit(l) => assert_eq!(l.offset, 4),
        _ => panic!("a captured line is sent on"),
    }
    assert!(matches!(live_stream_step(LiveReceive::Lagged(12)), StreamStep::Skip));
    assert!(matches!(live_stream_step(LiveReceive::Closed), StreamStep::Finish));
}

#[test]
fn timestamps_order_by_second_then_nanosecond() {
    let a = Timestamp { secs: 10, nanos: 999_999_999 };
    let b = Timestamp { secs: 11, nanos: 0 };
    let c = Timestamp { secs: -1, nanos: 5 };
    assert!(a.key() < b.key());
    assert!(c.key() < a.key());
}

#[test]
fn offsets_count_every_captured_line() {
    let mut counter = OffsetCounter::new();
    let mut seen = Vec::new();
    for k in 0..10 {
        let stream = if k % 3 == 0 { "stderr" } else { "stdout" };
        seen.push(capture_line(&mut counter, stream.to_string(), format!("{}", k), Timestamp { secs: 0, nanos: 0 }).offset);
    }
    assert_eq!(seen, (0..10).collect::<Vec<u64>>());
}

#[test]
fn framed_records_split_back() {
    let records = vec!["{\"offset\":0}".to_string(), "{\"offset\":1,\"message\":\"a b\"}".to_string()];
    let mut text = String::new();
    for r in &records {
        text.push_str(&frame_record(r));
    }
    assert_eq!(split_records(&text), records);
}

#[test]
fn unreadable_records_do_not_count_against_the_limit() {
    let w = LogWindow { offset: 1, limit: 2 };
    let with_gap = vec![vec![line(0, "a")], vec![], vec![line(1, "b")], vec![], vec![line(2, "c"), line(3, "d")]];
    let without_gap = vec![vec![line(0, "a")], vec![line(1, "b")], vec![line(2, "c"), line(3, "d")]];
    let p1 = w.select_parsed(&with_gap);
    let p2 = w.select_parsed(&without_gap);
    let msgs = |p: &Vec<ManagedLogLine>| p.iter().map(|l| l.message.clone()).collect::<Vec<_>>();
    assert_eq!(msgs(&p1), vec!["b".to_string(), "c".to_string()]);
    assert_eq!(msgs(&p1), msgs(&p2));
}
