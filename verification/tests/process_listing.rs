use collector::errors::ApiError;
use collector::logs::Timestamp;
use collector::managed::{new_run, RunRegistry};
use collector::notes::NoteStore;
use collector::processes::{
    capabilities_for, describe_process, list_processes, process_instance_id, signal_delivered, summarize,
    summarize_with_start, termination_result, update_process_note, ProcessSample,
};

fn sample(pid: u32, cpu: f32, start_time: u64) -> ProcessSample {
    ProcessSample {
        pid,
        parent_pid: Some(1),
        name: format!("proc{}", pid),
        cpu_percent_bits: cpu.to_bits(),
        memory_bytes: 1024,
        virtual_memory_bytes: 4096,
        status: "Run".to_string(),
        start_time,
        cmd: vec!["/bin/proc".to_string(), "--flag".to_string()],
        executable_path: Some("/bin/proc".to_string()),
    }
}

fn now() -> Timestamp {
    Timestamp { secs: 1_700_000_000, nanos: 0 }
}

#[test]
fn instance_ids_name_pid_and_start_time() {
    assert_eq!(process_instance_id(123, 456), "123:456");
    assert_eq!(process_instance_id(0, 0), "0:0");
    assert_eq!(process_instance_id(u32::MAX, u64::MAX), "4294967295:18446744073709551615");
}

#[test]
fn summary_carries_the_sample() {
    let s = summarize(sample(42, 12.5, 1_700_000_000), Some("watch".to_string()));
    assert_eq!(s.pid, 42);
    assert_eq!(s.parent_pid, Some(1));
    assert_eq!(s.instance_id, "42:1700000000");
    assert_eq!(s.name, "proc42");
    assert_eq!(f32::from_bits(s.cpu_percent_bits), 12.5);
    assert_eq!(s.memory_bytes, 1024);
    assert_eq!(s.virtual_memory_bytes, 4096);
    assert_eq!(s.status, "Run");
    assert_eq!(s.started_at, Some(1_700_000_000));
    assert_eq!(s.command_line, "/bin/proc --flag");
    assert_eq!(s.executable_path, Some("/bin/proc".to_string()));
    assert_eq!(s.note, Some("watch".to_string()));
}

#[test]
fn start_times_outside_the_date_range_have_no_start() {
    let s = summarize(sample(1, 0.0, 1u64 << 62), None);
    assert_eq!(s.started_at, None);
    let wrapped = summarize(sample(1, 0.0, u64::MAX), None);
    assert_eq!(wrapped.started_at, Some(-1));
    let forced = summarize_with_start(sample(1, 0.0, 5), None, false);
    assert_eq!(forced.started_at, None);
}

#[test]
fn listing_orders_by_cpu_descending_and_keeps_ties_in_order() {
    let mut notes = NoteStore::new();
    let samples = vec![
        sample(1, 5.0, 10),
        sample(2, 50.0, 20),
        sample(3, 5.0, 30),
        sample(4, 0.0, 40),
        sample(5, 99.5, 50),
        sample(6, 5.0, 60),
    ];
    let listing = list_processes(samples, &mut notes);
    let pids: Vec<u32> = listing.iter().map(|s| s.pid).collect();
    assert_eq!(pids, vec![5, 2, 1, 3, 6, 4]);
}

#[test]
fn listing_order_matches_total_cmp() {
    let mut notes = NoteStore::new();
    let cpus = [0.0f32, -0.0, 1.5, -2.0, f32::NAN, 3.25, -f32::NAN, 1.5];
    let samples: Vec<ProcessSample> = cpus.iter().enumerate().map(|(i, c)| sample(i as u32, *c, 1)).collect();
    let mut expected: Vec<(u32, f32)> = cpus.iter().enumerate().map(|(i, c)| (i as u32, *c)).collect();
    expected.sort_by(|l, r| r.1.total_cmp(&l.1));
    let listing = list_processes(samples, &mut notes);
    let pids: Vec<u32> = listing.iter().map(|s| s.pid).collect();
    assert_eq!(pids, expected.iter().map(|e| e.0).collect::<Vec<_>>());
}

#[test]
fn listing_attaches_notes_and_prunes_vanished_instances() {
    let mut notes = NoteStore::new();
    notes.update("1:10".to_string(), "keep me", now());
    notes.update("2:99".to_string(), "gone", now());
    let listing = list_processes(vec![sample(1, 1.0, 10), sample(2, 2.0, 20)], &mut notes);
    assert_eq!(listing[0].pid, 2);
    assert_eq!(listing[0].note, None);
    assert_eq!(listing[1].note, Some("keep me".to_string()));
    assert_eq!(notes.note_for(&"2:99".to_string()), None);
    assert_eq!(notes.note_for(&"1:10".to_string()), Some("keep me".to_string()));
}

#[test]
fn capabilities_flags() {
    let c = capabilities_for(false);
    assert!(c.can_terminate);
    assert!(!c.has_managed_logs);
    assert!(!c.open_files_supported);
    assert!(!c.gpu_supported);
    assert!(capabilities_for(true).has_managed_logs);
}

#[test]
fn detail_of_a_missing_process_is_not_found() {
    let notes = NoteStore::new();
    let runs = RunRegistry::new();
    let r = describe_process(None, &notes, &runs);
    let err = r.err().unwrap();
    assert_eq!(err.status_code(), 404);
    assert_eq!(err.message(), "process not found");
}

#[test]
fn detail_reports_managed_logs_and_note() {
    let mut notes = NoteStore::new();
    notes.update("77:3".to_string(), "hello", now());
    let mut runs = RunRegistry::new();
    runs.insert(new_run(Some(77), "sleep".to_string(), vec!["1".to_string()], None, now()));
    let d = describe_process(Some(sample(77, 1.0, 3)), &notes, &runs).ok().unwrap();
    assert!(d.capabilities.has_managed_logs);
    assert!(d.capabilities.can_terminate);
    assert!(!d.capabilities.open_files_supported);
    assert!(!d.capabilities.gpu_supported);
    assert_eq!(d.summary.note, Some("hello".to_string()));
    let other = describe_process(Some(sample(78, 1.0, 3)), &notes, &runs).ok().unwrap();
    assert!(!other.capabilities.has_managed_logs);
    assert_eq!(other.summary.note, None);
}

#[test]
fn note_update_through_the_process_lookup() {
    let mut notes = NoteStore::new();
    let missing = update_process_note(None, &mut notes, "x", now());
    assert!(matches!(missing, Err(ApiError::ProcessNotFound)));
    let written = update_process_note(Some(sample(9, 0.0, 4)), &mut notes, " hi ", now()).ok().unwrap();
    assert_eq!(written.unwrap().note, "hi");
    let cleared = update_process_note(Some(sample(9, 0.0, 4)), &mut notes, "", now()).ok().unwrap();
    assert!(cleared.is_none());
    assert_eq!(notes.note_for(&"9:4".to_string()), None);
}

#[test]
fn termination_outcomes() {
    assert!(matches!(termination_result(None), Err(ApiError::ProcessNotFound)));
    assert!(termination_result(Some(Some(true))).ok().unwrap());
    assert!(!termination_result(Some(Some(false))).ok().unwrap());
    assert!(!termination_result(Some(None)).ok().unwrap());
    assert!(signal_delivered(Some(true)));
    assert!(!signal_delivered(None));
}

#[test]
fn instance_ids_of_distinct_instances_differ() {
    assert_ne!(process_instance_id(1, 23), process_instance_id(12, 3));
    assert_ne!(process_instance_id(100, 5), process_instance_id(100, 9));
    assert_eq!(process_instance_id(100, 5), process_instance_id(100, 5));
}

#[test]
fn listing_the_same_samples_twice_gives_the_same_order() {
    let make = || vec![sample(1, 2.0, 1), sample(2, 2.0, 2), sample(3, 7.0, 3), sample(4, 2.0, 4)];
    let mut notes = NoteStore::new();
    let first: Vec<u32> = list_processes(make(), &mut notes).iter().map(|s| s.pid).collect();
    let second: Vec<u32> = list_processes(make(), &mut notes).iter().map(|s| s.pid).collect();
    assert_eq!(first, second);
    assert_eq!(first, vec![3, 1, 2, 4]);
}

#[test]
fn a_process_reusing_an_ended_runs_pid_is_unmanaged() {
    let notes = NoteStore::new();
    let mut runs = RunRegistry::new();
    let run = new_run(Some(77), "sleep".to_string(), vec![], None, now());
    let id = run.run_id;
    runs.insert(run);
    let managed = describe_process(Some(sample(77, 0.0, 3)), &notes, &runs).ok().unwrap();
    assert!(managed.capabilities.has_managed_logs);
    runs.record_exit(id, Some(Some(0)));
    let reused = describe_process(Some(sample(77, 0.0, 900)), &notes, &runs).ok().unwrap();
    assert!(!reused.capabilities.has_managed_logs);
}

#[test]
fn start_times_at_the_edges_of_chronos_range() {
    let last = 8_210_266_876_799u64;
    assert_eq!(summarize(sample(1, 0.0, last), None).started_at, Some(last as i64));
    assert_eq!(summarize(sample(1, 0.0, last + 1), None).started_at, None);
    let first: i64 = -8_334_601_228_800;
    assert_eq!(summarize(sample(1, 0.0, first as u64), None).started_at, Some(first));
    assert_eq!(summarize(sample(1, 0.0, (first - 1) as u64), None).started_at, None);
    assert!(chrono::DateTime::<chrono::Utc>::from_timestamp(first, 0).is_some());
    assert!(chrono::DateTime::<chrono::Utc>::from_timestamp(first - 1, 0).is_none());
}
