use collector::errors::ApiError;
use collector::logs::Timestamp;
use collector::managed::{next_launch_action, watch_step, ExitPoll, LaunchAction, LaunchStep, WatchStep};
use collector::managed::{
    exit_status_label, health_report, log_file_name, managed_log_dir, new_run, validate_launch, RunRegistry,
};

fn at(secs: i64, nanos: u32) -> Timestamp {
    Timestamp { secs, nanos }
}

#[test]
fn blank_commands_are_refused() {
    let e = validate_launch("   ").err().unwrap();
    assert!(matches!(e, ApiError::CommandRequired));
    assert_eq!(e.status_code(), 400);
    assert_eq!(e.message(), "command is required");
    assert!(validate_launch("").is_err());
    assert!(validate_launch(" python ").is_ok());
}

#[test]
fn new_runs_are_running_with_v4_ids() {
    let run = new_run(Some(12), "python".to_string(), vec!["-m".to_string()], Some("/tmp".to_string()), at(5, 0));
    assert_eq!(run.status, "running");
    assert_eq!(run.pid, Some(12));
    assert_eq!(run.command, "python");
    assert_eq!(run.args, vec!["-m".to_string()]);
    assert_eq!(run.cwd, Some("/tmp".to_string()));
    assert_eq!((run.run_id >> 76) & 0xF, 4);
    assert_eq!((run.run_id >> 62) & 0x3, 2);
    let other = new_run(None, "python".to_string(), vec![], None, at(5, 0));
    assert_ne!(run.run_id, other.run_id);
}

#[test]
fn log_file_names_use_the_hyphenated_run_id() {
    let id: u128 = 0x67e5504410b1426f9247bb680e5fe0c8;
    assert_eq!(log_file_name(id), "67e55044-10b1-426f-9247-bb680e5fe0c8.jsonl");
    assert_eq!(log_file_name(0), "00000000-0000-0000-0000-000000000000.jsonl");
    assert_eq!(managed_log_dir(), "data/managed-logs");
}

#[test]
fn exit_labels() {
    assert_eq!(exit_status_label(Some(Some(0))), "exited(0)");
    assert_eq!(exit_status_label(Some(Some(3))), "exited(3)");
    assert_eq!(exit_status_label(Some(Some(-1))), "exited(-1)");
    assert_eq!(exit_status_label(Some(None)), "exited(0)");
    assert_eq!(exit_status_label(None), "terminated");
}

#[test]
fn registry_finds_what_it_registered() {
    let mut runs = RunRegistry::new();
    assert_eq!(runs.len(), 0);
    let run = new_run(Some(1), "a".to_string(), vec![], None, at(1, 0));
    let id = run.run_id;
    runs.insert(run);
    assert_eq!(runs.len(), 1);
    assert!(runs.contains(id));
    let found = runs.get(id).unwrap();
    assert_eq!(found.command, "a");
    assert_eq!(runs.find(id).ok().unwrap().run_id, id);
    let missing = runs.find(id ^ 1).err().unwrap();
    assert!(matches!(missing, ApiError::ManagedProcessNotFound));
    assert_eq!(missing.status_code(), 404);
    assert_eq!(missing.message(), "managed process not found");
    assert!(runs.any_running_run_for_pid(1));
    assert!(!runs.any_running_run_for_pid(2));
}

#[test]
fn registering_the_same_id_replaces_the_run() {
    let mut runs = RunRegistry::new();
    let mut run = new_run(Some(1), "a".to_string(), vec![], None, at(1, 0));
    let id = run.run_id;
    runs.insert(run.duplicate());
    run.command = "b".to_string();
    runs.insert(run);
    assert_eq!(runs.len(), 1);
    assert_eq!(runs.get(id).unwrap().command, "b");
}

#[test]
fn recording_an_exit_changes_the_status_only() {
    let mut runs = RunRegistry::new();
    let run = new_run(Some(1), "a".to_string(), vec!["x".to_string()], None, at(1, 0));
    let id = run.run_id;
    runs.insert(run);
    runs.record_exit(id, Some(Some(2)));
    let after = runs.get(id).unwrap();
    assert_eq!(after.status, "exited(2)");
    assert_eq!(after.command, "a");
    assert_eq!(after.args, vec!["x".to_string()]);
    runs.record_exit(id, None);
    assert_eq!(runs.get(id).unwrap().status, "exited(2)");
    runs.record_exit(id ^ 1, Some(Some(9)));
    assert_eq!(runs.len(), 1);
}

#[test]
fn runs_are_listed_newest_first() {
    let mut runs = RunRegistry::new();
    runs.insert(new_run(None, "old".to_string(), vec![], None, at(10, 5)));
    runs.insert(new_run(None, "newest".to_string(), vec![], None, at(30, 0)));
    runs.insert(new_run(None, "middle".to_string(), vec![], None, at(10, 6)));
    let names: Vec<String> = runs.newest_first().into_iter().map(|r| r.command).collect();
    assert_eq!(names, vec!["newest".to_string(), "middle".to_string(), "old".to_string()]);
}

#[test]
fn health_counts_runs() {
    let mut runs = RunRegistry::new();
    let h = health_report(&runs);
    assert_eq!(h.status, "ok");
    assert_eq!(h.managed_runs, 0);
    runs.insert(new_run(None, "a".to_string(), vec![], None, at(1, 0)));
    runs.insert(new_run(None, "b".to_string(), vec![], None, at(2, 0)));
    assert_eq!(health_report(&runs).managed_runs, 2);
}

#[test]
fn refusals_map_to_status_codes() {
    assert_eq!(ApiError::ProcessNotFound.status_code(), 404);
    assert_eq!(ApiError::LaunchFailed("No such file".to_string()).status_code(), 400);
    assert_eq!(ApiError::LaunchFailed("No such file".to_string()).message(), "No such file");
    assert_eq!(ApiError::Storage("disk full".to_string()).status_code(), 500);
    assert_eq!(ApiError::Storage("disk full".to_string()).message(), "disk full");
}

#[test]
fn only_running_runs_count_for_their_pid() {
    let mut runs = RunRegistry::new();
    let run = new_run(Some(42), "a".to_string(), vec![], None, at(1, 0));
    let id = run.run_id;
    runs.insert(run);
    assert!(runs.any_running_run_for_pid(42));
    runs.record_exit(id, Some(Some(0)));
    assert!(!runs.any_running_run_for_pid(42));
    runs.insert(new_run(Some(42), "b".to_string(), vec![], None, at(2, 0)));
    assert!(runs.any_running_run_for_pid(42));
}

#[test]
fn registering_a_fresh_run_adds_one_to_the_health_count() {
    let mut runs = RunRegistry::new();
    runs.insert(new_run(None, "a".to_string(), vec![], None, at(1, 0)));
    let before = health_report(&runs).managed_runs;
    let run = new_run(None, "b".to_string(), vec![], None, at(2, 0));
    let id = run.run_id;
    runs.insert(run);
    assert_eq!(health_report(&runs).managed_runs, before + 1);
    runs.record_exit(id, None);
    assert_eq!(health_report(&runs).managed_runs, before + 1);
}

#[test]
fn listing_holds_each_run_once_with_its_metadata() {
    let mut runs = RunRegistry::new();
    let first = new_run(Some(1), "a".to_string(), vec!["x".to_string()], None, at(5, 0));
    let id = first.run_id;
    runs.insert(first);
    runs.insert(new_run(Some(2), "b".to_string(), vec![], None, at(5, 0)));
    runs.record_exit(id, Some(Some(1)));
    let listing = runs.newest_first();
    let matching: Vec<_> = listing.iter().filter(|r| r.run_id == id).collect();
    assert_eq!(matching.len(), 1);
    assert_eq!(matching[0].command, "a");
    assert_eq!(matching[0].args, vec!["x".to_string()]);
    assert_eq!(matching[0].pid, Some(1));
    assert_eq!(matching[0].status, "exited(1)");
}

#[test]
fn exit_statuses_never_read_running() {
    for exit in [Some(Some(0)), Some(None), Some(Some(-9)), None] {
        assert_ne!(exit_status_label(exit), "running");
    }
}

#[test]
fn launch_steps_come_in_order() {
    assert!(matches!(
        next_launch_action(LaunchStep::Requested, "  ", Ok(())),
        LaunchAction::Refuse(ApiError::CommandRequired)
    ));
    assert!(matches!(next_launch_action(LaunchStep::Requested, "ls", Ok(())), LaunchAction::Spawn));
    match next_launch_action(LaunchStep::Spawned, "ls", Err("not found".to_string())) {
        LaunchAction::Refuse(e) => {
            assert_eq!(e.status_code(), 400);
            assert_eq!(e.message(), "not found");
        }
        other => panic!("expected a refusal, got {:?}", other),
    }
    assert!(matches!(next_launch_action(LaunchStep::Spawned, "ls", Ok(())), LaunchAction::PrepareStorage));
    match next_launch_action(LaunchStep::StorageOpened, "ls", Err("read-only".to_string())) {
        LaunchAction::Refuse(e) => {
            assert_eq!(e.status_code(), 500);
            assert_eq!(e.message(), "read-only");
        }
        other => panic!("expected a refusal, got {:?}", other),
    }
    assert!(matches!(next_launch_action(LaunchStep::StorageOpened, "ls", Ok(())), LaunchAction::Register));
}

#[test]
fn an_ended_run_keeps_its_first_exit_status() {
    let mut runs = RunRegistry::new();
    let run = new_run(Some(5), "a".to_string(), vec!["x".to_string()], None, at(3, 0));
    let id = run.run_id;
    runs.insert(run);
    runs.record_exit(id, Some(Some(4)));
    runs.record_exit(id, None);
    runs.record_exit(id, Some(Some(9)));
    let after = runs.get(id).unwrap();
    assert_eq!(after.status, "exited(4)");
    assert_eq!(after.command, "a");
    assert_eq!(after.pid, Some(5));
    assert_eq!(after.started_at, at(3, 0));
}

#[test]
fn watcher_steps() {
    assert!(matches!(watch_step(ExitPoll::Exited(Some(3))), WatchStep::Record(Some(Some(3)))));
    assert!(matches!(watch_step(ExitPoll::Exited(None)), WatchStep::Record(Some(None))));
    assert!(matches!(watch_step(ExitPoll::StillRunning), WatchStep::KeepWaiting));
    assert!(matches!(watch_step(ExitPoll::PollFailed), WatchStep::Record(None)));
    assert!(matches!(watch_step(ExitPoll::NoChild), WatchStep::Record(None)));
}
