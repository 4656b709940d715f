//! Managed runs: commands the monitor launched, their registry and the
//! names of their log files.

use std::collections::HashMap;
use vstd::prelude::*;
use vstd::std_specs::iter::IteratorSpec;
use vstd::arithmetic::power::pow;
use crate::errors::ApiError;
use crate::logs::Timestamp;
use crate::ordering::{Ranked, is_stable_rank_sort, sort_by_rank_descending, views_of};
use crate::processes::opt_text;
use crate::text::{is_blank, is_blank_text, signed_decimal, format_i32};

verus! {

broadcast use vstd::std_specs::hash::group_hash_axioms;

/// The metadata of one managed run.
#[derive(Debug)]
pub struct ManagedProcessSummary {
    /// The run's id: the 128 bits of a version 4 UUID.
    pub run_id: u128,
    /// The operating-system pid of the launched command, when it had one.
    pub pid: Option<u32>,
    pub command: String,
    pub args: Vec<String>,
    pub cwd: Option<String>,
    pub started_at: Timestamp,
    /// `running`, `exited(<code>)` or `terminated`.
    pub status: String,
}

/// The abstract content of a `ManagedProcessSummary`.
pub struct ManagedRunView {
    pub run_id: u128,
    pub pid: Option<u32>,
    pub command: Seq<char>,
    pub args: Seq<Seq<char>>,
    pub cwd: Option<Seq<char>>,
    pub started_at: Timestamp,
    pub status: Seq<char>,
}

impl View for ManagedProcessSummary {
    type V = ManagedRunView;

    open spec fn view(&self) -> ManagedRunView {
        ManagedRunView {
            run_id: self.run_id,
            pid: self.pid,
            command: self.command@,
            args: self.args@.map_values(|a: String| a@),
            cwd: opt_text(self.cwd),
            started_at: self.started_at,
            status: self.status@,
        }
    }
}

impl Ranked for ManagedProcessSummary {
    open spec fn rank_of(v: ManagedRunView) -> int {
        v.started_at.order_key()
    }

    fn rank_key(&self) -> (k: i128) {
        self.started_at.key()
    }
}

/// A copy of a list of texts.
pub fn duplicate_texts(v: &Vec<String>) -> (r: Vec<String>)
    ensures
        r@ == v@,
{
    let mut r: Vec<String> = Vec::new();
    let mut i: usize = 0;
    while i < v.len()
        invariant
            i <= v@.len(),
            r@ == v@.take(i as int),
        decreases v@.len() - i,
    {
        r.push(v[i].clone());
        assert(v@.take(i + 1) =~= v@.take(i as int).push(v@[i as int]));
        i = i + 1;
    }
    assert(v@.take(v@.len() as int) =~= v@);
    r
}

impl ManagedProcessSummary {
    /// A copy of the metadata.
    pub fn duplicate(&self) -> (r: Self)
        ensures
            r@ == self@,
    {
        ManagedProcessSummary {
            run_id: self.run_id,
            pid: self.pid,
            command: self.command.clone(),
            args: duplicate_texts(&self.args),
            cwd: match &self.cwd {
                Some(c) => Some(c.clone()),
                None => None,
            },
            started_at: self.started_at,
            status: self.status.clone(),
        }
    }
}

/// Whether `id` has the version and variant bits of a version 4 UUID.
pub open spec fn is_v4_id(id: u128) -> bool {
    &&& (id >> 76u128) & 0xFu128 == 4
    &&& (id >> 62u128) & 0x3u128 == 2
}

/// Calls uuid's `Uuid::new_v4()` and hands back its 128 bits
/// (`Uuid::as_u128`). The bits are random but for the version nibble, which
/// is 4, and the variant bits, which are `10`; that is all the contract says.
#[verifier::external_body]
fn fresh_run_id() -> (id: u128)
    ensures
        is_v4_id(id),
{
    uuid::Uuid::new_v4().as_u128()
}

/// The lowercase hexadecimal digit for `n` (meaningful for `n < 16`).
pub open spec fn hex_digit(n: int) -> char {
    if n < 10 {
        (48 + n) as char
    } else {
        (87 + n) as char
    }
}

/// Hex digit `k` of `id`, counting from the most significant of its 32.
pub open spec fn nibble(id: u128, k: int) -> int {
    (id as int / pow(16, (31 - k) as nat)) % 16
}

/// Character `i` of the hyphenated form of `id`.
pub open spec fn uuid_char(id: u128, i: int) -> char {
    if i == 8 || i == 13 || i == 18 || i == 23 {
        '-'
    } else {
        let hyphens_before = (if i > 8 { 1int } else { 0int }) + (if i > 13 { 1int } else { 0int }) + (
        if i > 18 { 1int } else { 0int }) + (if i > 23 { 1int } else { 0int });
        hex_digit(nibble(id, i - hyphens_before))
    }
}

/// The hyphenated lowercase form of a UUID: 32 hex digits, most significant
/// first, in groups of 8, 4, 4, 4 and 12 separated by hyphens.
pub open spec fn uuid_text(id: u128) -> Seq<char> {
    Seq::new(36, |i: int| uuid_char(id, i))
}

/// Calls uuid's `Display` for `Uuid::from_u128(id)`, which writes the
/// hyphenated lowercase form (`format_hyphenated` in uuid's source).
#[verifier::external_body]
fn run_id_text(id: u128) -> (t: String)
    ensures
        t@ == uuid_text(id),
{
    uuid::Uuid::from_u128(id).to_string()
}

/// The name of a run's log file: its run id in hyphenated form, then `.jsonl`.
pub fn log_file_name(run_id: u128) -> (name: String)
    ensures
        name@ == uuid_text(run_id) + ".jsonl"@,
{
    let mut name = run_id_text(run_id);
    name.append(".jsonl");
    name
}

/// The directory, relative to the collector's working directory, that
/// holds the runs' log files.
pub fn managed_log_dir() -> (dir: &'static str)
    ensures
        dir@ == "data/managed-logs"@,
{
    "data/managed-logs"
}

/// A launch request is refused as `CommandRequired` when its command is blank.
pub fn validate_launch(command: &str) -> (r: Result<(), ApiError>)
    ensures
        r is Ok <==> !is_blank(command@),
        r is Err ==> r matches Err(ApiError::CommandRequired),
{
    if is_blank_text(command) {
        Err(ApiError::CommandRequired)
    } else {
        Ok(())
    }
}

/// A step of a launch whose outcome is known.
pub enum LaunchStep {
    /// The request arrived.
    Requested,
    /// The command was started, or failed to start.
    Spawned,
    /// The run's log storage was prepared, or could not be.
    StorageOpened,
}

/// What a launch does next.
#[derive(Debug)]
pub enum LaunchAction {
    /// Start the command.
    Spawn,
    /// Create the log directory and open the run's log file.
    PrepareStorage,
    /// Register the run and start capturing its output.
    Register,
    /// Answer the request with this refusal.
    Refuse(ApiError),
}

/// The order of a launch: a blank command is refused before anything runs;
/// then the command is started, and a failure to start is refused with 400;
/// then the log storage is prepared, and a failure there is refused with
/// 500; only then is the run registered. `outcome` is what `step` reported
/// (the request itself always reports success).
pub fn next_launch_action(step: LaunchStep, command: &str, outcome: Result<(), String>) -> (action:
    LaunchAction)
    ensures
        match step {
            LaunchStep::Requested => if is_blank(command@) {
                action matches LaunchAction::Refuse(ApiError::CommandRequired)
            } else {
                action is Spawn
            },
            LaunchStep::Spawned => match outcome {
                Ok(_) => action is PrepareStorage,
                Err(m) => action matches LaunchAction::Refuse(ApiError::LaunchFailed(t)) && t == m,
            },
            LaunchStep::StorageOpened => match outcome {
                Ok(_) => action is Register,
                Err(m) => action matches LaunchAction::Refuse(ApiError::Storage(t)) && t == m,
            },
        },
{
    match step {
        LaunchStep::Requested => match validate_launch(command) {
            Ok(()) => LaunchAction::Spawn,
            Err(e) => LaunchAction::Refuse(e),
        },
        LaunchStep::Spawned => match outcome {
            Ok(()) => LaunchAction::PrepareStorage,
            Err(m) => LaunchAction::Refuse(ApiError::LaunchFailed(m)),
        },
        LaunchStep::StorageOpened => match outcome {
            Ok(()) => LaunchAction::Register,
            Err(m) => LaunchAction::Refuse(ApiError::Storage(m)),
        },
    }
}

/// The metadata of a run that was just launched: a fresh version 4 run id,
/// the request's command, arguments and working directory, and the status
/// `running`.
pub fn new_run(
    pid: Option<u32>,
    command: String,
    args: Vec<String>,
    cwd: Option<String>,
    started_at: Timestamp,
) -> (run: ManagedProcessSummary)
    ensures
        is_v4_id(run.run_id),
        run.pid == pid,
        run.command == command,
        run.args == args,
        run.cwd == cwd,
        run.started_at == started_at,
        run.status@ == "running"@,
{
    let run_id = fresh_run_id();
    ManagedProcessSummary {
        run_id,
        pid,
        command,
        args,
        cwd,
        started_at,
        status: String::from_str("running"),
    }
}

/// The status a run takes when its process ended: `exited(<code>)` when the
/// wait for it succeeded, with code 0 when the process gave none (it was
/// ended by a signal), and `terminated` when the wait failed.
pub open spec fn exit_label(exit: Option<Option<i32>>) -> Seq<char> {
    match exit {
        Some(code) => "exited("@ + signed_decimal(
            match code {
                Some(c) => c as int,
                None => 0,
            },
        ) + ")"@,
        None => "terminated"@,
    }
}

/// Computes `exit_label`.
pub fn exit_status_label(exit: Option<Option<i32>>) -> (label: String)
    ensures
        label@ == exit_label(exit),
        exit matches Some(Some(c)) ==> label@ == "exited("@ + signed_decimal(c as int) + ")"@,
        exit matches Some(None) ==> label@ == "exited("@ + signed_decimal(0) + ")"@,
        exit is None ==> label@ == "terminated"@,
{
    match exit {
        Some(code) => {
            let value = match code {
                Some(c) => c,
                None => 0,
            };
            let mut label = String::from_str("exited(");
            let digits = format_i32(value);
            label.append(digits.as_str());
            label.append(")");
            label
        },
        None => String::from_str("terminated"),
    }
}

/// No two entries of `s` share a run id.
pub open spec fn ids_unique(s: Seq<ManagedRunView>) -> bool {
    forall|i: int, j: int| 0 <= i < j < s.len() ==> (#[trigger] s[i]).run_id != (#[trigger] s[j]).run_id
}

/// `s` lists each run of `m` exactly once.
pub open spec fn enumerates(m: Map<u128, ManagedRunView>, s: Seq<ManagedRunView>) -> bool {
    &&& s.len() == m.len()
    &&& ids_unique(s)
    &&& forall|i: int| 0 <= i < s.len() ==> #[trigger] m.contains_key(s[i].run_id) && m[s[i].run_id] == s[i]
    &&& forall|k: u128| #[trigger] m.contains_key(k) ==> exists|i: int| 0 <= i < s.len() && s[i].run_id == k
}

/// The text of the status a run has while its process is alive.
pub open spec fn running_status() -> Seq<char> {
    "running"@
}

/// What one look at a run's process found.
pub enum ExitPoll {
    /// The process ended, with this exit code (none when a signal ended it).
    Exited(Option<i32>),
    /// The process is still alive.
    StillRunning,
    /// Looking at the process failed.
    PollFailed,
    /// The run has no process handle.
    NoChild,
}

/// What the watcher of a run does after a look at its process.
pub enum WatchStep {
    /// Record the end of the run with this outcome (`None`: the wait for
    /// the process failed).
    Record(Option<Option<i32>>),
    /// Look again later.
    KeepWaiting,
}

/// The watcher's decision: an ended process is recorded with its exit code,
/// a live one is looked at again, and a failed look or a missing process is
/// recorded as `terminated`.
pub fn watch_step(poll: ExitPoll) -> (step: WatchStep)
    ensures
        match poll {
            ExitPoll::Exited(code) => step == WatchStep::Record(Some(code)),
            ExitPoll::StillRunning => step is KeepWaiting,
            ExitPoll::PollFailed => step == WatchStep::Record(None),
            ExitPoll::NoChild => step == WatchStep::Record(None),
        },
{
    match poll {
        ExitPoll::Exited(code) => WatchStep::Record(Some(code)),
        ExitPoll::StillRunning => WatchStep::KeepWaiting,
        ExitPoll::PollFailed => WatchStep::Record(None),
        ExitPoll::NoChild => WatchStep::Record(None),
    }
}

/// `after` is `before` once the end of run `run_id`'s process, with
/// outcome `exit`, was recorded: a run still running takes the status
/// `exit_label(exit)`; a run that already ended, or an unknown id, changes nothing.
pub open spec fn exit_recorded(
    before: Map<u128, ManagedRunView>,
    after: Map<u128, ManagedRunView>,
    run_id: u128,
    exit: Option<Option<i32>>,
) -> bool {
    if before.contains_key(run_id) && before[run_id].status == running_status() {
        after == before.insert(run_id, ManagedRunView { status: exit_label(exit), ..before[run_id] })
    } else {
        after == before
    }
}

/// The managed runs the monitor launched, by run id.
#[derive(Debug)]
pub struct RunRegistry {
    runs: HashMap<u128, ManagedProcessSummary>,
}

impl View for RunRegistry {
    type V = Map<u128, ManagedRunView>;

    closed spec fn view(&self) -> Map<u128, ManagedRunView> {
        self.runs@.map_values(|r: ManagedProcessSummary| r@)
    }
}

impl RunRegistry {
    /// Each run is filed under its own run id.
    #[verifier::type_invariant]
    spec fn filed_by_id(self) -> bool {
        forall|k: u128| #[trigger] self.runs@.contains_key(k) ==> self.runs@[k].run_id == k
    }

    /// Whether some run that is still running was launched as process `pid`.
    pub open spec fn has_running_run_for_pid(&self, pid: u32) -> bool {
        exists|k: u128|
            #[trigger] self@.contains_key(k) && self@[k].pid == Some(pid) && self@[k].status
                == running_status()
    }

    /// A registry without runs.
    pub fn new() -> (r: Self)
        ensures
            r@ == Map::<u128, ManagedRunView>::empty(),
            r@.dom().finite(),
    {
        let r = RunRegistry { runs: HashMap::new() };
        assert(r@ =~= Map::<u128, ManagedRunView>::empty());
        r
    }

    /// The run ids of the registry, each once.
    fn ids(&self) -> (r: Vec<u128>)
        ensures
            r@.to_set() == self@.dom(),
            r@.no_duplicates(),
            r@.len() == self@.len(),
    {
        let mut r: Vec<u128> = Vec::new();
        for k in it: self.runs.keys()
            invariant
                r@ == it.seq().take(it.index() as int).unref(),
        {
            r.push(*k);
        }
        proof {
            let rem = vstd::std_specs::hash::spec_keys_iter(&self.runs).remaining();
            assert(r@ =~= rem.unref());
            assert(r@.to_set() =~= self.runs@.dom());
            assert(self@.dom() =~= self.runs@.dom());
        }
        r
    }

    /// How many runs are registered.
    pub fn len(&self) -> (n: usize)
        ensures
            n == self@.len(),
            self@.dom().finite(),
    {
        proof {
            assert(self@.dom() =~= self.runs@.dom());
        }
        self.runs.len()
    }

    /// The metadata of run `run_id`, if it is registered.
    pub fn get(&self, run_id: u128) -> (r: Option<ManagedProcessSummary>)
        ensures
            match r {
                Some(run) => self@.contains_key(run_id) && run@ == self@[run_id] && run.run_id == run_id,
                None => !self@.contains_key(run_id),
            },
    {
        proof {
            use_type_invariant(self);
        }
        match self.runs.get(&run_id) {
            Some(run) => Some(run.duplicate()),
            None => None,
        }
    }

    /// The metadata of run `run_id`; a run that is not registered is
    /// refused as `ManagedProcessNotFound`.
    pub fn find(&self, run_id: u128) -> (r: Result<ManagedProcessSummary, ApiError>)
        ensures
            match r {
                Ok(run) => self@.contains_key(run_id) && run@ == self@[run_id],
                Err(e) => !self@.contains_key(run_id) && e is ManagedProcessNotFound,
            },
    {
        match self.get(run_id) {
            Some(run) => Ok(run),
            None => Err(ApiError::ManagedProcessNotFound),
        }
    }

    /// Whether run `run_id` is registered.
    pub fn contains(&self, run_id: u128) -> (b: bool)
        ensures
            b == self@.contains_key(run_id),
    {
        self.get(run_id).is_some()
    }

    /// Whether some run that is still running was launched as process
    /// `pid`: a process whose pid only an ended run had is not managed.
    pub fn any_running_run_for_pid(&self, pid: u32) -> (b: bool)
        ensures
            b == self.has_running_run_for_pid(pid),
    {
        let ids = self.ids();
        let running = String::from_str("running");
        proof {
            reveal_strlit("running");
        }
        let n = ids.len();
        let mut i: usize = 0;
        while i < n
            invariant
                n == ids@.len(),
                i <= n,
                running@ == running_status(),
                ids@.to_set() == self@.dom(),
                forall|j: int|
                    0 <= j < i ==> !(#[trigger] self@[ids@[j]].pid == Some(pid) && self@[ids@[j]].status
                        == running_status()),
            decreases n - i,
        {
            assert(ids@.to_set().contains(ids@[i as int]));
            let run = self.get(ids[i]).unwrap();
            let same_pid = match run.pid {
                Some(p) => p == pid,
                None => false,
            };
            if same_pid && run.status == running {
                return true;
            }
            i = i + 1;
        }
        proof {
            if self.has_running_run_for_pid(pid) {
                let k = choose|k: u128|
                    #[trigger] self@.contains_key(k) && self@[k].pid == Some(pid) && self@[k].status
                        == running_status();
                assert(ids@.to_set().contains(k));
                let j = choose|j: int| 0 <= j < ids@.len() && ids@[j] == k;
                assert(self@[ids@[j]].pid == Some(pid));
            }
        }
        false
    }

    /// Registers `run`, replacing a run with the same id. The count of runs
    /// grows by one when the id is new and stays when it is not.
    pub fn insert(&mut self, run: ManagedProcessSummary)
        ensures
            final(self)@ == old(self)@.insert(run.run_id, run@),
            final(self)@.dom().finite(),
            final(self)@.len() == if old(self)@.contains_key(run.run_id) {
                old(self)@.len()
            } else {
                old(self)@.len() + 1
            },
    {
        proof {
            use_type_invariant(&*self);
        }
        let ghost before = self@;
        let ghost rv = run@;
        let ghost id = run.run_id;
        let mut runs: HashMap<u128, ManagedProcessSummary> = HashMap::new();
        std::mem::swap(&mut runs, &mut self.runs);
        let _replaced = runs.insert(run.run_id, run);
        proof {
            assert(runs@.map_values(|r: ManagedProcessSummary| r@) =~= before.insert(id, rv));
            assert(before.dom() =~= old(self).runs@.dom());
            assert(runs@.dom() =~= before.dom().insert(id));
        }
        self.runs = runs;
    }

    /// Records that the process of run `run_id` ended: a run that is still
    /// running takes the status `exit_label(exit)`. A run that already ended
    /// keeps its status, and nothing changes when no such run is registered.
    pub fn record_exit(&mut self, run_id: u128, exit: Option<Option<i32>>)
        ensures
            exit_recorded(old(self)@, final(self)@, run_id, exit),
            final(self)@.dom() == old(self)@.dom(),
            final(self)@.dom().finite(),
            final(self)@.len() == old(self)@.len(),
    {
        proof {
            assert(self@.dom() =~= self.runs@.dom());
        }
        let running = String::from_str("running");
        proof {
            reveal_strlit("running");
        }
        match self.get(run_id) {
            Some(run) => {
                if run.status == running {
                    let label = exit_status_label(exit);
                    let updated = ManagedProcessSummary { status: label, ..run };
                    assert(updated@ == ManagedRunView { status: exit_label(exit), ..old(self)@[run_id] });
                    self.insert(updated);
                    assert(self@.dom() =~= old(self)@.dom());
                }
            },
            None => {},
        }
    }

    /// The runs, newest start first. Runs that started at the same instant
    /// come in the order in which the registry enumerates them.
    pub fn newest_first(&self) -> (listing: Vec<ManagedProcessSummary>)
        ensures
            exists|order: Seq<ManagedRunView>|
                enumerates(self@, order) && #[trigger] is_stable_rank_sort::<ManagedProcessSummary>(
                    order,
                    views_of(listing@),
                ),
            listing@.len() == self@.len(),
            forall|i: int, j: int|
                0 <= i < j < listing@.len() ==> started_no_earlier(
                    (#[trigger] listing@[i])@,
                    (#[trigger] listing@[j])@,
                ),
            forall|i: int|
                0 <= i < listing@.len() ==> self@.contains_key((#[trigger] listing@[i]).run_id)
                    && self@[listing@[i].run_id] == listing@[i]@,
    {
        proof {
            use_type_invariant(self);
        }
        let ids = self.ids();
        let n = ids.len();
        let mut copies: Vec<ManagedProcessSummary> = Vec::new();
        let mut i: usize = 0;
        while i < n
            invariant
                n == ids@.len(),
                i <= n,
                ids@.to_set() == self@.dom(),
                copies@.len() == i,
                forall|j: int| 0 <= j < i ==> (#[trigger] copies@[j])@ == self@[ids@[j]],
                forall|j: int| 0 <= j < i ==> (#[trigger] copies@[j]).run_id == ids@[j],
            decreases n - i,
        {
            assert(ids@.to_set().contains(ids@[i as int]));
            let run = self.get(ids[i]).unwrap();
            copies.push(run);
            i = i + 1;
        }
        let ghost order = views_of(copies@);
        proof {
            assert forall|a: int, b: int| 0 <= a < b < order.len() implies (#[trigger] order[a]).run_id
                != (#[trigger] order[b]).run_id by {
                assert(order[a] == copies@[a]@);
                assert(order[b] == copies@[b]@);
                assert(ids@[a] != ids@[b]);
            }
            assert forall|j: int| 0 <= j < order.len() implies #[trigger] self@.contains_key(
                order[j].run_id,
            ) && self@[order[j].run_id] == order[j] by {
                assert(order[j] == copies@[j]@);
                assert(ids@.to_set().contains(ids@[j]));
            }
            assert forall|k: u128| #[trigger] self@.contains_key(k) implies exists|j: int|
                0 <= j < order.len() && order[j].run_id == k by {
                assert(ids@.to_set().contains(k));
                let j = choose|j: int| 0 <= j < ids@.len() && ids@[j] == k;
                assert(order[j] == copies@[j]@);
            }
            assert(enumerates(self@, order));
        }
        let listing = sort_by_rank_descending(copies);
        proof {
            lemma_listing_newest_first(order, views_of(listing@));
            assert forall|i: int, j: int| 0 <= i < j < listing@.len() implies started_no_earlier(
                (#[trigger] listing@[i])@,
                (#[trigger] listing@[j])@,
            ) by {
                assert(views_of(listing@)[i] == listing@[i]@);
                assert(views_of(listing@)[j] == listing@[j]@);
            }
            let p = choose|p: Seq<int>|
                {
                    &&& #[trigger] crate::ordering::is_arrangement(order, views_of(listing@), p)
                    &&& crate::ordering::is_rank_descending::<ManagedProcessSummary>(views_of(listing@))
                    &&& crate::ordering::keeps_ties_in_order::<ManagedProcessSummary>(
                        views_of(listing@),
                        p,
                    )
                };
            assert forall|i: int| 0 <= i < listing@.len() implies self@.contains_key(
                (#[trigger] listing@[i]).run_id,
            ) && self@[listing@[i].run_id] == listing@[i]@ by {
                assert(views_of(listing@)[i] == listing@[i]@);
                assert(views_of(listing@)[i] == order[p[i]]);
            }
        }
        listing
    }
}

/// The monitor's health: always `ok`, with the number of registered runs.
#[derive(Debug)]
pub struct HealthReport {
    pub status: String,
    pub managed_runs: usize,
}

/// The health report for `runs`.
pub fn health_report(runs: &RunRegistry) -> (h: HealthReport)
    ensures
        h.status@ == "ok"@,
        h.managed_runs == runs@.len(),
{
    HealthReport { status: String::from_str("ok"), managed_runs: runs.len() }
}

/// A registered run can be found again, with the metadata it was
/// registered with, and registering it leaves every other run as it was.
pub proof fn lemma_registered_run_is_found(
    before: Map<u128, ManagedRunView>,
    after: Map<u128, ManagedRunView>,
    run: ManagedRunView,
)
    requires
        after == before.insert(run.run_id, run),
    ensures
        after.contains_key(run.run_id),
        after[run.run_id] == run,
        forall|k: u128| k != run.run_id ==> (#[trigger] after.contains_key(k) <==> before.contains_key(k)),
        forall|k: u128| k != run.run_id && #[trigger] before.contains_key(k) ==> after[k] == before[k],
{
}

/// Two views of one run that agree in everything but the status.
pub open spec fn same_but_status(a: ManagedRunView, b: ManagedRunView) -> bool {
    &&& a.run_id == b.run_id
    &&& a.pid == b.pid
    &&& a.command == b.command
    &&& a.args == b.args
    &&& a.cwd == b.cwd
    &&& a.started_at == b.started_at
}

/// Recording the end of a run changes its status and nothing else: its
/// command, arguments, working directory, pid and start stay, and so does
/// every other run. A run still running takes the exit status; a run that
/// already ended keeps the status it has.
pub proof fn lemma_exit_changes_only_status(
    before: Map<u128, ManagedRunView>,
    after: Map<u128, ManagedRunView>,
    run_id: u128,
    exit: Option<Option<i32>>,
)
    requires
        before.contains_key(run_id),
        exit_recorded(before, after, run_id, exit),
    ensures
        after.dom() == before.dom(),
        same_but_status(after[run_id], before[run_id]),
        before[run_id].status == running_status() ==> after[run_id].status == exit_label(exit),
        before[run_id].status != running_status() ==> after[run_id].status == before[run_id].status,
        forall|k: u128| k != run_id && #[trigger] before.contains_key(k) ==> after[k] == before[k],
{
    assert(after.dom() =~= before.dom());
}

/// Run `a` started no earlier than run `b`: a later second, or the same
/// second and no fewer nanoseconds.
pub open spec fn started_no_earlier(a: ManagedRunView, b: ManagedRunView) -> bool {
    a.started_at.secs > b.started_at.secs || (a.started_at.secs == b.started_at.secs
        && a.started_at.nanos >= b.started_at.nanos)
}

/// A listing of runs sorted by rank is ordered by start time alone, newest
/// first, whatever the runs' statuses.
pub proof fn lemma_listing_newest_first(order: Seq<ManagedRunView>, listing: Seq<ManagedRunView>)
    requires
        is_stable_rank_sort::<ManagedProcessSummary>(order, listing),
    ensures
        forall|i: int, j: int|
            0 <= i < j < listing.len() ==> started_no_earlier(#[trigger] listing[i], #[trigger] listing[j]),
{
    let p = choose|p: Seq<int>|
        {
            &&& #[trigger] crate::ordering::is_arrangement(order, listing, p)
            &&& crate::ordering::is_rank_descending::<ManagedProcessSummary>(listing)
            &&& crate::ordering::keeps_ties_in_order::<ManagedProcessSummary>(listing, p)
        };
    assert forall|i: int, j: int| 0 <= i < j < listing.len() implies started_no_earlier(
        #[trigger] listing[i],
        #[trigger] listing[j],
    ) by {
        let a = listing[i].started_at;
        let b = listing[j].started_at;
        assert(a.order_key() >= b.order_key());
        assert(a.secs * 4294967296 + a.nanos >= b.secs * 4294967296 + b.nanos);
        if a.secs < b.secs {
            assert(a.secs * 4294967296 + 4294967296 <= b.secs * 4294967296) by (nonlinear_arith)
                requires
                    a.secs < b.secs,
            ;
        }
    }
}

/// A change to the registry: a run with a fresh id is registered, or the
/// end of a run's process is recorded.
pub enum RegistryChange {
    Register(ManagedRunView),
    Exit(u128, Option<Option<i32>>),
}

/// `after` is `before` once `change` was made, as `RunRegistry::insert` and
/// `RunRegistry::record_exit` make it.
pub open spec fn registry_changed(
    before: Map<u128, ManagedRunView>,
    after: Map<u128, ManagedRunView>,
    change: RegistryChange,
) -> bool {
    match change {
        RegistryChange::Register(r) => !before.contains_key(r.run_id) && after == before.insert(
            r.run_id,
            r,
        ),
        RegistryChange::Exit(id, e) => exit_recorded(before, after, id, e),
    }
}

/// `history` is a sequence of registry states, each one made from the one
/// before by the matching change.
pub open spec fn is_registry_history(history: Seq<Map<u128, ManagedRunView>>, changes: Seq<RegistryChange>) -> bool {
    &&& history.len() == changes.len() + 1
    &&& forall|i: int| 0 <= i < changes.len() ==> registry_changed(history[i], history[i + 1], #[trigger] changes[i])
}

/// The life of a launched run: once registered running, whatever runs are
/// registered and whatever exits are recorded after, the run stays
/// registered, keeps every field but its status, has the status `running`
/// or an exit status, and once its status leaves `running` it never changes
/// again.
pub proof fn lemma_run_lifecycle(
    history: Seq<Map<u128, ManagedRunView>>,
    changes: Seq<RegistryChange>,
    run: ManagedRunView,
)
    requires
        is_registry_history(history, changes),
        history[0].contains_key(run.run_id),
        history[0][run.run_id] == run,
        run.status == running_status(),
    ensures
        forall|k: int|
            0 <= k < history.len() ==> #[trigger] history[k].contains_key(run.run_id) && same_but_status(
                history[k][run.run_id],
                run,
            ) && (history[k][run.run_id].status == running_status() || exists|e: Option<Option<i32>>|
                history[k][run.run_id].status == #[trigger] exit_label(e)),
        forall|k1: int, k2: int|
            0 <= k1 <= k2 < history.len() && (#[trigger] history[k1][run.run_id]).status != running_status()
                ==> (#[trigger] history[k2][run.run_id]).status == history[k1][run.run_id].status,
    decreases changes.len(),
{
    let id = run.run_id;
    if changes.len() > 0 {
        let n = changes.len() - 1;
        let h = history.drop_last();
        let c = changes.drop_last();
        assert forall|i: int| 0 <= i < c.len() implies registry_changed(h[i], h[i + 1], #[trigger] c[i]) by {
            assert(h[i] == history[i]);
            assert(h[i + 1] == history[i + 1]);
            assert(c[i] == changes[i]);
            assert(registry_changed(history[i], history[i + 1], changes[i]));
        }
        lemma_run_lifecycle(h, c, run);
        let before = history[n];
        let after = history[n + 1];
        assert(h[n] == before);
        assert(before.contains_key(id));
        assert(registry_changed(before, after, changes[n]));
        match changes[n] {
            RegistryChange::Register(r) => {
                assert(r.run_id != id);
                assert(after[id] == before[id]);
            },
            RegistryChange::Exit(x, e) => {
                if x == id && before[id].status == running_status() {
                    assert(after[id].status == exit_label(e));
                } else {
                    assert(after[id] == before[id]);
                }
            },
        }
        assert forall|k: int|
            0 <= k < history.len() implies #[trigger] history[k].contains_key(id) && same_but_status(
                history[k][id],
                run,
            ) && (history[k][id].status == running_status() || exists|e: Option<Option<i32>>|
                history[k][id].status == #[trigger] exit_label(e)) by {
            if k < n + 1 {
                assert(h[k] == history[k]);
                assert(h[k].contains_key(id));
            }
        }
        assert forall|k1: int, k2: int|
            0 <= k1 <= k2 < history.len() && (#[trigger] history[k1][id]).status != running_status()
                implies (#[trigger] history[k2][id]).status == history[k1][id].status by {
            if k2 < n + 1 {
                assert(h[k1] == history[k1]);
                assert(h[k2] == history[k2]);
                assert(h[k1][id].status != running_status());
            } else if k1 < n + 1 {
                assert(h[k1] == history[k1]);
                assert(h[n] == history[n]);
                assert(h[k1][id].status != running_status());
                assert(h[n][id].status == h[k1][id].status);
            }
        }
    } else {
        assert forall|k: int|
            0 <= k < history.len() implies #[trigger] history[k].contains_key(id) && same_but_status(
                history[k][id],
                run,
            ) && (history[k][id].status == running_status() || exists|e: Option<Option<i32>>|
                history[k][id].status == #[trigger] exit_label(e)) by {
            assert(k == 0);
        }
    }
}

/// After a run was launched, every listing of the registry, whatever
/// changes came between, shows the run exactly once, equal to it but for
/// its status, which is `running` or an exit status.
pub proof fn lemma_launched_run_listed_once(
    history: Seq<Map<u128, ManagedRunView>>,
    changes: Seq<RegistryChange>,
    run: ManagedRunView,
    k: int,
    order: Seq<ManagedRunView>,
    listing: Seq<ManagedRunView>,
)
    requires
        is_registry_history(history, changes),
        history[0].contains_key(run.run_id),
        history[0][run.run_id] == run,
        run.status == running_status(),
        0 <= k < history.len(),
        enumerates(history[k], order),
        is_stable_rank_sort::<ManagedProcessSummary>(order, listing),
    ensures
        exists|i: int|
            0 <= i < listing.len() && #[trigger] listing[i] == history[k][run.run_id] && same_but_status(
                listing[i],
                run,
            ) && (listing[i].status == running_status() || exists|e: Option<Option<i32>>|
                listing[i].status == #[trigger] exit_label(e)),
        forall|i: int, j: int|
            0 <= i < listing.len() && 0 <= j < listing.len() && (#[trigger] listing[i]).run_id
                == run.run_id && (#[trigger] listing[j]).run_id == run.run_id ==> i == j,
{
    lemma_run_lifecycle(history, changes, run);
    assert(history[k].contains_key(run.run_id));
    lemma_listing_holds_each_run_once(history[k], order, listing, run.run_id);
}

/// A run that ended never reads as running again: every exit status differs
/// from `running`.
pub proof fn lemma_exit_status_is_not_running(exit: Option<Option<i32>>)
    ensures
        exit_label(exit) != running_status(),
{
    reveal_strlit("running");
    reveal_strlit("exited(");
    reveal_strlit(")");
    reveal_strlit("terminated");
    match exit {
        Some(code) => {
            let c: int = match code {
                Some(v) => v as int,
                None => 0,
            };
            assert(exit_label(exit)[0] == ("exited("@ + signed_decimal(c) + ")"@)[0]);
            assert(exit_label(exit)[0] == 'e');
        },
        None => {
            assert(exit_label(exit)[0] == 't');
        },
    }
    assert(running_status()[0] == 'r');
}

proof fn lemma_signed_decimal_injective(a: int, b: int)
    requires
        signed_decimal(a) == signed_decimal(b),
    ensures
        a == b,
{
    reveal_strlit("-");
    if a < 0 {
        crate::processes::lemma_decimal_digits((-a) as nat);
    } else {
        crate::processes::lemma_decimal_digits(a as nat);
    }
    if b < 0 {
        crate::processes::lemma_decimal_digits((-b) as nat);
    } else {
        crate::processes::lemma_decimal_digits(b as nat);
    }
    if a < 0 && b < 0 {
        assert(signed_decimal(a).drop_first() =~= crate::text::decimal((-a) as nat));
        assert(signed_decimal(b).drop_first() =~= crate::text::decimal((-b) as nat));
        crate::processes::lemma_decimal_injective((-a) as nat, (-b) as nat);
    } else if a >= 0 && b >= 0 {
        crate::processes::lemma_decimal_injective(a as nat, b as nat);
    } else if a < 0 {
        assert(signed_decimal(a)[0] == '-');
        assert(crate::text::is_digit(crate::text::decimal(b as nat)[0]));
    } else {
        assert(signed_decimal(b)[0] == '-');
        assert(crate::text::is_digit(crate::text::decimal(a as nat)[0]));
    }
}

/// The exit status keeps the exit code: two processes that ended with
/// different codes get different statuses, a process ended without a code
/// reads as code 0, and no exit status reads `terminated`.
pub proof fn lemma_exit_status_keeps_code(a: i32, b: i32)
    ensures
        exit_label(Some(Some(a))) == exit_label(Some(Some(b))) ==> a == b,
        exit_label(Some(None)) == exit_label(Some(Some(0))),
        exit_label(Some(Some(a))) != exit_label(None),
{
    reveal_strlit("exited(");
    reveal_strlit(")");
    reveal_strlit("terminated");
    let pa = "exited("@ + signed_decimal(a as int) + ")"@;
    let pb = "exited("@ + signed_decimal(b as int) + ")"@;
    if pa == pb {
        assert(pa.len() == pb.len());
        assert(signed_decimal(a as int) =~= pa.subrange(7, pa.len() - 1));
        assert(signed_decimal(b as int) =~= pb.subrange(7, pb.len() - 1));
        lemma_signed_decimal_injective(a as int, b as int);
    }
    assert(pa[0] == 'e');
    assert(exit_label(None)[0] == 't');
}

/// Runs are never removed: registering a run keeps every registered id, and
/// the count of runs grows by one exactly when the id is new.
pub proof fn lemma_run_count_never_decreases(
    before: Map<u128, ManagedRunView>,
    after: Map<u128, ManagedRunView>,
    run: ManagedRunView,
)
    requires
        before.dom().finite(),
        after == before.insert(run.run_id, run),
    ensures
        before.dom().subset_of(after.dom()),
        after.dom().finite(),
        !before.contains_key(run.run_id) ==> after.len() == before.len() + 1,
        before.contains_key(run.run_id) ==> after.len() == before.len(),
        after.len() >= before.len(),
{
    assert(after.dom() =~= before.dom().insert(run.run_id));
}

/// A listing of the registry holds each registered run exactly once, with
/// the metadata the registry holds for it.
pub proof fn lemma_listing_holds_each_run_once(
    m: Map<u128, ManagedRunView>,
    order: Seq<ManagedRunView>,
    listing: Seq<ManagedRunView>,
    run_id: u128,
)
    requires
        enumerates(m, order),
        is_stable_rank_sort::<ManagedProcessSummary>(order, listing),
        m.contains_key(run_id),
    ensures
        exists|i: int| 0 <= i < listing.len() && #[trigger] listing[i] == m[run_id],
        forall|i: int, j: int|
            0 <= i < listing.len() && 0 <= j < listing.len() && (#[trigger] listing[i]).run_id == run_id
                && (#[trigger] listing[j]).run_id == run_id ==> i == j,
{
    let p = choose|p: Seq<int>|
        {
            &&& #[trigger] crate::ordering::is_arrangement(order, listing, p)
            &&& crate::ordering::is_rank_descending::<ManagedProcessSummary>(listing)
            &&& crate::ordering::keeps_ties_in_order::<ManagedProcessSummary>(listing, p)
        };
    crate::ordering::lemma_arrangement_is_onto(order, listing, p);
    let k = choose|k: int| 0 <= k < order.len() && order[k].run_id == run_id;
    assert(p.contains(k));
    let i = choose|i: int| 0 <= i < p.len() && p[i] == k;
    assert(listing[i] == order[k]);
    assert(m[order[k].run_id] == order[k]);
    assert forall|a: int, b: int|
        0 <= a < listing.len() && 0 <= b < listing.len() && (#[trigger] listing[a]).run_id == run_id
            && (#[trigger] listing[b]).run_id == run_id implies a == b by {
        if a != b {
            assert(listing[a] == order[p[a]]);
            assert(listing[b] == order[p[b]]);
            if a < b {
                assert(p[a] != p[b]);
            } else {
                assert(p[b] != p[a]);
            }
            if p[a] < p[b] {
                assert(order[p[a]].run_id != order[p[b]].run_id);
            } else {
                assert(order[p[b]].run_id != order[p[a]].run_id);
            }
        }
    }
}

} // verus!
