//! Process samples of the host, as the monitor summarises, orders and
//! describes them.

use vstd::prelude::*;
use crate::errors::ApiError;
use crate::managed::RunRegistry;
use crate::notes::{NoteRecord, NoteStore};
use crate::ordering::{Ranked, is_stable_rank_sort, sort_by_rank_descending, views_of};
use crate::logs::Timestamp;
use crate::text::{decimal, is_digit, join, format_u64};

verus! {

/// What the monitor read of one process of the host.
#[derive(Debug)]
pub struct ProcessSample {
    pub pid: u32,
    pub parent_pid: Option<u32>,
    pub name: String,
    /// The bit pattern of the sampled CPU usage in percent (an IEEE 754
    /// single-precision value).
    pub cpu_percent_bits: u32,
    pub memory_bytes: u64,
    pub virtual_memory_bytes: u64,
    /// The scheduler state, as text.
    pub status: String,
    /// When the process started, in seconds since the Unix epoch.
    pub start_time: u64,
    /// The command line, one element per argument.
    pub cmd: Vec<String>,
    pub executable_path: Option<String>,
}

/// The summary of one process that listings and details show.
#[derive(Debug)]
pub struct ProcessSummary {
    pub pid: u32,
    pub parent_pid: Option<u32>,
    /// Names this process instance: its pid and its start time.
    pub instance_id: String,
    pub name: String,
    /// The bit pattern of the CPU usage in percent (IEEE 754 single precision).
    pub cpu_percent_bits: u32,
    pub memory_bytes: u64,
    pub virtual_memory_bytes: u64,
    pub status: String,
    /// The start time in seconds since the Unix epoch, when it is a
    /// representable date.
    pub started_at: Option<i64>,
    /// The command line's arguments joined with single spaces.
    pub command_line: String,
    pub executable_path: Option<String>,
    /// The operator's note on this process instance.
    pub note: Option<String>,
}

/// The abstract content of a `ProcessSummary`.
pub struct ProcessSummaryView {
    pub pid: u32,
    pub parent_pid: Option<u32>,
    pub instance_id: Seq<char>,
    pub name: Seq<char>,
    pub cpu_percent_bits: u32,
    pub memory_bytes: u64,
    pub virtual_memory_bytes: u64,
    pub status: Seq<char>,
    pub started_at: Option<i64>,
    pub command_line: Seq<char>,
    pub executable_path: Option<Seq<char>>,
    pub note: Option<Seq<char>>,
}

/// The view of an optional text.
pub open spec fn opt_text(s: Option<String>) -> Option<Seq<char>> {
    match s {
        Some(t) => Some(t@),
        None => None,
    }
}

impl View for ProcessSummary {
    type V = ProcessSummaryView;

    open spec fn view(&self) -> ProcessSummaryView {
        ProcessSummaryView {
            pid: self.pid,
            parent_pid: self.parent_pid,
            instance_id: self.instance_id@,
            name: self.name@,
            cpu_percent_bits: self.cpu_percent_bits,
            memory_bytes: self.memory_bytes,
            virtual_memory_bytes: self.virtual_memory_bytes,
            status: self.status@,
            started_at: self.started_at,
            command_line: self.command_line@,
            executable_path: opt_text(self.executable_path),
            note: opt_text(self.note),
        }
    }
}

/// The position of a CPU usage on the total order of IEEE 754 values, taken
/// from its bit pattern: negative values (sign bit set) come below positive
/// ones, and among them a larger magnitude ranks lower.
pub open spec fn cpu_rank(bits: u32) -> int {
    if bits < 0x8000_0000 {
        bits as int
    } else {
        -1 - (bits - 0x8000_0000)
    }
}

impl Ranked for ProcessSummary {
    open spec fn rank_of(v: ProcessSummaryView) -> int {
        cpu_rank(v.cpu_percent_bits)
    }

    fn rank_key(&self) -> (k: i128) {
        let bits = self.cpu_percent_bits;
        if bits < 0x8000_0000 {
            bits as i128
        } else {
            -1 - ((bits - 0x8000_0000) as i128)
        }
    }
}

/// The IEEE 754 total order on CPU usages, read from their bit patterns
/// (the order of `f32::total_cmp`): a value with the sign bit clear is above
/// every value with it set; with the sign bit clear a larger pattern is a
/// larger value, and with it set a larger pattern is a smaller value.
pub open spec fn cpu_at_least(a: u32, b: u32) -> bool {
    if a < 0x8000_0000 && b < 0x8000_0000 {
        a >= b
    } else if a >= 0x8000_0000 && b >= 0x8000_0000 {
        a <= b
    } else {
        a < 0x8000_0000
    }
}

/// The listing's rank follows the IEEE 754 total order strictly: two
/// different CPU usages never share a rank, and the larger one ranks higher.
pub proof fn lemma_cpu_rank_is_total_order(a: u32, b: u32)
    ensures
        cpu_at_least(a, b) <==> cpu_rank(a) >= cpu_rank(b),
        a != b ==> cpu_rank(a) != cpu_rank(b),
        a < b < 0x8000_0000 ==> cpu_rank(a) < cpu_rank(b),
        0x8000_0000 <= a < b ==> cpu_rank(a) > cpu_rank(b),
        a < 0x8000_0000 <= b ==> cpu_rank(a) > cpu_rank(b),
{
}

/// The text that names a process instance: its pid and start time in
/// decimal, separated by a colon.
pub open spec fn instance_text(pid: u32, start_time: u64) -> Seq<char> {
    decimal(pid as nat) + seq![':'] + decimal(start_time as nat)
}

/// The id of the process instance with `pid` that started at `start_time`.
pub fn process_instance_id(pid: u32, start_time: u64) -> (id: String)
    ensures
        id@ == instance_text(pid, start_time),
{
    let mut id = format_u64(pid as u64);
    proof {
        reveal_strlit(":");
    }
    id.append(":");
    let tail = format_u64(start_time);
    id.append(tail.as_str());
    id
}

/// Decimal renderings are non-empty, one digit long exactly below 10, and
/// made of digits only.
pub proof fn lemma_decimal_digits(n: nat)
    ensures
        decimal(n).len() >= 1,
        n < 10 <==> decimal(n).len() == 1,
        forall|i: int| 0 <= i < decimal(n).len() ==> is_digit(#[trigger] decimal(n)[i]),
    decreases n,
{
    if n >= 10 {
        lemma_decimal_digits(n / 10);
        assert forall|i: int| 0 <= i < decimal(n).len() implies is_digit(#[trigger] decimal(n)[i]) by {
            if i < decimal(n / 10).len() {
                assert(decimal(n)[i] == decimal(n / 10)[i]);
            }
        }
    }
}

proof fn lemma_digit_char_injective(x: nat, y: nat)
    requires
        x < 10,
        y < 10,
        crate::text::digit_char(x) == crate::text::digit_char(y),
    ensures
        x == y,
{
}

/// Distinct numbers have distinct decimal renderings.
pub proof fn lemma_decimal_injective(a: nat, b: nat)
    requires
        decimal(a) == decimal(b),
    ensures
        a == b,
    decreases a,
{
    lemma_decimal_digits(a);
    lemma_decimal_digits(b);
    if a < 10 {
        assert(b < 10);
        assert(decimal(a)[0] == crate::text::digit_char(a));
        assert(decimal(b)[0] == crate::text::digit_char(b));
        lemma_digit_char_injective(a, b);
    } else {
        assert(b >= 10);
        let sa = decimal(a / 10);
        let sb = decimal(b / 10);
        assert(decimal(a) == sa.push(crate::text::digit_char(a % 10)));
        assert(decimal(b) == sb.push(crate::text::digit_char(b % 10)));
        assert(decimal(a).drop_last() =~= sa);
        assert(decimal(b).drop_last() =~= sb);
        lemma_decimal_injective(a / 10, b / 10);
        assert(decimal(a)[sa.len() as int] == crate::text::digit_char(a % 10));
        assert(decimal(b)[sb.len() as int] == crate::text::digit_char(b % 10));
        lemma_digit_char_injective(a % 10, b % 10);
        assert(a == 10 * (a / 10) + a % 10);
        assert(b == 10 * (b / 10) + b % 10);
    }
}

/// Distinct process instances never share an instance id, so each note stays
/// with the one instance it was written for.
pub proof fn lemma_instance_ids_distinct(pid1: u32, start1: u64, pid2: u32, start2: u64)
    requires
        instance_text(pid1, start1) == instance_text(pid2, start2),
    ensures
        pid1 == pid2,
        start1 == start2,
{
    let x1 = decimal(pid1 as nat);
    let x2 = decimal(pid2 as nat);
    let y1 = decimal(start1 as nat);
    let y2 = decimal(start2 as nat);
    let t = instance_text(pid1, start1);
    lemma_decimal_digits(pid1 as nat);
    lemma_decimal_digits(pid2 as nat);
    if x1.len() < x2.len() {
        assert(t[x1.len() as int] == ':');
        assert(instance_text(pid2, start2)[x1.len() as int] == x2[x1.len() as int]);
        assert(false);
    } else if x2.len() < x1.len() {
        assert(instance_text(pid2, start2)[x2.len() as int] == ':');
        assert(t[x2.len() as int] == x1[x2.len() as int]);
        assert(false);
    }
    assert(x1 =~= t.subrange(0, x1.len() as int));
    assert(x2 =~= instance_text(pid2, start2).subrange(0, x2.len() as int));
    lemma_decimal_injective(pid1 as nat, pid2 as nat);
    assert(y1 =~= t.subrange(x1.len() as int + 1, t.len() as int));
    assert(y2 =~= instance_text(pid2, start2).subrange(x2.len() as int + 1, t.len() as int));
    lemma_decimal_injective(start1 as nat, start2 as nat);
}

/// The earliest second that chrono's dates reach: 1 January of year
/// -262143 (chrono's `NaiveDate::MIN`), at midnight.
pub const CHRONO_MIN_UNIX_SECONDS: i64 = -8334601228800;

/// The last second that chrono's dates reach: 31 December of year 262142
/// (chrono's `NaiveDate::MAX`), at 23:59:59.
pub const CHRONO_MAX_UNIX_SECONDS: i64 = 8210266876799;

/// Whether chrono's `DateTime::from_timestamp(secs, 0)` gives a date: it
/// does exactly for the seconds from chrono's first to its last date.
pub open spec fn chrono_accepts_unix_seconds(secs: i64) -> bool {
    CHRONO_MIN_UNIX_SECONDS <= secs <= CHRONO_MAX_UNIX_SECONDS
}

/// Calls chrono's `DateTime::<Utc>::from_timestamp(secs, 0)` and reports
/// whether it gave a date. In chrono's source the day count is checked
/// against `NaiveDate`'s years -262143 to 262142 (`MIN_YEAR`, `MAX_YEAR`)
/// and a zero nanosecond part is always valid, so a date comes back exactly
/// for the seconds from the first instant of 1 January -262143 to the last
/// second of 31 December 262142.
#[verifier::external_body]
fn unix_seconds_representable(secs: i64) -> (ok: bool)
    ensures
        ok == chrono_accepts_unix_seconds(secs),
{
    chrono::DateTime::<chrono::Utc>::from_timestamp(secs, 0).is_some()
}

/// The summary of `sample`, given its note and whether its start time is a
/// representable date.
pub open spec fn summary_of(
    sample: ProcessSample,
    note: Option<Seq<char>>,
    start_representable: bool,
) -> ProcessSummaryView {
    ProcessSummaryView {
        pid: sample.pid,
        parent_pid: sample.parent_pid,
        instance_id: instance_text(sample.pid, sample.start_time),
        name: sample.name@,
        cpu_percent_bits: sample.cpu_percent_bits,
        memory_bytes: sample.memory_bytes,
        virtual_memory_bytes: sample.virtual_memory_bytes,
        status: sample.status@,
        started_at: if start_representable {
            Some(sample.start_time as i64)
        } else {
            None
        },
        command_line: join(sample.cmd@.map_values(|p: String| p@), seq![' ']),
        executable_path: opt_text(sample.executable_path),
        note,
    }
}

/// The summary of `sample` with `note`, where `start_representable` tells
/// whether the start time, read as signed seconds, is a representable date.
pub fn summarize_with_start(sample: ProcessSample, note: Option<String>, start_representable: bool) -> (s:
    ProcessSummary)
    ensures
        s@ == summary_of(sample, opt_text(note), start_representable),
{
    let instance_id = process_instance_id(sample.pid, sample.start_time);
    let command_line = crate::text::join_with_spaces(&sample.cmd);
    let started_at = if start_representable {
        Some(sample.start_time as i64)
    } else {
        None
    };
    ProcessSummary {
        pid: sample.pid,
        parent_pid: sample.parent_pid,
        instance_id,
        name: sample.name,
        cpu_percent_bits: sample.cpu_percent_bits,
        memory_bytes: sample.memory_bytes,
        virtual_memory_bytes: sample.virtual_memory_bytes,
        status: sample.status,
        started_at,
        command_line,
        executable_path: sample.executable_path,
        note,
    }
}

/// The summary of `sample` with `note`.
pub fn summarize(sample: ProcessSample, note: Option<String>) -> (s: ProcessSummary)
    ensures
        s@ == summary_of(
            sample,
            opt_text(note),
            chrono_accepts_unix_seconds(sample.start_time as i64),
        ),
{
    let ok = unix_seconds_representable(sample.start_time as i64);
    summarize_with_start(sample, note, ok)
}

/// The note text that `notes` holds for `id`, if any.
pub open spec fn note_text(notes: Map<Seq<char>, NoteRecord>, id: Seq<char>) -> Option<Seq<char>> {
    if notes.contains_key(id) {
        Some(notes[id].note@)
    } else {
        None
    }
}

/// The instance ids of `samples`, in order.
pub open spec fn instance_ids_of(samples: Seq<ProcessSample>) -> Seq<Seq<char>> {
    samples.map_values(|s: ProcessSample| instance_text(s.pid, s.start_time))
}

/// The summaries of `samples`, in order, with the notes of `notes`.
pub open spec fn summaries_of(samples: Seq<ProcessSample>, notes: Map<Seq<char>, NoteRecord>) -> Seq<
    ProcessSummaryView,
> {
    samples.map_values(
        |s: ProcessSample|
            summary_of(
                s,
                note_text(notes, instance_text(s.pid, s.start_time)),
                chrono_accepts_unix_seconds(s.start_time as i64),
            ),
    )
}

/// What a listed summary says of the sample it came from: the sample's pid,
/// instance id, name, CPU usage, memory, status and command line, and its
/// start time exactly when chrono's dates reach it.
pub open spec fn lists_sample(v: ProcessSummaryView, sample: ProcessSample) -> bool {
    &&& v.pid == sample.pid
    &&& v.parent_pid == sample.parent_pid
    &&& v.instance_id == instance_text(sample.pid, sample.start_time)
    &&& v.name == sample.name@
    &&& v.cpu_percent_bits == sample.cpu_percent_bits
    &&& v.memory_bytes == sample.memory_bytes
    &&& v.virtual_memory_bytes == sample.virtual_memory_bytes
    &&& v.status == sample.status@
    &&& v.started_at == if CHRONO_MIN_UNIX_SECONDS <= (sample.start_time as i64) <= CHRONO_MAX_UNIX_SECONDS {
        Some(sample.start_time as i64)
    } else {
        None
    }
    &&& v.command_line == join(sample.cmd@.map_values(|p: String| p@), seq![' '])
    &&& v.executable_path == opt_text(sample.executable_path)
}

/// `v` is the listed summary of one of `samples`.
pub open spec fn lists_one_of(v: ProcessSummaryView, samples: Seq<ProcessSample>) -> bool {
    exists|j: int| 0 <= j < samples.len() && lists_sample(v, #[trigger] samples[j])
}

/// The process listing is ordered by CPU usage, highest first in the IEEE
/// 754 total order, has one entry per sample, and each listed summary
/// carries its sample's fields, with the start time whenever chrono's dates
/// reach it.
pub proof fn lemma_listing_follows_samples(
    samples: Seq<ProcessSample>,
    notes: Map<Seq<char>, NoteRecord>,
    listing: Seq<ProcessSummaryView>,
)
    requires
        is_stable_rank_sort::<ProcessSummary>(summaries_of(samples, notes), listing),
    ensures
        listing.len() == samples.len(),
        forall|i: int, j: int|
            0 <= i < j < listing.len() ==> cpu_at_least(
                (#[trigger] listing[i]).cpu_percent_bits,
                (#[trigger] listing[j]).cpu_percent_bits,
            ),
        forall|i: int| 0 <= i < listing.len() ==> lists_one_of(#[trigger] listing[i], samples),
{
    let input = summaries_of(samples, notes);
    let p = choose|p: Seq<int>|
        {
            &&& #[trigger] crate::ordering::is_arrangement(input, listing, p)
            &&& crate::ordering::is_rank_descending::<ProcessSummary>(listing)
            &&& crate::ordering::keeps_ties_in_order::<ProcessSummary>(listing, p)
        };
    assert forall|i: int, j: int| 0 <= i < j < listing.len() implies cpu_at_least(
        (#[trigger] listing[i]).cpu_percent_bits,
        (#[trigger] listing[j]).cpu_percent_bits,
    ) by {
        assert(cpu_rank(listing[i].cpu_percent_bits) >= cpu_rank(listing[j].cpu_percent_bits));
        lemma_cpu_rank_is_total_order(listing[i].cpu_percent_bits, listing[j].cpu_percent_bits);
    }
    assert forall|i: int| 0 <= i < listing.len() implies lists_one_of(#[trigger] listing[i], samples) by {
        let j = p[i];
        assert(listing[i] == input[j]);
        assert(lists_sample(listing[i], samples[j]));
    }
}

/// The process listing: drops the notes of every instance that is not among
/// `samples`, summarises each sample with its note, and orders the summaries
/// by CPU usage, highest first; samples of equal usage keep their order.
pub fn list_processes(samples: Vec<ProcessSample>, notes: &mut NoteStore) -> (listing: Vec<
    ProcessSummary,
>)
    ensures
        final(notes)@ == old(notes)@.restrict(instance_ids_of(samples@).to_set()),
        is_stable_rank_sort::<ProcessSummary>(
            summaries_of(samples@, final(notes)@),
            views_of(listing@),
        ),
        listing@.len() == samples@.len(),
        forall|i: int, j: int|
            0 <= i < j < listing@.len() ==> cpu_at_least(
                (#[trigger] listing@[i]).cpu_percent_bits,
                (#[trigger] listing@[j]).cpu_percent_bits,
            ),
        forall|i: int| 0 <= i < listing@.len() ==> lists_one_of((#[trigger] listing@[i])@, samples@),
{
    let ghost input = samples@;
    let n = samples.len();
    let mut ids: Vec<String> = Vec::new();
    let mut k: usize = 0;
    while k < n
        invariant
            n == samples@.len(),
            k <= n,
            ids@.len() == k,
            forall|i: int| 0 <= i < k ==> (#[trigger] ids@[i])@ == instance_text(
                samples@[i].pid,
                samples@[i].start_time,
            ),
        decreases n - k,
    {
        ids.push(process_instance_id(samples[k].pid, samples[k].start_time));
        k = k + 1;
    }
    assert(ids@.map_values(|s: String| s@) =~= instance_ids_of(samples@));
    notes.retain_instances(&ids);
    let mut rest = samples;
    let mut summaries: Vec<ProcessSummary> = Vec::new();
    let mut i: usize = 0;
    assert(rest@.subrange(0, n as int) =~= input);
    while i < n
        invariant
            n == input.len(),
            i <= n,
            rest@ == input.subrange(i as int, n as int),
            summaries@.len() == i,
            forall|j: int| 0 <= j < i ==> (#[trigger] summaries@[j])@ == summaries_of(input, notes@)[j],
        decreases n - i,
    {
        let sample = rest.remove(0);
        assert(sample == input[i as int]);
        let id = process_instance_id(sample.pid, sample.start_time);
        let note = notes.note_for(&id);
        assert(opt_text(note) == note_text(notes@, id@));
        summaries.push(summarize(sample, note));
        assert(rest@ =~= input.subrange(i + 1, n as int));
        i = i + 1;
    }
    assert(views_of(summaries@) =~= summaries_of(input, notes@));
    let listing = sort_by_rank_descending(summaries);
    proof {
        lemma_listing_follows_samples(input, notes@, views_of(listing@));
        assert forall|i: int, j: int| 0 <= i < j < listing@.len() implies cpu_at_least(
            (#[trigger] listing@[i]).cpu_percent_bits,
            (#[trigger] listing@[j]).cpu_percent_bits,
        ) by {
            assert(views_of(listing@)[i] == listing@[i]@);
            assert(views_of(listing@)[j] == listing@[j]@);
        }
        assert forall|i: int| 0 <= i < listing@.len() implies lists_one_of(
            (#[trigger] listing@[i])@,
            input,
        ) by {
            assert(views_of(listing@)[i] == listing@[i]@);
        }
    }
    listing
}

/// What the monitor can do and show for a process.
#[derive(Clone, Copy, Debug, PartialEq, Eq, Structural)]
pub struct ProcessCapabilities {
    pub can_terminate: bool,
    pub has_managed_logs: bool,
    pub open_files_supported: bool,
    pub gpu_supported: bool,
}

/// The capabilities of a process: it can be asked to terminate, it has
/// captured logs when it is a managed run, and open files and GPU usage are
/// never available.
pub fn capabilities_for(has_managed_logs: bool) -> (c: ProcessCapabilities)
    ensures
        c.can_terminate,
        c.has_managed_logs == has_managed_logs,
        !c.open_files_supported,
        !c.gpu_supported,
{
    ProcessCapabilities {
        can_terminate: true,
        has_managed_logs,
        open_files_supported: false,
        gpu_supported: false,
    }
}

/// The detail of one process.
#[derive(Debug)]
pub struct ProcessDetail {
    pub summary: ProcessSummary,
    pub capabilities: ProcessCapabilities,
}

/// The detail of the process that the lookup found: its summary with the
/// note of its instance, and its capabilities, where it has managed logs
/// exactly when a managed run that is still running has its pid (a process
/// that only reuses the pid of an ended run is unmanaged). A failed lookup is refused as
/// `ProcessNotFound`.
pub fn describe_process(found: Option<ProcessSample>, notes: &NoteStore, runs: &RunRegistry) -> (r:
    Result<ProcessDetail, ApiError>)
    ensures
        match found {
            None => r matches Err(ApiError::ProcessNotFound),
            Some(sample) => r is Ok && {
                let d = r->Ok_0;
                let id = instance_text(sample.pid, sample.start_time);
                &&& d.summary@ == summary_of(
                    sample,
                    note_text(notes@, id),
                    chrono_accepts_unix_seconds(sample.start_time as i64),
                )
                &&& d.capabilities == ProcessCapabilities {
                    can_terminate: true,
                    has_managed_logs: runs.has_running_run_for_pid(sample.pid),
                    open_files_supported: false,
                    gpu_supported: false,
                }
            },
        },
{
    match found {
        None => Err(ApiError::ProcessNotFound),
        Some(sample) => {
            let id = process_instance_id(sample.pid, sample.start_time);
            let has_logs = runs.any_running_run_for_pid(sample.pid);
            let note = notes.note_for(&id);
            let summary = summarize(sample, note);
            Ok(ProcessDetail { summary, capabilities: capabilities_for(has_logs) })
        },
    }
}

/// Writes the note of the process that the lookup found (see
/// `NoteStore::update`); a failed lookup is refused as `ProcessNotFound` and
/// leaves the notes as they were.
pub fn update_process_note(
    found: Option<ProcessSample>,
    notes: &mut NoteStore,
    text: &str,
    now: Timestamp,
) -> (r: Result<Option<NoteRecord>, ApiError>)
    ensures
        match found {
            None => r matches Err(ApiError::ProcessNotFound) && final(notes)@ == old(notes)@,
            Some(sample) => r is Ok && crate::notes::note_update_result(
                old(notes)@,
                final(notes)@,
                instance_text(sample.pid, sample.start_time),
                text@,
                now,
                r->Ok_0,
            ),
        },
{
    match found {
        None => Err(ApiError::ProcessNotFound),
        Some(sample) => {
            let id = process_instance_id(sample.pid, sample.start_time);
            Ok(notes.update(id, text, now))
        },
    }
}

/// Whether a termination request succeeded: `true` exactly when a signal
/// was sent and reported as delivered.
pub fn signal_delivered(attempt: Option<bool>) -> (ok: bool)
    ensures
        ok == (attempt == Some(true)),
{
    match attempt {
        Some(b) => b,
        None => false,
    }
}

/// The answer to a request to terminate a process: `None` when no process
/// had the pid, which is refused as `ProcessNotFound`; otherwise what the
/// signal attempt reported (`None` when the signal is not supported).
pub fn termination_result(lookup: Option<Option<bool>>) -> (r: Result<bool, ApiError>)
    ensures
        match lookup {
            None => r matches Err(ApiError::ProcessNotFound),
            Some(attempt) => r == Ok::<bool, ApiError>(attempt == Some(true)),
        },
{
    match lookup {
        None => Err(ApiError::ProcessNotFound),
        Some(attempt) => Ok(signal_delivered(attempt)),
    }
}

} // verus!
