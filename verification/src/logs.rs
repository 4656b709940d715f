//! Captured output of managed runs: numbering, the bounded in-memory tail,
//! the on-disk record framing and the paging of stored records.

use std::collections::VecDeque;
use vstd::prelude::*;
use crate::text::{trim, trim_end, trim_start, trim_text, join, is_white_space};

verus! {

/// How many captured lines the in-memory tail of a run keeps.
pub const MAX_LOG_LINES: usize = 5000;

/// How many stored lines a page holds when the query names no limit.
pub const DEFAULT_PAGE_LIMIT: usize = 200;

/// The most stored lines one page may hold.
pub const MAX_PAGE_LIMIT: usize = 1000;

/// A point in time: whole seconds since the Unix epoch and the nanoseconds
/// past that second.
#[derive(Clone, Copy, Debug, PartialEq, Eq, Structural)]
pub struct Timestamp {
    pub secs: i64,
    pub nanos: u32,
}

impl Timestamp {
    /// The position of this point on a single integer line: later points
    /// have larger keys, and points are compared second first, nanosecond next.
    pub open spec fn order_key(self) -> int {
        self.secs * 4294967296 + self.nanos
    }

    /// Computes `order_key`.
    pub fn key(&self) -> (k: i128)
        ensures
            k == self.order_key(),
    {
        (self.secs as i128) * 4294967296 + (self.nanos as i128)
    }
}

/// One captured line of a managed run's output.
#[derive(Debug)]
pub struct ManagedLogLine {
    /// Position of the line in the run's output, counted over both streams.
    pub offset: u64,
    /// When the line was captured.
    pub timestamp: Timestamp,
    /// `stdout` or `stderr`.
    pub stream: String,
    /// The line, without its line terminator.
    pub message: String,
}

impl ManagedLogLine {
    /// A copy of the line.
    pub fn duplicate(&self) -> (r: Self)
        ensures
            r == *self,
    {
        ManagedLogLine {
            offset: self.offset,
            timestamp: self.timestamp,
            stream: self.stream.clone(),
            message: self.message.clone(),
        }
    }
}

/// Hands out the offsets of a run's captured lines.
#[derive(Debug)]
pub struct OffsetCounter {
    pub next: u64,
}

/// `after` is `before` once it has handed out `offset`.
pub open spec fn allocates(before: OffsetCounter, after: OffsetCounter, offset: u64) -> bool {
    &&& offset == before.next
    &&& after.next == before.next + 1
}

impl OffsetCounter {
    /// A counter whose first offset is 0.
    pub fn new() -> (c: Self)
        ensures
            c.next == 0,
    {
        OffsetCounter { next: 0 }
    }

    /// The offset that the next call of `allocate` hands out.
    pub fn peek(&self) -> (n: u64)
        ensures
            n == self.next,
    {
        self.next
    }

    /// Hands out the next offset.
    pub fn allocate(&mut self) -> (offset: u64)
        requires
            old(self).next < u64::MAX,
        ensures
            allocates(*old(self), *final(self), offset),
    {
        let current = self.next;
        self.next = current + 1;
        current
    }
}

/// Numbers a line that was just read from one of a run's output streams:
/// the line gets the counter's next offset, and the counter moves on.
pub fn capture_line(counter: &mut OffsetCounter, stream: String, message: String, timestamp: Timestamp) -> (line:
    ManagedLogLine)
    requires
        old(counter).next < u64::MAX,
    ensures
        allocates(*old(counter), *final(counter), line.offset),
        line.timestamp == timestamp,
        line.stream == stream,
        line.message == message,
{
    let offset = counter.allocate();
    ManagedLogLine { offset, timestamp, stream, message }
}

/// Offsets handed out by successive allocations strictly increase, so no two
/// captured lines of a run share an offset.
pub proof fn lemma_offsets_strictly_increase(
    c0: OffsetCounter,
    c1: OffsetCounter,
    c2: OffsetCounter,
    first: u64,
    second: u64,
)
    requires
        allocates(c0, c1, first),
        allocates(c1, c2, second),
    ensures
        first < second,
        second == first + 1,
{
}

/// The last `n` elements of `s`, or all of them when there are fewer.
pub open spec fn keep_last<T>(s: Seq<T>, n: nat) -> Seq<T> {
    if s.len() > n {
        s.subrange(s.len() - n, s.len() as int)
    } else {
        s
    }
}

/// The first `n` elements of `s`, or all of them when there are fewer.
pub open spec fn first_n<T>(s: Seq<T>, n: nat) -> Seq<T> {
    if s.len() > n {
        s.take(n as int)
    } else {
        s
    }
}

/// The most recent captured lines of a run, oldest first.
#[derive(Debug)]
pub struct LogTail {
    lines: VecDeque<ManagedLogLine>,
}

impl View for LogTail {
    type V = Seq<ManagedLogLine>;

    closed spec fn view(&self) -> Seq<ManagedLogLine> {
        self.lines@
    }
}

impl LogTail {
    /// An empty tail.
    pub fn new() -> (t: Self)
        ensures
            t@ == Seq::<ManagedLogLine>::empty(),
    {
        LogTail { lines: VecDeque::new() }
    }

    /// How many lines the tail holds.
    pub fn len(&self) -> (n: usize)
        ensures
            n == self@.len(),
    {
        self.lines.len()
    }

    /// Appends a captured line, then drops the oldest lines until no more
    /// than `MAX_LOG_LINES` are left.
    pub fn record(&mut self, line: ManagedLogLine)
        ensures
            final(self)@ == keep_last(old(self)@.push(line), MAX_LOG_LINES as nat),
    {
        let ghost full = self.lines@.push(line);
        self.lines.push_back(line);
        while self.lines.len() > MAX_LOG_LINES
            invariant
                full.len() >= self.lines@.len(),
                self.lines@.len() == full.len() || self.lines@.len() >= MAX_LOG_LINES,
                self.lines@ == full.subrange(full.len() - self.lines@.len(), full.len() as int),
            decreases self.lines@.len(),
        {
            let _dropped = self.lines.pop_front();
            assert(self.lines@ =~= full.subrange(full.len() - self.lines@.len(), full.len() as int));
        }
        assert(self.lines@ =~= keep_last(full, MAX_LOG_LINES as nat));
    }

    /// A copy of the lines the tail holds, oldest first.
    pub fn snapshot(&self) -> (r: Vec<ManagedLogLine>)
        ensures
            r@ == self@,
    {
        let mut r: Vec<ManagedLogLine> = Vec::new();
        let n = self.lines.len();
        let mut i: usize = 0;
        while i < n
            invariant
                n == self.lines@.len(),
                i <= n,
                r@ == self.lines@.take(i as int),
            decreases n - i,
        {
            r.push(self.lines[i].duplicate());
            assert(self.lines@.take(i + 1) =~= self.lines@.take(i as int).push(self.lines@[i as int]));
            i = i + 1;
        }
        assert(self.lines@.take(n as int) =~= self.lines@);
        r
    }
}

/// Recording lines one by one keeps, at every step, exactly the most recent
/// `MAX_LOG_LINES` of all lines recorded so far, in the order they came.
pub proof fn lemma_tail_keeps_most_recent(history: Seq<ManagedLogLine>, line: ManagedLogLine)
    ensures
        keep_last(keep_last(history, MAX_LOG_LINES as nat).push(line), MAX_LOG_LINES as nat)
            == keep_last(history.push(line), MAX_LOG_LINES as nat),
        keep_last(history.push(line), MAX_LOG_LINES as nat).len() <= MAX_LOG_LINES,
        keep_last(history.push(line), MAX_LOG_LINES as nat).last() == line,
{
    let m = MAX_LOG_LINES as nat;
    let kept = keep_last(history, m);
    let lhs = keep_last(kept.push(line), m);
    let rhs = keep_last(history.push(line), m);
    assert(lhs =~= rhs);
}

/// Which stored lines a page holds: those at or after `offset`, at most `limit` of them.
#[derive(Clone, Copy, Debug, PartialEq, Eq, Structural)]
pub struct LogWindow {
    pub offset: u64,
    pub limit: usize,
}

impl LogWindow {
    /// The window a query asks for: offset 0 unless given, and the given
    /// limit, or `DEFAULT_PAGE_LIMIT`, capped at `MAX_PAGE_LIMIT`.
    pub fn from_query(offset: Option<u64>, limit: Option<usize>) -> (w: Self)
        ensures
            w.offset == match offset {
                Some(o) => o,
                None => 0,
            },
            w.limit == match limit {
                Some(l) => if l < MAX_PAGE_LIMIT { l } else { MAX_PAGE_LIMIT },
                None => DEFAULT_PAGE_LIMIT,
            },
    {
        let offset = match offset {
            Some(o) => o,
            None => 0,
        };
        let requested = match limit {
            Some(l) => l,
            None => DEFAULT_PAGE_LIMIT,
        };
        let limit = if requested < MAX_PAGE_LIMIT {
            requested
        } else {
            MAX_PAGE_LIMIT
        };
        LogWindow { offset, limit }
    }

    /// Whether a line at `offset` lies at or after the window's start.
    pub open spec fn takes_in(self) -> spec_fn(ManagedLogLine) -> bool {
        |l: ManagedLogLine| l.offset >= self.offset
    }

    /// What the window holds of `lines`.
    pub open spec fn page_of(self, lines: Seq<ManagedLogLine>) -> Seq<ManagedLogLine> {
        first_n(lines.filter(self.takes_in()), self.limit as nat)
    }

    /// The stored lines, in their stored order, that lie at or after the
    /// window's offset, cut after the first `limit` of them.
    pub fn select(&self, lines: &Vec<ManagedLogLine>) -> (page: Vec<ManagedLogLine>)
        ensures
            page@ == self.page_of(lines@),
            page@.len() == if self.limit < lines@.filter(self.takes_in()).len() {
                self.limit as int
            } else {
                lines@.filter(self.takes_in()).len() as int
            },
            forall|i: int| 0 <= i < page@.len() ==> #[trigger] page@[i] == lines@.filter(self.takes_in())[i],
    {
        let mut page: Vec<ManagedLogLine> = Vec::new();
        let n = lines.len();
        let mut i: usize = 0;
        let ghost pred = self.takes_in();
        while i < n
            invariant
                n == lines@.len(),
                i <= n,
                pred == self.takes_in(),
                page@ == first_n(lines@.take(i as int).filter(pred), self.limit as nat),
            decreases n - i,
        {
            let ghost prefix = lines@.take(i as int);
            let ghost next = lines@.take(i + 1);
            proof {
                assert(next.drop_last() =~= prefix);
                assert(next.last() == lines@[i as int]);
                reveal(Seq::filter);
            }
            if lines[i].offset >= self.offset && page.len() < self.limit {
                page.push(lines[i].duplicate());
                proof {
                    assert(next.filter(pred) == prefix.filter(pred).push(lines@[i as int]));
                    assert(page@ =~= first_n(next.filter(pred), self.limit as nat));
                }
            } else {
                proof {
                    if pred(lines@[i as int]) {
                        assert(next.filter(pred) == prefix.filter(pred).push(lines@[i as int]));
                        assert(page@ =~= first_n(next.filter(pred), self.limit as nat));
                    } else {
                        assert(next.filter(pred) == prefix.filter(pred));
                    }
                }
            }
            i = i + 1;
        }
        assert(lines@.take(n as int) =~= lines@);
        proof {
            lemma_page_is_first_lines(*self, lines@);
        }
        page
    }
}

/// The lines read out of the stored records, in order, where `groups[i]`
/// holds the lines that record `i` gave (none for a record that does not read).
pub open spec fn all_lines(groups: Seq<Seq<ManagedLogLine>>) -> Seq<ManagedLogLine>
    decreases groups.len(),
{
    if groups.len() == 0 {
        Seq::empty()
    } else {
        all_lines(groups.drop_last()) + groups.last()
    }
}

/// The views of groups of lines.
pub open spec fn group_views(groups: Seq<Vec<ManagedLogLine>>) -> Seq<Seq<ManagedLogLine>> {
    groups.map_values(|g: Vec<ManagedLogLine>| g@)
}

impl LogWindow {
    /// What the window holds of the lines read out of the stored records,
    /// one group of lines per record: records that gave no line are passed
    /// over and do not count against the limit.
    pub fn select_parsed(&self, groups: &Vec<Vec<ManagedLogLine>>) -> (page: Vec<ManagedLogLine>)
        ensures
            page@ == self.page_of(all_lines(group_views(groups@))),
            page@.len() == if self.limit < all_lines(group_views(groups@)).filter(self.takes_in()).len() {
                self.limit as int
            } else {
                all_lines(group_views(groups@)).filter(self.takes_in()).len() as int
            },
            forall|i: int|
                0 <= i < page@.len() ==> #[trigger] page@[i] == all_lines(group_views(groups@)).filter(
                    self.takes_in(),
                )[i],
    {
        let ghost gv = group_views(groups@);
        let mut flat: Vec<ManagedLogLine> = Vec::new();
        let n = groups.len();
        let mut i: usize = 0;
        while i < n
            invariant
                n == groups@.len(),
                i <= n,
                gv == group_views(groups@),
                flat@ == all_lines(gv.take(i as int)),
            decreases n - i,
        {
            let group = &groups[i];
            let m = group.len();
            let mut j: usize = 0;
            assert(gv[i as int] == group@);
            while j < m
                invariant
                    n == groups@.len(),
                    i < n,
                    m == group@.len(),
                    j <= m,
                    gv == group_views(groups@),
                    gv[i as int] == group@,
                    flat@ == all_lines(gv.take(i as int)) + group@.take(j as int),
                decreases m - j,
            {
                flat.push(group[j].duplicate());
                assert(group@.take(j + 1) =~= group@.take(j as int).push(group@[j as int]));
                assert(flat@ =~= all_lines(gv.take(i as int)) + group@.take(j + 1));
                j = j + 1;
            }
            proof {
                assert(group@.take(m as int) =~= group@);
                assert(gv.take(i + 1).drop_last() =~= gv.take(i as int));
                assert(gv.take(i + 1).last() == gv[i as int]);
            }
            i = i + 1;
        }
        assert(gv.take(n as int) =~= gv);
        self.select(&flat)
    }
}

proof fn lemma_all_lines_concat(a: Seq<Seq<ManagedLogLine>>, b: Seq<Seq<ManagedLogLine>>)
    ensures
        all_lines(a + b) == all_lines(a) + all_lines(b),
    decreases b.len(),
{
    if b.len() == 0 {
        assert(a + b =~= a);
        assert(all_lines(a) + all_lines(b) =~= all_lines(a));
    } else {
        lemma_all_lines_concat(a, b.drop_last());
        assert((a + b).drop_last() =~= a + b.drop_last());
        assert((a + b).last() == b.last());
        assert(all_lines(a + b) =~= all_lines(a) + all_lines(b));
    }
}

/// A stored record that does not read as a line changes no page: inserting
/// it anywhere among the records leaves every window's page as it was.
pub proof fn lemma_unreadable_records_skipped(
    w: LogWindow,
    before: Seq<Seq<ManagedLogLine>>,
    after: Seq<Seq<ManagedLogLine>>,
)
    ensures
        w.page_of(all_lines(before + seq![Seq::<ManagedLogLine>::empty()] + after)) == w.page_of(
            all_lines(before + after),
        ),
{
    let e = seq![Seq::<ManagedLogLine>::empty()];
    lemma_all_lines_concat(before + e, after);
    lemma_all_lines_concat(before, e);
    lemma_all_lines_concat(before, after);
    assert(e.drop_last() =~= Seq::<Seq<ManagedLogLine>>::empty());
    assert(all_lines(e.drop_last()) == Seq::<ManagedLogLine>::empty());
    assert(all_lines(e) =~= Seq::<ManagedLogLine>::empty());
    assert(all_lines(before + e) =~= all_lines(before));
}

/// `parts` are the pieces of `s` between its line feeds: joined with line
/// feeds they give back `s`, and none of them holds a line feed.
pub open spec fn is_line_split(s: Seq<char>, parts: Seq<Seq<char>>) -> bool {
    &&& parts.len() >= 1
    &&& join(parts, seq!['\n']) == s
    &&& forall|i: int| 0 <= i < parts.len() ==> !(#[trigger] parts[i]).contains('\n')
}

proof fn lemma_join_extend_last(parts: Seq<Seq<char>>, last: Seq<char>, c: char, sep: Seq<char>)
    ensures
        join(parts.push(last.push(c)), sep) == join(parts.push(last), sep).push(c),
{
    if parts.len() == 0 {
        assert(parts.push(last.push(c)) =~= seq![last.push(c)]);
        assert(parts.push(last) =~= seq![last]);
    } else {
        assert(parts.push(last.push(c)).drop_last() =~= parts);
        assert(parts.push(last).drop_last() =~= parts);
        assert(join(parts, sep) + sep + last.push(c) =~= (join(parts, sep) + sep + last).push(c));
    }
}

proof fn lemma_join_open_new(parts: Seq<Seq<char>>, sep: Seq<char>)
    requires
        parts.len() >= 1,
    ensures
        join(parts.push(Seq::empty()), sep) == join(parts, sep) + sep,
{
    assert(parts.push(Seq::<char>::empty()).drop_last() =~= parts);
    assert(join(parts, sep) + sep + Seq::<char>::empty() =~= join(parts, sep) + sep);
}

/// The stored text cut into lines: white space around the whole text is
/// dropped first, then the text is split at each line feed.
pub fn split_records(content: &str) -> (parts: Vec<String>)
    ensures
        is_line_split(trim(content@), parts@.map_values(|p: String| p@)),
{
    let t = trim_text(content);
    let s = t.as_str();
    let n = s.unicode_len();
    let mut parts: Vec<String> = Vec::new();
    let mut start: usize = 0;
    let mut i: usize = 0;
    proof {
        assert(seq![Seq::<char>::empty()] =~= Seq::<Seq<char>>::empty().push(Seq::empty()));
        assert(s@.subrange(0, 0) =~= join(seq![s@.subrange(0, 0)], seq!['\n']));
    }
    while i < n
        invariant
            n == s@.len(),
            start <= i <= n,
            join(parts@.map_values(|p: String| p@).push(s@.subrange(start as int, i as int)),
                seq!['\n']) == s@.subrange(0, i as int),
            forall|k: int|
                0 <= k < parts@.len() ==> !(#[trigger] parts@[k])@.contains('\n'),
            !s@.subrange(start as int, i as int).contains('\n'),
        decreases n - i,
    {
        let ghost views = parts@.map_values(|p: String| p@);
        let c = s.get_char(i);
        if c == '\n' {
            let piece = s.substring_char(start, i);
            parts.push(String::from_str(piece));
            proof {
                let nv = parts@.map_values(|p: String| p@);
                assert(nv =~= views.push(s@.subrange(start as int, i as int)));
                lemma_join_open_new(nv, seq!['\n']);
                assert(s@.subrange(0, i + 1) =~= s@.subrange(0, i as int) + seq!['\n']);
                assert(s@.subrange(i + 1, i + 1) =~= Seq::<char>::empty());
                assert forall|k: int| 0 <= k < parts@.len() implies !(#[trigger] parts@[k])@.contains('\n') by {
                    if k == parts@.len() - 1 {
                        assert(parts@[k]@ == s@.subrange(start as int, i as int));
                    }
                }
            }
            start = i + 1;
        } else {
            proof {
                lemma_join_extend_last(views, s@.subrange(start as int, i as int), c, seq!['\n']);
                assert(s@.subrange(start as int, i + 1) =~= s@.subrange(start as int, i as int).push(c));
                assert(s@.subrange(0, i + 1) =~= s@.subrange(0, i as int).push(c));
                let seg_old = s@.subrange(start as int, i as int);
                let seg_new = s@.subrange(start as int, i + 1);
                if seg_new.contains('\n') {
                    let x = choose|x: int| 0 <= x < seg_new.len() && seg_new[x] == '\n';
                    assert(seg_old[x] == '\n');
                    assert(seg_old.contains('\n'));
                }
            }
        }
        i = i + 1;
    }
    let ghost views = parts@.map_values(|p: String| p@);
    let last = s.substring_char(start, n);
    parts.push(String::from_str(last));
    proof {
        let nv = parts@.map_values(|p: String| p@);
        assert(nv =~= views.push(s@.subrange(start as int, n as int)));
        assert(join(nv, seq!['\n']) == s@);
        assert(s@.subrange(0, n as int) =~= s@);
        assert forall|k: int| 0 <= k < nv.len() implies !(#[trigger] nv[k]).contains('\n') by {
            if k == nv.len() - 1 {
                assert(nv[k] == s@.subrange(start as int, n as int));
            } else {
                assert(nv[k] == parts@[k]@);
            }
        }
    }
    parts
}

/// The bytes of one stored record: the serialized line and a line feed.
pub fn frame_record(serialized: &str) -> (r: String)
    ensures
        r@ == serialized@.push('\n'),
{
    let mut r = String::from_str(serialized);
    proof {
        reveal_strlit("\n");
    }
    r.append("\n");
    assert(r@ =~= serialized@.push('\n'));
    r
}

/// What a live viewer's subscription delivered.
pub enum LiveReceive {
    /// A newly captured line.
    Line(ManagedLogLine),
    /// The viewer fell behind and this many lines were skipped.
    Lagged(u64),
    /// The run's capture ended.
    Closed,
}

/// What the live stream does with a delivery.
pub enum StreamStep {
    /// Sends the line to the viewer as a `log` event.
    Emit(ManagedLogLine),
    /// Waits for the next delivery.
    Skip,
    /// Ends the stream.
    Finish,
}

/// A captured line is sent on, a lag is passed over, and the end of the
/// capture ends the stream.
pub fn live_stream_step(received: LiveReceive) -> (step: StreamStep)
    ensures
        match received {
            LiveReceive::Line(l) => step == StreamStep::Emit(l),
            LiveReceive::Lagged(_) => step is Skip,
            LiveReceive::Closed => step is Finish,
        },
{
    match received {
        LiveReceive::Line(l) => StreamStep::Emit(l),
        LiveReceive::Lagged(_) => StreamStep::Skip,
        LiveReceive::Closed => StreamStep::Finish,
    }
}

/// A page is the first lines at or after the window's offset, in stored
/// order: as many as the limit, or all of them when there are fewer.
pub proof fn lemma_page_is_first_lines(w: LogWindow, lines: Seq<ManagedLogLine>)
    ensures
        w.page_of(lines).len() == if w.limit < lines.filter(w.takes_in()).len() {
            w.limit as int
        } else {
            lines.filter(w.takes_in()).len() as int
        },
        forall|i: int|
            0 <= i < w.page_of(lines).len() ==> #[trigger] w.page_of(lines)[i] == lines.filter(
                w.takes_in(),
            )[i],
{
}

/// A page holds only lines at or after the window's offset, no more than
/// the window's limit of them, each one a stored line.
pub proof fn lemma_page_within_window(w: LogWindow, lines: Seq<ManagedLogLine>)
    ensures
        w.page_of(lines).len() <= w.limit,
        forall|i: int| 0 <= i < w.page_of(lines).len() ==> (#[trigger] w.page_of(lines)[i]).offset >= w.offset,
        forall|i: int| 0 <= i < w.page_of(lines).len() ==> lines.contains(#[trigger] w.page_of(lines)[i]),
{
    let f = lines.filter(w.takes_in());
    lines.lemma_filter_len(w.takes_in());
    assert forall|i: int| 0 <= i < w.page_of(lines).len() implies (#[trigger] w.page_of(lines)[i]).offset
        >= w.offset && lines.contains(w.page_of(lines)[i]) by {
        assert(w.page_of(lines)[i] == f[i]);
        lines.lemma_filter_pred(w.takes_in(), i);
        assert(f.contains(f[i]));
        lines.lemma_filter_contains_rev(w.takes_in(), f[i]);
    }
}

/// A window made from a query never holds more than `MAX_PAGE_LIMIT` lines.
pub proof fn lemma_query_window_capped(offset: Option<u64>, limit: Option<usize>, w: LogWindow, lines: Seq<ManagedLogLine>)
    requires
        w.offset == match offset {
            Some(o) => o,
            None => 0,
        },
        w.limit == match limit {
            Some(l) => if l < MAX_PAGE_LIMIT { l } else { MAX_PAGE_LIMIT },
            None => DEFAULT_PAGE_LIMIT,
        },
    ensures
        w.page_of(lines).len() <= MAX_PAGE_LIMIT,
{
    lemma_page_within_window(w, lines);
}

/// A counter that starts at 0 and hands out `n` offsets hands out exactly
/// 0, 1, ..., n - 1, in that order: the lines of a run, over both of its
/// streams, carry distinct offsets that count them.
pub proof fn lemma_offsets_count_lines(states: Seq<OffsetCounter>, offsets: Seq<u64>)
    requires
        states.len() == offsets.len() + 1,
        states[0].next == 0,
        forall|i: int| 0 <= i < offsets.len() ==> allocates(#[trigger] states[i], states[i + 1], offsets[i]),
    ensures
        forall|i: int| 0 <= i < offsets.len() ==> #[trigger] offsets[i] == i,
        states.last().next == offsets.len(),
    decreases offsets.len(),
{
    if offsets.len() > 0 {
        let n = offsets.len() - 1;
        lemma_offsets_count_lines(states.drop_last(), offsets.drop_last());
        assert(allocates(states[n], states[n + 1], offsets[n]));
        assert(states.drop_last().last() == states[n]);
        assert forall|i: int| 0 <= i < offsets.len() implies #[trigger] offsets[i] == i by {
            if i < n {
                assert(offsets.drop_last()[i] == offsets[i]);
            }
        }
    }
}

proof fn lemma_join_split_last(parts: Seq<Seq<char>>, sep: Seq<char>)
    requires
        parts.len() >= 2,
    ensures
        join(parts, sep) == join(parts.drop_last(), sep) + sep + parts.last(),
{
}

/// A text has one cut into lines: two line splits of the same text are equal.
pub proof fn lemma_line_split_unique(s: Seq<char>, a: Seq<Seq<char>>, b: Seq<Seq<char>>)
    requires
        is_line_split(s, a),
        is_line_split(s, b),
    ensures
        a == b,
    decreases a.len(),
{
    let nl = seq!['\n'];
    if a.len() == 1 && b.len() == 1 {
        assert(a =~= b);
    } else if a.len() == 1 {
        lemma_join_split_last(b, nl);
        let at = join(b.drop_last(), nl).len() as int;
        assert(s[at] == '\n');
        assert(a[0] == s);
        assert(a[0].contains('\n'));
    } else if b.len() == 1 {
        lemma_join_split_last(a, nl);
        let at = join(a.drop_last(), nl).len() as int;
        assert(s[at] == '\n');
        assert(b[0] == s);
        assert(b[0].contains('\n'));
    } else {
        lemma_join_split_last(a, nl);
        lemma_join_split_last(b, nl);
        let la = a.last();
        let lb = b.last();
        let ja = join(a.drop_last(), nl);
        let jb = join(b.drop_last(), nl);
        assert(!la.contains('\n'));
        assert(!lb.contains('\n'));
        if la.len() < lb.len() {
            let at = ja.len() as int;
            assert(s[at] == '\n');
            let k = at - (s.len() - lb.len());
            assert(lb[k] == s[at]);
            assert(lb.contains('\n'));
        } else if lb.len() < la.len() {
            let at = jb.len() as int;
            assert(s[at] == '\n');
            let k = at - (s.len() - la.len());
            assert(la[k] == s[at]);
            assert(la.contains('\n'));
        }
        assert(la =~= s.subrange(s.len() - la.len(), s.len() as int));
        assert(lb =~= s.subrange(s.len() - lb.len(), s.len() as int));
        assert(ja =~= s.subrange(0, s.len() - la.len() - 1));
        assert(jb =~= s.subrange(0, s.len() - lb.len() - 1));
        assert forall|i: int| 0 <= i < a.drop_last().len() implies !(#[trigger] a.drop_last()[i]).contains('\n') by {
            assert(a.drop_last()[i] == a[i]);
        }
        assert forall|i: int| 0 <= i < b.drop_last().len() implies !(#[trigger] b.drop_last()[i]).contains('\n') by {
            assert(b.drop_last()[i] == b[i]);
        }
        lemma_line_split_unique(ja, a.drop_last(), b.drop_last());
        assert(a =~= a.drop_last().push(la));
        assert(b =~= b.drop_last().push(lb));
    }
}

/// The stored text of a run: each record followed by a line feed, in order.
pub open spec fn framed_text(records: Seq<Seq<char>>) -> Seq<char>
    decreases records.len(),
{
    if records.len() == 0 {
        Seq::empty()
    } else {
        framed_text(records.drop_last()) + records.last().push('\n')
    }
}

proof fn lemma_framed_is_joined(records: Seq<Seq<char>>)
    requires
        records.len() >= 1,
    ensures
        framed_text(records) == join(records, seq!['\n']).push('\n'),
    decreases records.len(),
{
    if records.len() == 1 {
        assert(records.drop_last() =~= Seq::<Seq<char>>::empty());
        assert(framed_text(records.drop_last()) == Seq::<char>::empty());
        assert(framed_text(records) =~= records[0].push('\n'));
    } else {
        lemma_framed_is_joined(records.drop_last());
        lemma_join_split_last(records, seq!['\n']);
        assert(framed_text(records) =~= join(records, seq!['\n']).push('\n'));
    }
}

/// Records written one per line, as `frame_record` writes them, are cut
/// back into exactly those records by `split_records`, provided none holds
/// a line feed, none is empty, and the text starts and ends with something
/// other than white space (as serialized JSON objects do).
pub proof fn lemma_framed_records_split_back(records: Seq<Seq<char>>, parts: Seq<Seq<char>>)
    requires
        records.len() >= 1,
        forall|i: int| 0 <= i < records.len() ==> !(#[trigger] records[i]).contains('\n'),
        forall|i: int| 0 <= i < records.len() ==> (#[trigger] records[i]).len() > 0,
        !is_white_space(records[0][0]),
        !is_white_space(records.last().last()),
        is_line_split(trim(framed_text(records)), parts),
    ensures
        parts == records,
{
    let nl = seq!['\n'];
    let j = join(records, nl);
    lemma_framed_is_joined(records);
    lemma_join_first_last(records);
    let t = j.push('\n');
    assert(t.len() > 0 && t[0] == j[0]);
    assert(trim_start(t) == t);
    assert(t.drop_last() =~= j);
    assert(is_white_space(t.last())) by {
        reveal_strlit("\n");
    }
    assert(trim_end(t) == trim_end(j));
    assert(trim_end(j) == j);
    assert(trim(framed_text(records)) == j);
    lemma_line_split_unique(j, parts, records);
}

proof fn lemma_join_first_last(records: Seq<Seq<char>>)
    requires
        records.len() >= 1,
        forall|i: int| 0 <= i < records.len() ==> (#[trigger] records[i]).len() > 0,
    ensures
        join(records, seq!['\n']).len() > 0,
        join(records, seq!['\n'])[0] == records[0][0],
        join(records, seq!['\n']).last() == records.last().last(),
    decreases records.len(),
{
    if records.len() >= 2 {
        lemma_join_split_last(records, seq!['\n']);
        assert(records.drop_last()[0] == records[0]);
        assert(records.drop_last()[records.len() - 2] == records[records.len() - 2]);
        lemma_join_first_last(records.drop_last());
    }
}

} // verus!
