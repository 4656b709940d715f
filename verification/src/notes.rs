//! Operator notes, each attached to one process instance for as long as the
//! monitor runs and that instance is alive.

use vstd::prelude::*;
use crate::logs::Timestamp;
use crate::text::{trim, is_blank, trim_text, lemma_trim_idempotent};

verus! {

/// A note on one process instance.
#[derive(Debug)]
pub struct NoteRecord {
    /// The instance the note belongs to (see `process_instance_id`).
    pub instance_id: String,
    /// The note, without surrounding white space; never blank.
    pub note: String,
    /// When the note was last written.
    pub updated_at: Timestamp,
}

impl NoteRecord {
    /// A copy of the record.
    pub fn duplicate(&self) -> (r: Self)
        ensures
            r == *self,
    {
        NoteRecord {
            instance_id: self.instance_id.clone(),
            note: self.note.clone(),
            updated_at: self.updated_at,
        }
    }
}

/// The notes of a sequence of records, keyed by instance; a later record
/// for an instance hides an earlier one.
pub open spec fn records_map(s: Seq<NoteRecord>) -> Map<Seq<char>, NoteRecord>
    decreases s.len(),
{
    if s.len() == 0 {
        Map::empty()
    } else {
        records_map(s.drop_last()).insert(s.last().instance_id@, s.last())
    }
}

/// The last record of `s` for instance `k`, if any.
pub open spec fn find_last(s: Seq<NoteRecord>, k: Seq<char>) -> Option<NoteRecord>
    decreases s.len(),
{
    if s.len() == 0 {
        None
    } else if s.last().instance_id@ == k {
        Some(s.last())
    } else {
        find_last(s.drop_last(), k)
    }
}

proof fn lemma_find_last_is_lookup(s: Seq<NoteRecord>, k: Seq<char>)
    ensures
        records_map(s).contains_key(k) <==> find_last(s, k) is Some,
        find_last(s, k) is Some ==> records_map(s)[k] == find_last(s, k)->0,
    decreases s.len(),
{
    if s.len() > 0 {
        lemma_find_last_is_lookup(s.drop_last(), k);
    }
}

/// The notes of the monitor's session, keyed by process instance id.
#[derive(Debug)]
pub struct NoteStore {
    records: Vec<NoteRecord>,
}

impl View for NoteStore {
    type V = Map<Seq<char>, NoteRecord>;

    closed spec fn view(&self) -> Map<Seq<char>, NoteRecord> {
        records_map(self.records@)
    }
}

/// What `NoteStore::update` leaves behind and hands back for instance `id`,
/// note text `text` and time `now`: a blank text clears the instance's note;
/// any other text, trimmed, becomes its note.
pub open spec fn note_update_result(
    before: Map<Seq<char>, NoteRecord>,
    after: Map<Seq<char>, NoteRecord>,
    id: Seq<char>,
    text: Seq<char>,
    now: Timestamp,
    result: Option<NoteRecord>,
) -> bool {
    if is_blank(text) {
        &&& after == before.remove(id)
        &&& result is None
    } else {
        &&& result is Some
        &&& result->0.instance_id@ == id
        &&& result->0.note@ == trim(text)
        &&& result->0.updated_at == now
        &&& after == before.insert(id, result->0)
    }
}

impl NoteStore {
    /// A store without notes.
    pub fn new() -> (s: Self)
        ensures
            s@ == Map::<Seq<char>, NoteRecord>::empty(),
    {
        NoteStore { records: Vec::new() }
    }

    /// The record of instance `id`, if it has a note.
    pub fn record_for(&self, id: &String) -> (r: Option<NoteRecord>)
        ensures
            match r {
                Some(rec) => self@.contains_key(id@) && rec == self@[id@],
                None => !self@.contains_key(id@),
            },
    {
        let n = self.records.len();
        let mut j: usize = n;
        assert(self.records@.take(n as int) =~= self.records@);
        while j > 0
            invariant
                j <= n,
                n == self.records@.len(),
                find_last(self.records@, id@) == find_last(self.records@.take(j as int), id@),
            decreases j,
        {
            let ghost prefix = self.records@.take(j as int);
            assert(prefix.last() == self.records@[j - 1]);
            assert(prefix.drop_last() =~= self.records@.take(j - 1));
            if self.records[j - 1].instance_id == *id {
                proof {
                    lemma_find_last_is_lookup(self.records@, id@);
                }
                return Some(self.records[j - 1].duplicate());
            }
            j = j - 1;
        }
        proof {
            lemma_find_last_is_lookup(self.records@, id@);
        }
        None
    }

    /// The note of instance `id`, if it has one.
    pub fn note_for(&self, id: &String) -> (r: Option<String>)
        ensures
            match r {
                Some(n) => self@.contains_key(id@) && n == self@[id@].note,
                None => !self@.contains_key(id@),
            },
    {
        match self.record_for(id) {
            Some(rec) => Some(rec.note),
            None => None,
        }
    }

    /// Writes the note of instance `id`. A text that is blank clears the
    /// instance's note and hands back nothing; any other text is trimmed,
    /// stored with the time `now`, and the stored record is handed back.
    pub fn update(&mut self, id: String, text: &str, now: Timestamp) -> (r: Option<NoteRecord>)
        ensures
            note_update_result(old(self)@, final(self)@, id@, text@, now, r),
    {
        let trimmed = trim_text(text);
        let blank = trimmed.as_str().unicode_len() == 0;
        let mut kept: Vec<NoteRecord> = Vec::new();
        let n = self.records.len();
        let mut i: usize = 0;
        while i < n
            invariant
                n == self.records@.len(),
                i <= n,
                records_map(kept@) == records_map(self.records@.take(i as int)).remove(id@),
            decreases n - i,
        {
            let ghost prefix = self.records@.take(i as int);
            let ghost x = self.records@[i as int];
            assert(self.records@.take(i + 1).drop_last() =~= prefix);
            assert(self.records@.take(i + 1).last() == x);
            let same = self.records[i].instance_id == id;
            let ghost kept_before = kept@;
            if !same {
                kept.push(self.records[i].duplicate());
                proof {
                    assert(kept@.drop_last() =~= kept_before);
                    assert(records_map(kept@) =~= records_map(self.records@.take(i + 1)).remove(id@));
                }
            } else {
                assert(records_map(kept@) =~= records_map(self.records@.take(i + 1)).remove(id@));
            }
            i = i + 1;
        }
        assert(self.records@.take(n as int) =~= self.records@);
        if blank {
            self.records = kept;
            None
        } else {
            let record = NoteRecord { instance_id: id, note: trimmed, updated_at: now };
            let handed_back = record.duplicate();
            let ghost kept_before = kept@;
            kept.push(record);
            proof {
                assert(kept@.drop_last() =~= kept_before);
                assert(records_map(kept@) =~= records_map(self.records@).remove(handed_back.instance_id@).insert(
                    handed_back.instance_id@, handed_back));
                assert(records_map(kept@) =~= records_map(self.records@).insert(id@, handed_back));
            }
            self.records = kept;
            Some(handed_back)
        }
    }

    /// Drops the notes of every instance that is not in `live`.
    pub fn retain_instances(&mut self, live: &Vec<String>)
        ensures
            final(self)@ == old(self)@.restrict(live@.map_values(|s: String| s@).to_set()),
    {
        let ghost live_set = live@.map_values(|s: String| s@).to_set();
        let mut kept: Vec<NoteRecord> = Vec::new();
        let n = self.records.len();
        let mut i: usize = 0;
        while i < n
            invariant
                n == self.records@.len(),
                i <= n,
                live_set == live@.map_values(|s: String| s@).to_set(),
                records_map(kept@) == records_map(self.records@.take(i as int)).restrict(live_set),
            decreases n - i,
        {
            let ghost prefix = self.records@.take(i as int);
            let ghost x = self.records@[i as int];
            assert(self.records@.take(i + 1).drop_last() =~= prefix);
            assert(self.records@.take(i + 1).last() == x);
            let ghost kept_before = kept@;
            if contains_text(live, &self.records[i].instance_id) {
                kept.push(self.records[i].duplicate());
                proof {
                    assert(kept@.drop_last() =~= kept_before);
                    assert(live_set.contains(x.instance_id@));
                    assert(records_map(kept@) =~= records_map(self.records@.take(i + 1)).restrict(
                        live_set));
                }
            } else {
                proof {
                    assert(!live_set.contains(x.instance_id@));
                    assert(records_map(kept@) =~= records_map(self.records@.take(i + 1)).restrict(
                        live_set));
                }
            }
            i = i + 1;
        }
        assert(self.records@.take(n as int) =~= self.records@);
        self.records = kept;
    }
}

/// Whether some element of `items` reads the same as `x`.
pub fn contains_text(items: &Vec<String>, x: &String) -> (b: bool)
    ensures
        b == items@.map_values(|s: String| s@).contains(x@),
{
    let ghost views = items@.map_values(|s: String| s@);
    let mut i: usize = 0;
    while i < items.len()
        invariant
            i <= items@.len(),
            views == items@.map_values(|s: String| s@),
            forall|j: int| 0 <= j < i ==> views[j] != x@,
        decreases items@.len() - i,
    {
        if items[i] == *x {
            assert(views[i as int] == x@);
            return true;
        }
        i = i + 1;
    }
    false
}

/// Writing a note and reading it back: a text that is not blank is read back
/// trimmed, and what is stored is itself not blank; a blank text leaves the
/// instance without a note; the notes of every other instance stay as they were.
pub proof fn lemma_note_read_after_write(
    before: Map<Seq<char>, NoteRecord>,
    after: Map<Seq<char>, NoteRecord>,
    id: Seq<char>,
    text: Seq<char>,
    now: Timestamp,
    result: Option<NoteRecord>,
)
    requires
        note_update_result(before, after, id, text, now, result),
    ensures
        !is_blank(text) ==> after.contains_key(id) && after[id].note@ == trim(text) && !is_blank(
            after[id].note@,
        ) && after[id].updated_at == now,
        is_blank(text) ==> !after.contains_key(id) && result is None,
        forall|k: Seq<char>| k != id ==> (#[trigger] after.contains_key(k) <==> before.contains_key(k)),
        forall|k: Seq<char>| k != id && #[trigger] before.contains_key(k) ==> after[k] == before[k],
{
    lemma_trim_idempotent(text);
}

/// After pruning, an instance has a note exactly when it had one before and
/// it is still alive; the notes that stay are unchanged.
pub proof fn lemma_pruned_notes_belong_to_live_instances(
    before: Map<Seq<char>, NoteRecord>,
    after: Map<Seq<char>, NoteRecord>,
    live: Seq<Seq<char>>,
)
    requires
        after == before.restrict(live.to_set()),
    ensures
        forall|k: Seq<char>| #[trigger] after.contains_key(k) <==> (before.contains_key(k) && live.contains(k)),
        forall|k: Seq<char>| #[trigger] after.contains_key(k) ==> after[k] == before[k],
{
}

} // verus!
