use vstd::prelude::*;

use crate::clock::{clock_reading, now_epoch};
use crate::consolidate::{needed, plan_consolidation, replacement_models, retire, retired_rows};
use crate::error::{fails, refuses, storage, MemoryError, Result};
use crate::find::{first_match, first_match_facts, first_match_is};
use crate::ident::is_fresh_id;
use crate::kinds::{MemoryStatus, Sensitivity};
use crate::memory::{models, MemoryModel, MemoryRecord, NewMemory};
use crate::order::filter_values;
use crate::recall::{distinct_ids, filter_distinct, lists_id};
use crate::text::{contains_text, normalization_ignores_padding, normalized, same_text, texts};

verus! {

/// The end of the validity of two memories that become one: open as soon as one of them is open.
pub open spec fn later_end(existing: Option<i64>, incoming: Option<i64>) -> Option<i64> {
    match (existing, incoming) {
        (Some(left), Some(right)) => Some(
            if left >= right {
                left
            } else {
                right
            },
        ),
        _ => None,
    }
}

/// The end of the validity of two memories that become one.
pub fn merge_valid_until(existing: Option<i64>, incoming: Option<i64>) -> (r: Option<i64>)
    ensures
        r == later_end(existing, incoming),
{
    match (existing, incoming) {
        (Some(left), Some(right)) => Some(
            if left >= right {
                left
            } else {
                right
            },
        ),
        _ => None,
    }
}

impl MemoryModel {
    /// Whether both are the same content of the same workspace.
    pub open spec fn shares_slot(self, other: MemoryModel) -> bool {
        self.namespace == other.namespace && self.workspace_id == other.workspace_id
            && self.content_hash == other.content_hash
    }

    /// Whether this memory is in use and says the same as the other.
    pub open spec fn duplicates(self, other: MemoryModel) -> bool {
        self.status == MemoryStatus::Active && self.shares_slot(other)
    }

    /// This memory after the same content was offered again.
    pub open spec fn merged_with(self, incoming: MemoryModel, now: i64) -> MemoryModel {
        MemoryModel {
            sensitivity: self.sensitivity.stricter(incoming.sensitivity),
            pinned: self.pinned || incoming.pinned,
            importance: self.importance.larger(incoming.importance),
            confidence: self.confidence.larger(incoming.confidence),
            valid_until: later_end(self.valid_until, incoming.valid_until),
            updated_at: now,
            ..self
        }
    }

    /// What takes the place of this memory when another is written under its identifier: the time
    /// of creation stays, and the sensitivity does not fall.
    pub open spec fn replaced_by(self, incoming: MemoryModel) -> MemoryModel {
        MemoryModel {
            sensitivity: self.sensitivity.stricter(incoming.sensitivity),
            created_at: self.created_at,
            ..incoming
        }
    }
}

impl MemoryRecord {
    fn is_duplicate_of(&self, other: &MemoryRecord) -> (r: bool)
        ensures
            r == self@.duplicates(other@),
    {
        self.status == MemoryStatus::Active && same_text(
            self.namespace.as_str(),
            other.namespace.as_str(),
        ) && same_text(self.workspace_id.as_str(), other.workspace_id.as_str()) && same_text(
            self.content_hash.as_str(),
            other.content_hash.as_str(),
        )
    }

    /// This memory after the same content was offered again at `now`.
    pub fn merge(self, incoming: &MemoryRecord, now: i64) -> (r: MemoryRecord)
        ensures
            r@ == self@.merged_with(incoming@, now),
    {
        let mut merged = self;
        merged.sensitivity = merged.sensitivity.most_restrictive(incoming.sensitivity);
        merged.pinned = merged.pinned || incoming.pinned;
        merged.importance = merged.importance.max(incoming.importance);
        merged.confidence = merged.confidence.max(incoming.confidence);
        merged.valid_until = merge_valid_until(merged.valid_until, incoming.valid_until);
        merged.updated_at = now;
        merged
    }

    /// What takes the place of this memory when another is written under its identifier.
    pub fn replace(&self, incoming: MemoryRecord) -> (r: MemoryRecord)
        ensures
            r@ == self@.replaced_by(incoming@),
    {
        let mut replaced = incoming;
        replaced.sensitivity = self.sensitivity.most_restrictive(replaced.sensitivity);
        replaced.created_at = self.created_at;
        replaced
    }
}

/// Where the memory is stored already: the first one in use that says the same.
pub open spec fn duplicate_of(rows: Seq<MemoryModel>, m: MemoryModel) -> Option<int> {
    first_match(rows, |row: MemoryModel| row.duplicates(m))
}

/// Where the identifier is in use.
pub open spec fn position_of(rows: Seq<MemoryModel>, id: Seq<char>) -> Option<int> {
    first_match(rows, |row: MemoryModel| row.id == id)
}

fn find_duplicate(rows: &Vec<MemoryRecord>, memory: &MemoryRecord) -> (r: Option<usize>)
    ensures
        match r {
            Some(i) => duplicate_of(models(rows@), memory@) == Some(i as int) && i < rows@.len(),
            None => duplicate_of(models(rows@), memory@) is None,
        },
{
    let ghost all = models(rows@);
    let ghost p = |row: MemoryModel| row.duplicates(memory@);
    let mut i: usize = 0;
    while i < rows.len()
        invariant
            i <= rows@.len(),
            all == models(rows@),
            p == (|row: MemoryModel| row.duplicates(memory@)),
            forall|j: int| 0 <= j < i ==> !p(#[trigger] all[j]),
        decreases rows@.len() - i,
    {
        assert(all[i as int] == rows@[i as int]@);
        if rows[i].is_duplicate_of(memory) {
            proof {
                first_match_is(all, p, i as int);
            }
            return Some(i);
        }
        i += 1;
    }
    proof {
        first_match_facts(all, p);
    }
    None
}

fn find_id(rows: &Vec<MemoryRecord>, id: &str) -> (r: Option<usize>)
    ensures
        match r {
            Some(i) => position_of(models(rows@), id@) == Some(i as int) && i < rows@.len(),
            None => position_of(models(rows@), id@) is None,
        },
{
    let ghost all = models(rows@);
    let ghost p = |row: MemoryModel| row.id == id@;
    let mut i: usize = 0;
    while i < rows.len()
        invariant
            i <= rows@.len(),
            all == models(rows@),
            p == (|row: MemoryModel| row.id == id@),
            forall|j: int| 0 <= j < i ==> !p(#[trigger] all[j]),
        decreases rows@.len() - i,
    {
        assert(all[i as int] == rows@[i as int]@);
        if same_text(rows[i].id.as_str(), id) {
            proof {
                first_match_is(all, p, i as int);
            }
            return Some(i);
        }
        i += 1;
    }
    proof {
        first_match_facts(all, p);
    }
    None
}

/// What becomes of a memory that is to be remembered.
#[derive(Debug)]
pub enum RememberStep {
    /// It is handed back and not stored.
    Unstored(MemoryRecord),
    /// It is merged into a stored memory, which is now the given one.
    Merged(MemoryRecord),
    /// It is stored as it is.
    Inserted(MemoryRecord),
}

/// Decides what becomes of a memory: an ephemeral one is not stored, and one that says the same
/// as a stored memory in use is merged into it.
pub fn remember_step(record: MemoryRecord, rows: &Vec<MemoryRecord>, now: i64) -> (r: RememberStep)
    ensures
        record@.sensitivity == Sensitivity::Ephemeral ==> r == RememberStep::Unstored(record),
        record@.sensitivity != Sensitivity::Ephemeral ==> match duplicate_of(
            models(rows@),
            record@,
        ) {
            Some(i) => r matches RememberStep::Merged(m) && m@ == models(rows@)[i].merged_with(
                record@,
                now,
            ),
            None => r == RememberStep::Inserted(record),
        },
{
    if record.sensitivity == Sensitivity::Ephemeral {
        return RememberStep::Unstored(record);
    }
    match find_duplicate(rows, &record) {
        Some(i) => RememberStep::Merged(rows[i].clone().merge(&record, now)),
        None => RememberStep::Inserted(record),
    }
}

/// Memories, each under its own identifier.
#[derive(Debug)]
pub struct MemoryTable {
    rows: Vec<MemoryRecord>,
}

impl View for MemoryTable {
    type V = Seq<MemoryModel>;

    closed spec fn view(&self) -> Seq<MemoryModel> {
        models(self.rows@)
    }
}

/// The table after a memory was remembered.
pub open spec fn remembered(
    rows: Seq<MemoryModel>,
    m: MemoryModel,
    now: i64,
) -> Seq<MemoryModel> {
    if m.sensitivity == Sensitivity::Ephemeral {
        rows
    } else {
        match duplicate_of(rows, m) {
            Some(i) => rows.update(i, rows[i].merged_with(m, now)),
            None => rows.push(m),
        }
    }
}

/// The memory that is handed back when one was remembered.
pub open spec fn remembered_as(rows: Seq<MemoryModel>, m: MemoryModel, now: i64) -> MemoryModel {
    if m.sensitivity == Sensitivity::Ephemeral {
        m
    } else {
        match duplicate_of(rows, m) {
            Some(i) => rows[i].merged_with(m, now),
            None => m,
        }
    }
}

/// Whether a memory has to be stored as a new row whose identifier is taken.
pub open spec fn id_taken(rows: Seq<MemoryModel>, m: MemoryModel) -> bool {
    m.sensitivity != Sensitivity::Ephemeral && duplicate_of(rows, m) is None && lists_id(
        rows,
        m.id,
    )
}

/// Whether a memory in use with another identifier says the same.
pub open spec fn slot_taken(rows: Seq<MemoryModel>, m: MemoryModel) -> bool {
    m.status == MemoryStatus::Active && exists|i: int|
        0 <= i < rows.len() && (#[trigger] rows[i]).duplicates(m) && rows[i].id != m.id
}

/// The table after a memory was written under its identifier.
pub open spec fn upserted(rows: Seq<MemoryModel>, m: MemoryModel) -> Seq<MemoryModel> {
    match position_of(rows, m.id) {
        Some(i) => rows.update(i, rows[i].replaced_by(m)),
        None => rows.push(m),
    }
}

/// The table without the memory.
pub open spec fn forgotten(rows: Seq<MemoryModel>, id: Seq<char>) -> Seq<MemoryModel> {
    rows.filter(|m: MemoryModel| m.id != id)
}

/// The table without the memories that have run out.
pub open spec fn pruned(rows: Seq<MemoryModel>, now: i64) -> Seq<MemoryModel> {
    rows.filter(|m: MemoryModel| !m.expired_at(now))
}

/// The table after a read returned the memories.
pub open spec fn touched(
    rows: Seq<MemoryModel>,
    ids: Seq<Seq<char>>,
    now: i64,
) -> Seq<MemoryModel> {
    rows.map_values(
        |m: MemoryModel|
            if ids.contains(m.id) {
                m.touched_at(now)
            } else {
                m
            },
    )
}

/// The content of an optional string slice.
pub open spec fn optional_slice(s: Option<&str>) -> Option<Seq<char>> {
    match s {
        Some(text) => Some(text@),
        None => None,
    }
}

fn slot_is_taken(rows: &Vec<MemoryRecord>, memory: &MemoryRecord) -> (r: bool)
    ensures
        r == slot_taken(models(rows@), memory@),
{
    if memory.status != MemoryStatus::Active {
        return false;
    }
    let ghost all = models(rows@);
    let mut i: usize = 0;
    while i < rows.len()
        invariant
            i <= rows@.len(),
            all == models(rows@),
            memory.status == MemoryStatus::Active,
            forall|j: int|
                0 <= j < i ==> !((#[trigger] all[j]).duplicates(memory@) && all[j].id
                    != memory@.id),
        decreases rows@.len() - i,
    {
        assert(all[i as int] == rows@[i as int]@);
        if rows[i].is_duplicate_of(memory) && !same_text(
            rows[i].id.as_str(),
            memory.id.as_str(),
        ) {
            assert(all[i as int].duplicates(memory@));
            return true;
        }
        i += 1;
    }
    false
}

/// Why a new row is refused whose identifier is in use.
pub open spec fn taken_id_text() -> Seq<char> {
    "UNIQUE constraint failed: memories.id"@
}

/// Why a second row in use with the same content is refused.
pub open spec fn taken_slot_text() -> Seq<char> {
    "UNIQUE constraint failed: memories.namespace, memories.workspace_id, memories.content_hash"@
}

/// What writing a memory under its identifier does to a table, and what it returns.
pub open spec fn writing(
    before: Seq<MemoryModel>,
    m: MemoryModel,
    after: Seq<MemoryModel>,
    r: Result<()>,
) -> bool {
    if slot_taken(before, m) {
        fails(r, taken_slot_text()) && after == before
    } else {
        r is Ok && after == upserted(before, m)
    }
}

/// What setting the status of a memory at `now` does to a table, and what it returns.
pub open spec fn setting(
    before: Seq<MemoryModel>,
    id: Seq<char>,
    status: MemoryStatus,
    supersedes_id: Option<Seq<char>>,
    now: i64,
    after: Seq<MemoryModel>,
    r: Result<bool>,
) -> bool {
    match position_of(before, id) {
        Some(i) => {
            let row = before[i].with_status(status, supersedes_id, now);
            if slot_taken(before, row) {
                fails(r, taken_slot_text()) && after == before
            } else {
                r == Ok::<bool, MemoryError>(true) && after == before.update(i, row)
            }
        },
        None => r == Ok::<bool, MemoryError>(false) && after == before,
    }
}

/// What remembering a record at `now` does to a table, and what it returns.
pub open spec fn outcome(
    before: Seq<MemoryModel>,
    m: MemoryModel,
    now: i64,
    after: Seq<MemoryModel>,
    r: Result<MemoryRecord>,
) -> bool {
    if id_taken(before, m) {
        fails(r, taken_id_text()) && after == before
    } else {
        r matches Ok(stored) && stored@ == remembered_as(before, m, now) && after == remembered(
            before,
            m,
            now,
        )
    }
}

impl MemoryTable {
    /// Whether each identifier occurs once.
    pub open spec fn wf(&self) -> bool {
        distinct_ids(self@)
    }

    /// A table without memories.
    pub fn new() -> (r: MemoryTable)
        ensures
            r@ == Seq::<MemoryModel>::empty(),
            r.wf(),
    {
        let r = MemoryTable { rows: Vec::new() };
        assert(r@ =~= Seq::<MemoryModel>::empty());
        r
    }

    /// The memories, in the order in which they were stored.
    pub fn rows(&self) -> (r: &Vec<MemoryRecord>)
        ensures
            models(r@) == self@,
    {
        &self.rows
    }

    /// The memory with the identifier.
    pub fn get(&self, id: &str) -> (r: Option<&MemoryRecord>)
        ensures
            match position_of(self@, id@) {
                Some(i) => r matches Some(m) && m@ == self@[i],
                None => r is None,
            },
    {
        match find_id(&self.rows, id) {
            Some(i) => Some(&self.rows[i]),
            None => None,
        }
    }

    /// Remembers a memory whose record is made already.
    pub fn remember_record(&mut self, record: MemoryRecord, now: i64) -> (r: Result<MemoryRecord>)
        requires
            old(self).wf(),
        ensures
            final(self).wf(),
            outcome(old(self)@, record@, now, final(self)@, r),
    {
        let ghost before = self@;
        let ghost given = record@;
        match remember_step(record, &self.rows, now) {
            RememberStep::Unstored(record) => Ok(record),
            RememberStep::Merged(merged) => {
                proof {
                    first_match_facts(before, |row: MemoryModel| row.duplicates(given));
                }
                let ghost i = duplicate_of(before, given)->0;
                assert(merged@.id == before[i].id);
                let place = find_id(&self.rows, merged.id.as_str());
                proof {
                    first_match_facts(before, |row: MemoryModel| row.id == merged@.id);
                }
                match place {
                    Some(k) => {
                        assert(before[k as int].id == before[i].id);
                        self.rows.set(k, merged.clone());
                        assert(self@ =~= before.update(i, merged@));
                    },
                    None => {
                        assert(before[i].id == merged@.id);
                    },
                }
                Ok(merged)
            },
            RememberStep::Inserted(record) => {
                proof {
                    first_match_facts(before, |row: MemoryModel| row.id == given.id);
                }
                match find_id(&self.rows, record.id.as_str()) {
                    Some(k) => {
                        assert(before[k as int].id == given.id);
                        Err(storage("UNIQUE constraint failed: memories.id".to_owned()))
                    },
                    None => {
                        self.rows.push(record.clone());
                        assert(self@ =~= before.push(given));
                        Ok(record)
                    },
                }
            },
        }
    }

    /// Remembers a memory now, under a new random identifier.
    ///
    /// A new identifier that happens to be in use is refused.
    pub fn remember(&mut self, memory: NewMemory) -> (r: Result<MemoryRecord>)
        requires
            old(self).wf(),
        ensures
            final(self).wf(),
            !memory.has_content() <==> refuses(r, "content is empty"@),
            memory.has_content() && !memory.has_valid_weights() <==> refuses(
                r,
                "importance/confidence must be 0..1"@,
            ),
            r is Err ==> final(self)@ == old(self)@,
            memory.has_content() && memory.has_valid_weights() ==> exists|
                written: i64,
                id: Seq<char>,
                now: i64,
            | #[trigger]
                outcome(old(self)@, memory.record(written, id), now, final(self)@, r)
                    && is_fresh_id(id, "mem_"@) && clock_reading(written) && clock_reading(now),
    {
        let record = memory.into_record()?;
        let now: i64 = now_epoch();
        let ghost given = record@;
        let ghost before = self@;
        let r = self.remember_record(record, now);
        proof {
            assert(outcome(before, memory.record(given.created_at, given.id), now, self@, r));
        }
        r
    }

    /// Writes a memory under its identifier.
    pub fn upsert_record(&mut self, memory: &MemoryRecord) -> (r: Result<()>)
        requires
            old(self).wf(),
        ensures
            final(self).wf(),
            writing(old(self)@, memory@, final(self)@, r),
    {
        let ghost before = self@;
        if slot_is_taken(&self.rows, memory) {
            return Err(
                storage(
                    "UNIQUE constraint failed: memories.namespace, memories.workspace_id, memories.content_hash".to_owned(),
                ),
            );
        }
        proof {
            first_match_facts(before, |row: MemoryModel| row.id == memory@.id);
        }
        match find_id(&self.rows, memory.id.as_str()) {
            Some(k) => {
                assert(before[k as int].id == memory@.id);
                let row = self.rows[k].replace(memory.clone());
                self.rows.set(k, row);
                assert(self@ =~= upserted(before, memory@));
            },
            None => {
                self.rows.push(memory.clone());
                assert(self@ =~= before.push(memory@));
            },
        }
        Ok(())
    }

    /// Sets the status of a memory; false where there is none with the identifier.
    pub fn set_status(
        &mut self,
        id: &str,
        status: MemoryStatus,
        supersedes_id: Option<&str>,
        now: i64,
    ) -> (r: Result<bool>)
        requires
            old(self).wf(),
        ensures
            final(self).wf(),
            setting(
                old(self)@,
                id@,
                status,
                optional_slice(supersedes_id),
                now,
                final(self)@,
                r,
            ),
    {
        let ghost before = self@;
        proof {
            first_match_facts(before, |row: MemoryModel| row.id == id@);
        }
        match find_id(&self.rows, id) {
            Some(k) => {
                let keeper = match supersedes_id {
                    Some(text) => Some(text.to_owned()),
                    None => None,
                };
                let row = self.rows[k].clone().set_status(status, keeper, now);
                if slot_is_taken(&self.rows, &row) {
                    return Err(
                        storage(
                            "UNIQUE constraint failed: memories.namespace, memories.workspace_id, memories.content_hash".to_owned(),
                        ),
                    );
                }
                assert(before[k as int].id == id@);
                self.rows.set(k, row);
                assert(self@ =~= before.update(k as int, row@));
                Ok(true)
            },
            None => Ok(false),
        }
    }

    /// Notes that a read at `now` returned the memories.
    pub fn touch(&mut self, ids: &Vec<String>, now: i64)
        requires
            old(self).wf(),
            forall|i: int|
                0 <= i < old(self)@.len() && texts(ids@).contains((#[trigger] old(self)@[i]).id)
                    ==> old(self)@[i].access_count < u64::MAX,
        ensures
            final(self).wf(),
            final(self)@ == touched(old(self)@, texts(ids@), now),
    {
        let ghost before = self@;
        let ghost after = touched(before, texts(ids@), now);
        let mut i: usize = 0;
        while i < self.rows.len()
            invariant
                i <= self.rows@.len() == before.len(),
                after == touched(before, texts(ids@), now),
                forall|k: int|
                    0 <= k < before.len() && texts(ids@).contains((#[trigger] before[k]).id)
                        ==> before[k].access_count < u64::MAX,
                forall|k: int| 0 <= k < i ==> #[trigger] self@[k] == after[k],
                forall|k: int| i <= k < before.len() ==> #[trigger] self@[k] == before[k],
            decreases before.len() - i,
        {
            if contains_text(ids, self.rows[i].id.as_str()) {
                assert(self@[i as int] == before[i as int]);
                let row = self.rows[i].clone().touched(now);
                let ghost earlier = self@;
                self.rows.set(i, row);
                assert(self@ =~= earlier.update(i as int, row@));
                assert(row@ == after[i as int]);
            } else {
                assert(self@[i as int] == before[i as int]);
                assert(after[i as int] == before[i as int]);
            }
            i += 1;
        }
        assert(self@ =~= after);
        proof {
            touching_keeps_ids(before, texts(ids@), now);
        }
    }

    /// Takes every memory out of use whose content is in use more than once in the workspace, but
    /// for the most salient one, and counts them.
    pub fn consolidate_exact_duplicates(
        &mut self,
        namespace: &str,
        workspace_id: &str,
        now: i64,
    ) -> (r: usize)
        requires
            old(self).wf(),
        ensures
            final(self).wf(),
            final(self)@ == retired_rows(
                old(self)@,
                needed(old(self)@, namespace@, workspace_id@),
                now,
            ),
            r == needed(old(self)@, namespace@, workspace_id@).len(),
    {
        let ghost before = self@;
        let list = plan_consolidation(&self.rows, namespace, workspace_id);
        let ghost plan = replacement_models(list@);
        let ghost after = retired_rows(before, plan, now);
        let mut i: usize = 0;
        while i < self.rows.len()
            invariant
                i <= self.rows@.len() == before.len(),
                plan == replacement_models(list@),
                after == retired_rows(before, plan, now),
                forall|k: int| 0 <= k < i ==> #[trigger] self@[k] == after[k],
                forall|k: int| i <= k < before.len() ==> #[trigger] self@[k] == before[k],
            decreases before.len() - i,
        {
            assert(self@[i as int] == before[i as int]);
            let row = retire(self.rows[i].clone(), &list, now);
            let ghost earlier = self@;
            self.rows.set(i, row);
            assert(self@ =~= earlier.update(i as int, row@));
            i += 1;
        }
        assert(self@ =~= after);
        assert forall|i: int, j: int|
            0 <= i < after.len() && 0 <= j < after.len() && i != j implies #[trigger] after[i].id
            != #[trigger] after[j].id by {
            assert(after[i].id == before[i].id && after[j].id == before[j].id);
        }
        list.len()
    }

    fn remove_rows(&mut self, id: Option<&str>, now: Option<i64>) -> (r: usize)
        requires
            old(self).wf(),
        ensures
            final(self).wf(),
            final(self)@ == old(self)@.filter(
                |m: MemoryModel| stays(m, optional_slice(id), now),
            ),
            r == old(self)@.len() - final(self)@.len(),
    {
        let ghost before = self@;
        let ghost p = |m: MemoryModel| stays(m, optional_slice(id), now);
        let mut kept: Vec<MemoryRecord> = Vec::new();
        let mut i: usize = 0;
        let total: usize = self.rows.len();
        reveal(Seq::filter);
        assert(models(kept@) =~= before.take(0).filter(p));
        while i < self.rows.len()
            invariant
                i <= self.rows@.len(),
                self@ == before,
                total == before.len(),
                p == (|m: MemoryModel| stays(m, optional_slice(id), now)),
                models(kept@) == before.take(i as int).filter(p),
            decreases self.rows@.len() - i,
        {
            proof {
                reveal(Seq::filter);
                assert(before.take(i + 1).drop_last() =~= before.take(i as int));
                assert(before[i as int] == self.rows@[i as int]@);
            }
            let row = &self.rows[i];
            let named = match id {
                Some(text) => same_text(row.id.as_str(), text),
                None => false,
            };
            let over = match now {
                Some(time) => row.is_expired_at(time),
                None => false,
            };
            if !named && !over {
                let ghost earlier = models(kept@);
                kept.push(row.clone());
                assert(models(kept@) =~= earlier.push(before[i as int]));
            }
            i += 1;
        }
        proof {
            assert(before.take(before.len() as int) =~= before);
            before.lemma_filter_len(p);
            filter_distinct(before, p);
        }
        let gone: usize = total - kept.len();
        self.rows = kept;
        gone
    }

    /// Removes a memory; false where there is none with the identifier.
    pub fn forget(&mut self, id: &str) -> (r: bool)
        requires
            old(self).wf(),
        ensures
            final(self).wf(),
            final(self)@ == forgotten(old(self)@, id@),
            r == lists_id(old(self)@, id@),
    {
        let ghost before = self@;
        let found = find_id(&self.rows, id).is_some();
        self.remove_rows(Some(id), None);
        proof {
            first_match_facts(before, |row: MemoryModel| row.id == id@);
            assert((|m: MemoryModel| stays(m, Some(id@), None)) =~= (|m: MemoryModel| m.id != id@));
        }
        found
    }

    /// Removes the memories that have run out by `now` and counts them.
    pub fn prune_expired(&mut self, now: i64) -> (r: usize)
        requires
            old(self).wf(),
        ensures
            final(self).wf(),
            final(self)@ == pruned(old(self)@, now),
            r == old(self)@.len() - final(self)@.len(),
    {
        let gone = self.remove_rows(None, Some(now));
        assert((|m: MemoryModel| stays(m, None, Some(now))) =~= (|m: MemoryModel| !m.expired_at(now)));
        gone
    }
}

/// Whether a memory is kept when the named one, or those that have run out, are removed.
spec fn stays(m: MemoryModel, id: Option<Seq<char>>, now: Option<i64>) -> bool {
    &&& id matches Some(text) ==> m.id != text
    &&& now matches Some(time) ==> !m.expired_at(time)
}

proof fn touching_keeps_ids(rows: Seq<MemoryModel>, ids: Seq<Seq<char>>, now: i64)
    requires
        distinct_ids(rows),
    ensures
        distinct_ids(touched(rows, ids, now)),
{
    let after = touched(rows, ids, now);
    assert forall|i: int, j: int|
        0 <= i < after.len() && 0 <= j < after.len() && i != j implies #[trigger] after[i].id
        != #[trigger] after[j].id by {
        assert(after[i].id == rows[i].id && after[j].id == rows[j].id);
    }
}

/// No content of a workspace is in use twice.
pub open spec fn slots_unique(rows: Seq<MemoryModel>) -> bool {
    forall|i: int, j: int|
        0 <= i < rows.len() && 0 <= j < rows.len() && i != j && (#[trigger] rows[i]).status
            == MemoryStatus::Active && (#[trigger] rows[j]).status == MemoryStatus::Active
            ==> !rows[i].shares_slot(rows[j])
}

/// Each memory of the first table stands at the same position of the second, under the same
/// identifier and with a sensitivity that has not fallen.
pub open spec fn grows_into(before: Seq<MemoryModel>, after: Seq<MemoryModel>) -> bool {
    &&& before.len() <= after.len()
    &&& forall|i: int|
        0 <= i < before.len() ==> (#[trigger] after[i]).id == before[i].id
            && after[i].sensitivity.rank() >= before[i].sensitivity.rank()
}

/// Remembering a memory loses none and lowers no sensitivity: neither that of a stored memory
/// nor, where it is merged, that of the memory itself.
pub proof fn remembering_never_lowers_sensitivity(
    rows: Seq<MemoryModel>,
    m: MemoryModel,
    now: i64,
)
    ensures
        grows_into(rows, remembered(rows, m, now)),
        remembered_as(rows, m, now).sensitivity.rank() >= m.sensitivity.rank(),
{
    first_match_facts(rows, |row: MemoryModel| row.duplicates(m));
}

/// Writing a memory under its identifier loses no other memory and lowers no sensitivity: neither
/// that of the stored memory nor that of the memory itself.
pub proof fn writing_never_lowers_sensitivity(rows: Seq<MemoryModel>, m: MemoryModel)
    ensures
        grows_into(rows, upserted(rows, m)),
        exists|i: int|
            0 <= i < upserted(rows, m).len() && (#[trigger] upserted(rows, m)[i]).id == m.id
                && upserted(rows, m)[i].sensitivity.rank() >= m.sensitivity.rank(),
{
    first_match_facts(rows, |row: MemoryModel| row.id == m.id);
    let k = match position_of(rows, m.id) {
        Some(i) => i,
        None => rows.len() as int,
    };
    assert(upserted(rows, m)[k].id == m.id);
}

/// A change of status lowers no sensitivity.
pub proof fn status_never_lowers_sensitivity(
    rows: Seq<MemoryModel>,
    i: int,
    status: MemoryStatus,
    supersedes_id: Option<Seq<char>>,
    now: i64,
)
    requires
        0 <= i < rows.len(),
    ensures
        grows_into(rows, rows.update(i, rows[i].with_status(status, supersedes_id, now))),
{
}

/// An access lowers no sensitivity.
pub proof fn access_never_lowers_sensitivity(
    rows: Seq<MemoryModel>,
    ids: Seq<Seq<char>>,
    now: i64,
)
    ensures
        grows_into(rows, touched(rows, ids, now)),
{
}

/// Remembering keeps every content in use at most once.
pub proof fn remembering_keeps_slots_unique(rows: Seq<MemoryModel>, m: MemoryModel, now: i64)
    requires
        slots_unique(rows),
    ensures
        slots_unique(remembered(rows, m, now)),
{
    let p = |row: MemoryModel| row.duplicates(m);
    first_match_facts(rows, p);
    let after = remembered(rows, m, now);
    assert forall|i: int, j: int|
        0 <= i < after.len() && 0 <= j < after.len() && i != j && (#[trigger] after[i]).status
            == MemoryStatus::Active && (#[trigger] after[j]).status
            == MemoryStatus::Active implies !after[i].shares_slot(after[j]) by {
        if i < rows.len() && j < rows.len() {
            assert(rows[i].status == after[i].status && rows[j].status == after[j].status);
            assert(!rows[i].shares_slot(rows[j]));
        } else {
            let k = if i < rows.len() { i } else { j };
            assert(!p(rows[k]));
        }
    }
}

/// A write that is not refused keeps every content in use at most once.
pub proof fn writing_keeps_slots_unique(rows: Seq<MemoryModel>, m: MemoryModel)
    requires
        distinct_ids(rows),
        slots_unique(rows),
        !slot_taken(rows, m),
    ensures
        slots_unique(upserted(rows, m)),
        distinct_ids(upserted(rows, m)),
{
    first_match_facts(rows, |row: MemoryModel| row.id == m.id);
    let k = match position_of(rows, m.id) {
        Some(i) => i,
        None => rows.len() as int,
    };
    let after = upserted(rows, m);
    assert(k < rows.len() ==> rows[k].id == m.id);
    assert forall|i: int| 0 <= i < rows.len() && i != k implies (#[trigger] rows[i]).id
        != m.id by {
        if k < rows.len() {
            assert(rows[i].id != rows[k].id);
        } else {
            assert(!(|row: MemoryModel| row.id == m.id)(rows[i]));
        }
    }
    assert forall|i: int, j: int|
        0 <= i < after.len() && 0 <= j < after.len() && i != j && (#[trigger] after[i]).status
            == MemoryStatus::Active && (#[trigger] after[j]).status
            == MemoryStatus::Active implies !after[i].shares_slot(after[j]) by {
        if i == k {
            assert(after[j] == rows[j]);
            assert(!(rows[j].duplicates(m) && rows[j].id != m.id));
        } else if j == k {
            assert(after[i] == rows[i]);
            assert(!(rows[i].duplicates(m) && rows[i].id != m.id));
        } else {
            assert(after[i] == rows[i] && after[j] == rows[j]);
        }
    }
}

/// A change of status that is not refused keeps every content in use at most once.
pub proof fn status_keeps_slots_unique(
    rows: Seq<MemoryModel>,
    i: int,
    status: MemoryStatus,
    supersedes_id: Option<Seq<char>>,
    now: i64,
)
    requires
        distinct_ids(rows),
        slots_unique(rows),
        0 <= i < rows.len(),
        !slot_taken(rows, rows[i].with_status(status, supersedes_id, now)),
    ensures
        slots_unique(rows.update(i, rows[i].with_status(status, supersedes_id, now))),
{
    let row = rows[i].with_status(status, supersedes_id, now);
    let after = rows.update(i, row);
    assert forall|a: int, b: int|
        0 <= a < after.len() && 0 <= b < after.len() && a != b && (#[trigger] after[a]).status
            == MemoryStatus::Active && (#[trigger] after[b]).status
            == MemoryStatus::Active implies !after[a].shares_slot(after[b]) by {
        if a == i {
            assert(after[b] == rows[b]);
            assert(rows[b].id != rows[i].id);
            assert(!(rows[b].duplicates(row) && rows[b].id != row.id));
        } else if b == i {
            assert(after[a] == rows[a]);
            assert(rows[a].id != rows[i].id);
            assert(!(rows[a].duplicates(row) && rows[a].id != row.id));
        } else {
            assert(after[a] == rows[a] && after[b] == rows[b]);
        }
    }
}

/// Reading, pruning and forgetting keep every content in use at most once.
pub proof fn reading_and_removing_keep_slots_unique(
    rows: Seq<MemoryModel>,
    ids: Seq<Seq<char>>,
    id: Seq<char>,
    now: i64,
)
    requires
        slots_unique(rows),
    ensures
        slots_unique(touched(rows, ids, now)),
        slots_unique(pruned(rows, now)),
        slots_unique(forgotten(rows, id)),
{
    let read = touched(rows, ids, now);
    assert forall|a: int, b: int|
        0 <= a < read.len() && 0 <= b < read.len() && a != b && (#[trigger] read[a]).status
            == MemoryStatus::Active && (#[trigger] read[b]).status
            == MemoryStatus::Active implies !read[a].shares_slot(read[b]) by {
        assert(rows[a].status == read[a].status && rows[b].status == read[b].status);
        assert(!rows[a].shares_slot(rows[b]));
    }
    filter_keeps_slots_unique(rows, |m: MemoryModel| !m.expired_at(now));
    filter_keeps_slots_unique(rows, |m: MemoryModel| m.id != id);
}

proof fn filter_keeps_slots_unique(rows: Seq<MemoryModel>, p: spec_fn(MemoryModel) -> bool)
    requires
        slots_unique(rows),
    ensures
        slots_unique(rows.filter(p)),
    decreases rows.len(),
{
    reveal(Seq::filter);
    if rows.len() > 0 {
        let init = rows.drop_last();
        assert(slots_unique(init)) by {
            assert forall|i: int, j: int|
                0 <= i < init.len() && 0 <= j < init.len() && i != j && (
                #[trigger] init[i]).status == MemoryStatus::Active && (#[trigger] init[j]).status
                    == MemoryStatus::Active implies !init[i].shares_slot(init[j]) by {
                assert(init[i] == rows[i] && init[j] == rows[j]);
            }
        }
        filter_keeps_slots_unique(init, p);
        let out = rows.filter(p);
        let n = init.filter(p).len();
        assert forall|i: int, j: int|
            0 <= i < out.len() && 0 <= j < out.len() && i != j && (#[trigger] out[i]).status
                == MemoryStatus::Active && (#[trigger] out[j]).status
                == MemoryStatus::Active implies !out[i].shares_slot(out[j]) by {
            if i < n && j < n {
                assert(out[i] == init.filter(p)[i] && out[j] == init.filter(p)[j]);
            } else {
                let o = if i < n { i } else { j };
                assert(init.filter(p).contains(init.filter(p)[o]));
                init.lemma_filter_contains_rev(p, init.filter(p)[o]);
                let k = choose|k: int| 0 <= k < init.len() && init[k] == init.filter(p)[o];
                assert(rows[k].status == MemoryStatus::Active);
                assert(!rows[k].shares_slot(rows[rows.len() - 1]));
                assert(!rows[rows.len() - 1].shares_slot(rows[k]));
            }
        }
    }
}

/// A memory that is not ephemeral is found under the identifier that remembering it returned, as
/// it was returned.
pub proof fn remembered_memory_is_found(rows: Seq<MemoryModel>, m: MemoryModel, now: i64)
    requires
        distinct_ids(rows),
        m.sensitivity != Sensitivity::Ephemeral,
        !id_taken(rows, m),
    ensures
        ({
            let stored = remembered_as(rows, m, now);
            let after = remembered(rows, m, now);
            &&& distinct_ids(after)
            &&& position_of(after, stored.id) matches Some(i)
            &&& after[i] == stored
        }),
{
    let stored = remembered_as(rows, m, now);
    let after = remembered(rows, m, now);
    first_match_facts(rows, |row: MemoryModel| row.duplicates(m));
    let k = match duplicate_of(rows, m) {
        Some(i) => i,
        None => rows.len() as int,
    };
    assert(after[k] == stored);
    assert forall|i: int, j: int|
        0 <= i < after.len() && 0 <= j < after.len() && i != j implies #[trigger] after[i].id
        != #[trigger] after[j].id by {
        if i < rows.len() && j < rows.len() {
            assert(after[i].id == rows[i].id && after[j].id == rows[j].id);
        } else {
            let o = if i < rows.len() { i } else { j };
            assert(rows[o].id != m.id);
        }
    }
    let p = |row: MemoryModel| row.id == stored.id;
    first_match_facts(after, p);
    assert(p(after[k]));
}

/// Offering a content again, in use already, adds no memory: it is merged into the one that is
/// there.
pub proof fn repetition_adds_nothing(
    rows: Seq<MemoryModel>,
    first: MemoryModel,
    again: MemoryModel,
    now: i64,
    later: i64,
)
    requires
        first.status == MemoryStatus::Active,
        first.sensitivity != Sensitivity::Ephemeral,
        again.shares_slot(first),
    ensures
        ({
            let after = remembered(rows, first, now);
            &&& remembered(after, again, later).len() == after.len()
            &&& again.sensitivity != Sensitivity::Ephemeral ==> remembered_as(
                after,
                again,
                later,
            ).id == remembered_as(rows, first, now).id
        }),
{
    let after = remembered(rows, first, now);
    let p = |row: MemoryModel| row.duplicates(first);
    let q = |row: MemoryModel| row.duplicates(again);
    first_match_facts(rows, p);
    first_match_facts(after, q);
    let k = match duplicate_of(rows, first) {
        Some(i) => i,
        None => rows.len() as int,
    };
    assert(q(after[k]));
    assert forall|j: int| 0 <= j < k implies !q(#[trigger] after[j]) by {
        assert(after[j] == rows[j]);
        assert(!p(rows[j]));
    }
    first_match_is(after, q, k);
}

/// Two memories of one workspace with the same words, however they are spaced and written, are
/// stored as one: remembering the second adds no row and hands back the identifier of the first.
pub proof fn same_words_are_one_memory(
    rows: Seq<MemoryModel>,
    first: NewMemory,
    again: NewMemory,
    written: i64,
    id: Seq<char>,
    now: i64,
    rewritten: i64,
    other_id: Seq<char>,
    later: i64,
)
    requires
        first.namespace@ == again.namespace@,
        first.workspace_id@ == again.workspace_id@,
        normalized(first.content@) == normalized(again.content@),
        first.sensitivity != Sensitivity::Ephemeral,
        again.sensitivity != Sensitivity::Ephemeral,
    ensures
        ({
            let after = remembered(rows, first.record(written, id), now);
            let repeated = again.record(rewritten, other_id);
            &&& remembered(after, repeated, later).len() == after.len()
            &&& remembered_as(after, repeated, later).id == remembered_as(
                rows,
                first.record(written, id),
                now,
            ).id
        }),
{
    normalization_ignores_padding(first.content@);
    normalization_ignores_padding(again.content@);
    repetition_adds_nothing(
        rows,
        first.record(written, id),
        again.record(rewritten, other_id),
        now,
        later,
    );
}

/// What was forgotten is gone, and nothing else is.
pub proof fn forgetting_is_exact(rows: Seq<MemoryModel>, id: Seq<char>)
    ensures
        !lists_id(forgotten(rows, id), id),
        forall|m: MemoryModel| #[trigger]
            forgotten(rows, id).contains(m) <==> rows.contains(m) && m.id != id,
{
    let p = |m: MemoryModel| m.id != id;
    assert forall|m: MemoryModel| #[trigger] forgotten(rows, id).contains(m) <==> rows.contains(m)
        && m.id != id by {
        filter_values(rows, p, m);
    }
    let after = forgotten(rows, id);
    if lists_id(after, id) {
        let i = choose|i: int| 0 <= i < after.len() && #[trigger] after[i].id == id;
        rows.lemma_filter_pred(p, i);
    }
}

/// Pruning removes exactly what has run out; once it is done, there is nothing left to prune.
pub proof fn pruning_is_exact(rows: Seq<MemoryModel>, now: i64)
    ensures
        forall|m: MemoryModel| #[trigger]
            pruned(rows, now).contains(m) <==> rows.contains(m) && !m.expired_at(now),
        pruned(pruned(rows, now), now) == pruned(rows, now),
{
    let p = |m: MemoryModel| !m.expired_at(now);
    assert forall|m: MemoryModel| #[trigger] pruned(rows, now).contains(m) <==> rows.contains(m)
        && !m.expired_at(now) by {
        filter_values(rows, p, m);
    }
    filter_twice(rows, p);
}

proof fn filter_twice(rows: Seq<MemoryModel>, p: spec_fn(MemoryModel) -> bool)
    ensures
        rows.filter(p).filter(p) == rows.filter(p),
    decreases rows.len(),
{
    reveal(Seq::filter);
    if rows.len() > 0 {
        filter_twice(rows.drop_last(), p);
        let init = rows.drop_last().filter(p);
        if p(rows.last()) {
            assert(init.push(rows.last()).drop_last() =~= init);
        }
    }
}

/// What is ephemeral is never stored by remembering, and no merge makes a memory ephemeral.
pub proof fn ephemeral_is_never_stored(rows: Seq<MemoryModel>, m: MemoryModel, now: i64)
    requires
        forall|i: int|
            0 <= i < rows.len() ==> (#[trigger] rows[i]).sensitivity != Sensitivity::Ephemeral,
    ensures
        forall|i: int|
            0 <= i < remembered(rows, m, now).len() ==> (#[trigger] remembered(
                rows,
                m,
                now,
            )[i]).sensitivity != Sensitivity::Ephemeral,
        m.sensitivity == Sensitivity::Ephemeral ==> remembered(rows, m, now) == rows,
{
    first_match_facts(rows, |row: MemoryModel| row.duplicates(m));
}

/// The validity of two memories that become one ends when the later one ends, and not at all where
/// one of them has no end.
pub proof fn joined_validity_is_the_longer(existing: Option<i64>, incoming: Option<i64>, at: i64)
    ensures
        later_end(existing, incoming) is None <==> existing is None || incoming is None,
        later_end(existing, incoming) == existing || later_end(existing, incoming) == incoming,
        (later_end(existing, incoming) is Some && later_end(existing, incoming)->Some_0 <= at) <==> (
        existing is Some && existing->Some_0 <= at && incoming is Some && incoming->Some_0 <= at),
{
}

/// Merging loses nothing: importance and confidence are each below neither value, sensitivity is
/// below neither level, a pin of either stays, and the validity ends no earlier than either. All
/// else stays as it was stored, but for the time of the change.
pub proof fn merging_loses_nothing(stored: MemoryModel, offered: MemoryModel, now: i64)
    ensures
        ({
            let m = stored.merged_with(offered, now);
            &&& m.importance == stored.importance || m.importance == offered.importance
            &&& !stored.importance.nan() && !offered.importance.nan() ==> m.importance.order()
                >= stored.importance.order() && m.importance.order() >= offered.importance.order()
            &&& m.importance.nan() ==> stored.importance.nan() && offered.importance.nan()
            &&& m.confidence == stored.confidence || m.confidence == offered.confidence
            &&& !stored.confidence.nan() && !offered.confidence.nan() ==> m.confidence.order()
                >= stored.confidence.order() && m.confidence.order() >= offered.confidence.order()
            &&& m.confidence.nan() ==> stored.confidence.nan() && offered.confidence.nan()
            &&& m.sensitivity == stored.sensitivity || m.sensitivity == offered.sensitivity
            &&& m.sensitivity.rank() >= stored.sensitivity.rank()
            &&& m.sensitivity.rank() >= offered.sensitivity.rank()
            &&& m.pinned <==> stored.pinned || offered.pinned
            &&& m.valid_until is None <==> stored.valid_until is None || offered.valid_until is None
            &&& m.valid_until == stored.valid_until || m.valid_until == offered.valid_until
            &&& m.valid_until is Some ==> m.valid_until->Some_0 >= stored.valid_until->Some_0
                && m.valid_until->Some_0 >= offered.valid_until->Some_0
            &&& m.updated_at == now
            &&& stored == (MemoryModel {
                importance: stored.importance,
                confidence: stored.confidence,
                sensitivity: stored.sensitivity,
                pinned: stored.pinned,
                valid_until: stored.valid_until,
                updated_at: stored.updated_at,
                ..m
            })
        }),
{
}

/// Writing a memory under an identifier that is in use keeps the time of creation and the higher of
/// the two sensitivities; all else is as it is written.
pub proof fn replacing_keeps_creation(stored: MemoryModel, written: MemoryModel)
    ensures
        ({
            let m = stored.replaced_by(written);
            &&& m.created_at == stored.created_at
            &&& m.sensitivity == stored.sensitivity || m.sensitivity == written.sensitivity
            &&& m.sensitivity.rank() >= stored.sensitivity.rank()
            &&& m.sensitivity.rank() >= written.sensitivity.rank()
            &&& written == (MemoryModel {
                created_at: written.created_at,
                sensitivity: written.sensitivity,
                ..m
            })
        }),
{
}

/// Remembering a content that is in use in the workspace changes that one row and hands it back. It
/// adds none, and leaves every other row alone.
pub proof fn remembering_again_changes_one_row(
    before: Seq<MemoryModel>,
    m: MemoryModel,
    now: i64,
    after: Seq<MemoryModel>,
    r: Result<MemoryRecord>,
    k: int,
)
    requires
        outcome(before, m, now, after, r),
        m.sensitivity != Sensitivity::Ephemeral,
        0 <= k < before.len(),
        before[k].status == MemoryStatus::Active,
        before[k].namespace == m.namespace,
        before[k].workspace_id == m.workspace_id,
        before[k].content_hash == m.content_hash,
        forall|j: int|
            0 <= j < k ==> !((#[trigger] before[j]).status == MemoryStatus::Active
                && before[j].namespace == m.namespace && before[j].workspace_id == m.workspace_id
                && before[j].content_hash == m.content_hash),
    ensures
        r is Ok,
        after.len() == before.len(),
        forall|j: int| 0 <= j < before.len() && j != k ==> #[trigger] after[j] == before[j],
        r->Ok_0@ == after[k],
        after[k].id == before[k].id,
        after[k].content == before[k].content,
        after[k].created_at == before[k].created_at,
        after[k].access_count == before[k].access_count,
        after[k].updated_at == now,
        after[k].pinned <==> before[k].pinned || m.pinned,
        after[k].sensitivity.rank() >= before[k].sensitivity.rank(),
        after[k].sensitivity.rank() >= m.sensitivity.rank(),
        !before[k].importance.nan() && !m.importance.nan() ==> after[k].importance.order()
            >= before[k].importance.order() && after[k].importance.order() >= m.importance.order(),
        !before[k].confidence.nan() && !m.confidence.nan() ==> after[k].confidence.order()
            >= before[k].confidence.order() && after[k].confidence.order() >= m.confidence.order(),
        after[k].importance == before[k].importance || after[k].importance == m.importance,
        after[k].confidence == before[k].confidence || after[k].confidence == m.confidence,
        after[k].valid_until is None <==> before[k].valid_until is None || m.valid_until is None,
        after[k].valid_until matches Some(end) ==> end >= before[k].valid_until->Some_0 && end
            >= m.valid_until->Some_0 && (end == before[k].valid_until->Some_0 || end
            == m.valid_until->Some_0),
        after[k].kind == before[k].kind,
        after[k].status == before[k].status,
        after[k].scope == before[k].scope,
        after[k].metadata_json == before[k].metadata_json,
{
    let p = |row: MemoryModel| row.duplicates(m);
    assert forall|j: int| 0 <= j < k implies !p(#[trigger] before[j]) by {
        assert(before[j].status != MemoryStatus::Active || before[j].namespace != m.namespace
            || before[j].workspace_id != m.workspace_id || before[j].content_hash
            != m.content_hash);
    }
    assert(p(before[k]));
    first_match_is(before, p, k);
    merging_loses_nothing(before[k], m, now);
}

/// Remembering a content that is not in use in the workspace adds exactly the memory, at the end,
/// and hands it back; where its identifier is taken it is refused, and where it is ephemeral it is
/// only handed back. Neither changes anything.
pub proof fn remembering_something_new_adds_it(
    before: Seq<MemoryModel>,
    m: MemoryModel,
    now: i64,
    after: Seq<MemoryModel>,
    r: Result<MemoryRecord>,
)
    requires
        outcome(before, m, now, after, r),
        forall|j: int|
            0 <= j < before.len() ==> !((#[trigger] before[j]).status == MemoryStatus::Active
                && before[j].namespace == m.namespace && before[j].workspace_id == m.workspace_id
                && before[j].content_hash == m.content_hash),
    ensures
        m.sensitivity == Sensitivity::Ephemeral ==> after == before && r is Ok && r->Ok_0@ == m,
        m.sensitivity != Sensitivity::Ephemeral && (exists|j: int|
            0 <= j < before.len() && (#[trigger] before[j]).id == m.id) ==> after == before && r
            is Err,
        m.sensitivity != Sensitivity::Ephemeral && (forall|j: int|
            0 <= j < before.len() ==> (#[trigger] before[j]).id != m.id) ==> after == before.push(m)
            && r is Ok && r->Ok_0@ == m,
{
    let p = |row: MemoryModel| row.duplicates(m);
    first_match_facts(before, p);
    assert forall|j: int| 0 <= j < before.len() implies !p(#[trigger] before[j]) by {
        assert(before[j].status != MemoryStatus::Active || before[j].namespace != m.namespace
            || before[j].workspace_id != m.workspace_id || before[j].content_hash
            != m.content_hash);
    }
    assert(duplicate_of(before, m) is None);
}

/// What is ephemeral is handed back as it is and changes nothing, whatever is stored.
pub proof fn ephemeral_memories_pass_through(
    before: Seq<MemoryModel>,
    m: MemoryModel,
    now: i64,
    after: Seq<MemoryModel>,
    r: Result<MemoryRecord>,
)
    requires
        outcome(before, m, now, after, r),
        m.sensitivity == Sensitivity::Ephemeral,
    ensures
        after == before,
        r is Ok,
        r->Ok_0@ == m,
{
}

/// A write is refused exactly where another row in use has the content in the workspace and the
/// memory is to be in use too.
pub proof fn only_second_copies_in_use_are_refused(rows: Seq<MemoryModel>, m: MemoryModel)
    ensures
        slot_taken(rows, m) <==> m.status == MemoryStatus::Active && exists|i: int|
            {
                &&& 0 <= i < rows.len()
                &&& (#[trigger] rows[i]).id != m.id
                &&& rows[i].status == MemoryStatus::Active
                &&& rows[i].namespace == m.namespace
                &&& rows[i].workspace_id == m.workspace_id
                &&& rows[i].content_hash == m.content_hash
            },
{
    if m.status == MemoryStatus::Active {
        if slot_taken(rows, m) {
            let i = choose|i: int|
                0 <= i < rows.len() && (#[trigger] rows[i]).duplicates(m) && rows[i].id != m.id;
            assert(rows[i].id != m.id);
        }
        if exists|i: int|
            {
                &&& 0 <= i < rows.len()
                &&& (#[trigger] rows[i]).id != m.id
                &&& rows[i].status == MemoryStatus::Active
                &&& rows[i].namespace == m.namespace
                &&& rows[i].workspace_id == m.workspace_id
                &&& rows[i].content_hash == m.content_hash
            } {
            let i = choose|i: int|
                {
                    &&& 0 <= i < rows.len()
                    &&& (#[trigger] rows[i]).id != m.id
                    &&& rows[i].status == MemoryStatus::Active
                    &&& rows[i].namespace == m.namespace
                    &&& rows[i].workspace_id == m.workspace_id
                    &&& rows[i].content_hash == m.content_hash
                };
            assert(rows[i].duplicates(m));
        }
    }
}

/// Writing a memory changes the row with its identifier, or adds it at the end where there is none;
/// every other row stays.
pub proof fn writing_changes_one_row(rows: Seq<MemoryModel>, m: MemoryModel)
    requires
        distinct_ids(rows),
    ensures
        (forall|j: int| 0 <= j < rows.len() ==> (#[trigger] rows[j]).id != m.id) ==> upserted(
            rows,
            m,
        ) == rows.push(m),
        forall|k: int|
            0 <= k < rows.len() && (#[trigger] rows[k]).id == m.id ==> {
                &&& upserted(rows, m).len() == rows.len()
                &&& upserted(rows, m)[k].created_at == rows[k].created_at
                &&& upserted(rows, m)[k].sensitivity.rank() >= m.sensitivity.rank()
                &&& m == (MemoryModel {
                    created_at: m.created_at,
                    sensitivity: m.sensitivity,
                    ..upserted(rows, m)[k]
                })
            },
        forall|j: int|
            0 <= j < rows.len() && (#[trigger] rows[j]).id != m.id ==> upserted(rows, m)[j]
                == rows[j],
{
    let p = |row: MemoryModel| row.id == m.id;
    first_match_facts(rows, p);
    assert forall|k: int| 0 <= k < rows.len() && (#[trigger] rows[k]).id == m.id implies position_of(
        rows,
        m.id,
    ) == Some(k) by {
        assert(p(rows[k]));
        let i = position_of(rows, m.id)->0;
        if i != k {
            assert(rows[i].id != rows[k].id);
        }
    }
    if forall|j: int| 0 <= j < rows.len() ==> (#[trigger] rows[j]).id != m.id {
        if position_of(rows, m.id) is Some {
            assert(rows[position_of(rows, m.id)->0].id != m.id);
        }
    }
}

/// An identifier leads to the one row that has it.
pub proof fn identifiers_lead_to_rows(rows: Seq<MemoryModel>, id: Seq<char>)
    requires
        distinct_ids(rows),
    ensures
        position_of(rows, id) is None <==> forall|j: int|
            0 <= j < rows.len() ==> (#[trigger] rows[j]).id != id,
        forall|k: int|
            0 <= k < rows.len() && (#[trigger] rows[k]).id == id ==> position_of(rows, id)
                == Some(k),
        position_of(rows, id) matches Some(k) ==> 0 <= k < rows.len() && rows[k].id == id,
{
    let p = |row: MemoryModel| row.id == id;
    first_match_facts(rows, p);
    assert forall|k: int| 0 <= k < rows.len() && (#[trigger] rows[k]).id == id implies position_of(
        rows,
        id,
    ) == Some(k) by {
        assert(p(rows[k]));
        let i = position_of(rows, id)->0;
        if i != k {
            assert(rows[i].id != rows[k].id);
        }
    }
    if position_of(rows, id) is None {
        assert forall|j: int| 0 <= j < rows.len() implies (#[trigger] rows[j]).id != id by {
            assert(!p(rows[j]));
        }
    }
}

/// A read counts once for each memory that it returned, and for no other.
pub proof fn reading_touches_what_it_returned(
    rows: Seq<MemoryModel>,
    ids: Seq<Seq<char>>,
    now: i64,
    i: int,
)
    requires
        0 <= i < rows.len(),
        rows[i].access_count < u64::MAX,
    ensures
        touched(rows, ids, now).len() == rows.len(),
        !ids.contains(rows[i].id) ==> touched(rows, ids, now)[i] == rows[i],
        ids.contains(rows[i].id) ==> touched(rows, ids, now)[i].last_accessed_at == Some(now)
            && touched(rows, ids, now)[i].access_count == rows[i].access_count + 1 && rows[i] == (
        MemoryModel {
            last_accessed_at: rows[i].last_accessed_at,
            access_count: rows[i].access_count,
            ..touched(rows, ids, now)[i]
        }),
{
}

/// Removing keeps exactly the rows that are not named, or that have not run out, in their order.
pub proof fn removing_keeps_the_rest(rows: Seq<MemoryModel>, id: Seq<char>, now: i64)
    ensures
        forgotten(rows, id) == rows.filter(|m: MemoryModel| m.id != id),
        pruned(rows, now) == rows.filter(
            |m: MemoryModel| m.valid_until is None || m.valid_until->Some_0 > now,
        ),
        lists_id(rows, id) <==> exists|j: int| 0 <= j < rows.len() && (#[trigger] rows[j]).id == id,
{
    assert((|m: MemoryModel| !m.expired_at(now)) =~= (|m: MemoryModel|
        m.valid_until is None || m.valid_until->Some_0 > now));
}

/// Writing a memory is refused exactly where it would be the second one in use with its content; the
/// table stays as it was. Otherwise it stands under its identifier, and all others stay.
pub proof fn writing_stores_the_memory(
    before: Seq<MemoryModel>,
    m: MemoryModel,
    after: Seq<MemoryModel>,
    r: Result<()>,
)
    requires
        writing(before, m, after, r),
        distinct_ids(before),
    ensures
        r is Err <==> m.status == MemoryStatus::Active && exists|i: int|
            {
                &&& 0 <= i < before.len()
                &&& (#[trigger] before[i]).id != m.id
                &&& before[i].status == MemoryStatus::Active
                &&& before[i].namespace == m.namespace
                &&& before[i].workspace_id == m.workspace_id
                &&& before[i].content_hash == m.content_hash
            },
        r is Err ==> after == before,
        r is Ok ==> forall|j: int|
            0 <= j < before.len() && (#[trigger] before[j]).id != m.id ==> after[j] == before[j],
        r is Ok ==> exists|k: int|
            {
                &&& 0 <= k < after.len()
                &&& (#[trigger] after[k]).id == m.id
                &&& after[k].content == m.content && after[k].normalized_content
                    == m.normalized_content && after[k].content_hash == m.content_hash
                &&& after[k].namespace == m.namespace && after[k].workspace_id == m.workspace_id
                &&& after[k].kind == m.kind && after[k].scope == m.scope && after[k].status
                    == m.status
                &&& after[k].importance == m.importance && after[k].confidence == m.confidence
                &&& after[k].pinned == m.pinned && after[k].updated_at == m.updated_at
                &&& after[k].valid_from == m.valid_from && after[k].valid_until == m.valid_until
                &&& after[k].access_count == m.access_count && after[k].last_accessed_at
                    == m.last_accessed_at
                &&& after[k].supersedes_id == m.supersedes_id && after[k].metadata_json
                    == m.metadata_json
                &&& after[k].sensitivity.rank() >= m.sensitivity.rank()
            },
{
    only_second_copies_in_use_are_refused(before, m);
    writing_changes_one_row(before, m);
    identifiers_lead_to_rows(before, m.id);
    if r is Ok {
        let k = match position_of(before, m.id) {
            Some(i) => i,
            None => before.len() as int,
        };
        if position_of(before, m.id) is Some {
            assert(before[k].id == m.id);
            let row = after[k];
            assert(m == (MemoryModel {
                created_at: m.created_at,
                sensitivity: m.sensitivity,
                ..row
            }));
        }
        assert(after[k].id == m.id);
    }
}

/// Setting a status changes the memory with the identifier alone: its status, what supersedes it and
/// its time, and an open validity ends where it goes out of use. Where there is none, nothing changes;
/// where the memory would be the second one in use with its content, it is refused and nothing changes.
pub proof fn setting_status_changes_one_row(
    before: Seq<MemoryModel>,
    id: Seq<char>,
    status: MemoryStatus,
    supersedes_id: Option<Seq<char>>,
    now: i64,
    after: Seq<MemoryModel>,
    r: Result<bool>,
    k: int,
)
    requires
        setting(before, id, status, supersedes_id, now, after, r),
        distinct_ids(before),
    ensures
        after.len() == before.len(),
        r is Err ==> after == before && status == MemoryStatus::Active,
        r == Ok::<bool, MemoryError>(true) || r == Ok::<bool, MemoryError>(false) || r is Err,
        r == Ok::<bool, MemoryError>(false) <==> forall|j: int|
            0 <= j < before.len() ==> (#[trigger] before[j]).id != id,
        r == Ok::<bool, MemoryError>(false) ==> after == before,
        0 <= k < before.len() && before[k].id != id ==> after[k] == before[k],
        0 <= k < before.len() && before[k].id == id ==> (r is Err <==> status
            == MemoryStatus::Active && exists|i: int|
            {
                &&& 0 <= i < before.len()
                &&& (#[trigger] before[i]).id != id
                &&& before[i].status == MemoryStatus::Active
                &&& before[i].namespace == before[k].namespace
                &&& before[i].workspace_id == before[k].workspace_id
                &&& before[i].content_hash == before[k].content_hash
            }),
        0 <= k < before.len() && before[k].id == id && r is Ok ==> {
            &&& after[k].status == status
            &&& after[k].supersedes_id == supersedes_id
            &&& after[k].updated_at == now
            &&& status == MemoryStatus::Active || before[k].valid_until is Some
                ==> after[k].valid_until == before[k].valid_until
            &&& status != MemoryStatus::Active && before[k].valid_until is None
                ==> after[k].valid_until == Some(now)
            &&& after[k].id == id && after[k].content == before[k].content && after[k].content_hash
                == before[k].content_hash && after[k].importance == before[k].importance
                && after[k].confidence == before[k].confidence && after[k].pinned
                == before[k].pinned && after[k].sensitivity == before[k].sensitivity
                && after[k].created_at == before[k].created_at && after[k].access_count
                == before[k].access_count
        },
{
    identifiers_lead_to_rows(before, id);
    if position_of(before, id) is Some {
        let i = position_of(before, id)->0;
        let row = before[i].with_status(status, supersedes_id, now);
        only_second_copies_in_use_are_refused(before, row);
        assert(before[i].id == id);
    }
}

} // verus!
