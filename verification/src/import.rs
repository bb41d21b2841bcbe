use vstd::prelude::*;

use crate::clock::{to_unsigned, unsigned};
use crate::error::{fails, Result};
use crate::find::{first_match, first_match_facts, first_match_is};
use crate::kinds::{MemoryKind, MemoryScope, MemoryStatus, Sensitivity};
use crate::memory::{models, optional_text, MemoryModel, MemoryRecord};
use crate::recall::distinct_ids;
use crate::single::Single;
use crate::table::{
    grows_into, position_of, slot_taken, slots_unique, taken_slot_text,
    upserted, writing_keeps_slots_unique, writing_never_lowers_sensitivity, MemoryTable,
};
use crate::text::same_text;

verus! {

/// A memory as an agent's own history holds it.
#[derive(Debug)]
pub struct LegacyRow {
    pub id: String,
    pub workspace_id: String,
    pub kind: String,
    pub content: String,
    pub normalized_content: String,
    pub status: String,
    pub importance: Single,
    pub confidence: Single,
    pub created_at: i64,
    pub updated_at: i64,
    pub last_accessed_at: Option<i64>,
    pub access_count: i64,
    pub valid_from: Option<i64>,
    pub valid_until: Option<i64>,
    pub supersedes_id: Option<String>,
    pub content_hash: String,
    pub pinned: i64,
    pub metadata_json: Option<String>,
}

impl LegacyRow {
    /// The memory that the row holds: private, for its workspace, and valid from the time of its
    /// creation where it does not say otherwise.
    pub open spec fn decoded(&self) -> MemoryModel {
        MemoryModel {
            id: self.id@,
            namespace: "agent-cli"@,
            workspace_id: self.workspace_id@,
            kind: MemoryKind::named(self.kind@),
            content: self.content@,
            normalized_content: self.normalized_content@,
            status: MemoryStatus::named(self.status@),
            sensitivity: Sensitivity::Private,
            scope: MemoryScope::Workspace,
            importance: self.importance,
            confidence: self.confidence,
            created_at: self.created_at,
            updated_at: self.updated_at,
            last_accessed_at: self.last_accessed_at,
            access_count: unsigned(self.access_count) as u64,
            valid_from: match self.valid_from {
                Some(t) => t,
                None => self.created_at,
            },
            valid_until: self.valid_until,
            supersedes_id: optional_text(self.supersedes_id),
            content_hash: self.content_hash@,
            pinned: self.pinned != 0,
            metadata_json: match self.metadata_json {
                Some(text) => text@,
                None => "{}"@,
            },
        }
    }

    /// The memory that the row holds.
    pub fn decode(&self) -> (r: MemoryRecord)
        ensures
            r@ == self.decoded(),
    {
        MemoryRecord {
            id: self.id.clone(),
            namespace: "agent-cli".to_owned(),
            workspace_id: self.workspace_id.clone(),
            kind: MemoryKind::from_db(self.kind.as_str()),
            content: self.content.clone(),
            normalized_content: self.normalized_content.clone(),
            status: MemoryStatus::from_db(self.status.as_str()),
            sensitivity: Sensitivity::Private,
            scope: MemoryScope::Workspace,
            importance: self.importance,
            confidence: self.confidence,
            created_at: self.created_at,
            updated_at: self.updated_at,
            last_accessed_at: self.last_accessed_at,
            access_count: to_unsigned(self.access_count),
            valid_from: match self.valid_from {
                Some(t) => t,
                None => self.created_at,
            },
            valid_until: self.valid_until,
            supersedes_id: match &self.supersedes_id {
                Some(text) => Some(text.clone()),
                None => None,
            },
            content_hash: self.content_hash.clone(),
            pinned: self.pinned != 0,
            metadata_json: match &self.metadata_json {
                Some(text) => text.clone(),
                None => "{}".to_owned(),
            },
        }
    }
}

/// A content that was imported in use, and under which identifier.
#[derive(Debug)]
pub struct SeenContent {
    pub workspace_id: String,
    pub content_hash: String,
    pub id: String,
}

/// What a `SeenContent` says.
#[verifier::ext_equal]
pub struct SeenModel {
    pub workspace_id: Seq<char>,
    pub content_hash: Seq<char>,
    pub id: Seq<char>,
}

impl View for SeenContent {
    type V = SeenModel;

    open spec fn view(&self) -> SeenModel {
        SeenModel {
            workspace_id: self.workspace_id@,
            content_hash: self.content_hash@,
            id: self.id@,
        }
    }
}

/// The identifier under which the content was imported.
pub open spec fn seen_as(
    seen: Seq<SeenModel>,
    workspace_id: Seq<char>,
    content_hash: Seq<char>,
) -> Option<Seq<char>>
    decreases seen.len(),
{
    if seen.len() == 0 {
        None
    } else if seen.last().workspace_id == workspace_id && seen.last().content_hash
        == content_hash {
        Some(seen.last().id)
    } else {
        seen_as(seen.drop_last(), workspace_id, content_hash)
    }
}

/// The contents that have been imported in use so far.
#[derive(Debug)]
pub struct LegacyImport {
    seen: Vec<SeenContent>,
}

impl View for LegacyImport {
    type V = Seq<SeenModel>;

    closed spec fn view(&self) -> Seq<SeenModel> {
        Seq::new(self.seen@.len(), |i: int| self.seen@[i]@)
    }
}

/// The memory as it is imported: one whose content is in use already is superseded by the first
/// that had it, and its validity ends when it was changed last.
pub open spec fn admitted(seen: Seq<SeenModel>, m: MemoryModel) -> MemoryModel {
    if m.status == MemoryStatus::Active {
        match seen_as(seen, m.workspace_id, m.content_hash) {
            Some(keeper) => m.with_status(MemoryStatus::Superseded, Some(keeper), m.updated_at),
            None => m,
        }
    } else {
        m
    }
}

/// The contents in use, once the memory has been imported.
pub open spec fn seen_after(seen: Seq<SeenModel>, m: MemoryModel) -> Seq<SeenModel> {
    if m.status == MemoryStatus::Active && seen_as(seen, m.workspace_id, m.content_hash) is None {
        seen.push(
            SeenModel { workspace_id: m.workspace_id, content_hash: m.content_hash, id: m.id },
        )
    } else {
        seen
    }
}

impl LegacyImport {
    /// An import that has seen nothing yet.
    pub fn new() -> (r: LegacyImport)
        ensures
            r@ == Seq::<SeenModel>::empty(),
    {
        let r = LegacyImport { seen: Vec::new() };
        assert(r@ =~= Seq::<SeenModel>::empty());
        r
    }

    fn keeper(&self, memory: &MemoryRecord) -> (r: Option<usize>)
        ensures
            match r {
                Some(k) => k < self@.len() && seen_as(
                    self@,
                    memory@.workspace_id,
                    memory@.content_hash,
                ) == Some(self@[k as int].id),
                None => seen_as(self@, memory@.workspace_id, memory@.content_hash) is None,
            },
    {
        let ghost all = self@;
        let mut k: usize = self.seen.len();
        assert(all.take(k as int) =~= all);
        while k > 0
            invariant
                k <= self.seen@.len(),
                all == self@,
                seen_as(all, memory@.workspace_id, memory@.content_hash) == seen_as(
                    all.take(k as int),
                    memory@.workspace_id,
                    memory@.content_hash,
                ),
            decreases k,
        {
            assert(all.take(k as int).last() == all[k - 1]);
            assert(all.take(k as int).drop_last() =~= all.take(k - 1));
            k -= 1;
            if same_text(self.seen[k].workspace_id.as_str(), memory.workspace_id.as_str())
                && same_text(self.seen[k].content_hash.as_str(), memory.content_hash.as_str()) {
                return Some(k);
            }
        }
        None
    }

    /// Takes the next memory in: what is stored in its place, given what came before it.
    pub fn take_in(&mut self, memory: MemoryRecord) -> (r: MemoryRecord)
        ensures
            r@ == admitted(old(self)@, memory@),
            final(self)@ == seen_after(old(self)@, memory@),
    {
        if memory.status != MemoryStatus::Active {
            return memory;
        }
        match self.keeper(&memory) {
            Some(k) => {
                let keeper = self.seen[k].id.clone();
                let time: i64 = memory.updated_at;
                memory.set_status(MemoryStatus::Superseded, Some(keeper), time)
            },
            None => {
                let ghost before = self@;
                let entry = SeenContent {
                    workspace_id: memory.workspace_id.clone(),
                    content_hash: memory.content_hash.clone(),
                    id: memory.id.clone(),
                };
                let ghost model = entry@;
                self.seen.push(entry);
                assert(self@ =~= before.push(model));
                memory
            },
        }
    }
}

/// The contents in use, once the memories have been imported.
pub open spec fn seen_all(list: Seq<MemoryModel>) -> Seq<SeenModel>
    decreases list.len(),
{
    if list.len() == 0 {
        Seq::empty()
    } else {
        seen_after(seen_all(list.drop_last()), list.last())
    }
}

/// The memories as they are imported, one after the other.
pub open spec fn admitted_all(list: Seq<MemoryModel>) -> Seq<MemoryModel> {
    Seq::new(list.len(), |i: int| admitted(seen_all(list.take(i)), list[i]))
}

/// The table after the memories were written, one after the other.
pub open spec fn written(rows: Seq<MemoryModel>, list: Seq<MemoryModel>) -> Seq<MemoryModel>
    decreases list.len(),
{
    if list.len() == 0 {
        rows
    } else {
        upserted(written(rows, list.drop_last()), list.last())
    }
}

/// Whether each of the memories can be written after those before it.
pub open spec fn writable(rows: Seq<MemoryModel>, list: Seq<MemoryModel>) -> bool
    decreases list.len(),
{
    list.len() == 0 || (writable(rows, list.drop_last()) && !slot_taken(
        written(rows, list.drop_last()),
        list.last(),
    ))
}

/// The memories that legacy rows hold.
pub open spec fn legacy_models(rows: Seq<LegacyRow>) -> Seq<MemoryModel> {
    Seq::new(rows.len(), |i: int| rows[i].decoded())
}

impl MemoryTable {
    /// Imports legacy rows and counts them; stops at the first that cannot be written.
    pub fn import_legacy(&mut self, rows: &Vec<LegacyRow>) -> (r: Result<usize>)
        requires
            old(self).wf(),
        ensures
            final(self).wf(),
            ({
                let list = admitted_all(legacy_models(rows@));
                if writable(old(self)@, list) {
                    r matches Ok(n) && n == rows@.len() && final(self)@ == written(old(self)@, list)
                } else {
                    fails(r, taken_slot_text()) && exists|k: int|
                        {
                            &&& 0 <= k < list.len()
                            &&& writable(old(self)@, #[trigger] list.take(k))
                            &&& !writable(old(self)@, list.take(k + 1))
                            &&& final(self)@ == written(old(self)@, list.take(k))
                        }
                }
            }),
    {
        let ghost before = self@;
        let ghost models = legacy_models(rows@);
        let ghost list = admitted_all(models);
        let mut import = LegacyImport::new();
        let mut count: usize = 0;
        while count < rows.len()
            invariant
                self.wf(),
                before == old(self)@,
                count <= rows@.len(),
                models == legacy_models(rows@),
                list == admitted_all(models),
                import@ == seen_all(models.take(count as int)),
                writable(before, list.take(count as int)),
                self@ == written(before, list.take(count as int)),
            decreases rows@.len() - count,
        {
            proof {
                assert(models.take(count + 1).drop_last() =~= models.take(count as int));
                assert(list.take(count + 1).drop_last() =~= list.take(count as int));
                assert(list.take(count + 1).last() == list[count as int]);
            }
            let memory = import.take_in(rows[count].decode());
            match self.upsert_record(&memory) {
                Ok(()) => {
                    count += 1;
                },
                Err(e) => {
                    proof {
                        assert(!writable(before, list.take(count + 1)));
                        not_writable_later(before, list, count + 1);
                    }
                    return Err(e);
                },
            }
        }
        assert(list.take(list.len() as int) =~= list);
        Ok(count)
    }
}

proof fn not_writable_later(rows: Seq<MemoryModel>, list: Seq<MemoryModel>, n: int)
    requires
        0 <= n <= list.len(),
        !writable(rows, list.take(n)),
    ensures
        !writable(rows, list),
    decreases list.len(),
{
    if n == list.len() {
        assert(list.take(n) =~= list);
    } else {
        assert(list.drop_last().take(n) =~= list.take(n));
        not_writable_later(rows, list.drop_last(), n);
    }
}

proof fn seen_stays(list: Seq<MemoryModel>, j: int)
    requires
        0 <= j < list.len(),
        list[j].status == MemoryStatus::Active,
    ensures
        seen_as(seen_all(list), list[j].workspace_id, list[j].content_hash) is Some,
    decreases list.len(),
{
    let init = list.drop_last();
    let before = seen_all(init);
    let m = list.last();
    if j < list.len() - 1 {
        seen_stays(init, j);
        assert(init[j] == list[j]);
    }
    let more = SeenModel {
        workspace_id: m.workspace_id,
        content_hash: m.content_hash,
        id: m.id,
    };
    assert(before.push(more).drop_last() =~= before);
}

/// Of the imported memories, no two in use have the same content in the same workspace.
pub proof fn import_keeps_one_in_use(list: Seq<MemoryModel>)
    ensures
        slots_unique(admitted_all(list)),
{
    let out = admitted_all(list);
    assert forall|i: int, j: int|
        0 <= i < out.len() && 0 <= j < out.len() && i != j && (#[trigger] out[i]).status
            == MemoryStatus::Active && (#[trigger] out[j]).status
            == MemoryStatus::Active implies !out[i].shares_slot(out[j]) by {
        let (lo, hi) = if i < j { (i, j) } else { (j, i) };
        assert(out[lo] == list[lo] && out[hi] == list[hi]);
        if out[i].shares_slot(out[j]) {
            assert(list.take(hi)[lo] == list[lo]);
            seen_stays(list.take(hi), lo);
        }
    }
}

/// Importing changes no identifier, and what it takes out of use stays on record.
pub proof fn import_keeps_identifiers(list: Seq<MemoryModel>)
    ensures
        admitted_all(list).len() == list.len(),
        forall|i: int|
            0 <= i < list.len() ==> (#[trigger] admitted_all(list)[i]).id == list[i].id
                && admitted_all(list)[i].content == list[i].content
                && admitted_all(list)[i].sensitivity == list[i].sensitivity
                && admitted_all(list)[i].updated_at == list[i].updated_at,
{
}

/// Writing memories lowers no sensitivity.
pub proof fn import_never_lowers_sensitivity(rows: Seq<MemoryModel>, list: Seq<MemoryModel>)
    ensures
        grows_into(rows, written(rows, list)),
    decreases list.len(),
{
    if list.len() > 0 {
        import_never_lowers_sensitivity(rows, list.drop_last());
        let before = written(rows, list.drop_last());
        writing_never_lowers_sensitivity(before, list.last());
        let after = upserted(before, list.last());
        assert forall|i: int| 0 <= i < rows.len() implies (#[trigger] after[i]).id == rows[i].id
            && after[i].sensitivity.rank() >= rows[i].sensitivity.rank() by {
            assert(before[i].id == rows[i].id);
        }
    }
}

/// The memory stands in the table in such a way that writing it again changes nothing.
spec fn settled(rows: Seq<MemoryModel>, m: MemoryModel) -> bool {
    exists|i: int|
        0 <= i < rows.len() && (#[trigger] rows[i]).id == m.id && rows[i] == rows[i].replaced_by(m)
}

proof fn settled_is_fixed(rows: Seq<MemoryModel>, m: MemoryModel)
    requires
        distinct_ids(rows),
        slots_unique(rows),
        settled(rows, m),
    ensures
        upserted(rows, m) == rows,
        !slot_taken(rows, m),
{
    let k = choose|i: int|
        0 <= i < rows.len() && (#[trigger] rows[i]).id == m.id && rows[i] == rows[i].replaced_by(m);
    let p = |row: MemoryModel| row.id == m.id;
    first_match_facts(rows, p);
    assert(p(rows[k]));
    let i = position_of(rows, m.id)->0;
    assert(i == k) by {
        if i != k {
            assert(rows[i].id != rows[k].id);
        }
    }
    assert(upserted(rows, m) =~= rows);
    if slot_taken(rows, m) {
        let j = choose|j: int|
            0 <= j < rows.len() && (#[trigger] rows[j]).duplicates(m) && rows[j].id != m.id;
        assert(rows[k].status == MemoryStatus::Active);
        assert(!rows[j].shares_slot(rows[k]));
    }
}

proof fn writing_settles(rows: Seq<MemoryModel>, m: MemoryModel, other: MemoryModel)
    requires
        distinct_ids(rows),
    ensures
        settled(upserted(rows, m), m),
        other.id != m.id && settled(rows, other) ==> settled(upserted(rows, m), other),
{
    let p = |row: MemoryModel| row.id == m.id;
    first_match_facts(rows, p);
    let after = upserted(rows, m);
    let k = match position_of(rows, m.id) {
        Some(i) => i,
        None => rows.len() as int,
    };
    assert(after[k].id == m.id && after[k] == after[k].replaced_by(m));
    if other.id != m.id && settled(rows, other) {
        let i = choose|i: int|
            0 <= i < rows.len() && (#[trigger] rows[i]).id == other.id && rows[i]
                == rows[i].replaced_by(other);
        assert(after[i] == rows[i]);
    }
}

proof fn written_facts(rows: Seq<MemoryModel>, list: Seq<MemoryModel>)
    requires
        distinct_ids(rows),
        slots_unique(rows),
        distinct_ids(list),
        writable(rows, list),
    ensures
        distinct_ids(written(rows, list)),
        slots_unique(written(rows, list)),
        forall|i: int| 0 <= i < list.len() ==> settled(written(rows, list), #[trigger] list[i]),
    decreases list.len(),
{
    if list.len() > 0 {
        let init = list.drop_last();
        assert(distinct_ids(init)) by {
            assert forall|i: int, j: int|
                0 <= i < init.len() && 0 <= j < init.len() && i != j implies #[trigger] init[i].id
                != #[trigger] init[j].id by {
                assert(list[i].id != list[j].id);
            }
        }
        written_facts(rows, init);
        let before = written(rows, init);
        writing_keeps_slots_unique(before, list.last());
        assert forall|i: int| 0 <= i < list.len() implies settled(
            written(rows, list),
            #[trigger] list[i],
        ) by {
            if i < list.len() - 1 {
                assert(settled(before, init[i]));
                assert(list[i].id != list[list.len() - 1].id);
            }
            writing_settles(before, list.last(), list[i]);
        }
    }
}

proof fn settled_list_is_fixed(rows: Seq<MemoryModel>, list: Seq<MemoryModel>)
    requires
        distinct_ids(rows),
        slots_unique(rows),
        forall|i: int| 0 <= i < list.len() ==> settled(rows, #[trigger] list[i]),
    ensures
        writable(rows, list),
        written(rows, list) == rows,
    decreases list.len(),
{
    if list.len() > 0 {
        assert forall|i: int| 0 <= i < list.drop_last().len() implies settled(
            rows,
            #[trigger] list.drop_last()[i],
        ) by {
            assert(settled(rows, list[i]));
        }
        settled_list_is_fixed(rows, list.drop_last());
        assert(settled(rows, list[list.len() - 1]));
        settled_is_fixed(rows, list.last());
    }
}

/// Migration is idempotent: once an import went through, importing the same rows again goes
/// through too and changes nothing.
pub proof fn import_is_idempotent(rows: Seq<MemoryModel>, list: Seq<MemoryModel>)
    requires
        distinct_ids(rows),
        slots_unique(rows),
        distinct_ids(list),
        writable(rows, admitted_all(list)),
    ensures
        ({
            let after = written(rows, admitted_all(list));
            &&& distinct_ids(after)
            &&& slots_unique(after)
            &&& writable(after, admitted_all(list))
            &&& written(after, admitted_all(list)) == after
        }),
{
    let out = admitted_all(list);
    assert(distinct_ids(out)) by {
        assert forall|i: int, j: int|
            0 <= i < out.len() && 0 <= j < out.len() && i != j implies #[trigger] out[i].id
            != #[trigger] out[j].id by {
            assert(out[i].id == list[i].id && out[j].id == list[j].id);
        }
    }
    written_facts(rows, out);
    settled_list_is_fixed(written(rows, out), out);
}

proof fn written_into_empty(out: Seq<MemoryModel>, n: int)
    requires
        0 <= n <= out.len(),
        distinct_ids(out),
        slots_unique(out),
    ensures
        writable(Seq::empty(), out.take(n)),
        written(Seq::empty(), out.take(n)) == out.take(n),
    decreases n,
{
    if n > 0 {
        written_into_empty(out, n - 1);
        let m = out[n - 1];
        let before = out.take(n - 1);
        assert(out.take(n).drop_last() =~= before);
        assert(out.take(n) =~= before.push(m));
        let p = |row: MemoryModel| row.id == m.id;
        first_match_facts(before, p);
        assert forall|i: int| 0 <= i < before.len() implies !p(#[trigger] before[i]) by {
            assert(out[i].id != out[n - 1].id);
        }
        if slot_taken(before, m) {
            let j = choose|j: int|
                0 <= j < before.len() && (#[trigger] before[j]).duplicates(m) && before[j].id
                    != m.id;
            assert(out[j].status == MemoryStatus::Active && out[n - 1].status
                == MemoryStatus::Active);
            assert(!out[j].shares_slot(out[n - 1]));
        }
    } else {
        assert(out.take(0) =~= Seq::<MemoryModel>::empty());
    }
}

/// An import into an empty table goes through, and the table then holds the memories as they were
/// taken in.
pub proof fn import_into_empty_goes_through(list: Seq<MemoryModel>)
    requires
        distinct_ids(list),
    ensures
        writable(Seq::empty(), admitted_all(list)),
        written(Seq::empty(), admitted_all(list)) == admitted_all(list),
{
    let out = admitted_all(list);
    assert(distinct_ids(out)) by {
        assert forall|i: int, j: int|
            0 <= i < out.len() && 0 <= j < out.len() && i != j implies #[trigger] out[i].id
            != #[trigger] out[j].id by {
            assert(out[i].id == list[i].id && out[j].id == list[j].id);
        }
    }
    import_keeps_one_in_use(list);
    written_into_empty(out, out.len() as int);
    assert(out.take(out.len() as int) =~= out);
}

/// The content of a memory counts as imported under the identifier of the first memory in use that
/// has it.
proof fn seen_is_the_first(list: Seq<MemoryModel>, workspace_id: Seq<char>, hash: Seq<char>)
    ensures
        ({
            let p = |m: MemoryModel|
                m.status == MemoryStatus::Active && m.workspace_id == workspace_id
                    && m.content_hash == hash;
            seen_as(seen_all(list), workspace_id, hash) == (match first_match(list, p) {
                Some(j) => Some(list[j].id),
                None => None,
            })
        }),
    decreases list.len(),
{
    let p = |m: MemoryModel|
        m.status == MemoryStatus::Active && m.workspace_id == workspace_id && m.content_hash
            == hash;
    if list.len() > 0 {
        let init = list.drop_last();
        let m = list.last();
        let before = seen_all(init);
        seen_is_the_first(init, workspace_id, hash);
        first_match_facts(init, p);
        let more = SeenModel {
            workspace_id: m.workspace_id,
            content_hash: m.content_hash,
            id: m.id,
        };
        assert(before.push(more).drop_last() =~= before);
    }
}

/// After an import into an empty table each row stands in it, in its place and column by column: all
/// of one agent, private and for its workspace, valid from its creation where it does not say
/// otherwise.
pub proof fn imported_rows_keep_their_columns(rows: Seq<LegacyRow>, i: int)
    requires
        distinct_ids(legacy_models(rows)),
        0 <= i < rows.len(),
    ensures
        ({
            let after = written(Seq::empty(), admitted_all(legacy_models(rows)));
            let m = after[i];
            &&& writable(Seq::empty(), admitted_all(legacy_models(rows)))
            &&& after.len() == rows.len()
            &&& m.id == rows[i].id@
            &&& m.namespace == "agent-cli"@
            &&& m.workspace_id == rows[i].workspace_id@
            &&& m.kind == MemoryKind::named(rows[i].kind@)
            &&& m.content == rows[i].content@
            &&& m.normalized_content == rows[i].normalized_content@
            &&& m.sensitivity == Sensitivity::Private
            &&& m.scope == MemoryScope::Workspace
            &&& m.importance == rows[i].importance
            &&& m.confidence == rows[i].confidence
            &&& m.created_at == rows[i].created_at
            &&& m.updated_at == rows[i].updated_at
            &&& m.last_accessed_at == rows[i].last_accessed_at
            &&& rows[i].access_count >= 0 ==> m.access_count == rows[i].access_count
            &&& rows[i].valid_from is Some ==> m.valid_from == rows[i].valid_from->Some_0
            &&& rows[i].valid_from is None ==> m.valid_from == rows[i].created_at
            &&& rows[i].valid_until is Some ==> m.valid_until == rows[i].valid_until
            &&& m.content_hash == rows[i].content_hash@
            &&& m.pinned <==> rows[i].pinned != 0
            &&& rows[i].metadata_json is Some ==> m.metadata_json == rows[i].metadata_json->Some_0@
            &&& rows[i].metadata_json is None ==> m.metadata_json == "{}"@
        }),
{
    import_into_empty_goes_through(legacy_models(rows));
    import_keeps_identifiers(legacy_models(rows));
}

/// Of the legacy rows in use with one content in one workspace, the first stays as it is; each later
/// one is superseded by it and closed when it was changed last. Rows that are not in use stay as
/// they are.
pub proof fn imported_copies_are_superseded_by_the_first(rows: Seq<LegacyRow>, i: int, j: int)
    requires
        distinct_ids(legacy_models(rows)),
        0 <= i < rows.len(),
        0 <= j <= i,
        MemoryStatus::named(rows[j].status@) == MemoryStatus::Active,
        rows[j].workspace_id@ == rows[i].workspace_id@,
        rows[j].content_hash@ == rows[i].content_hash@,
        forall|k: int|
            0 <= k < j ==> !(MemoryStatus::named((#[trigger] rows[k]).status@)
                == MemoryStatus::Active && rows[k].workspace_id@ == rows[i].workspace_id@
                && rows[k].content_hash@ == rows[i].content_hash@),
    ensures
        ({
            let m = written(Seq::empty(), admitted_all(legacy_models(rows)))[i];
            let in_use = MemoryStatus::named(rows[i].status@) == MemoryStatus::Active;
            if j < i && in_use {
                &&& m.status == MemoryStatus::Superseded
                &&& m.supersedes_id == Some(rows[j].id@)
                &&& rows[i].valid_until is None ==> m.valid_until == Some(rows[i].updated_at)
            } else {
                &&& m.status == MemoryStatus::named(rows[i].status@)
                &&& m.supersedes_id == optional_text(rows[i].supersedes_id)
                &&& m.valid_until == rows[i].valid_until
            }
        }),
{
    let list = legacy_models(rows);
    import_into_empty_goes_through(list);
    let p = |m: MemoryModel|
        m.status == MemoryStatus::Active && m.workspace_id == list[i].workspace_id
            && m.content_hash == list[i].content_hash;
    let head = list.take(i);
    seen_is_the_first(head, list[i].workspace_id, list[i].content_hash);
    first_match_facts(head, p);
    assert forall|k: int| 0 <= k < j implies !p(#[trigger] head[k]) by {
        assert(head[k] == rows[k].decoded());
        assert(!(MemoryStatus::named(rows[k].status@) == MemoryStatus::Active
            && rows[k].workspace_id@ == rows[i].workspace_id@ && rows[k].content_hash@
            == rows[i].content_hash@));
    }
    if j < i {
        assert(head[j] == rows[j].decoded());
        assert(p(head[j]));
        first_match_is(head, p, j);
    }
}

/// Legacy rows that are not in use are imported with their status, whatever came before them.
pub proof fn imported_history_keeps_its_status(rows: Seq<LegacyRow>, i: int)
    requires
        distinct_ids(legacy_models(rows)),
        0 <= i < rows.len(),
        MemoryStatus::named(rows[i].status@) != MemoryStatus::Active,
    ensures
        ({
            let m = written(Seq::empty(), admitted_all(legacy_models(rows)))[i];
            &&& m.status == MemoryStatus::named(rows[i].status@)
            &&& m.supersedes_id == optional_text(rows[i].supersedes_id)
            &&& m.valid_until == rows[i].valid_until
        }),
{
    import_into_empty_goes_through(legacy_models(rows));
}

/// One row, into any table: the memory that is written has the importance, the confidence and the
/// other columns of its row.
pub proof fn legacy_columns_are_read_by_name(row: LegacyRow)
    ensures
        row.decoded().id == row.id@,
        row.decoded().namespace == "agent-cli"@,
        row.decoded().workspace_id == row.workspace_id@,
        row.decoded().kind == MemoryKind::named(row.kind@),
        row.decoded().content == row.content@,
        row.decoded().normalized_content == row.normalized_content@,
        row.decoded().status == MemoryStatus::named(row.status@),
        row.decoded().sensitivity == Sensitivity::Private,
        row.decoded().scope == MemoryScope::Workspace,
        row.decoded().importance == row.importance,
        row.decoded().confidence == row.confidence,
        row.decoded().created_at == row.created_at,
        row.decoded().updated_at == row.updated_at,
        row.decoded().last_accessed_at == row.last_accessed_at,
        row.access_count >= 0 ==> row.decoded().access_count == row.access_count,
        row.decoded().valid_until == row.valid_until,
        row.valid_from is Some ==> row.decoded().valid_from == row.valid_from->Some_0,
        row.valid_from is None ==> row.decoded().valid_from == row.created_at,
        row.decoded().content_hash == row.content_hash@,
        row.decoded().pinned <==> row.pinned != 0,
        row.supersedes_id is Some ==> row.decoded().supersedes_id == Some(row.supersedes_id->Some_0@),
        row.supersedes_id is None ==> row.decoded().supersedes_id is None,
{
}

/// An import leaves every row alone whose identifier it does not bring.
pub proof fn import_leaves_other_rows(rows: Seq<MemoryModel>, list: Seq<MemoryModel>, k: int)
    requires
        distinct_ids(rows),
        0 <= k < rows.len(),
        forall|i: int| 0 <= i < list.len() ==> (#[trigger] list[i]).id != rows[k].id,
    ensures
        written(rows, list).len() >= rows.len(),
        written(rows, list)[k] == rows[k],
    decreases list.len(),
{
    if list.len() > 0 {
        let init = list.drop_last();
        assert forall|i: int| 0 <= i < init.len() implies (#[trigger] init[i]).id != rows[k].id by {
            assert(list[i].id != rows[k].id);
        }
        import_leaves_other_rows(rows, init, k);
        let before = written(rows, init);
        let m = list.last();
        assert(list[list.len() - 1].id != rows[k].id);
        first_match_facts(before, |row: MemoryModel| row.id == m.id);
    }
}

/// After an import that went through, each memory that it brought stands in the table under its
/// identifier, as it was taken in, but for the time of creation and a sensitivity that was higher.
pub proof fn import_brings_every_memory(rows: Seq<MemoryModel>, list: Seq<MemoryModel>, i: int)
    requires
        distinct_ids(rows),
        slots_unique(rows),
        distinct_ids(list),
        writable(rows, list),
        0 <= i < list.len(),
    ensures
        exists|k: int|
            {
                &&& 0 <= k < written(rows, list).len()
                &&& list[i] == (MemoryModel {
                    created_at: list[i].created_at,
                    sensitivity: list[i].sensitivity,
                    ..#[trigger] written(rows, list)[k]
                })
                &&& written(rows, list)[k].sensitivity.rank() >= list[i].sensitivity.rank()
            },
{
    written_facts(rows, list);
    let after = written(rows, list);
    assert(settled(after, list[i]));
    let k = choose|k: int|
        0 <= k < after.len() && (#[trigger] after[k]).id == list[i].id && after[k]
            == after[k].replaced_by(list[i]);
    assert(list[i] == (MemoryModel {
        created_at: list[i].created_at,
        sensitivity: list[i].sensitivity,
        ..after[k]
    }));
}

} // verus!
