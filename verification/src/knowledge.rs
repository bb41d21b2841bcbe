use vstd::prelude::*;

use crate::clock::{clock_reading, now_epoch, signed, to_signed, to_unsigned, unsigned};
use crate::error::{invalid, refuses, Result};
use crate::ident::{is_fresh_id, prefixed, random_suffix};
use crate::json::{decode_strings, encode_strings, json_array, json_strings, stored_strings};
use crate::kinds::{relation_survives_storage, KnowledgeRelation};
use crate::memory::optional_text;
use crate::order::{
    filter_values, sorted_distinct, sorted_values, sorted_values_exist, strictly_ascending,
};
use crate::single::{clamping_keeps_units, larger_is_below_neither, Single};
use crate::text::{
    is_blank, only_blank_texts_trim_to_nothing, texts, trim_text, trimmed, white_space,
};

verus! {

/// Something that turned out wrong, and what is right.
#[derive(Debug, Clone)]
pub struct NewCorrection {
    pub namespace: String,
    pub workspace_id: String,
    pub context: String,
    pub predicted: String,
    pub corrected: String,
    pub reason: Option<String>,
    pub source: String,
}

/// A recorded correction.
#[derive(Debug)]
pub struct CorrectionRecord {
    pub id: String,
    pub namespace: String,
    pub workspace_id: String,
    pub context: String,
    pub predicted: String,
    pub corrected: String,
    pub reason: Option<String>,
    pub source: String,
    pub applied_count: u64,
    pub created_at: i64,
    pub updated_at: i64,
}

/// What a `CorrectionRecord` says.
#[verifier::ext_equal]
pub struct CorrectionModel {
    pub id: Seq<char>,
    pub namespace: Seq<char>,
    pub workspace_id: Seq<char>,
    pub context: Seq<char>,
    pub predicted: Seq<char>,
    pub corrected: Seq<char>,
    pub reason: Option<Seq<char>>,
    pub source: Seq<char>,
    pub applied_count: u64,
    pub created_at: i64,
    pub updated_at: i64,
}

impl View for CorrectionRecord {
    type V = CorrectionModel;

    open spec fn view(&self) -> CorrectionModel {
        CorrectionModel {
            id: self.id@,
            namespace: self.namespace@,
            workspace_id: self.workspace_id@,
            context: self.context@,
            predicted: self.predicted@,
            corrected: self.corrected@,
            reason: optional_text(self.reason),
            source: self.source@,
            applied_count: self.applied_count,
            created_at: self.created_at,
            updated_at: self.updated_at,
        }
    }
}

impl Clone for CorrectionRecord {
    fn clone(&self) -> (r: CorrectionRecord)
        ensures
            r == *self,
    {
        CorrectionRecord {
            id: self.id.clone(),
            namespace: self.namespace.clone(),
            workspace_id: self.workspace_id.clone(),
            context: self.context.clone(),
            predicted: self.predicted.clone(),
            corrected: self.corrected.clone(),
            reason: match &self.reason {
                Some(text) => Some(text.clone()),
                None => None,
            },
            source: self.source.clone(),
            applied_count: self.applied_count,
            created_at: self.created_at,
            updated_at: self.updated_at,
        }
    }
}

/// What a list of corrections says.
pub open spec fn correction_models(list: Seq<CorrectionRecord>) -> Seq<CorrectionModel> {
    Seq::new(list.len(), |i: int| list[i]@)
}

impl NewCorrection {
    /// Whether context, prediction and correction say anything.
    pub open spec fn is_complete(&self) -> bool {
        trimmed(self.context@).len() > 0 && trimmed(self.predicted@).len() > 0 && trimmed(
            self.corrected@,
        ).len() > 0
    }

    /// The record of this correction, written at `now` under the given identifier.
    pub open spec fn record(&self, now: i64, id: Seq<char>) -> CorrectionModel {
        CorrectionModel {
            id,
            namespace: self.namespace@,
            workspace_id: self.workspace_id@,
            context: trimmed(self.context@),
            predicted: trimmed(self.predicted@),
            corrected: trimmed(self.corrected@),
            reason: match self.reason {
                Some(text) => if trimmed(text@).len() > 0 {
                    Some(text@)
                } else {
                    None
                },
                None => None,
            },
            source: if trimmed(self.source@).len() == 0 {
                "agent"@
            } else {
                trimmed(self.source@)
            },
            applied_count: 0,
            created_at: now,
            updated_at: now,
        }
    }

    /// The record of this correction, written at `now` under an identifier that ends in `suffix`.
    pub fn into_record_at(self, now: i64, suffix: &str) -> (r: Result<CorrectionRecord>)
        ensures
            !self.is_complete() <==> refuses(
                r,
                "correction context, predicted and corrected values are required"@,
            ),
            r is Ok <==> self.is_complete(),
            r matches Ok(c) ==> c@ == self.record(now, "corr_"@ + suffix@),
    {
        let context = trim_text(self.context.as_str());
        let predicted = trim_text(self.predicted.as_str());
        let corrected = trim_text(self.corrected.as_str());
        if context.as_str().is_empty() || predicted.as_str().is_empty()
            || corrected.as_str().is_empty() {
            return Err(
                invalid("correction context, predicted and corrected values are required"),
            );
        }
        let reason = match self.reason {
            Some(text) => if is_blank(text.as_str()) {
                None
            } else {
                Some(text)
            },
            None => None,
        };
        let source = trim_text(self.source.as_str());
        Ok(
            CorrectionRecord {
                id: prefixed("corr_", suffix),
                namespace: self.namespace,
                workspace_id: self.workspace_id,
                context,
                predicted,
                corrected,
                reason,
                source: if source.as_str().is_empty() {
                    "agent".to_owned()
                } else {
                    source
                },
                applied_count: 0,
                created_at: now,
                updated_at: now,
            },
        )
    }

    /// The record of this correction, written now under a new random identifier.
    pub fn into_record(self) -> (r: Result<CorrectionRecord>)
        ensures
            !self.is_complete() <==> refuses(
                r,
                "correction context, predicted and corrected values are required"@,
            ),
            r is Ok <==> self.is_complete(),
            r matches Ok(c) ==> is_fresh_id(c@.id, "corr_"@) && clock_reading(c@.created_at) && c@
                == self.record(c@.created_at, c@.id),
    {
        let suffix = random_suffix();
        self.into_record_at(now_epoch(), suffix.as_str())
    }
}

impl CorrectionModel {
    /// The correction after it was applied once more.
    pub open spec fn applied_at(self, now: i64) -> CorrectionModel {
        CorrectionModel {
            applied_count: (self.applied_count + 1) as u64,
            updated_at: now,
            ..self
        }
    }
}

impl CorrectionRecord {
    /// The correction after it was applied once more at `now`.
    pub fn applied(self, now: i64) -> (r: CorrectionRecord)
        requires
            self.applied_count < u64::MAX,
        ensures
            r@ == self@.applied_at(now),
    {
        let mut correction = self;
        correction.applied_count = correction.applied_count + 1;
        correction.updated_at = now;
        correction
    }
}

/// A concept that is to be stored.
#[derive(Debug, Clone)]
pub struct NewConcept {
    pub namespace: String,
    pub workspace_id: String,
    pub name: String,
    pub definition: String,
    pub confidence: Single,
    pub labels: Vec<String>,
    pub source_memory_ids: Vec<String>,
}

/// A concept.
#[derive(Debug)]
pub struct StoredConcept {
    pub id: String,
    pub namespace: String,
    pub workspace_id: String,
    pub name: String,
    pub definition: String,
    pub confidence: Single,
    pub revision: u64,
    pub labels: Vec<String>,
    pub source_memory_ids: Vec<String>,
    pub created_at: i64,
    pub updated_at: i64,
}

/// What a `StoredConcept` says.
#[verifier::ext_equal]
pub struct ConceptModel {
    pub id: Seq<char>,
    pub namespace: Seq<char>,
    pub workspace_id: Seq<char>,
    pub name: Seq<char>,
    pub definition: Seq<char>,
    pub confidence: Single,
    pub revision: u64,
    pub labels: Seq<Seq<char>>,
    pub source_memory_ids: Seq<Seq<char>>,
    pub created_at: i64,
    pub updated_at: i64,
}

impl View for StoredConcept {
    type V = ConceptModel;

    open spec fn view(&self) -> ConceptModel {
        ConceptModel {
            id: self.id@,
            namespace: self.namespace@,
            workspace_id: self.workspace_id@,
            name: self.name@,
            definition: self.definition@,
            confidence: self.confidence,
            revision: self.revision,
            labels: texts(self.labels@),
            source_memory_ids: texts(self.source_memory_ids@),
            created_at: self.created_at,
            updated_at: self.updated_at,
        }
    }
}

/// What a list of concepts says.
pub open spec fn concept_models(list: Seq<StoredConcept>) -> Seq<ConceptModel> {
    Seq::new(list.len(), |i: int| list[i]@)
}

fn copy_texts(list: &Vec<String>) -> (r: Vec<String>)
    ensures
        texts(r@) == texts(list@),
{
    let mut out: Vec<String> = Vec::new();
    let mut i: usize = 0;
    while i < list.len()
        invariant
            i <= list@.len(),
            texts(out@) == texts(list@).take(i as int),
        decreases list@.len() - i,
    {
        let ghost before = texts(out@);
        out.push(list[i].clone());
        assert(texts(out@) =~= before.push(list@[i as int]@));
        assert(texts(list@).take(i + 1) =~= texts(list@).take(i as int).push(list@[i as int]@));
        i += 1;
    }
    assert(texts(list@).take(list@.len() as int) =~= texts(list@));
    out
}

impl Clone for StoredConcept {
    fn clone(&self) -> (r: StoredConcept)
        ensures
            r@ == self@,
    {
        StoredConcept {
            id: self.id.clone(),
            namespace: self.namespace.clone(),
            workspace_id: self.workspace_id.clone(),
            name: self.name.clone(),
            definition: self.definition.clone(),
            confidence: self.confidence,
            revision: self.revision,
            labels: copy_texts(&self.labels),
            source_memory_ids: copy_texts(&self.source_memory_ids),
            created_at: self.created_at,
            updated_at: self.updated_at,
        }
    }
}

/// The values without white space around them, empty ones left out.
pub open spec fn trimmed_values(values: Seq<Seq<char>>) -> Seq<Seq<char>> {
    values.map_values(|v: Seq<char>| trimmed(v)).filter(|v: Seq<char>| v.len() > 0)
}

/// The trimmed values in ascending order, each once.
pub open spec fn tidied(values: Seq<Seq<char>>) -> Seq<Seq<char>> {
    sorted_values(trimmed_values(values))
}

/// Trims the values, leaves empty ones out, and lists the others in ascending order, each once.
pub fn dedupe(values: &Vec<String>) -> (r: Vec<String>)
    ensures
        texts(r@) == tidied(texts(values@)),
        strictly_ascending(texts(r@)),
        forall|v: Seq<char>| #[trigger]
            texts(r@).contains(v) <==> trimmed_values(texts(values@)).contains(v),
{
    let ghost all = texts(values@);
    let ghost f = |v: Seq<char>| trimmed(v);
    let mut out: Vec<String> = Vec::new();
    let mut i: usize = 0;
    reveal(Seq::filter);
    assert(texts(out@) =~= trimmed_values(all.take(0)));
    while i < values.len()
        invariant
            i <= values@.len(),
            all == texts(values@),
            f == (|v: Seq<char>| trimmed(v)),
            texts(out@) == trimmed_values(all.take(i as int)),
        decreases values@.len() - i,
    {
        let value = trim_text(values[i].as_str());
        proof {
            reveal(Seq::filter);
            assert(all.take(i + 1).map_values(f).drop_last() =~= all.take(i as int).map_values(f));
            assert(all.take(i + 1).map_values(f).last() == value@);
        }
        if !value.as_str().is_empty() {
            let ghost before = texts(out@);
            let ghost model = value@;
            out.push(value);
            assert(texts(out@) =~= before.push(model));
        }
        i += 1;
    }
    assert(all.take(all.len() as int) =~= all);
    sorted_distinct(&out)
}

/// The values that hold more than white space.
pub open spec fn telling_values(values: Seq<Seq<char>>) -> Seq<Seq<char>> {
    values.filter(|v: Seq<char>| trimmed(v).len() > 0)
}

/// The values of both lists that hold more than white space, in ascending order, each once.
pub open spec fn united(left: Seq<Seq<char>>, right: Seq<Seq<char>>) -> Seq<Seq<char>> {
    sorted_values(telling_values(left + right))
}

/// Unites two lists: values that hold more than white space, in ascending order, each once.
pub fn merged_strings(left: &Vec<String>, right: &Vec<String>) -> (r: Vec<String>)
    ensures
        texts(r@) == united(texts(left@), texts(right@)),
        strictly_ascending(texts(r@)),
        forall|v: Seq<char>| #[trigger]
            texts(r@).contains(v) <==> telling_values(texts(left@) + texts(right@)).contains(v),
{
    let ghost all = texts(left@) + texts(right@);
    let mut out: Vec<String> = Vec::new();
    let total: usize = left.len();
    let mut i: usize = 0;
    reveal(Seq::filter);
    assert(texts(out@) =~= telling_values(all.take(0)));
    while i < total
        invariant
            i <= total == left@.len(),
            all == texts(left@) + texts(right@),
            texts(out@) == telling_values(all.take(i as int)),
        decreases total - i,
    {
        proof {
            reveal(Seq::filter);
            assert(all.take(i + 1).drop_last() =~= all.take(i as int));
            assert(all[i as int] == left@[i as int]@);
        }
        if !is_blank(left[i].as_str()) {
            let ghost before = texts(out@);
            out.push(left[i].clone());
            assert(texts(out@) =~= before.push(all[i as int]));
        }
        i += 1;
    }
    let mut j: usize = 0;
    while j < right.len()
        invariant
            j <= right@.len(),
            total == left@.len(),
            all == texts(left@) + texts(right@),
            texts(out@) == telling_values(all.take(total + j)),
        decreases right@.len() - j,
    {
        proof {
            reveal(Seq::filter);
            assert(all.take(total + j + 1).drop_last() =~= all.take(total + j));
            assert(all[total + j] == right@[j as int]@);
        }
        if !is_blank(right[j].as_str()) {
            let ghost before = texts(out@);
            out.push(right[j].clone());
            assert(texts(out@) =~= before.push(all[total + j]));
        }
        j += 1;
    }
    assert(all.take(all.len() as int) =~= all);
    sorted_distinct(&out)
}

impl NewConcept {
    /// Whether name and definition say anything.
    pub open spec fn is_complete(&self) -> bool {
        trimmed(self.name@).len() > 0 && trimmed(self.definition@).len() > 0
    }

    /// The concept, written at `now` under the given identifier.
    pub open spec fn record(&self, now: i64, id: Seq<char>) -> ConceptModel {
        ConceptModel {
            id,
            namespace: self.namespace@,
            workspace_id: self.workspace_id@,
            name: trimmed(self.name@),
            definition: trimmed(self.definition@),
            confidence: self.confidence,
            revision: 1,
            labels: tidied(texts(self.labels@)),
            source_memory_ids: tidied(texts(self.source_memory_ids@)),
            created_at: now,
            updated_at: now,
        }
    }

    /// The concept, written at `now` under an identifier that ends in `suffix`.
    pub fn into_record_at(self, now: i64, suffix: &str) -> (r: Result<StoredConcept>)
        ensures
            !self.is_complete() <==> refuses(r, "concept name and definition are required"@),
            self.is_complete() && !self.confidence.unit() <==> refuses(
                r,
                "concept confidence must be 0..1"@,
            ),
            r is Ok <==> self.is_complete() && self.confidence.unit(),
            r matches Ok(c) ==> c@ == self.record(now, "concept_"@ + suffix@),
    {
        proof {
            reveal_strlit("concept name and definition are required");
            reveal_strlit("concept confidence must be 0..1");
            assert("concept name and definition are required"@.len()
                != "concept confidence must be 0..1"@.len());
        }
        let name = trim_text(self.name.as_str());
        let definition = trim_text(self.definition.as_str());
        if name.as_str().is_empty() || definition.as_str().is_empty() {
            return Err(invalid("concept name and definition are required"));
        }
        if !self.confidence.in_unit_range() {
            return Err(invalid("concept confidence must be 0..1"));
        }
        Ok(
            StoredConcept {
                id: prefixed("concept_", suffix),
                namespace: self.namespace,
                workspace_id: self.workspace_id,
                name,
                definition,
                confidence: self.confidence,
                revision: 1,
                labels: dedupe(&self.labels),
                source_memory_ids: dedupe(&self.source_memory_ids),
                created_at: now,
                updated_at: now,
            },
        )
    }

    /// The concept, written now under a new random identifier.
    pub fn into_record(self) -> (r: Result<StoredConcept>)
        ensures
            !self.is_complete() <==> refuses(r, "concept name and definition are required"@),
            self.is_complete() && !self.confidence.unit() <==> refuses(
                r,
                "concept confidence must be 0..1"@,
            ),
            r is Ok <==> self.is_complete() && self.confidence.unit(),
            r matches Ok(c) ==> is_fresh_id(c@.id, "concept_"@) && clock_reading(c@.created_at)
                && c@ == self.record(c@.created_at, c@.id),
    {
        let suffix = random_suffix();
        self.into_record_at(now_epoch(), suffix.as_str())
    }
}

/// The next revision; the last one is not left.
pub open spec fn next_revision(revision: u64) -> u64 {
    if revision < u64::MAX {
        (revision + 1) as u64
    } else {
        revision
    }
}

impl ConceptModel {
    /// This concept after it was described again: the new definition, the higher confidence, and
    /// the labels and sources of both.
    pub open spec fn revised_with(self, incoming: ConceptModel, now: i64) -> ConceptModel {
        ConceptModel {
            definition: incoming.definition,
            confidence: self.confidence.larger(incoming.confidence),
            revision: next_revision(self.revision),
            labels: united(self.labels, incoming.labels),
            source_memory_ids: united(self.source_memory_ids, incoming.source_memory_ids),
            updated_at: now,
            ..self
        }
    }

    /// Whether both describe the same thing of the same workspace.
    pub open spec fn names_same(self, other: ConceptModel) -> bool {
        self.namespace == other.namespace && self.workspace_id == other.workspace_id && self.name
            == other.name
    }
}

impl StoredConcept {
    /// This concept after it was described again at `now`.
    pub fn revise(self, incoming: StoredConcept, now: i64) -> (r: StoredConcept)
        ensures
            r@ == self@.revised_with(incoming@, now),
    {
        let labels = merged_strings(&self.labels, &incoming.labels);
        let source_memory_ids = merged_strings(
            &self.source_memory_ids,
            &incoming.source_memory_ids,
        );
        StoredConcept {
            id: self.id,
            namespace: self.namespace,
            workspace_id: self.workspace_id,
            name: self.name,
            definition: incoming.definition,
            confidence: self.confidence.max(incoming.confidence),
            revision: if self.revision < u64::MAX {
                self.revision + 1
            } else {
                self.revision
            },
            labels,
            source_memory_ids,
            created_at: self.created_at,
            updated_at: now,
        }
    }
}

/// A weighted link between two concepts.
#[derive(Debug)]
pub struct KnowledgeEdge {
    pub id: String,
    pub namespace: String,
    pub workspace_id: String,
    pub source_id: String,
    pub target_id: String,
    pub relation: KnowledgeRelation,
    pub weight: Single,
    pub created_at: i64,
}

/// What a `KnowledgeEdge` says.
#[verifier::ext_equal]
pub struct EdgeModel {
    pub id: Seq<char>,
    pub namespace: Seq<char>,
    pub workspace_id: Seq<char>,
    pub source_id: Seq<char>,
    pub target_id: Seq<char>,
    pub relation: KnowledgeRelation,
    pub weight: Single,
    pub created_at: i64,
}

impl View for KnowledgeEdge {
    type V = EdgeModel;

    open spec fn view(&self) -> EdgeModel {
        EdgeModel {
            id: self.id@,
            namespace: self.namespace@,
            workspace_id: self.workspace_id@,
            source_id: self.source_id@,
            target_id: self.target_id@,
            relation: self.relation,
            weight: self.weight,
            created_at: self.created_at,
        }
    }
}

impl Clone for KnowledgeEdge {
    fn clone(&self) -> (r: KnowledgeEdge)
        ensures
            r == *self,
    {
        KnowledgeEdge {
            id: self.id.clone(),
            namespace: self.namespace.clone(),
            workspace_id: self.workspace_id.clone(),
            source_id: self.source_id.clone(),
            target_id: self.target_id.clone(),
            relation: self.relation,
            weight: self.weight,
            created_at: self.created_at,
        }
    }
}

/// What a list of links says.
pub open spec fn edge_models(list: Seq<KnowledgeEdge>) -> Seq<EdgeModel> {
    Seq::new(list.len(), |i: int| list[i]@)
}

/// A label or source is in the union exactly when one of the lists has it and it holds more than
/// white space.
pub proof fn union_holds_both(left: Seq<Seq<char>>, right: Seq<Seq<char>>, v: Seq<char>)
    ensures
        united(left, right).contains(v) <==> (left.contains(v) || right.contains(v)) && trimmed(
            v,
        ).len() > 0,
        strictly_ascending(united(left, right)),
{
    let all = left + right;
    sorted_values_exist(telling_values(all));
    filter_values(all, |v: Seq<char>| trimmed(v).len() > 0, v);
    assert(united(left, right).contains(v) <==> telling_values(all).contains(v));
    if left.contains(v) {
        let k = choose|k: int| 0 <= k < left.len() && left[k] == v;
        assert(all[k] == v);
    }
    if right.contains(v) {
        let k = choose|k: int| 0 <= k < right.len() && right[k] == v;
        assert(all[left.len() + k] == v);
    }
    if all.contains(v) {
        let k = choose|k: int| 0 <= k < all.len() && all[k] == v;
        if k < left.len() {
            assert(left[k] == v);
        } else {
            assert(right[k - left.len()] == v);
        }
    }
}

/// Describing a concept again loses no label and no source, never lowers the confidence, and
/// leaves identity and time of creation alone.
pub proof fn revision_loses_nothing(c: ConceptModel, incoming: ConceptModel, now: i64)
    requires
        c.confidence.unit(),
        incoming.confidence.unit(),
    ensures
        ({
            let after = c.revised_with(incoming, now);
            &&& after.id == c.id && after.names_same(c) && after.created_at == c.created_at
            &&& after.definition == incoming.definition
            &&& after.revision > c.revision || c.revision == u64::MAX
            &&& after.confidence.unit() && after.confidence.not_below(c.confidence)
                && after.confidence.not_below(incoming.confidence)
            &&& forall|v: Seq<char>|
                c.labels.contains(v) && trimmed(v).len() > 0 ==> #[trigger] after.labels.contains(v)
            &&& forall|v: Seq<char>|
                incoming.labels.contains(v) && trimmed(v).len() > 0
                    ==> #[trigger] after.labels.contains(v)
            &&& forall|v: Seq<char>|
                c.source_memory_ids.contains(v) && trimmed(v).len() > 0
                    ==> #[trigger] after.source_memory_ids.contains(v)
            &&& forall|v: Seq<char>|
                incoming.source_memory_ids.contains(v) && trimmed(v).len() > 0
                    ==> #[trigger] after.source_memory_ids.contains(v)
        }),
{
    let after = c.revised_with(incoming, now);
    assert forall|v: Seq<char>| (c.labels.contains(v) || incoming.labels.contains(v)) && trimmed(
        v,
    ).len() > 0 implies #[trigger] after.labels.contains(v) by {
        union_holds_both(c.labels, incoming.labels, v);
    }
    assert forall|v: Seq<char>|
        (c.source_memory_ids.contains(v) || incoming.source_memory_ids.contains(v)) && trimmed(
            v,
        ).len() > 0 implies #[trigger] after.source_memory_ids.contains(v) by {
        union_holds_both(c.source_memory_ids, incoming.source_memory_ids, v);
    }
}

/// A correction as the columns of a table hold it.
#[derive(Debug)]
pub struct CorrectionRow {
    pub id: String,
    pub namespace: String,
    pub workspace_id: String,
    pub context: String,
    pub predicted: String,
    pub corrected: String,
    pub reason: Option<String>,
    pub source: String,
    pub applied_count: i64,
    pub created_at: i64,
    pub updated_at: i64,
}

impl CorrectionRow {
    /// The correction that the columns hold.
    pub open spec fn decoded(&self) -> CorrectionModel {
        CorrectionModel {
            id: self.id@,
            namespace: self.namespace@,
            workspace_id: self.workspace_id@,
            context: self.context@,
            predicted: self.predicted@,
            corrected: self.corrected@,
            reason: optional_text(self.reason),
            source: self.source@,
            applied_count: unsigned(self.applied_count) as u64,
            created_at: self.created_at,
            updated_at: self.updated_at,
        }
    }

    /// Whether the columns hold the correction.
    pub open spec fn encodes(&self, c: CorrectionModel) -> bool {
        &&& self.id@ == c.id
        &&& self.namespace@ == c.namespace
        &&& self.workspace_id@ == c.workspace_id
        &&& self.context@ == c.context
        &&& self.predicted@ == c.predicted
        &&& self.corrected@ == c.corrected
        &&& optional_text(self.reason) == c.reason
        &&& self.source@ == c.source
        &&& self.applied_count == signed(c.applied_count)
        &&& self.created_at == c.created_at
        &&& self.updated_at == c.updated_at
    }

    /// The correction that the columns hold.
    pub fn decode(self) -> (r: CorrectionRecord)
        ensures
            r@ == self.decoded(),
    {
        CorrectionRecord {
            id: self.id,
            namespace: self.namespace,
            workspace_id: self.workspace_id,
            context: self.context,
            predicted: self.predicted,
            corrected: self.corrected,
            reason: self.reason,
            source: self.source,
            applied_count: to_unsigned(self.applied_count),
            created_at: self.created_at,
            updated_at: self.updated_at,
        }
    }

    /// The columns that hold a correction.
    pub fn encode(correction: &CorrectionRecord) -> (r: CorrectionRow)
        ensures
            r.encodes(correction@),
    {
        let copy = correction.clone();
        CorrectionRow {
            id: copy.id,
            namespace: copy.namespace,
            workspace_id: copy.workspace_id,
            context: copy.context,
            predicted: copy.predicted,
            corrected: copy.corrected,
            reason: copy.reason,
            source: copy.source,
            applied_count: to_signed(correction.applied_count),
            created_at: correction.created_at,
            updated_at: correction.updated_at,
        }
    }
}

/// A stored correction is read back as it was written.
pub proof fn correction_survives_storage(row: CorrectionRow, c: CorrectionModel)
    requires
        row.encodes(c),
    ensures
        row.decoded() == c,
{
}

/// A concept as the columns of a table hold it.
#[derive(Debug)]
pub struct ConceptRow {
    pub id: String,
    pub namespace: String,
    pub workspace_id: String,
    pub name: String,
    pub definition: String,
    pub confidence: Single,
    pub revision: i64,
    pub labels_json: String,
    pub source_memory_ids_json: String,
    pub created_at: i64,
    pub updated_at: i64,
}

impl ConceptRow {
    /// The concept that the columns hold; lists that cannot be read count as empty.
    pub open spec fn decoded(&self) -> ConceptModel {
        ConceptModel {
            id: self.id@,
            namespace: self.namespace@,
            workspace_id: self.workspace_id@,
            name: self.name@,
            definition: self.definition@,
            confidence: self.confidence,
            revision: unsigned(self.revision) as u64,
            labels: stored_strings(self.labels_json@),
            source_memory_ids: stored_strings(self.source_memory_ids_json@),
            created_at: self.created_at,
            updated_at: self.updated_at,
        }
    }

    /// Whether the columns hold the concept.
    pub open spec fn encodes(&self, c: ConceptModel) -> bool {
        &&& self.id@ == c.id
        &&& self.namespace@ == c.namespace
        &&& self.workspace_id@ == c.workspace_id
        &&& self.name@ == c.name
        &&& self.definition@ == c.definition
        &&& self.confidence == c.confidence
        &&& self.revision == signed(c.revision)
        &&& self.labels_json@ == json_array(c.labels)
        &&& self.source_memory_ids_json@ == json_array(c.source_memory_ids)
        &&& self.created_at == c.created_at
        &&& self.updated_at == c.updated_at
    }

    /// The concept that the columns hold.
    pub fn decode(self) -> (r: StoredConcept)
        ensures
            r@ == self.decoded(),
    {
        StoredConcept {
            id: self.id,
            namespace: self.namespace,
            workspace_id: self.workspace_id,
            name: self.name,
            definition: self.definition,
            confidence: self.confidence,
            revision: to_unsigned(self.revision),
            labels: decode_strings(self.labels_json.as_str()),
            source_memory_ids: decode_strings(self.source_memory_ids_json.as_str()),
            created_at: self.created_at,
            updated_at: self.updated_at,
        }
    }

    /// The columns that hold a concept; they are read back as they were written.
    pub fn encode(concept: &StoredConcept) -> (r: Result<ConceptRow>)
        ensures
            r matches Ok(row) && row.encodes(concept@) && row.decoded() == concept@,
    {
        let labels_json = match encode_strings(&concept.labels) {
            Ok(text) => text,
            Err(error) => {
                return Err(error);
            },
        };
        let source_memory_ids_json = match encode_strings(&concept.source_memory_ids) {
            Ok(text) => text,
            Err(error) => {
                return Err(error);
            },
        };
        Ok(
            ConceptRow {
                id: concept.id.clone(),
                namespace: concept.namespace.clone(),
                workspace_id: concept.workspace_id.clone(),
                name: concept.name.clone(),
                definition: concept.definition.clone(),
                confidence: concept.confidence,
                revision: to_signed(concept.revision),
                labels_json,
                source_memory_ids_json,
                created_at: concept.created_at,
                updated_at: concept.updated_at,
            },
        )
    }
}

/// A link as the columns of a table hold it.
#[derive(Debug)]
pub struct EdgeRow {
    pub id: String,
    pub namespace: String,
    pub workspace_id: String,
    pub source_id: String,
    pub target_id: String,
    pub relation: String,
    pub weight: Single,
    pub created_at: i64,
}

impl EdgeRow {
    /// The link that the columns hold.
    pub open spec fn decoded(&self) -> EdgeModel {
        EdgeModel {
            id: self.id@,
            namespace: self.namespace@,
            workspace_id: self.workspace_id@,
            source_id: self.source_id@,
            target_id: self.target_id@,
            relation: KnowledgeRelation::named(self.relation@),
            weight: self.weight,
            created_at: self.created_at,
        }
    }

    /// Whether the columns hold the link.
    pub open spec fn encodes(&self, e: EdgeModel) -> bool {
        &&& self.id@ == e.id
        &&& self.namespace@ == e.namespace
        &&& self.workspace_id@ == e.workspace_id
        &&& self.source_id@ == e.source_id
        &&& self.target_id@ == e.target_id
        &&& self.relation@ == e.relation.name()
        &&& self.weight == e.weight
        &&& self.created_at == e.created_at
    }

    /// The link that the columns hold.
    pub fn decode(self) -> (r: KnowledgeEdge)
        ensures
            r@ == self.decoded(),
    {
        KnowledgeEdge {
            id: self.id,
            namespace: self.namespace,
            workspace_id: self.workspace_id,
            source_id: self.source_id,
            target_id: self.target_id,
            relation: KnowledgeRelation::from_db(self.relation.as_str()),
            weight: self.weight,
            created_at: self.created_at,
        }
    }

    /// The columns that hold a link.
    pub fn encode(edge: &KnowledgeEdge) -> (r: EdgeRow)
        ensures
            r.encodes(edge@),
    {
        let copy = edge.clone();
        EdgeRow {
            id: copy.id,
            namespace: copy.namespace,
            workspace_id: copy.workspace_id,
            source_id: copy.source_id,
            target_id: copy.target_id,
            relation: edge.relation.as_db().to_owned(),
            weight: edge.weight,
            created_at: edge.created_at,
        }
    }
}

/// A stored link is read back as it was written.
pub proof fn edge_survives_storage(row: EdgeRow, e: EdgeModel)
    requires
        row.encodes(e),
    ensures
        row.decoded() == e,
{
    relation_survives_storage(e.relation);
}

/// A correction is recorded as it was given, less the white space around it: under its identifier, in
/// its workspace, never applied, at the time of writing; a blank reason counts as none, and a blank
/// source as the agent.
pub proof fn correction_says_what_was_given(given: NewCorrection, now: i64, id: Seq<char>)
    ensures
        ({
            let c = given.record(now, id);
            &&& c.id == id
            &&& c.namespace == given.namespace@
            &&& c.workspace_id == given.workspace_id@
            &&& c.context == trimmed(given.context@)
            &&& c.predicted == trimmed(given.predicted@)
            &&& c.corrected == trimmed(given.corrected@)
            &&& given.reason is None ==> c.reason is None
            &&& given.reason matches Some(text) ==> (if exists|i: int|
                0 <= i < text@.len() && !white_space(#[trigger] text@[i]) {
                c.reason == Some(text@)
            } else {
                c.reason is None
            })
            &&& (exists|i: int|
                0 <= i < given.source@.len() && !white_space(#[trigger] given.source@[i]))
                ==> c.source == trimmed(given.source@)
            &&& (forall|i: int| 0 <= i < given.source@.len() ==> white_space(#[trigger] given.source@[i]))
                ==> c.source == "agent"@
            &&& c.applied_count == 0
            &&& c.created_at == now
            &&& c.updated_at == now
        }),
{
    only_blank_texts_trim_to_nothing(given.source@);
    if given.reason is Some {
        only_blank_texts_trim_to_nothing(given.reason->Some_0@);
    }
}

/// A correction is taken exactly where each of its context, its prediction and its correction holds
/// something else than white space; what is taken is recorded under the prefix of corrections.
pub proof fn only_blank_corrections_are_refused(
    given: NewCorrection,
    now: i64,
    suffix: &str,
    r: Result<CorrectionRecord>,
)
    requires
        call_ensures(NewCorrection::into_record_at, (given, now, suffix), r),
    ensures
        r is Ok <==> {
            &&& exists|i: int|
                0 <= i < given.context@.len() && !white_space(#[trigger] given.context@[i])
            &&& exists|i: int|
                0 <= i < given.predicted@.len() && !white_space(#[trigger] given.predicted@[i])
            &&& exists|i: int|
                0 <= i < given.corrected@.len() && !white_space(#[trigger] given.corrected@[i])
        },
        r matches Err(e) ==> e is Invalid,
        r matches Ok(c) ==> c.id@ == "corr_"@ + suffix@ && c.created_at == now && c.predicted@
            == trimmed(given.predicted@) && c.corrected@ == trimmed(given.corrected@),
{
    only_blank_texts_trim_to_nothing(given.context@);
    only_blank_texts_trim_to_nothing(given.predicted@);
    only_blank_texts_trim_to_nothing(given.corrected@);
}

/// Applying a correction counts once and moves its time; it says what it said before.
pub proof fn applying_counts_once(c: CorrectionModel, now: i64)
    requires
        c.applied_count < u64::MAX,
    ensures
        ({
            let a = c.applied_at(now);
            &&& a.applied_count == c.applied_count + 1
            &&& a.updated_at == now
            &&& a.id == c.id && a.namespace == c.namespace && a.workspace_id == c.workspace_id
            &&& a.context == c.context && a.predicted == c.predicted && a.corrected == c.corrected
            &&& a.reason == c.reason && a.source == c.source && a.created_at == c.created_at
        }),
{
}

/// Tidied values are the given ones, less the white space around them and without empty ones, in
/// ascending order and each once.
pub proof fn tidying_keeps_every_value(values: Seq<Seq<char>>, v: Seq<char>)
    ensures
        tidied(values).contains(v) <==> v.len() > 0 && exists|i: int|
            0 <= i < values.len() && trimmed(#[trigger] values[i]) == v,
        strictly_ascending(tidied(values)),
{
    let f = |v: Seq<char>| trimmed(v);
    let p = |v: Seq<char>| v.len() > 0;
    let all = values.map_values(f);
    sorted_values_exist(trimmed_values(values));
    filter_values(all, p, v);
    assert(tidied(values).contains(v) <==> trimmed_values(values).contains(v));
    if exists|i: int| 0 <= i < values.len() && trimmed(#[trigger] values[i]) == v {
        let i = choose|i: int| 0 <= i < values.len() && trimmed(#[trigger] values[i]) == v;
        assert(all[i] == v);
    }
    if all.contains(v) {
        let i = choose|i: int| 0 <= i < all.len() && all[i] == v;
        assert(trimmed(values[i]) == v);
    }
}

/// A concept is recorded as it was given, less the white space around its texts: in its first revision,
/// with its own confidence, labels and sources, at the time of writing.
pub proof fn concept_says_what_was_given(given: NewConcept, now: i64, id: Seq<char>, v: Seq<char>)
    ensures
        ({
            let c = given.record(now, id);
            &&& c.id == id
            &&& c.namespace == given.namespace@
            &&& c.workspace_id == given.workspace_id@
            &&& c.name == trimmed(given.name@)
            &&& c.definition == trimmed(given.definition@)
            &&& c.confidence == given.confidence
            &&& c.revision == 1
            &&& c.created_at == now
            &&& c.updated_at == now
            &&& c.labels.contains(v) <==> v.len() > 0 && exists|i: int|
                0 <= i < given.labels@.len() && trimmed((#[trigger] given.labels@[i])@) == v
            &&& c.source_memory_ids.contains(v) <==> v.len() > 0 && exists|i: int|
                0 <= i < given.source_memory_ids@.len() && trimmed(
                    (#[trigger] given.source_memory_ids@[i])@,
                ) == v
        }),
{
    let labels = texts(given.labels@);
    let sources = texts(given.source_memory_ids@);
    tidying_keeps_every_value(labels, v);
    tidying_keeps_every_value(sources, v);
    if exists|i: int| 0 <= i < labels.len() && trimmed(#[trigger] labels[i]) == v {
        let i = choose|i: int| 0 <= i < labels.len() && trimmed(#[trigger] labels[i]) == v;
        assert(trimmed(given.labels@[i]@) == v);
    }
    if exists|i: int|
        0 <= i < given.labels@.len() && trimmed((#[trigger] given.labels@[i])@) == v {
        let i = choose|i: int|
            0 <= i < given.labels@.len() && trimmed((#[trigger] given.labels@[i])@) == v;
        assert(trimmed(labels[i]) == v);
    }
    if exists|i: int| 0 <= i < sources.len() && trimmed(#[trigger] sources[i]) == v {
        let i = choose|i: int| 0 <= i < sources.len() && trimmed(#[trigger] sources[i]) == v;
        assert(trimmed(given.source_memory_ids@[i]@) == v);
    }
    if exists|i: int|
        0 <= i < given.source_memory_ids@.len() && trimmed(
            (#[trigger] given.source_memory_ids@[i])@,
        ) == v {
        let i = choose|i: int|
            0 <= i < given.source_memory_ids@.len() && trimmed(
                (#[trigger] given.source_memory_ids@[i])@,
            ) == v;
        assert(trimmed(sources[i]) == v);
    }
}

/// A concept is taken exactly where its name and its definition hold something else than white space
/// and its confidence is a number between zero and one.
pub proof fn only_blank_or_uncertain_concepts_are_refused(
    given: NewConcept,
    now: i64,
    suffix: &str,
    r: Result<StoredConcept>,
)
    requires
        call_ensures(NewConcept::into_record_at, (given, now, suffix), r),
    ensures
        r is Ok <==> {
            &&& exists|i: int| 0 <= i < given.name@.len() && !white_space(#[trigger] given.name@[i])
            &&& exists|i: int|
                0 <= i < given.definition@.len() && !white_space(#[trigger] given.definition@[i])
            &&& 0 <= given.confidence.order() <= 0x3f80_0000
        },
        r matches Err(e) ==> e is Invalid,
        r matches Ok(c) ==> c.id@ == "concept_"@ + suffix@ && c.name@ == trimmed(given.name@)
            && c.definition@ == trimmed(given.definition@) && c.confidence == given.confidence,
{
    only_blank_texts_trim_to_nothing(given.name@);
    only_blank_texts_trim_to_nothing(given.definition@);
    clamping_keeps_units(given.confidence);
}

/// A concept that is described again has the confidence of one of both descriptions, below neither, one
/// more revision, and the labels and sources that either had, no others.
pub proof fn revision_joins_both(c: ConceptModel, incoming: ConceptModel, now: i64, v: Seq<char>)
    ensures
        ({
            let after = c.revised_with(incoming, now);
            &&& after.confidence == c.confidence || after.confidence == incoming.confidence
            &&& !c.confidence.nan() && !incoming.confidence.nan() ==> after.confidence.order()
                >= c.confidence.order() && after.confidence.order() >= incoming.confidence.order()
            &&& c.revision < u64::MAX ==> after.revision == c.revision + 1
            &&& c.revision == u64::MAX ==> after.revision == c.revision
            &&& after.id == c.id && after.namespace == c.namespace && after.workspace_id
                == c.workspace_id && after.name == c.name
            &&& after.definition == incoming.definition
            &&& after.created_at == c.created_at && after.updated_at == now
            &&& after.labels.contains(v) ==> c.labels.contains(v) || incoming.labels.contains(v)
            &&& after.source_memory_ids.contains(v) ==> c.source_memory_ids.contains(v)
                || incoming.source_memory_ids.contains(v)
        }),
{
    larger_is_below_neither(c.confidence, incoming.confidence);
    union_holds_both(c.labels, incoming.labels, v);
    union_holds_both(c.source_memory_ids, incoming.source_memory_ids, v);
}

/// Each column of a stored correction holds the field of its name.
pub proof fn correction_columns_hold_their_fields(row: CorrectionRow)
    ensures
        ({
            let c = row.decoded();
            &&& c.id == row.id@
            &&& c.namespace == row.namespace@
            &&& c.workspace_id == row.workspace_id@
            &&& c.context == row.context@
            &&& c.predicted == row.predicted@
            &&& c.corrected == row.corrected@
            &&& c.reason is Some <==> row.reason is Some
            &&& row.reason is Some ==> c.reason->Some_0 == row.reason->Some_0@
            &&& c.source == row.source@
            &&& row.applied_count >= 0 ==> c.applied_count == row.applied_count
            &&& c.created_at == row.created_at
            &&& c.updated_at == row.updated_at
        }),
{
}

/// A correction is written into the columns of the names of its fields.
pub proof fn correction_fields_go_to_their_columns(row: CorrectionRow, c: CorrectionModel)
    requires
        row.encodes(c),
    ensures
        row.id@ == c.id,
        row.namespace@ == c.namespace,
        row.workspace_id@ == c.workspace_id,
        row.context@ == c.context,
        row.predicted@ == c.predicted,
        row.corrected@ == c.corrected,
        row.reason is Some <==> c.reason is Some,
        c.reason is Some ==> row.reason->Some_0@ == c.reason->Some_0,
        row.source@ == c.source,
        c.applied_count < 0x8000_0000_0000_0000 ==> row.applied_count == c.applied_count,
        row.created_at == c.created_at,
        row.updated_at == c.updated_at,
{
}

/// Each column of a stored concept holds the field of its name.
pub proof fn concept_columns_hold_their_fields(row: ConceptRow)
    ensures
        ({
            let c = row.decoded();
            &&& c.id == row.id@
            &&& c.namespace == row.namespace@
            &&& c.workspace_id == row.workspace_id@
            &&& c.name == row.name@
            &&& c.definition == row.definition@
            &&& c.confidence == row.confidence
            &&& row.revision >= 0 ==> c.revision == row.revision
            &&& json_strings(row.labels_json@) is Some ==> c.labels == json_strings(
                row.labels_json@,
            )->Some_0
            &&& json_strings(row.labels_json@) is None ==> c.labels.len() == 0
            &&& json_strings(row.source_memory_ids_json@) is Some ==> c.source_memory_ids
                == json_strings(row.source_memory_ids_json@)->Some_0
            &&& json_strings(row.source_memory_ids_json@) is None ==> c.source_memory_ids.len() == 0
            &&& c.created_at == row.created_at
            &&& c.updated_at == row.updated_at
        }),
{
}

/// A concept is written into the columns of the names of its fields.
pub proof fn concept_fields_go_to_their_columns(row: ConceptRow, c: ConceptModel)
    requires
        row.encodes(c),
    ensures
        row.id@ == c.id,
        row.namespace@ == c.namespace,
        row.workspace_id@ == c.workspace_id,
        row.name@ == c.name,
        row.definition@ == c.definition,
        row.confidence == c.confidence,
        c.revision < 0x8000_0000_0000_0000 ==> row.revision == c.revision,
        row.labels_json@ == json_array(c.labels),
        row.source_memory_ids_json@ == json_array(c.source_memory_ids),
        row.created_at == c.created_at,
        row.updated_at == c.updated_at,
{
}

/// Each column of a stored link holds the field of its name.
pub proof fn edge_columns_hold_their_fields(row: EdgeRow)
    ensures
        ({
            let e = row.decoded();
            &&& e.id == row.id@
            &&& e.namespace == row.namespace@
            &&& e.workspace_id == row.workspace_id@
            &&& e.source_id == row.source_id@
            &&& e.target_id == row.target_id@
            &&& e.relation == KnowledgeRelation::named(row.relation@)
            &&& e.weight == row.weight
            &&& e.created_at == row.created_at
        }),
{
}

/// A link is written into the columns of the names of its fields.
pub proof fn edge_fields_go_to_their_columns(row: EdgeRow, e: EdgeModel)
    requires
        row.encodes(e),
    ensures
        row.id@ == e.id,
        row.namespace@ == e.namespace,
        row.workspace_id@ == e.workspace_id,
        row.source_id@ == e.source_id,
        row.target_id@ == e.target_id,
        row.relation@ == e.relation.name(),
        row.weight == e.weight,
        row.created_at == e.created_at,
{
}

} // verus!
