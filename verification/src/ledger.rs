use vstd::prelude::*;

use crate::clock::{clock_reading, now_epoch};
use crate::error::{fails, refuses, storage, Result};
use crate::find::{first_match, first_match_facts, first_match_is};
use crate::ident::{is_fresh_id, prefixed, random_suffix};
use crate::kinds::KnowledgeRelation;
use crate::knowledge::{
    concept_models, correction_models, edge_models, ConceptModel, CorrectionModel,
    union_holds_both, CorrectionRecord, EdgeModel, KnowledgeEdge, NewConcept, NewCorrection,
    StoredConcept,
};
use crate::graph::{expanded, expansion_is_exact, within_hops};
use crate::learn::{
    check_link, concept_at, concept_step, concepts_in, edge_made, edges_in, find_concept,
    known_seeds, link_step, neighborhood, picked, unknown_ends_text,
};
use crate::order::{filter_values, keyed_apart, push_keeps_apart, update_keeps_apart};
use crate::recall::within;
use crate::single::{clamping_keeps_units, larger_is_below_neither, Single};
use crate::text::{same_text, trimmed};

verus! {

/// Corrections, concepts and the links between them.
#[derive(Debug)]
pub struct KnowledgeTable {
    corrections: Vec<CorrectionRecord>,
    concepts: Vec<StoredConcept>,
    edges: Vec<KnowledgeEdge>,
}

/// What a `KnowledgeTable` holds.
#[verifier::ext_equal]
pub struct KnowledgeModel {
    pub corrections: Seq<CorrectionModel>,
    pub concepts: Seq<ConceptModel>,
    pub edges: Seq<EdgeModel>,
}

impl View for KnowledgeTable {
    type V = KnowledgeModel;

    closed spec fn view(&self) -> KnowledgeModel {
        KnowledgeModel {
            corrections: correction_models(self.corrections@),
            concepts: concept_models(self.concepts@),
            edges: edge_models(self.edges@),
        }
    }
}

/// Whether a concept of the workspace has the identifier.
pub open spec fn has_concept(
    list: Seq<ConceptModel>,
    namespace: Seq<char>,
    workspace_id: Seq<char>,
    id: Seq<char>,
) -> bool {
    concept_at(list, id) matches Some(i) && list[i].belongs(namespace, workspace_id)
}

/// Where the concept of the same name stands.
pub open spec fn namesake(list: Seq<ConceptModel>, c: ConceptModel) -> Option<int> {
    first_match(list, |row: ConceptModel| row.names_same(c))
}

/// Where the correction with the identifier stands.
pub open spec fn correction_at(list: Seq<CorrectionModel>, id: Seq<char>) -> Option<int> {
    first_match(list, |row: CorrectionModel| row.id == id)
}

/// Where the link with the identifier stands.
pub open spec fn edge_at(list: Seq<EdgeModel>, id: Seq<char>) -> Option<int> {
    first_match(list, |row: EdgeModel| row.id == id)
}

/// Where the same link stands.
pub open spec fn same_edge(list: Seq<EdgeModel>, e: EdgeModel) -> Option<int> {
    first_match(list, |row: EdgeModel| row.says_same(e))
}

/// No two concepts of a workspace have the same name.
pub open spec fn names_unique(list: Seq<ConceptModel>) -> bool {
    forall|i: int, j: int|
        0 <= i < list.len() && 0 <= j < list.len() && i != j ==> !(#[trigger] list[i]).names_same(
            #[trigger] list[j],
        )
}

/// No two links say the same.
pub open spec fn edges_unique(list: Seq<EdgeModel>) -> bool {
    forall|i: int, j: int|
        0 <= i < list.len() && 0 <= j < list.len() && i != j ==> !(#[trigger] list[i]).says_same(
            #[trigger] list[j],
        )
}

/// Each link joins two different concepts of its workspace.
pub open spec fn edges_anchored(list: Seq<EdgeModel>, concepts: Seq<ConceptModel>) -> bool {
    forall|i: int|
        0 <= i < list.len() ==> {
            let e = #[trigger] list[i];
            &&& e.source_id != e.target_id
            &&& has_concept(concepts, e.namespace, e.workspace_id, e.source_id)
            &&& has_concept(concepts, e.namespace, e.workspace_id, e.target_id)
        }
}

impl KnowledgeModel {
    /// Identifiers, names and links are unique, and no link hangs in the air.
    pub open spec fn sound(self) -> bool {
        &&& keyed_apart(self.corrections, |c: CorrectionModel| c.id)
        &&& keyed_apart(self.concepts, |c: ConceptModel| c.id)
        &&& keyed_apart(self.edges, |e: EdgeModel| e.id)
        &&& names_unique(self.concepts)
        &&& edges_unique(self.edges)
        &&& edges_anchored(self.edges, self.concepts)
    }
}

fn find_correction(list: &Vec<CorrectionRecord>, id: &str) -> (r: Option<usize>)
    ensures
        match r {
            Some(i) => correction_at(correction_models(list@), id@) == Some(i as int) && i
                < list@.len(),
            None => correction_at(correction_models(list@), id@) is None,
        },
{
    let ghost all = correction_models(list@);
    let ghost p = |row: CorrectionModel| row.id == id@;
    let mut i: usize = 0;
    while i < list.len()
        invariant
            i <= list@.len(),
            all == correction_models(list@),
            p == (|row: CorrectionModel| row.id == id@),
            forall|j: int| 0 <= j < i ==> !p(#[trigger] all[j]),
        decreases list@.len() - i,
    {
        assert(all[i as int] == list@[i as int]@);
        if same_text(list[i].id.as_str(), id) {
            proof {
                first_match_is(all, p, i as int);
            }
            return Some(i);
        }
        i += 1;
    }
    proof {
        first_match_facts(all, p);
    }
    None
}

fn find_namesake(list: &Vec<StoredConcept>, concept: &StoredConcept) -> (r: Option<usize>)
    ensures
        match r {
            Some(i) => namesake(concept_models(list@), concept@) == Some(i as int) && i
                < list@.len(),
            None => namesake(concept_models(list@), concept@) is None,
        },
{
    let ghost all = concept_models(list@);
    let ghost p = |row: ConceptModel| row.names_same(concept@);
    let mut i: usize = 0;
    while i < list.len()
        invariant
            i <= list@.len(),
            all == concept_models(list@),
            p == (|row: ConceptModel| row.names_same(concept@)),
            forall|j: int| 0 <= j < i ==> !p(#[trigger] all[j]),
        decreases list@.len() - i,
    {
        assert(all[i as int] == list@[i as int]@);
        if same_text(list[i].namespace.as_str(), concept.namespace.as_str()) && same_text(
            list[i].workspace_id.as_str(),
            concept.workspace_id.as_str(),
        ) && same_text(list[i].name.as_str(), concept.name.as_str()) {
            proof {
                first_match_is(all, p, i as int);
            }
            return Some(i);
        }
        i += 1;
    }
    proof {
        first_match_facts(all, p);
    }
    None
}

fn find_edge(list: &Vec<KnowledgeEdge>, id: &str) -> (r: Option<usize>)
    ensures
        match r {
            Some(i) => edge_at(edge_models(list@), id@) == Some(i as int) && i < list@.len(),
            None => edge_at(edge_models(list@), id@) is None,
        },
{
    let ghost all = edge_models(list@);
    let ghost p = |row: EdgeModel| row.id == id@;
    let mut i: usize = 0;
    while i < list.len()
        invariant
            i <= list@.len(),
            all == edge_models(list@),
            p == (|row: EdgeModel| row.id == id@),
            forall|j: int| 0 <= j < i ==> !p(#[trigger] all[j]),
        decreases list@.len() - i,
    {
        assert(all[i as int] == list@[i as int]@);
        if same_text(list[i].id.as_str(), id) {
            proof {
                first_match_is(all, p, i as int);
            }
            return Some(i);
        }
        i += 1;
    }
    proof {
        first_match_facts(all, p);
    }
    None
}

fn find_same_edge(list: &Vec<KnowledgeEdge>, edge: &KnowledgeEdge) -> (r: Option<usize>)
    ensures
        match r {
            Some(i) => same_edge(edge_models(list@), edge@) == Some(i as int) && i < list@.len(),
            None => same_edge(edge_models(list@), edge@) is None,
        },
{
    let ghost all = edge_models(list@);
    let ghost p = |row: EdgeModel| row.says_same(edge@);
    let mut i: usize = 0;
    while i < list.len()
        invariant
            i <= list@.len(),
            all == edge_models(list@),
            p == (|row: EdgeModel| row.says_same(edge@)),
            forall|j: int| 0 <= j < i ==> !p(#[trigger] all[j]),
        decreases list@.len() - i,
    {
        assert(all[i as int] == list@[i as int]@);
        let row = &list[i];
        if same_text(row.namespace.as_str(), edge.namespace.as_str()) && same_text(
            row.workspace_id.as_str(),
            edge.workspace_id.as_str(),
        ) && same_text(row.source_id.as_str(), edge.source_id.as_str()) && same_text(
            row.target_id.as_str(),
            edge.target_id.as_str(),
        ) && row.relation == edge.relation {
            proof {
                first_match_is(all, p, i as int);
            }
            return Some(i);
        }
        i += 1;
    }
    proof {
        first_match_facts(all, p);
    }
    None
}

/// The concepts after one was described.
pub open spec fn described(
    list: Seq<ConceptModel>,
    c: ConceptModel,
    now: i64,
) -> Seq<ConceptModel> {
    match namesake(list, c) {
        Some(i) => list.update(i, list[i].revised_with(c, now)),
        None => list.push(c),
    }
}

/// The concept that is handed back when one was described.
pub open spec fn described_as(
    list: Seq<ConceptModel>,
    c: ConceptModel,
    now: i64,
) -> ConceptModel {
    match namesake(list, c) {
        Some(i) => list[i].revised_with(c, now),
        None => c,
    }
}

/// Whether a concept has to be stored as a new row whose identifier is taken.
pub open spec fn concept_id_taken(list: Seq<ConceptModel>, c: ConceptModel) -> bool {
    namesake(list, c) is None && concept_at(list, c.id) is Some
}

/// What describing a concept at `now` does to the concepts, and what it returns.
pub open spec fn description(
    before: Seq<ConceptModel>,
    c: ConceptModel,
    now: i64,
    after: Seq<ConceptModel>,
    r: Result<StoredConcept>,
) -> bool {
    if concept_id_taken(before, c) {
        fails(r, "UNIQUE constraint failed: concepts.id"@) && after == before
    } else {
        r matches Ok(stored) && stored@ == described_as(before, c, now) && after == described(
            before,
            c,
            now,
        )
    }
}

/// What recording a correction does to the corrections, and what it returns.
pub open spec fn recording(
    before: Seq<CorrectionModel>,
    c: CorrectionModel,
    after: Seq<CorrectionModel>,
    r: Result<CorrectionRecord>,
) -> bool {
    if correction_at(before, c.id) is Some {
        fails(r, "UNIQUE constraint failed: corrections.id"@) && after == before
    } else {
        r matches Ok(stored) && stored@ == c && after == before.push(c)
    }
}

/// What noting that a correction was applied does to the corrections, and what it returns.
pub open spec fn marking(
    before: Seq<CorrectionModel>,
    id: Seq<char>,
    now: i64,
    after: Seq<CorrectionModel>,
    r: bool,
) -> bool {
    match correction_at(before, id) {
        Some(i) => r && after == before.update(i, before[i].applied_at(now)),
        None => !r && after == before,
    }
}

/// The links after one was made: the same link takes the new weight, another is appended.
pub open spec fn edges_after(list: Seq<EdgeModel>, e: EdgeModel) -> Seq<EdgeModel> {
    match same_edge(list, e) {
        Some(i) => list.update(i, EdgeModel { weight: e.weight, ..list[i] }),
        None => list.push(e),
    }
}

/// The link that is asked for, under the identifier that the same link has already, or a new one.
pub open spec fn edge_wanted(list: Seq<EdgeModel>, e: EdgeModel) -> EdgeModel {
    match same_edge(list, e) {
        Some(i) => EdgeModel { id: list[i].id, ..e },
        None => e,
    }
}

impl KnowledgeTable {
    /// A table that holds nothing.
    pub fn new() -> (r: KnowledgeTable)
        ensures
            r@.corrections == Seq::<CorrectionModel>::empty(),
            r@.concepts == Seq::<ConceptModel>::empty(),
            r@.edges == Seq::<EdgeModel>::empty(),
            r@.sound(),
    {
        let r = KnowledgeTable {
            corrections: Vec::new(),
            concepts: Vec::new(),
            edges: Vec::new(),
        };
        assert(r@.corrections =~= Seq::<CorrectionModel>::empty());
        assert(r@.concepts =~= Seq::<ConceptModel>::empty());
        assert(r@.edges =~= Seq::<EdgeModel>::empty());
        r
    }

    /// The corrections, in the order in which they were recorded.
    pub fn corrections(&self) -> (r: &Vec<CorrectionRecord>)
        ensures
            correction_models(r@) == self@.corrections,
    {
        &self.corrections
    }

    /// The concepts, in the order in which they were first described.
    pub fn concepts(&self) -> (r: &Vec<StoredConcept>)
        ensures
            concept_models(r@) == self@.concepts,
    {
        &self.concepts
    }

    /// The links, in the order in which they were first made.
    pub fn edges(&self) -> (r: &Vec<KnowledgeEdge>)
        ensures
            edge_models(r@) == self@.edges,
    {
        &self.edges
    }

    /// Stores a correction whose record is made already.
    pub fn store_correction(&mut self, record: CorrectionRecord) -> (r: Result<CorrectionRecord>)
        requires
            old(self)@.sound(),
        ensures
            final(self)@.sound(),
            final(self)@.concepts == old(self)@.concepts,
            final(self)@.edges == old(self)@.edges,
            recording(old(self)@.corrections, record@, final(self)@.corrections, r),
    {
        let ghost before = self@.corrections;
        let ghost given = record@;
        proof {
            first_match_facts(before, |row: CorrectionModel| row.id == given.id);
        }
        match find_correction(&self.corrections, record.id.as_str()) {
            Some(_) => Err(storage("UNIQUE constraint failed: corrections.id".to_owned())),
            None => {
                self.corrections.push(record.clone());
                assert(self@.corrections =~= before.push(given));
                proof {
                    push_keeps_apart(before, given, |c: CorrectionModel| c.id);
                }
                Ok(record)
            },
        }
    }

    /// Records a correction now, under a new random identifier.
    ///
    /// A new identifier that happens to be in use is refused.
    pub fn record_correction(&mut self, correction: NewCorrection) -> (r: Result<CorrectionRecord>)
        requires
            old(self)@.sound(),
        ensures
            final(self)@.sound(),
            final(self)@.concepts == old(self)@.concepts,
            final(self)@.edges == old(self)@.edges,
            !correction.is_complete() <==> refuses(
                r,
                "correction context, predicted and corrected values are required"@,
            ),
            r is Err ==> final(self)@.corrections == old(self)@.corrections,
            correction.is_complete() ==> exists|written: i64, id: Seq<char>| #[trigger]
                recording(
                    old(self)@.corrections,
                    correction.record(written, id),
                    final(self)@.corrections,
                    r,
                ) && is_fresh_id(id, "corr_"@) && clock_reading(written),
    {
        let record = correction.into_record()?;
        let ghost given = record@;
        let ghost before = self@.corrections;
        let r = self.store_correction(record);
        proof {
            assert(recording(
                before,
                correction.record(given.created_at, given.id),
                self@.corrections,
                r,
            ));
        }
        r
    }

    /// Notes at `now` that a correction was applied; false where there is none with the
    /// identifier.
    pub fn mark_correction_applied(&mut self, id: &str, now: i64) -> (r: bool)
        requires
            old(self)@.sound(),
            correction_at(old(self)@.corrections, id@) matches Some(i) ==> old(
                self,
            )@.corrections[i].applied_count < u64::MAX,
        ensures
            final(self)@.sound(),
            final(self)@.concepts == old(self)@.concepts,
            final(self)@.edges == old(self)@.edges,
            marking(old(self)@.corrections, id@, now, final(self)@.corrections, r),
    {
        let ghost before = self@.corrections;
        match find_correction(&self.corrections, id) {
            Some(k) => {
                assert(before[k as int] == self.corrections@[k as int]@);
                let row = self.corrections[k].clone().applied(now);
                let ghost model = row@;
                self.corrections.set(k, row);
                let ghost after = before.update(k as int, model);
                assert(self@.corrections =~= after);
                proof {
                    update_keeps_apart(before, k as int, model, |c: CorrectionModel| c.id);
                }
                true
            },
            None => false,
        }
    }

    /// Stores a concept whose record is made already.
    pub fn store_concept(&mut self, concept: StoredConcept, now: i64) -> (r: Result<StoredConcept>)
        requires
            old(self)@.sound(),
        ensures
            final(self)@.sound(),
            final(self)@.corrections == old(self)@.corrections,
            final(self)@.edges == old(self)@.edges,
            description(old(self)@.concepts, concept@, now, final(self)@.concepts, r),
    {
        let ghost before = self@.concepts;
        let ghost links = self@.edges;
        let ghost given = concept@;
        match find_namesake(&self.concepts, &concept) {
            Some(k) => {
                proof {
                    first_match_facts(before, |row: ConceptModel| row.names_same(given));
                }
                assert(before[k as int] == self.concepts@[k as int]@);
                let row = concept_step(concept, Some(self.concepts[k].clone()), now);
                let copy = row.clone();
                self.concepts.set(k, copy);
                assert(self@.concepts =~= before.update(k as int, row@));
                proof {
                    revision_keeps_sound(before, links, k as int, row@);
                }
                Ok(row)
            },
            None => {
                proof {
                    first_match_facts(before, |row: ConceptModel| row.names_same(given));
                    first_match_facts(before, |row: ConceptModel| row.id == given.id);
                }
                match find_concept(&self.concepts, concept.id.as_str()) {
                    Some(_) => Err(storage("UNIQUE constraint failed: concepts.id".to_owned())),
                    None => {
                        let copy = concept.clone();
                        self.concepts.push(copy);
                        assert(self@.concepts =~= before.push(given));
                        proof {
                            addition_keeps_sound(before, links, given);
                        }
                        Ok(concept)
                    },
                }
            },
        }
    }

    /// Describes a concept now: a new one under a new random identifier, or one that is known by
    /// its name once more.
    ///
    /// A new identifier that happens to be in use is refused.
    pub fn upsert_concept(&mut self, concept: NewConcept) -> (r: Result<StoredConcept>)
        requires
            old(self)@.sound(),
        ensures
            final(self)@.sound(),
            final(self)@.corrections == old(self)@.corrections,
            final(self)@.edges == old(self)@.edges,
            !concept.is_complete() <==> refuses(r, "concept name and definition are required"@),
            concept.is_complete() && !concept.confidence.unit() <==> refuses(
                r,
                "concept confidence must be 0..1"@,
            ),
            r is Err ==> final(self)@.concepts == old(self)@.concepts,
            concept.is_complete() && concept.confidence.unit() ==> exists|
                written: i64,
                id: Seq<char>,
                now: i64,
            | #[trigger]
                description(
                    old(self)@.concepts,
                    concept.record(written, id),
                    now,
                    final(self)@.concepts,
                    r,
                ) && is_fresh_id(id, "concept_"@) && clock_reading(written) && clock_reading(now),
    {
        let record = concept.into_record()?;
        let now: i64 = now_epoch();
        let ghost given = record@;
        let ghost before = self@.concepts;
        let r = self.store_concept(record, now);
        proof {
            assert(description(
                before,
                concept.record(given.created_at, given.id),
                now,
                self@.concepts,
                r,
            ));
        }
        r
    }

    /// Links two concepts at `now`; a new link gets an identifier that ends in `suffix`.
    pub fn link_concepts_at(
        &mut self,
        namespace: &str,
        workspace_id: &str,
        source_id: &str,
        target_id: &str,
        relation: KnowledgeRelation,
        weight: Single,
        suffix: &str,
        now: i64,
    ) -> (r: Result<KnowledgeEdge>)
        requires
            old(self)@.sound(),
        ensures
            final(self)@.sound(),
            final(self)@.corrections == old(self)@.corrections,
            final(self)@.concepts == old(self)@.concepts,
            linking(
                old(self)@,
                edge_made(
                    namespace@,
                    workspace_id@,
                    source_id@,
                    target_id@,
                    relation,
                    weight,
                    "edge_"@ + suffix@,
                    now,
                ),
                final(self)@.edges,
                r,
            ),
    {
        let ghost before = self@.edges;
        let ghost known = self@.concepts;
        let ghost asked = edge_made(
            namespace@,
            workspace_id@,
            source_id@,
            target_id@,
            relation,
            weight,
            "edge_"@ + suffix@,
            now,
        );
        let stored = match check_link(source_id, target_id, weight) {
            Ok(w) => w,
            Err(error) => {
                return Err(error);
            },
        };
        let both_known = self.knows(namespace, workspace_id, source_id) && self.knows(
            namespace,
            workspace_id,
            target_id,
        );
        let fresh = match link_step(
            namespace,
            workspace_id,
            source_id,
            target_id,
            relation,
            stored,
            both_known,
            None,
            prefixed("edge_", suffix),
            now,
        ) {
            Ok(edge) => edge,
            Err(error) => {
                return Err(error);
            },
        };
        let ghost e = fresh@;
        assert(e == EdgeModel { weight: weight.unit_clamped(), ..asked });
        proof {
            first_match_facts(before, |row: EdgeModel| row.says_same(e));
        }
        match find_same_edge(&self.edges, &fresh) {
            Some(k) => {
                let mut row = self.edges[k].clone();
                row.weight = stored;
                let mut answer = fresh;
                answer.id = row.id.clone();
                assert(before[k as int] == self.edges@[k as int]@);
                self.edges.set(k, row);
                let ghost after = edges_after(before, e);
                assert(self@.edges =~= after);
                proof {
                    reweighing_keeps_sound(before, known, k as int, after[k as int]);
                }
                Ok(answer)
            },
            None => match find_edge(&self.edges, fresh.id.as_str()) {
                Some(_) => Err(storage("UNIQUE constraint failed: concept_links.id".to_owned())),
                None => {
                    self.edges.push(fresh.clone());
                    let ghost after = before.push(e);
                    assert(self@.edges =~= after);
                    proof {
                        link_keeps_sound(before, known, e);
                    }
                    Ok(fresh)
                },
            },
        }
    }

    /// Links two concepts now; a new link gets a new random identifier.
    ///
    /// A new identifier that happens to be in use is refused.
    pub fn link_concepts(
        &mut self,
        namespace: &str,
        workspace_id: &str,
        source_id: &str,
        target_id: &str,
        relation: KnowledgeRelation,
        weight: Single,
    ) -> (r: Result<KnowledgeEdge>)
        requires
            old(self)@.sound(),
        ensures
            final(self)@.sound(),
            final(self)@.corrections == old(self)@.corrections,
            final(self)@.concepts == old(self)@.concepts,
            exists|id: Seq<char>, now: i64| #[trigger]
                linking(
                    old(self)@,
                    edge_made(
                        namespace@,
                        workspace_id@,
                        source_id@,
                        target_id@,
                        relation,
                        weight,
                        id,
                        now,
                    ),
                    final(self)@.edges,
                    r,
                ) && is_fresh_id(id, "edge_"@) && clock_reading(now),
    {
        let suffix = random_suffix();
        let now: i64 = now_epoch();
        let ghost before = self@;
        let r = self.link_concepts_at(
            namespace,
            workspace_id,
            source_id,
            target_id,
            relation,
            weight,
            suffix.as_str(),
            now,
        );
        proof {
            let id = "edge_"@ + suffix@;
            assert(is_fresh_id(id, "edge_"@));
            assert(linking(
                before,
                edge_made(
                    namespace@,
                    workspace_id@,
                    source_id@,
                    target_id@,
                    relation,
                    weight,
                    id,
                    now,
                ),
                self@.edges,
                r,
            ));
        }
        r
    }

    fn knows(&self, namespace: &str, workspace_id: &str, id: &str) -> (r: bool)
        ensures
            r == has_concept(self@.concepts, namespace@, workspace_id@, id@),
    {
        match find_concept(&self.concepts, id) {
            Some(i) => {
                assert(self@.concepts[i as int] == self.concepts@[i as int]@);
                same_text(self.concepts[i].namespace.as_str(), namespace) && same_text(
                    self.concepts[i].workspace_id.as_str(),
                    workspace_id,
                )
            },
            None => false,
        }
    }
}

/// What making a link does to the links, and what it returns. `e` is the link as it was asked
/// for, with a new identifier and the weight as given.
pub open spec fn linking(
    before: KnowledgeModel,
    e: EdgeModel,
    after: Seq<EdgeModel>,
    r: Result<KnowledgeEdge>,
) -> bool {
    let known = has_concept(before.concepts, e.namespace, e.workspace_id, e.source_id)
        && has_concept(before.concepts, e.namespace, e.workspace_id, e.target_id);
    let kept = EdgeModel { weight: e.weight.unit_clamped(), ..e };
    if e.source_id == e.target_id {
        refuses(r, "a concept cannot link to itself"@) && after == before.edges
    } else if e.weight.magnitude() >= 0x7f80_0000 {
        refuses(r, "knowledge link weight must be finite"@) && after == before.edges
    } else if !known {
        refuses(r, unknown_ends_text()) && after == before.edges
    } else if same_edge(before.edges, kept) is None && edge_at(before.edges, e.id) is Some {
        fails(r, "UNIQUE constraint failed: concept_links.id"@) && after == before.edges
    } else {
        r matches Ok(made) && made@ == edge_wanted(before.edges, kept) && after == edges_after(
            before.edges,
            kept,
        )
    }
}

proof fn has_concept_kept(
    before: Seq<ConceptModel>,
    after: Seq<ConceptModel>,
    namespace: Seq<char>,
    workspace_id: Seq<char>,
    id: Seq<char>,
)
    requires
        before.len() <= after.len(),
        forall|i: int|
            0 <= i < before.len() ==> (#[trigger] after[i]).id == before[i].id
                && after[i].namespace == before[i].namespace && after[i].workspace_id
                == before[i].workspace_id,
        has_concept(before, namespace, workspace_id, id),
    ensures
        has_concept(after, namespace, workspace_id, id),
{
    let p = |c: ConceptModel| c.id == id;
    first_match_facts(before, p);
    let k = concept_at(before, id)->0;
    assert(p(after[k]));
    assert forall|j: int| 0 <= j < k implies !p(#[trigger] after[j]) by {
        assert(!p(before[j]));
    }
    first_match_is(after, p, k);
}

proof fn anchors_kept(
    edges: Seq<EdgeModel>,
    before: Seq<ConceptModel>,
    after: Seq<ConceptModel>,
)
    requires
        before.len() <= after.len(),
        forall|i: int|
            0 <= i < before.len() ==> (#[trigger] after[i]).id == before[i].id
                && after[i].namespace == before[i].namespace && after[i].workspace_id
                == before[i].workspace_id,
        edges_anchored(edges, before),
    ensures
        edges_anchored(edges, after),
{
    assert forall|i: int| 0 <= i < edges.len() implies {
        let e = #[trigger] edges[i];
        &&& e.source_id != e.target_id
        &&& has_concept(after, e.namespace, e.workspace_id, e.source_id)
        &&& has_concept(after, e.namespace, e.workspace_id, e.target_id)
    } by {
        let e = edges[i];
        has_concept_kept(before, after, e.namespace, e.workspace_id, e.source_id);
        has_concept_kept(before, after, e.namespace, e.workspace_id, e.target_id);
    }
}

proof fn reweighing_keeps_sound(
    before: Seq<EdgeModel>,
    concepts: Seq<ConceptModel>,
    k: int,
    row: EdgeModel,
)
    requires
        0 <= k < before.len(),
        keyed_apart(before, |e: EdgeModel| e.id),
        edges_unique(before),
        edges_anchored(before, concepts),
        row == (EdgeModel { weight: row.weight, ..before[k] }),
    ensures
        keyed_apart(before.update(k, row), |e: EdgeModel| e.id),
        edges_unique(before.update(k, row)),
        edges_anchored(before.update(k, row), concepts),
{
    let after = before.update(k, row);
    update_keeps_apart(before, k, row, |e: EdgeModel| e.id);
    assert forall|i: int, j: int|
        0 <= i < after.len() && 0 <= j < after.len() && i != j implies !(
    #[trigger] after[i]).says_same(#[trigger] after[j]) by {
        assert(!before[i].says_same(before[j]));
    }
    assert forall|i: int| 0 <= i < after.len() implies {
        let x = #[trigger] after[i];
        &&& x.source_id != x.target_id
        &&& has_concept(concepts, x.namespace, x.workspace_id, x.source_id)
        &&& has_concept(concepts, x.namespace, x.workspace_id, x.target_id)
    } by {
        assert(before[i].source_id != before[i].target_id);
    }
}

proof fn link_keeps_sound(before: Seq<EdgeModel>, concepts: Seq<ConceptModel>, e: EdgeModel)
    requires
        keyed_apart(before, |e: EdgeModel| e.id),
        edges_unique(before),
        edges_anchored(before, concepts),
        edges_anchored(seq![e], concepts),
        same_edge(before, e) is None,
        edge_at(before, e.id) is None,
    ensures
        keyed_apart(before.push(e), |e: EdgeModel| e.id),
        edges_unique(before.push(e)),
        edges_anchored(before.push(e), concepts),
{
    let after = before.push(e);
    let p = |row: EdgeModel| row.id == e.id;
    let q = |row: EdgeModel| row.says_same(e);
    first_match_facts(before, p);
    first_match_facts(before, q);
    push_keeps_apart(before, e, |e: EdgeModel| e.id);
    assert forall|i: int, j: int|
        0 <= i < after.len() && 0 <= j < after.len() && i != j implies !(
    #[trigger] after[i]).says_same(#[trigger] after[j]) by {
        if i < before.len() && j < before.len() {
            assert(!before[i].says_same(before[j]));
        } else {
            let o = if i < before.len() { i } else { j };
            assert(!q(before[o]));
        }
    }
    assert forall|i: int| 0 <= i < after.len() implies {
        let x = #[trigger] after[i];
        &&& x.source_id != x.target_id
        &&& has_concept(concepts, x.namespace, x.workspace_id, x.source_id)
        &&& has_concept(concepts, x.namespace, x.workspace_id, x.target_id)
    } by {
        if i < before.len() {
            assert(before[i].source_id != before[i].target_id);
        } else {
            assert(seq![e][0].source_id != e.target_id);
        }
    }
}

proof fn revision_keeps_sound(
    before: Seq<ConceptModel>,
    edges: Seq<EdgeModel>,
    k: int,
    row: ConceptModel,
)
    requires
        0 <= k < before.len(),
        keyed_apart(before, |c: ConceptModel| c.id),
        names_unique(before),
        edges_anchored(edges, before),
        row.id == before[k].id,
        row.names_same(before[k]),
    ensures
        keyed_apart(before.update(k, row), |c: ConceptModel| c.id),
        names_unique(before.update(k, row)),
        edges_anchored(edges, before.update(k, row)),
{
    let after = before.update(k, row);
    update_keeps_apart(before, k, row, |c: ConceptModel| c.id);
    assert forall|i: int, j: int|
        0 <= i < after.len() && 0 <= j < after.len() && i != j implies !(
    #[trigger] after[i]).names_same(#[trigger] after[j]) by {
        assert(!before[i].names_same(before[j]));
    }
    anchors_kept(edges, before, after);
}

proof fn addition_keeps_sound(
    before: Seq<ConceptModel>,
    edges: Seq<EdgeModel>,
    c: ConceptModel,
)
    requires
        keyed_apart(before, |c: ConceptModel| c.id),
        names_unique(before),
        edges_anchored(edges, before),
        namesake(before, c) is None,
        concept_at(before, c.id) is None,
    ensures
        keyed_apart(before.push(c), |c: ConceptModel| c.id),
        names_unique(before.push(c)),
        edges_anchored(edges, before.push(c)),
{
    let after = before.push(c);
    let p = |row: ConceptModel| row.id == c.id;
    let q = |row: ConceptModel| row.names_same(c);
    first_match_facts(before, p);
    first_match_facts(before, q);
    push_keeps_apart(before, c, |c: ConceptModel| c.id);
    assert forall|i: int, j: int|
        0 <= i < after.len() && 0 <= j < after.len() && i != j implies !(
    #[trigger] after[i]).names_same(#[trigger] after[j]) by {
        if i < before.len() && j < before.len() {
            assert(!before[i].names_same(before[j]));
        } else {
            let o = if i < before.len() { i } else { j };
            assert(!q(before[o]));
        }
    }
    anchors_kept(edges, before, after);
}

/// A name stands for one concept: describing it again adds none and keeps the identifier.
pub proof fn repeated_description_is_one(
    list: Seq<ConceptModel>,
    c: ConceptModel,
    again: ConceptModel,
    now: i64,
    later: i64,
)
    requires
        again.names_same(c),
    ensures
        ({
            let after = described(list, c, now);
            &&& described(after, again, later).len() == after.len()
            &&& described_as(after, again, later).id == described_as(list, c, now).id
        }),
{
    let after = described(list, c, now);
    let p = |row: ConceptModel| row.names_same(c);
    let q = |row: ConceptModel| row.names_same(again);
    first_match_facts(list, p);
    let k = match namesake(list, c) {
        Some(i) => i,
        None => list.len() as int,
    };
    assert(q(after[k]));
    assert forall|j: int| 0 <= j < k implies !q(#[trigger] after[j]) by {
        assert(after[j] == list[j]);
        assert(!p(list[j]));
    }
    first_match_is(after, q, k);
}

/// Making the same link again adds none, keeps the identifier and takes the new weight.
pub proof fn repeated_link_is_one(list: Seq<EdgeModel>, e: EdgeModel, again: EdgeModel)
    requires
        again.says_same(e),
    ensures
        ({
            let after = edges_after(list, e);
            &&& edges_after(after, again).len() == after.len()
            &&& edge_wanted(after, again).id == edge_wanted(list, e).id
            &&& same_edge(edges_after(after, again), e) matches Some(i)
            &&& edges_after(after, again)[i].weight == again.weight
        }),
{
    let after = edges_after(list, e);
    let last = edges_after(after, again);
    let p = |row: EdgeModel| row.says_same(e);
    let q = |row: EdgeModel| row.says_same(again);
    first_match_facts(list, p);
    let k = match same_edge(list, e) {
        Some(i) => i,
        None => list.len() as int,
    };
    assert(q(after[k]));
    assert forall|j: int| 0 <= j < k implies !q(#[trigger] after[j]) by {
        assert(after[j] == list[j]);
        assert(!p(list[j]));
    }
    first_match_is(after, q, k);
    assert(p(last[k]));
    assert forall|j: int| 0 <= j < k implies !p(#[trigger] last[j]) by {
        assert(last[j] == list[j]);
        assert(!p(list[j]));
    }
    first_match_is(last, p, k);
}

proof fn known_in_workspace(
    list: Seq<ConceptModel>,
    namespace: Seq<char>,
    workspace_id: Seq<char>,
    id: Seq<char>,
)
    requires
        has_concept(list, namespace, workspace_id, id),
    ensures
        concept_at(concepts_in(list, namespace, workspace_id), id) is Some,
{
    let own = concepts_in(list, namespace, workspace_id);
    let p = |c: ConceptModel| c.id == id;
    first_match_facts(list, p);
    first_match_facts(own, p);
    let k = concept_at(list, id)->0;
    assert(list.contains(list[k]));
    filter_values(list, |c: ConceptModel| c.belongs(namespace, workspace_id), list[k]);
    let m = choose|m: int| 0 <= m < own.len() && own[m] == list[k];
    assert(p(own[m]));
}

proof fn reachable_is_known(
    model: KnowledgeModel,
    namespace: Seq<char>,
    workspace_id: Seq<char>,
    seeds: Seq<Seq<char>>,
    id: Seq<char>,
    hops: nat,
)
    requires
        model.sound(),
        within_hops(
            known_seeds(seeds, concepts_in(model.concepts, namespace, workspace_id)),
            edges_in(model.edges, namespace, workspace_id),
            id,
            hops,
        ),
    ensures
        concept_at(concepts_in(model.concepts, namespace, workspace_id), id) is Some,
    decreases hops,
{
    let own = concepts_in(model.concepts, namespace, workspace_id);
    let start = known_seeds(seeds, own);
    let links = edges_in(model.edges, namespace, workspace_id);
    if hops == 0 {
        filter_values(seeds, |id: Seq<char>| concept_at(own, id) is Some, id);
    } else if within_hops(start, links, id, (hops - 1) as nat) {
        reachable_is_known(model, namespace, workspace_id, seeds, id, (hops - 1) as nat);
    } else {
        let h = (hops - 1) as nat;
        let k = choose|k: int|
            0 <= k < links.len() && (((#[trigger] links[k]).source_id == id && within_hops(
                start,
                links,
                links[k].target_id,
                h,
            )) || (links[k].target_id == id && within_hops(start, links, links[k].source_id, h)));
        let e = links[k];
        assert(links.contains(e));
        filter_values(
            model.edges,
            |e: EdgeModel| e.namespace == namespace && e.workspace_id == workspace_id,
            e,
        );
        let m = choose|m: int| 0 <= m < model.edges.len() && model.edges[m] == e;
        assert(has_concept(model.concepts, e.namespace, e.workspace_id, model.edges[m].source_id));
        known_in_workspace(model.concepts, namespace, workspace_id, e.source_id);
        known_in_workspace(model.concepts, namespace, workspace_id, e.target_id);
    }
}

proof fn all_picked(ids: Seq<Seq<char>>, own: Seq<ConceptModel>)
    requires
        forall|i: int| 0 <= i < ids.len() ==> concept_at(own, #[trigger] ids[i]) is Some,
    ensures
        picked(ids, own).len() == ids.len(),
        forall|i: int|
            0 <= i < ids.len() ==> (#[trigger] picked(ids, own)[i]).id == ids[i] && own.contains(
                picked(ids, own)[i],
            ),
    decreases ids.len(),
{
    if ids.len() > 0 {
        let init = ids.drop_last();
        assert forall|i: int| 0 <= i < init.len() implies concept_at(
            own,
            #[trigger] init[i],
        ) is Some by {
            assert(concept_at(own, ids[i]) is Some);
        }
        all_picked(init, own);
        let last = ids[ids.len() - 1];
        assert(concept_at(own, last) is Some);
        first_match_facts(own, |c: ConceptModel| c.id == last);
        assert forall|i: int| 0 <= i < ids.len() implies (#[trigger] picked(ids, own)[i]).id
            == ids[i] && own.contains(picked(ids, own)[i]) by {
            if i < init.len() {
                assert(picked(ids, own)[i] == picked(init, own)[i]);
            }
        }
    }
}

/// In a sound table every concept of a neighborhood is found, under its identifier and in its
/// workspace.
pub proof fn neighborhood_resolves(
    model: KnowledgeModel,
    namespace: Seq<char>,
    workspace_id: Seq<char>,
    seeds: Seq<Seq<char>>,
    max_hops: usize,
    limit: usize,
)
    requires
        model.sound(),
    ensures
        ({
            let ids = neighborhood(
                model.concepts,
                model.edges,
                namespace,
                workspace_id,
                seeds,
                max_hops,
                limit,
            );
            let found = picked(ids, concepts_in(model.concepts, namespace, workspace_id));
            &&& found.len() == ids.len()
            &&& forall|i: int|
                0 <= i < ids.len() ==> (#[trigger] found[i]).id == ids[i] && found[i].belongs(
                    namespace,
                    workspace_id,
                ) && model.concepts.contains(found[i])
        }),
{
    let own = concepts_in(model.concepts, namespace, workspace_id);
    let start = known_seeds(seeds, own);
    let links = edges_in(model.edges, namespace, workspace_id);
    let hops = within(max_hops as int, 0, 4) as nat;
    let all = expanded(start, links, hops);
    let ids = neighborhood(
        model.concepts,
        model.edges,
        namespace,
        workspace_id,
        seeds,
        max_hops,
        limit,
    );
    assert forall|i: int| 0 <= i < ids.len() implies concept_at(own, #[trigger] ids[i]) is Some by {
        assert(all.contains(all[i]));
        expansion_is_exact(start, links, hops, ids[i]);
        reachable_is_known(model, namespace, workspace_id, seeds, ids[i], hops);
    }
    all_picked(ids, own);
    let found = picked(ids, own);
    assert forall|i: int| 0 <= i < ids.len() implies (#[trigger] found[i]).id == ids[i]
        && found[i].belongs(namespace, workspace_id) && model.concepts.contains(found[i]) by {
        filter_values(
            model.concepts,
            |c: ConceptModel| c.belongs(namespace, workspace_id),
            found[i],
        );
    }
}

/// Recording a correction appends it and leaves the others alone; it is refused only where another one
/// has its identifier, and changes nothing then.
pub proof fn recording_appends_one(
    before: Seq<CorrectionModel>,
    c: CorrectionModel,
    after: Seq<CorrectionModel>,
    r: Result<CorrectionRecord>,
)
    requires
        recording(before, c, after, r),
    ensures
        r is Err <==> exists|i: int| 0 <= i < before.len() && (#[trigger] before[i]).id == c.id,
        r is Err ==> after == before,
        r is Ok ==> after.len() == before.len() + 1 && after.last() == c,
        r is Ok ==> forall|i: int| 0 <= i < before.len() ==> after[i] == #[trigger] before[i],
        r matches Ok(stored) ==> stored@ == c,
{
    let p = |row: CorrectionModel| row.id == c.id;
    first_match_facts(before, p);
    if correction_at(before, c.id) is Some {
        let i = correction_at(before, c.id)->0;
        assert(before[i].id == c.id);
    } else {
        assert forall|i: int| 0 <= i < before.len() implies (#[trigger] before[i]).id != c.id by {
            assert(!p(before[i]));
        }
    }
}

/// Noting that a correction was applied counts one more for the correction with the identifier and
/// moves its time; everything else it says, and every other correction, stays. Without such a
/// correction nothing changes.
pub proof fn marking_counts_one_correction(
    before: Seq<CorrectionModel>,
    id: Seq<char>,
    now: i64,
    after: Seq<CorrectionModel>,
    r: bool,
    k: int,
)
    requires
        marking(before, id, now, after, r),
        keyed_apart(before, |c: CorrectionModel| c.id),
        0 <= k < before.len(),
        before[k].id == id ==> before[k].applied_count < u64::MAX,
    ensures
        after.len() == before.len(),
        before[k].id == id ==> r,
        !r ==> after == before,
        before[k].id != id ==> after[k] == before[k],
        before[k].id == id ==> after[k].applied_count == before[k].applied_count + 1
            && after[k].updated_at == now,
        after[k].id == before[k].id,
        after[k].namespace == before[k].namespace,
        after[k].workspace_id == before[k].workspace_id,
        after[k].context == before[k].context,
        after[k].predicted == before[k].predicted,
        after[k].corrected == before[k].corrected,
        after[k].reason == before[k].reason,
        after[k].source == before[k].source,
        after[k].created_at == before[k].created_at,
{
    let p = |row: CorrectionModel| row.id == id;
    let key = |c: CorrectionModel| c.id;
    first_match_facts(before, p);
    if before[k].id == id {
        assert(p(before[k]));
        let i = correction_at(before, id)->0;
        if i != k {
            assert(key(before[i]) != key(before[k]));
        }
    }
}

/// Describing a concept that is known by its name changes that concept alone: it keeps its identifier,
/// its name and its time of creation, takes the new definition and the time, and has the confidence of
/// one of both, below neither. A name that is not known adds a concept as it comes. It is refused only
/// where the name is new and the identifier is not, and changes nothing then.
pub proof fn describing_changes_one_concept(
    before: Seq<ConceptModel>,
    c: ConceptModel,
    now: i64,
    after: Seq<ConceptModel>,
    r: Result<StoredConcept>,
    k: int,
)
    requires
        description(before, c, now, after, r),
        names_unique(before),
    ensures
        r is Err <==> {
            &&& forall|i: int|
                0 <= i < before.len() ==> !((#[trigger] before[i]).namespace == c.namespace
                    && before[i].workspace_id == c.workspace_id && before[i].name == c.name)
            &&& exists|i: int| 0 <= i < before.len() && (#[trigger] before[i]).id == c.id
        },
        r is Err ==> after == before,
        0 <= k < before.len() && before[k].namespace == c.namespace && before[k].workspace_id
            == c.workspace_id && before[k].name == c.name ==> {
            &&& r matches Ok(stored) && stored@ == after[k]
            &&& after.len() == before.len()
            &&& forall|i: int|
                0 <= i < before.len() && i != k ==> after[i] == #[trigger] before[i]
            &&& after[k].id == before[k].id && after[k].created_at == before[k].created_at
            &&& after[k].namespace == before[k].namespace && after[k].workspace_id
                == before[k].workspace_id && after[k].name == before[k].name
            &&& after[k].definition == c.definition && after[k].updated_at == now
            &&& after[k].confidence == before[k].confidence || after[k].confidence == c.confidence
            &&& !before[k].confidence.nan() && !c.confidence.nan() ==> after[k].confidence.order()
                >= before[k].confidence.order() && after[k].confidence.order()
                >= c.confidence.order()
            &&& before[k].revision < u64::MAX ==> after[k].revision == before[k].revision + 1
            &&& forall|v: Seq<char>|
                (before[k].labels.contains(v) || c.labels.contains(v)) && trimmed(v).len() > 0
                    <==> #[trigger] after[k].labels.contains(v)
            &&& forall|v: Seq<char>|
                (before[k].source_memory_ids.contains(v) || c.source_memory_ids.contains(v))
                    && trimmed(v).len() > 0 <==> #[trigger] after[k].source_memory_ids.contains(v)
        },
        r is Ok && (forall|i: int|
            0 <= i < before.len() ==> !((#[trigger] before[i]).namespace == c.namespace
                && before[i].workspace_id == c.workspace_id && before[i].name == c.name)) ==> after
            == before.push(c) && r->Ok_0@ == c,
{
    let p = |row: ConceptModel| row.names_same(c);
    let q = |row: ConceptModel| row.id == c.id;
    first_match_facts(before, p);
    first_match_facts(before, q);
    assert forall|i: int| 0 <= i < before.len() implies p(#[trigger] before[i]) == (
    before[i].namespace == c.namespace && before[i].workspace_id == c.workspace_id
        && before[i].name == c.name) by {
    }
    if namesake(before, c) is None {
        if concept_at(before, c.id) is Some {
            let i = concept_at(before, c.id)->0;
            assert(before[i].id == c.id);
        } else {
            assert forall|i: int| 0 <= i < before.len() implies (#[trigger] before[i]).id
                != c.id by {
                assert(!q(before[i]));
            }
        }
    } else {
        let n = namesake(before, c)->0;
        assert(p(before[n]));
    }
    if 0 <= k < before.len() && p(before[k]) {
        let n = namesake(before, c)->0;
        if n != k {
            assert(before[n].names_same(before[k]));
        }
        assert forall|v: Seq<char>|
            (before[k].labels.contains(v) || c.labels.contains(v)) && trimmed(v).len() > 0
                <==> #[trigger] after[k].labels.contains(v) by {
            union_holds_both(before[k].labels, c.labels, v);
        }
        assert forall|v: Seq<char>|
            (before[k].source_memory_ids.contains(v) || c.source_memory_ids.contains(v)) && trimmed(
                v,
            ).len() > 0 <==> #[trigger] after[k].source_memory_ids.contains(v) by {
            union_holds_both(before[k].source_memory_ids, c.source_memory_ids, v);
        }
        larger_is_below_neither(before[k].confidence, c.confidence);
    }
}

/// A link is made exactly where it joins two different concepts of its workspace, its weight is a
/// finite number, and its identifier is free unless the same link is there already; otherwise nothing
/// changes.
pub proof fn only_sound_links_are_made(
    before: KnowledgeModel,
    e: EdgeModel,
    after: Seq<EdgeModel>,
    r: Result<KnowledgeEdge>,
)
    requires
        linking(before, e, after, r),
        before.sound(),
    ensures
        r is Err ==> after == before.edges,
        r is Ok <==> {
            &&& e.source_id != e.target_id
            &&& -0x7f80_0000 < e.weight.order() < 0x7f80_0000
            &&& exists|i: int|
                0 <= i < before.concepts.len() && (#[trigger] before.concepts[i]).id == e.source_id
                    && before.concepts[i].namespace == e.namespace
                    && before.concepts[i].workspace_id == e.workspace_id
            &&& exists|i: int|
                0 <= i < before.concepts.len() && (#[trigger] before.concepts[i]).id == e.target_id
                    && before.concepts[i].namespace == e.namespace
                    && before.concepts[i].workspace_id == e.workspace_id
            &&& (forall|i: int|
                0 <= i < before.edges.len() ==> (#[trigger] before.edges[i]).id != e.id) || exists|
                i: int,
            |
                0 <= i < before.edges.len() && (#[trigger] before.edges[i]).namespace == e.namespace
                    && before.edges[i].workspace_id == e.workspace_id && before.edges[i].source_id
                    == e.source_id && before.edges[i].target_id == e.target_id
                    && before.edges[i].relation == e.relation
        },
{
    let kept = EdgeModel { weight: e.weight.unit_clamped(), ..e };
    concept_is_known(before, e.namespace, e.workspace_id, e.source_id);
    concept_is_known(before, e.namespace, e.workspace_id, e.target_id);
    let p = |row: EdgeModel| row.says_same(kept);
    let q = |row: EdgeModel| row.id == e.id;
    first_match_facts(before.edges, p);
    first_match_facts(before.edges, q);
    assert forall|i: int| 0 <= i < before.edges.len() implies p(#[trigger] before.edges[i]) == (
    before.edges[i].namespace == e.namespace && before.edges[i].workspace_id == e.workspace_id
        && before.edges[i].source_id == e.source_id && before.edges[i].target_id == e.target_id
        && before.edges[i].relation == e.relation) by {
    }
    assert forall|i: int| 0 <= i < before.edges.len() implies q(#[trigger] before.edges[i]) == (
    before.edges[i].id == e.id) by {
    }
    if same_edge(before.edges, kept) is Some {
        assert(p(before.edges[same_edge(before.edges, kept)->0]));
    }
    if edge_at(before.edges, e.id) is Some {
        assert(q(before.edges[edge_at(before.edges, e.id)->0]));
    }
}

proof fn concept_is_known(
    model: KnowledgeModel,
    namespace: Seq<char>,
    workspace_id: Seq<char>,
    id: Seq<char>,
)
    requires
        model.sound(),
    ensures
        has_concept(model.concepts, namespace, workspace_id, id) <==> exists|i: int|
            0 <= i < model.concepts.len() && (#[trigger] model.concepts[i]).id == id
                && model.concepts[i].namespace == namespace && model.concepts[i].workspace_id
                == workspace_id,
{
    let list = model.concepts;
    let p = |c: ConceptModel| c.id == id;
    let key = |c: ConceptModel| c.id;
    first_match_facts(list, p);
    if concept_at(list, id) is Some {
        let k = concept_at(list, id)->0;
        assert(list[k].id == id);
        assert forall|i: int| 0 <= i < list.len() && (#[trigger] list[i]).id == id implies i == k by {
            if i != k {
                assert(key(list[i]) != key(list[k]));
            }
        }
    } else {
        assert forall|i: int| 0 <= i < list.len() implies (#[trigger] list[i]).id != id by {
            assert(!p(list[i]));
        }
    }
}

/// Making a link that is there already gives it the new weight, brought between zero and one, and leaves
/// its identifier and its time of creation alone; a new one is appended. Every other link stays.
pub proof fn linking_changes_one_link(
    before: KnowledgeModel,
    e: EdgeModel,
    after: Seq<EdgeModel>,
    r: Result<KnowledgeEdge>,
    k: int,
)
    requires
        linking(before, e, after, r),
        before.sound(),
        r is Ok,
    ensures
        ({
            let old = before.edges[k];
            let made = r->Ok_0@;
            let same = old.namespace == e.namespace && old.workspace_id == e.workspace_id
                && old.source_id == e.source_id && old.target_id == e.target_id && old.relation
                == e.relation;
            &&& 0 <= k < before.edges.len() && !same ==> after[k] == old
            &&& 0 <= k < before.edges.len() && same ==> {
                &&& after.len() == before.edges.len()
                &&& after[k].weight == made.weight
                &&& after[k].id == old.id && after[k].created_at == old.created_at && made.id
                    == old.id
                &&& after[k].source_id == old.source_id && after[k].target_id == old.target_id
                    && after[k].relation == old.relation && after[k].namespace == old.namespace
                    && after[k].workspace_id == old.workspace_id
            }
            &&& before.edges.len() == 0 ==> after == seq![made]
            &&& after.len() > before.edges.len() ==> after.len() == before.edges.len() + 1
                && after.last() == made && made.id == e.id
            &&& made.source_id == e.source_id && made.target_id == e.target_id && made.relation
                == e.relation && made.namespace == e.namespace && made.workspace_id
                == e.workspace_id && made.created_at == e.created_at
            &&& 0 <= e.weight.order() <= 0x3f80_0000 ==> made.weight == e.weight
            &&& e.weight.order() < 0 ==> made.weight == (Single { bits: 0 })
            &&& e.weight.order() > 0x3f80_0000 ==> made.weight == (Single { bits: 0x3f80_0000 })
        }),
{
    let kept = EdgeModel { weight: e.weight.unit_clamped(), ..e };
    let p = |row: EdgeModel| row.says_same(kept);
    first_match_facts(before.edges, p);
    clamping_keeps_units(e.weight);
    if same_edge(before.edges, kept) is Some {
        let n = same_edge(before.edges, kept)->0;
        assert(p(before.edges[n]));
        if n != k && 0 <= k < before.edges.len() && p(before.edges[k]) {
            assert(before.edges[n].says_same(before.edges[k]));
        }
    } else if 0 <= k < before.edges.len() {
        assert(!p(before.edges[k]));
    }
}

} // verus!
