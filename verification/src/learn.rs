use vstd::prelude::*;

use crate::clock::{signed, to_signed};
use crate::error::{invalid, refuses, Result};
use crate::find::{first_match, first_match_facts, first_match_is};
use crate::graph::{expand_neighborhood, expanded, expansion_is_cycle_safe, expansion_is_exact, within_hops};
use crate::kinds::KnowledgeRelation;
use crate::knowledge::{
    concept_models, correction_models, edge_models, ConceptModel, CorrectionModel,
    CorrectionRecord, EdgeModel, KnowledgeEdge, StoredConcept,
};
use crate::order::{
    arranged, arranged_facts, descending, filter_values, has_stable_order, places, stable_order,
    stable_positions, text_less, Place, SortKey,
};
use crate::recall::{clamp, search_limit, top, within};
use crate::single::{clamping_keeps_units, Single};
use crate::text::{chars_of, same_text, texts};

verus! {

/// The concept under its name: the one that is there, described again, or the new one.
pub fn concept_step(
    incoming: StoredConcept,
    existing: Option<StoredConcept>,
    now: i64,
) -> (r: StoredConcept)
    ensures
        r@ == (match existing {
            Some(c) => c@.revised_with(incoming@, now),
            None => incoming@,
        }),
{
    match existing {
        Some(c) => c.revise(incoming, now),
        None => incoming,
    }
}

/// Checks a link before its ends are looked up: the weight that is stored.
pub fn check_link(source_id: &str, target_id: &str, weight: Single) -> (r: Result<Single>)
    ensures
        source_id@ == target_id@ <==> refuses(r, "a concept cannot link to itself"@),
        source_id@ != target_id@ && weight.magnitude() >= 0x7f80_0000 <==> refuses(
            r,
            "knowledge link weight must be finite"@,
        ),
        r is Ok <==> source_id@ != target_id@ && weight.magnitude() < 0x7f80_0000,
        r matches Ok(w) ==> w == weight.unit_clamped() && w.unit(),
{
    proof {
        reveal_strlit("a concept cannot link to itself");
        reveal_strlit("knowledge link weight must be finite");
        assert("a concept cannot link to itself"@.len()
            != "knowledge link weight must be finite"@.len());
    }
    if same_text(source_id, target_id) {
        return Err(invalid("a concept cannot link to itself"));
    }
    if !weight.is_finite() {
        return Err(invalid("knowledge link weight must be finite"));
    }
    Ok(weight.clamp_unit())
}

/// The link that is returned: under the identifier that the same link has already, or a new one.
pub open spec fn edge_made(
    namespace: Seq<char>,
    workspace_id: Seq<char>,
    source_id: Seq<char>,
    target_id: Seq<char>,
    relation: KnowledgeRelation,
    weight: Single,
    id: Seq<char>,
    now: i64,
) -> EdgeModel {
    EdgeModel { id, namespace, workspace_id, source_id, target_id, relation, weight, created_at: now }
}

/// Why a link is refused whose ends are not both known.
pub open spec fn unknown_ends_text() -> Seq<char> {
    "knowledge link endpoints must exist in the same namespace/workspace"@
}

/// Makes a checked link, once it is known whether both its ends exist in the workspace, and
/// under which identifier the same link is stored, if any; `new_id` is for a link that is new.
pub fn link_step(
    namespace: &str,
    workspace_id: &str,
    source_id: &str,
    target_id: &str,
    relation: KnowledgeRelation,
    weight: Single,
    both_known: bool,
    existing_id: Option<String>,
    new_id: String,
    now: i64,
) -> (r: Result<KnowledgeEdge>)
    ensures
        !both_known <==> refuses(r, unknown_ends_text()),
        both_known <==> r is Ok,
        r matches Ok(e) ==> e@ == edge_made(
            namespace@,
            workspace_id@,
            source_id@,
            target_id@,
            relation,
            weight,
            match existing_id {
                Some(id) => id@,
                None => new_id@,
            },
            now,
        ),
{
    if !both_known {
        return Err(
            invalid("knowledge link endpoints must exist in the same namespace/workspace"),
        );
    }
    Ok(
        KnowledgeEdge {
            id: match existing_id {
                Some(id) => id,
                None => new_id,
            },
            namespace: namespace.to_owned(),
            workspace_id: workspace_id.to_owned(),
            source_id: source_id.to_owned(),
            target_id: target_id.to_owned(),
            relation,
            weight,
            created_at: now,
        },
    )
}

impl EdgeModel {
    /// Whether the link belongs to the workspace and has the concept as one of its ends.
    pub open spec fn touches(
        self,
        namespace: Seq<char>,
        workspace_id: Seq<char>,
        concept_id: Seq<char>,
    ) -> bool {
        self.namespace == namespace && self.workspace_id == workspace_id && (self.source_id
            == concept_id || self.target_id == concept_id)
    }

    /// Whether both say the same of the same concepts, whatever their weight.
    pub open spec fn says_same(self, other: EdgeModel) -> bool {
        self.namespace == other.namespace && self.workspace_id == other.workspace_id
            && self.source_id == other.source_id && self.target_id == other.target_id
            && self.relation == other.relation
    }
}

/// Where a link stands: the oldest first, then by identifier.
pub open spec fn edge_place(e: EdgeModel) -> Place {
    Place { first: e.created_at as int, second: 0, third: 0, fourth: 0, text: e.id }
}

/// The places of the links.
pub open spec fn edge_places(edges: Seq<EdgeModel>) -> Seq<Place> {
    Seq::new(edges.len(), |i: int| edge_place(edges[i]))
}

/// The links of a concept.
pub open spec fn edges_of(
    edges: Seq<EdgeModel>,
    namespace: Seq<char>,
    workspace_id: Seq<char>,
    concept_id: Seq<char>,
) -> Seq<EdgeModel> {
    edges.filter(|e: EdgeModel| e.touches(namespace, workspace_id, concept_id))
}

/// The links of a concept, the oldest first, then by identifier.
pub fn links_of(
    edges: &Vec<KnowledgeEdge>,
    namespace: &str,
    workspace_id: &str,
    concept_id: &str,
) -> (r: Vec<KnowledgeEdge>)
    ensures
        ({
            let own = edges_of(edge_models(edges@), namespace@, workspace_id@, concept_id@);
            edge_models(r@) == arranged(own, edge_places(own)) && has_stable_order(
                edge_places(own),
            )
        }),
{
    let ghost all = edge_models(edges@);
    let mut own: Vec<KnowledgeEdge> = Vec::new();
    let mut keys: Vec<SortKey> = Vec::new();
    let mut i: usize = 0;
    reveal(Seq::filter);
    assert(edge_models(own@) =~= edges_of(all.take(0), namespace@, workspace_id@, concept_id@));
    while i < edges.len()
        invariant
            i <= edges@.len(),
            all == edge_models(edges@),
            edge_models(own@) == edges_of(
                all.take(i as int),
                namespace@,
                workspace_id@,
                concept_id@,
            ),
            keys@.len() == own@.len(),
            forall|k: int|
                0 <= k < keys@.len() ==> (#[trigger] keys@[k])@ == edge_place(own@[k]@),
        decreases edges@.len() - i,
    {
        proof {
            reveal(Seq::filter);
            assert(all.take(i + 1).drop_last() =~= all.take(i as int));
        }
        let edge = &edges[i];
        if same_text(edge.namespace.as_str(), namespace) && same_text(
            edge.workspace_id.as_str(),
            workspace_id,
        ) && (same_text(edge.source_id.as_str(), concept_id) || same_text(
            edge.target_id.as_str(),
            concept_id,
        )) {
            let ghost before = edge_models(own@);
            keys.push(
                SortKey {
                    first: edge.created_at,
                    second: 0,
                    third: 0,
                    fourth: 0,
                    text: chars_of(edge.id.as_str()),
                },
            );
            own.push(edge.clone());
            assert(edge_models(own@) =~= before.push(all[i as int]));
        }
        i += 1;
    }
    assert(all.take(all.len() as int) =~= all);
    let ghost mine = edge_models(own@);
    assert(places(keys@) =~= edge_places(mine));
    let order = stable_order(&keys);
    let ghost sorted = arranged(mine, edge_places(mine));
    let mut out: Vec<KnowledgeEdge> = Vec::new();
    let mut n: usize = 0;
    while n < order.len()
        invariant
            n <= order@.len(),
            order@.len() == own@.len() == mine.len(),
            mine == edge_models(own@),
            sorted == arranged(mine, edge_places(mine)),
            order@ == stable_positions(edge_places(mine)),
            forall|k: int| 0 <= k < order@.len() ==> (#[trigger] order@[k]) < own@.len(),
            out@.len() == n,
            forall|k: int| 0 <= k < n ==> (#[trigger] edge_models(out@)[k]) == sorted[k],
        decreases order@.len() - n,
    {
        let ghost before = edge_models(out@);
        out.push(own[order[n]].clone());
        assert(edge_models(out@) =~= before.push(mine[order@[n as int] as int]));
        n += 1;
    }
    assert(edge_models(out@) =~= sorted);
    out
}

impl CorrectionModel {
    /// Whether the correction belongs to the workspace.
    pub open spec fn belongs(self, namespace: Seq<char>, workspace_id: Seq<char>) -> bool {
        self.namespace == namespace && self.workspace_id == workspace_id
    }
}

impl ConceptModel {
    /// Whether the concept belongs to the workspace.
    pub open spec fn belongs(self, namespace: Seq<char>, workspace_id: Seq<char>) -> bool {
        self.namespace == namespace && self.workspace_id == workspace_id
    }
}

/// The corrections of a workspace.
pub open spec fn corrections_in(
    list: Seq<CorrectionModel>,
    namespace: Seq<char>,
    workspace_id: Seq<char>,
) -> Seq<CorrectionModel> {
    list.filter(|c: CorrectionModel| c.belongs(namespace, workspace_id))
}

/// Where a correction stands: the most often applied first, then the one that was changed last.
pub open spec fn correction_places(list: Seq<CorrectionModel>) -> Seq<Place> {
    Seq::new(
        list.len(),
        |i: int|
            Place {
                first: -1 - signed(list[i].applied_count),
                second: -1 - list[i].updated_at,
                third: 0,
                fourth: 0,
                text: Seq::empty(),
            },
    )
}

/// The corrections of a workspace, the most often applied first.
pub open spec fn proven_corrections(
    list: Seq<CorrectionModel>,
    namespace: Seq<char>,
    workspace_id: Seq<char>,
) -> Seq<CorrectionModel> {
    let own = corrections_in(list, namespace, workspace_id);
    arranged(own, correction_places(own))
}

/// What a search for corrections returns: what matched, or the most proven ones where nothing
/// did.
pub open spec fn corrections_found(
    matches: Seq<CorrectionModel>,
    all: Seq<CorrectionModel>,
    namespace: Seq<char>,
    workspace_id: Seq<char>,
    limit: usize,
) -> Seq<CorrectionModel> {
    let hits = corrections_in(matches, namespace, workspace_id);
    if hits.len() > 0 {
        top(hits, within(limit as int, 1, 50))
    } else {
        top(proven_corrections(all, namespace, workspace_id), within(limit as int, 1, 50))
    }
}

fn keep_corrections(
    list: &Vec<CorrectionRecord>,
    namespace: &str,
    workspace_id: &str,
) -> (r: Vec<CorrectionRecord>)
    ensures
        correction_models(r@) == corrections_in(
            correction_models(list@),
            namespace@,
            workspace_id@,
        ),
{
    let ghost all = correction_models(list@);
    let mut out: Vec<CorrectionRecord> = Vec::new();
    let mut i: usize = 0;
    reveal(Seq::filter);
    assert(correction_models(out@) =~= corrections_in(all.take(0), namespace@, workspace_id@));
    while i < list.len()
        invariant
            i <= list@.len(),
            all == correction_models(list@),
            correction_models(out@) == corrections_in(
                all.take(i as int),
                namespace@,
                workspace_id@,
            ),
        decreases list@.len() - i,
    {
        proof {
            reveal(Seq::filter);
            assert(all.take(i + 1).drop_last() =~= all.take(i as int));
        }
        if same_text(list[i].namespace.as_str(), namespace) && same_text(
            list[i].workspace_id.as_str(),
            workspace_id,
        ) {
            let ghost before = correction_models(out@);
            out.push(list[i].clone());
            assert(correction_models(out@) =~= before.push(all[i as int]));
        }
        i += 1;
    }
    assert(all.take(all.len() as int) =~= all);
    out
}

fn cut_corrections(list: Vec<CorrectionRecord>, limit: usize) -> (r: Vec<CorrectionRecord>)
    ensures
        correction_models(r@) == top(correction_models(list@), limit as int),
{
    let ghost all = correction_models(list@);
    let mut out = list;
    if out.len() > limit {
        out.truncate(limit);
        assert(correction_models(out@) =~= all.take(limit as int));
    }
    out
}

/// Picks what a search for corrections returns, given those whose text matched, best first.
pub fn find_corrections(
    matches: &Vec<CorrectionRecord>,
    all: &Vec<CorrectionRecord>,
    namespace: &str,
    workspace_id: &str,
    limit: usize,
) -> (r: Vec<CorrectionRecord>)
    ensures
        correction_models(r@) == corrections_found(
            correction_models(matches@),
            correction_models(all@),
            namespace@,
            workspace_id@,
            limit,
        ),
        corrections_in(correction_models(matches@), namespace@, workspace_id@).len() == 0
            ==> has_stable_order(
            correction_places(
                corrections_in(correction_models(all@), namespace@, workspace_id@),
            ),
        ),
{
    let hits = keep_corrections(matches, namespace, workspace_id);
    let count = search_limit(limit);
    if hits.len() > 0 {
        return cut_corrections(hits, count);
    }
    let own = keep_corrections(all, namespace, workspace_id);
    let ghost mine = correction_models(own@);
    let mut keys: Vec<SortKey> = Vec::new();
    let mut i: usize = 0;
    while i < own.len()
        invariant
            i <= own@.len(),
            keys@.len() == i,
            mine == correction_models(own@),
            forall|k: int| 0 <= k < i ==> (#[trigger] keys@[k])@ == correction_places(mine)[k],
        decreases own@.len() - i,
    {
        let key = SortKey {
            first: descending(to_signed(own[i].applied_count)),
            second: descending(own[i].updated_at),
            third: 0,
            fourth: 0,
            text: Vec::new(),
        };
        assert(key@.text =~= Seq::<char>::empty());
        keys.push(key);
        i += 1;
    }
    assert(places(keys@) =~= correction_places(mine));
    let order = stable_order(&keys);
    let ghost sorted = arranged(mine, correction_places(mine));
    let mut out: Vec<CorrectionRecord> = Vec::new();
    let mut n: usize = 0;
    while n < order.len()
        invariant
            n <= order@.len(),
            order@.len() == own@.len() == mine.len(),
            mine == correction_models(own@),
            sorted == arranged(mine, correction_places(mine)),
            order@ == stable_positions(correction_places(mine)),
            forall|k: int| 0 <= k < order@.len() ==> (#[trigger] order@[k]) < own@.len(),
            out@.len() == n,
            forall|k: int| 0 <= k < n ==> (#[trigger] correction_models(out@)[k]) == sorted[k],
        decreases order@.len() - n,
    {
        let ghost before = correction_models(out@);
        out.push(own[order[n]].clone());
        assert(correction_models(out@) =~= before.push(mine[order@[n as int] as int]));
        n += 1;
    }
    assert(correction_models(out@) =~= sorted);
    cut_corrections(out, count)
}

/// The concepts of a workspace.
pub open spec fn concepts_in(
    list: Seq<ConceptModel>,
    namespace: Seq<char>,
    workspace_id: Seq<char>,
) -> Seq<ConceptModel> {
    list.filter(|c: ConceptModel| c.belongs(namespace, workspace_id))
}

/// Where a concept stands: the most certain first, then the one that was changed last.
pub open spec fn concept_places(list: Seq<ConceptModel>) -> Seq<Place> {
    Seq::new(
        list.len(),
        |i: int|
            Place {
                first: -1 - list[i].confidence.order(),
                second: -1 - list[i].updated_at,
                third: 0,
                fourth: 0,
                text: Seq::empty(),
            },
    )
}

/// The concepts of a workspace, the most certain first.
pub open spec fn certain_concepts(
    list: Seq<ConceptModel>,
    namespace: Seq<char>,
    workspace_id: Seq<char>,
) -> Seq<ConceptModel> {
    let own = concepts_in(list, namespace, workspace_id);
    arranged(own, concept_places(own))
}

/// What a search for concepts returns: what matched, or the most certain ones where nothing did.
pub open spec fn concepts_found(
    matches: Seq<ConceptModel>,
    all: Seq<ConceptModel>,
    namespace: Seq<char>,
    workspace_id: Seq<char>,
    limit: usize,
) -> Seq<ConceptModel> {
    let hits = concepts_in(matches, namespace, workspace_id);
    if hits.len() > 0 {
        top(hits, within(limit as int, 1, 50))
    } else {
        top(certain_concepts(all, namespace, workspace_id), within(limit as int, 1, 50))
    }
}

fn keep_concepts(
    list: &Vec<StoredConcept>,
    namespace: &str,
    workspace_id: &str,
) -> (r: Vec<StoredConcept>)
    ensures
        concept_models(r@) == concepts_in(concept_models(list@), namespace@, workspace_id@),
{
    let ghost all = concept_models(list@);
    let mut out: Vec<StoredConcept> = Vec::new();
    let mut i: usize = 0;
    reveal(Seq::filter);
    assert(concept_models(out@) =~= concepts_in(all.take(0), namespace@, workspace_id@));
    while i < list.len()
        invariant
            i <= list@.len(),
            all == concept_models(list@),
            concept_models(out@) == concepts_in(all.take(i as int), namespace@, workspace_id@),
        decreases list@.len() - i,
    {
        proof {
            reveal(Seq::filter);
            assert(all.take(i + 1).drop_last() =~= all.take(i as int));
        }
        if same_text(list[i].namespace.as_str(), namespace) && same_text(
            list[i].workspace_id.as_str(),
            workspace_id,
        ) {
            let ghost before = concept_models(out@);
            out.push(list[i].clone());
            assert(concept_models(out@) =~= before.push(all[i as int]));
        }
        i += 1;
    }
    assert(all.take(all.len() as int) =~= all);
    out
}

fn cut_concepts(list: Vec<StoredConcept>, limit: usize) -> (r: Vec<StoredConcept>)
    ensures
        concept_models(r@) == top(concept_models(list@), limit as int),
{
    let ghost all = concept_models(list@);
    let mut out = list;
    if out.len() > limit {
        out.truncate(limit);
        assert(concept_models(out@) =~= all.take(limit as int));
    }
    out
}

/// Picks what a search for concepts returns, given those whose text matched, best first.
pub fn find_concepts(
    matches: &Vec<StoredConcept>,
    all: &Vec<StoredConcept>,
    namespace: &str,
    workspace_id: &str,
    limit: usize,
) -> (r: Vec<StoredConcept>)
    ensures
        concept_models(r@) == concepts_found(
            concept_models(matches@),
            concept_models(all@),
            namespace@,
            workspace_id@,
            limit,
        ),
        concepts_in(concept_models(matches@), namespace@, workspace_id@).len() == 0
            ==> has_stable_order(
            concept_places(concepts_in(concept_models(all@), namespace@, workspace_id@)),
        ),
{
    let hits = keep_concepts(matches, namespace, workspace_id);
    let count = search_limit(limit);
    if hits.len() > 0 {
        return cut_concepts(hits, count);
    }
    let own = keep_concepts(all, namespace, workspace_id);
    let ghost mine = concept_models(own@);
    let mut keys: Vec<SortKey> = Vec::new();
    let mut i: usize = 0;
    while i < own.len()
        invariant
            i <= own@.len(),
            keys@.len() == i,
            mine == concept_models(own@),
            forall|k: int| 0 <= k < i ==> (#[trigger] keys@[k])@ == concept_places(mine)[k],
        decreases own@.len() - i,
    {
        let key = SortKey {
            first: descending(own[i].confidence.order_key()),
            second: descending(own[i].updated_at),
            third: 0,
            fourth: 0,
            text: Vec::new(),
        };
        assert(key@.text =~= Seq::<char>::empty());
        keys.push(key);
        i += 1;
    }
    assert(places(keys@) =~= concept_places(mine));
    let order = stable_order(&keys);
    let ghost sorted = arranged(mine, concept_places(mine));
    let mut out: Vec<StoredConcept> = Vec::new();
    let mut n: usize = 0;
    while n < order.len()
        invariant
            n <= order@.len(),
            order@.len() == own@.len() == mine.len(),
            mine == concept_models(own@),
            sorted == arranged(mine, concept_places(mine)),
            order@ == stable_positions(concept_places(mine)),
            forall|k: int| 0 <= k < order@.len() ==> (#[trigger] order@[k]) < own@.len(),
            out@.len() == n,
            forall|k: int| 0 <= k < n ==> (#[trigger] concept_models(out@)[k]) == sorted[k],
        decreases order@.len() - n,
    {
        let ghost before = concept_models(out@);
        out.push(own[order[n]].clone());
        assert(concept_models(out@) =~= before.push(mine[order@[n as int] as int]));
        n += 1;
    }
    assert(concept_models(out@) =~= sorted);
    cut_concepts(out, count)
}

/// How many concepts a neighborhood starts from at most.
pub fn seed_limit(limit: usize) -> (r: usize)
    ensures
        r == within(limit as int, 1, 8),
{
    clamp(limit, 1, 8)
}

/// How many hops a neighborhood spans at most.
pub fn hop_limit(max_hops: usize) -> (r: usize)
    ensures
        r == within(max_hops as int, 0, 4),
{
    clamp(max_hops, 0, 4)
}

/// How many concepts a neighborhood holds at most.
pub fn neighborhood_limit(limit: usize) -> (r: usize)
    ensures
        r == within(limit as int, 1, 100),
{
    clamp(limit, 1, 100)
}

/// The identifiers of concepts.
pub fn concept_ids(list: &Vec<StoredConcept>) -> (r: Vec<String>)
    ensures
        texts(r@) == concept_models(list@).map_values(|c: ConceptModel| c.id),
{
    let ghost all = concept_models(list@).map_values(|c: ConceptModel| c.id);
    let mut out: Vec<String> = Vec::new();
    let mut i: usize = 0;
    while i < list.len()
        invariant
            i <= list@.len(),
            all == concept_models(list@).map_values(|c: ConceptModel| c.id),
            texts(out@) == all.take(i as int),
        decreases list@.len() - i,
    {
        let ghost before = texts(out@);
        out.push(list[i].id.clone());
        assert(texts(out@) =~= before.push(all[i as int]));
        assert(all.take(i + 1) =~= all.take(i as int).push(all[i as int]));
        i += 1;
    }
    assert(all.take(all.len() as int) =~= all);
    out
}

/// Where the concept with the identifier stands.
pub open spec fn concept_at(list: Seq<ConceptModel>, id: Seq<char>) -> Option<int> {
    first_match(list, |c: ConceptModel| c.id == id)
}

pub(crate) fn find_concept(list: &Vec<StoredConcept>, id: &str) -> (r: Option<usize>)
    ensures
        match r {
            Some(i) => concept_at(concept_models(list@), id@) == Some(i as int) && i < list@.len(),
            None => concept_at(concept_models(list@), id@) is None,
        },
{
    let ghost all = concept_models(list@);
    let ghost p = |c: ConceptModel| c.id == id@;
    let mut i: usize = 0;
    while i < list.len()
        invariant
            i <= list@.len(),
            all == concept_models(list@),
            p == (|c: ConceptModel| c.id == id@),
            forall|j: int| 0 <= j < i ==> !p(#[trigger] all[j]),
        decreases list@.len() - i,
    {
        assert(all[i as int] == list@[i as int]@);
        if same_text(list[i].id.as_str(), id) {
            proof {
                first_match_is(all, p, i as int);
            }
            return Some(i);
        }
        i += 1;
    }
    proof {
        first_match_facts(all, p);
    }
    None
}

/// The seeds that are concepts of the list.
pub open spec fn known_seeds(
    seeds: Seq<Seq<char>>,
    list: Seq<ConceptModel>,
) -> Seq<Seq<char>> {
    seeds.filter(|id: Seq<char>| concept_at(list, id) is Some)
}

/// The links of a workspace.
pub open spec fn edges_in(
    edges: Seq<EdgeModel>,
    namespace: Seq<char>,
    workspace_id: Seq<char>,
) -> Seq<EdgeModel> {
    edges.filter(|e: EdgeModel| e.namespace == namespace && e.workspace_id == workspace_id)
}

/// The concepts with the identifiers, in their order.
pub open spec fn picked(ids: Seq<Seq<char>>, list: Seq<ConceptModel>) -> Seq<ConceptModel>
    decreases ids.len(),
{
    if ids.len() == 0 {
        Seq::empty()
    } else {
        match concept_at(list, ids.last()) {
            Some(i) => picked(ids.drop_last(), list).push(list[i]),
            None => picked(ids.drop_last(), list),
        }
    }
}

/// What a neighborhood lists: the known seeds and what can be reached from them within the
/// workspace, nearest first, over four hops and up to a hundred concepts at most.
pub open spec fn neighborhood(
    concepts: Seq<ConceptModel>,
    edges: Seq<EdgeModel>,
    namespace: Seq<char>,
    workspace_id: Seq<char>,
    seeds: Seq<Seq<char>>,
    max_hops: usize,
    limit: usize,
) -> Seq<Seq<char>> {
    top(
        expanded(
            known_seeds(seeds, concepts_in(concepts, namespace, workspace_id)),
            edges_in(edges, namespace, workspace_id),
            within(max_hops as int, 0, 4) as nat,
        ),
        within(limit as int, 1, 100),
    )
}

/// Lists the neighborhood of concepts.
pub fn expand_concepts(
    concepts: &Vec<StoredConcept>,
    edges: &Vec<KnowledgeEdge>,
    namespace: &str,
    workspace_id: &str,
    seed_ids: &Vec<String>,
    max_hops: usize,
    limit: usize,
) -> (r: Vec<StoredConcept>)
    ensures
        concept_models(r@) == picked(
            neighborhood(
                concept_models(concepts@),
                edge_models(edges@),
                namespace@,
                workspace_id@,
                texts(seed_ids@),
                max_hops,
                limit,
            ),
            concepts_in(concept_models(concepts@), namespace@, workspace_id@),
        ),
{
    let own = keep_concepts(concepts, namespace, workspace_id);
    let ghost mine = concept_models(own@);
    let ghost wanted = texts(seed_ids@);
    let mut known: Vec<String> = Vec::new();
    let mut i: usize = 0;
    reveal(Seq::filter);
    assert(texts(known@) =~= known_seeds(wanted.take(0), mine));
    while i < seed_ids.len()
        invariant
            i <= seed_ids@.len(),
            wanted == texts(seed_ids@),
            mine == concept_models(own@),
            texts(known@) == known_seeds(wanted.take(i as int), mine),
        decreases seed_ids@.len() - i,
    {
        proof {
            reveal(Seq::filter);
            assert(wanted.take(i + 1).drop_last() =~= wanted.take(i as int));
        }
        if find_concept(&own, seed_ids[i].as_str()).is_some() {
            let ghost before = texts(known@);
            known.push(seed_ids[i].clone());
            assert(texts(known@) =~= before.push(wanted[i as int]));
        }
        i += 1;
    }
    assert(wanted.take(wanted.len() as int) =~= wanted);
    let ghost all = edge_models(edges@);
    let mut links: Vec<KnowledgeEdge> = Vec::new();
    let mut k: usize = 0;
    assert(edge_models(links@) =~= edges_in(all.take(0), namespace@, workspace_id@));
    while k < edges.len()
        invariant
            k <= edges@.len(),
            all == edge_models(edges@),
            edge_models(links@) == edges_in(all.take(k as int), namespace@, workspace_id@),
        decreases edges@.len() - k,
    {
        proof {
            reveal(Seq::filter);
            assert(all.take(k + 1).drop_last() =~= all.take(k as int));
        }
        if same_text(edges[k].namespace.as_str(), namespace) && same_text(
            edges[k].workspace_id.as_str(),
            workspace_id,
        ) {
            let ghost before = edge_models(links@);
            links.push(edges[k].clone());
            assert(edge_models(links@) =~= before.push(all[k as int]));
        }
        k += 1;
    }
    assert(all.take(all.len() as int) =~= all);
    let ids = expand_neighborhood(
        &known,
        &links,
        hop_limit(max_hops),
        neighborhood_limit(limit),
    );
    let ghost listed = texts(ids@);
    let mut out: Vec<StoredConcept> = Vec::new();
    let mut n: usize = 0;
    assert(concept_models(out@) =~= picked(listed.take(0), mine));
    while n < ids.len()
        invariant
            n <= ids@.len(),
            listed == texts(ids@),
            mine == concept_models(own@),
            concept_models(out@) == picked(listed.take(n as int), mine),
        decreases ids@.len() - n,
    {
        assert(listed.take(n + 1).drop_last() =~= listed.take(n as int));
        assert(listed.take(n + 1).last() == listed[n as int]);
        match find_concept(&own, ids[n].as_str()) {
            Some(m) => {
                let ghost before = concept_models(out@);
                out.push(own[m].clone());
                assert(concept_models(out@) =~= before.push(mine[m as int]));
            },
            None => {},
        }
        n += 1;
    }
    assert(listed.take(listed.len() as int) =~= listed);
    out
}

/// A neighborhood holds a hundred concepts at most and none twice, all of them within reach;
/// where it is not full, it holds everything within reach.
pub proof fn neighborhood_is_bounded_and_exact(
    concepts: Seq<ConceptModel>,
    edges: Seq<EdgeModel>,
    namespace: Seq<char>,
    workspace_id: Seq<char>,
    seeds: Seq<Seq<char>>,
    max_hops: usize,
    limit: usize,
    id: Seq<char>,
)
    ensures
        ({
            let list = neighborhood(
                concepts,
                edges,
                namespace,
                workspace_id,
                seeds,
                max_hops,
                limit,
            );
            let start = known_seeds(seeds, concepts_in(concepts, namespace, workspace_id));
            let links = edges_in(edges, namespace, workspace_id);
            let hops = within(max_hops as int, 0, 4) as nat;
            &&& list.len() <= within(limit as int, 1, 100)
            &&& list.no_duplicates()
            &&& list.contains(id) ==> within_hops(start, links, id, hops)
            &&& list.len() < within(limit as int, 1, 100) && within_hops(start, links, id, hops)
                ==> list.contains(id)
        }),
{
    let start = known_seeds(seeds, concepts_in(concepts, namespace, workspace_id));
    let links = edges_in(edges, namespace, workspace_id);
    let hops = within(max_hops as int, 0, 4) as nat;
    let all = expanded(start, links, hops);
    let list = neighborhood(concepts, edges, namespace, workspace_id, seeds, max_hops, limit);
    expansion_is_exact(start, links, hops, id);
    expansion_is_cycle_safe(start, links, hops);
    if list.contains(id) {
        let i = choose|i: int| 0 <= i < list.len() && list[i] == id;
        assert(all[i] == id);
    }
}

/// A concept that is new is stored as it comes. One whose name is known keeps its identifier, its name
/// and its time of creation, and takes the new definition.
pub proof fn known_concepts_keep_their_identity(
    incoming: StoredConcept,
    existing: Option<StoredConcept>,
    now: i64,
    r: StoredConcept,
)
    requires
        call_ensures(concept_step, (incoming, existing, now), r),
    ensures
        existing is None ==> r@ == incoming@,
        existing matches Some(c) ==> {
            &&& r.id@ == c.id@ && r.namespace@ == c.namespace@ && r.workspace_id@ == c.workspace_id@
            &&& r.name@ == c.name@ && r.created_at == c.created_at
            &&& r.definition@ == incoming.definition@ && r.updated_at == now
            &&& r.confidence == c.confidence || r.confidence == incoming.confidence
            &&& c.revision < u64::MAX ==> r.revision == c.revision + 1
        },
{
    if existing is Some {
        let c = existing->Some_0@;
        let after = c.revised_with(incoming@, now);
        assert(r@.id == after.id && r@.definition == after.definition && r@.name == after.name);
        assert(r@.confidence == after.confidence && r@.revision == after.revision);
        assert(r@.namespace == after.namespace && r@.workspace_id == after.workspace_id);
        assert(r@.created_at == after.created_at && r@.updated_at == after.updated_at);
    }
}

/// A link is refused that leads from a concept to itself or whose weight is no finite number; every
/// other one has its weight brought between zero and one.
pub proof fn only_loops_and_unbounded_links_are_refused(
    source_id: &str,
    target_id: &str,
    weight: Single,
    r: Result<Single>,
)
    requires
        call_ensures(check_link, (source_id, target_id, weight), r),
    ensures
        r is Ok <==> source_id@ != target_id@ && -0x7f80_0000 < weight.order() < 0x7f80_0000,
        r matches Err(e) ==> e is Invalid,
        r matches Ok(w) ==> {
            &&& 0 <= weight.order() <= 0x3f80_0000 ==> w == weight
            &&& weight.order() < 0 ==> w == (Single { bits: 0 })
            &&& weight.order() > 0x3f80_0000 ==> w == (Single { bits: 0x3f80_0000 })
        },
{
    clamping_keeps_units(weight);
}

/// A link is made exactly where both its ends are known: between them, in that direction, with that
/// relation and weight, under the identifier that the same link has already, or else under the new one.
pub proof fn links_join_known_ends(
    namespace: &str,
    workspace_id: &str,
    source_id: &str,
    target_id: &str,
    relation: KnowledgeRelation,
    weight: Single,
    both_known: bool,
    existing_id: Option<String>,
    new_id: String,
    now: i64,
    r: Result<KnowledgeEdge>,
)
    requires
        call_ensures(
            link_step,
            (
                namespace,
                workspace_id,
                source_id,
                target_id,
                relation,
                weight,
                both_known,
                existing_id,
                new_id,
                now,
            ),
            r,
        ),
    ensures
        r is Ok <==> both_known,
        r matches Err(e) ==> e is Invalid,
        r matches Ok(e) ==> {
            &&& e.namespace@ == namespace@ && e.workspace_id@ == workspace_id@
            &&& e.source_id@ == source_id@ && e.target_id@ == target_id@
            &&& e.relation == relation && e.weight == weight && e.created_at == now
            &&& existing_id is None ==> e.id@ == new_id@
            &&& existing_id matches Some(id) ==> e.id@ == id@
        },
{
    if r is Ok {
        let e = r->Ok_0;
        assert(e@.namespace == namespace@ && e@.workspace_id == workspace_id@);
        assert(e@.source_id == source_id@ && e@.target_id == target_id@);
        assert(e@.relation == relation && e@.weight == weight && e@.created_at == now);
        assert(e@.id == e.id@);
    }
}

/// The links of a concept are all those of the workspace that start or end at it, and only those, the
/// oldest first, of the same age by identifier.
pub proof fn links_are_listed_by_age(
    edges: Vec<KnowledgeEdge>,
    namespace: &str,
    workspace_id: &str,
    concept_id: &str,
    r: Vec<KnowledgeEdge>,
    v: EdgeModel,
    i: int,
    j: int,
)
    requires
        call_ensures(links_of, (&edges, namespace, workspace_id, concept_id), r),
        0 <= i < j < r@.len(),
        edges@.len() <= usize::MAX,
    ensures
        edge_models(r@).contains(v) <==> edge_models(edges@).contains(v) && v.namespace
            == namespace@ && v.workspace_id == workspace_id@ && (v.source_id == concept_id@
            || v.target_id == concept_id@),
        r@[i].created_at <= r@[j].created_at,
        r@[i].created_at == r@[j].created_at ==> !text_less(r@[j].id@, r@[i].id@),
{
    let all = edge_models(edges@);
    let own = edges_of(all, namespace@, workspace_id@, concept_id@);
    let p = |e: EdgeModel| e.touches(namespace@, workspace_id@, concept_id@);
    let place = |e: EdgeModel| edge_place(e);
    all.lemma_filter_len(p);
    arranged_facts(own, edge_places(own), place);
    filter_values(all, p, v);
    let out = edge_models(r@);
    assert(!place(out[j]).less(place(out[i])));
    assert(out[i] == r@[i]@ && out[j] == r@[j]@);
}

/// A search for corrections returns what matched within the workspace, as it matched, up to a limit
/// between one and fifty.
pub proof fn matching_corrections_are_returned(
    matches: Seq<CorrectionModel>,
    all: Seq<CorrectionModel>,
    namespace: Seq<char>,
    workspace_id: Seq<char>,
    limit: usize,
    i: int,
)
    requires
        0 <= i < matches.len(),
        matches[i].namespace == namespace,
        matches[i].workspace_id == workspace_id,
        i < limit,
        i < 50,
    ensures
        corrections_found(matches, all, namespace, workspace_id, limit).contains(matches[i]),
        forall|k: int|
            0 <= k < corrections_found(matches, all, namespace, workspace_id, limit).len()
                ==> matches.contains(
                #[trigger] corrections_found(matches, all, namespace, workspace_id, limit)[k],
            ),
{
    let p = |c: CorrectionModel| c.belongs(namespace, workspace_id);
    let hits = corrections_in(matches, namespace, workspace_id);
    let n = kept_place(matches, p, i);
    let out = corrections_found(matches, all, namespace, workspace_id, limit);
    assert(out[n] == matches[i]);
    assert forall|k: int| 0 <= k < out.len() implies matches.contains(#[trigger] out[k]) by {
        assert(hits.contains(hits[k]));
        filter_values(matches, p, hits[k]);
    }
}

/// Where a kept item stands among those that are kept: no later than before.
proof fn kept_place<T>(s: Seq<T>, p: spec_fn(T) -> bool, k: int) -> (n: int)
    requires
        0 <= k < s.len(),
        p(s[k]),
    ensures
        0 <= n <= k,
        n < s.filter(p).len(),
        s.filter(p)[n] == s[k],
    decreases s.len(),
{
    reveal(Seq::filter);
    let init = s.drop_last();
    if k < s.len() - 1 {
        kept_place(init, p, k)
    } else {
        init.lemma_filter_len(p);
        init.filter(p).len() as int
    }
}

/// Where no correction of the workspace matched, the most often applied ones of the workspace are
/// returned, those changed last first among equals; one that is left out was not applied more often.
pub proof fn proven_corrections_are_returned(
    matches: Seq<CorrectionModel>,
    all: Seq<CorrectionModel>,
    namespace: Seq<char>,
    workspace_id: Seq<char>,
    limit: usize,
    c: CorrectionModel,
    i: int,
)
    requires
        all.len() <= usize::MAX,
        forall|k: int|
            0 <= k < matches.len() ==> (#[trigger] matches[k]).namespace != namespace
                || matches[k].workspace_id != workspace_id,
        all.contains(c),
        c.namespace == namespace,
        c.workspace_id == workspace_id,
        0 <= i < corrections_found(matches, all, namespace, workspace_id, limit).len(),
    ensures
        ({
            let out = corrections_found(matches, all, namespace, workspace_id, limit);
            &&& all.contains(out[i]) && out[i].namespace == namespace && out[i].workspace_id
                == workspace_id
            &&& !out.contains(c) ==> signed(out[i].applied_count) >= signed(c.applied_count)
            &&& !out.contains(c) && out[i].applied_count == c.applied_count ==> out[i].updated_at
                >= c.updated_at
            &&& !out.contains(c) ==> out.len() == within(limit as int, 1, 50)
            &&& forall|j: int|
                i < j < out.len() ==> signed(out[i].applied_count) >= signed(
                    (#[trigger] out[j]).applied_count,
                ) && (out[i].applied_count == out[j].applied_count ==> out[i].updated_at
                    >= out[j].updated_at)
        }),
{
    let p = |c: CorrectionModel| c.belongs(namespace, workspace_id);
    let place = |c: CorrectionModel| correction_place(c);
    let hits = corrections_in(matches, namespace, workspace_id);
    if hits.len() > 0 {
        matches.lemma_filter_pred(p, 0);
        assert(hits.contains(hits[0]));
        filter_values(matches, p, hits[0]);
        let k = choose|k: int| 0 <= k < matches.len() && matches[k] == hits[0];
        assert(matches[k].namespace == namespace);
    }
    let own = corrections_in(all, namespace, workspace_id);
    let sorted = proven_corrections(all, namespace, workspace_id);
    let out = corrections_found(matches, all, namespace, workspace_id, limit);
    all.lemma_filter_len(p);
    arranged_facts(own, correction_places(own), place);
    assert(sorted.contains(sorted[i]));
    filter_values(all, p, sorted[i]);
    filter_values(all, p, c);
    assert(sorted.contains(c));
    let k = choose|k: int| 0 <= k < sorted.len() && sorted[k] == c;
    if k < out.len() {
        assert(out[k] == c);
    } else {
        assert(!place(sorted[k]).less(place(sorted[i])));
    }
    assert forall|j: int| i < j < out.len() implies signed(out[i].applied_count) >= signed(
        (#[trigger] out[j]).applied_count,
    ) && (out[i].applied_count == out[j].applied_count ==> out[i].updated_at
        >= out[j].updated_at) by {
        assert(out[j] == sorted[j] && out[i] == sorted[i]);
        assert(!place(sorted[j]).less(place(sorted[i])));
    }
}

/// Where a correction stands.
spec fn correction_place(c: CorrectionModel) -> Place {
    Place {
        first: -1 - signed(c.applied_count),
        second: -1 - c.updated_at,
        third: 0,
        fourth: 0,
        text: Seq::empty(),
    }
}

/// A search for concepts returns what matched within the workspace, as it matched, up to a limit
/// between one and fifty.
pub proof fn matching_concepts_are_returned(
    matches: Seq<ConceptModel>,
    all: Seq<ConceptModel>,
    namespace: Seq<char>,
    workspace_id: Seq<char>,
    limit: usize,
    i: int,
)
    requires
        0 <= i < matches.len(),
        matches[i].namespace == namespace,
        matches[i].workspace_id == workspace_id,
        i < limit,
        i < 50,
    ensures
        concepts_found(matches, all, namespace, workspace_id, limit).contains(matches[i]),
        forall|k: int|
            0 <= k < concepts_found(matches, all, namespace, workspace_id, limit).len()
                ==> matches.contains(
                #[trigger] concepts_found(matches, all, namespace, workspace_id, limit)[k],
            ),
{
    let p = |c: ConceptModel| c.belongs(namespace, workspace_id);
    let hits = concepts_in(matches, namespace, workspace_id);
    let n = kept_place(matches, p, i);
    let out = concepts_found(matches, all, namespace, workspace_id, limit);
    assert(out[n] == matches[i]);
    assert forall|k: int| 0 <= k < out.len() implies matches.contains(#[trigger] out[k]) by {
        assert(hits.contains(hits[k]));
        filter_values(matches, p, hits[k]);
    }
}

/// Where no concept of the workspace matched, the most certain ones of the workspace are returned, those
/// changed last first among equals; one that is left out is not more certain.
pub proof fn certain_concepts_are_returned(
    matches: Seq<ConceptModel>,
    all: Seq<ConceptModel>,
    namespace: Seq<char>,
    workspace_id: Seq<char>,
    limit: usize,
    c: ConceptModel,
    i: int,
)
    requires
        all.len() <= usize::MAX,
        forall|k: int|
            0 <= k < matches.len() ==> (#[trigger] matches[k]).namespace != namespace
                || matches[k].workspace_id != workspace_id,
        all.contains(c),
        c.namespace == namespace,
        c.workspace_id == workspace_id,
        0 <= i < concepts_found(matches, all, namespace, workspace_id, limit).len(),
    ensures
        ({
            let out = concepts_found(matches, all, namespace, workspace_id, limit);
            &&& all.contains(out[i]) && out[i].namespace == namespace && out[i].workspace_id
                == workspace_id
            &&& !out.contains(c) ==> out[i].confidence.order() >= c.confidence.order()
            &&& !out.contains(c) && out[i].confidence.order() == c.confidence.order()
                ==> out[i].updated_at >= c.updated_at
            &&& !out.contains(c) ==> out.len() == within(limit as int, 1, 50)
            &&& forall|j: int|
                i < j < out.len() ==> out[i].confidence.order() >= (
                #[trigger] out[j]).confidence.order() && (out[i].confidence.order()
                    == out[j].confidence.order() ==> out[i].updated_at >= out[j].updated_at)
        }),
{
    let p = |c: ConceptModel| c.belongs(namespace, workspace_id);
    let place = |c: ConceptModel| concept_place(c);
    let hits = concepts_in(matches, namespace, workspace_id);
    if hits.len() > 0 {
        matches.lemma_filter_pred(p, 0);
        assert(hits.contains(hits[0]));
        filter_values(matches, p, hits[0]);
        let k = choose|k: int| 0 <= k < matches.len() && matches[k] == hits[0];
        assert(matches[k].namespace == namespace);
    }
    let own = concepts_in(all, namespace, workspace_id);
    let sorted = certain_concepts(all, namespace, workspace_id);
    let out = concepts_found(matches, all, namespace, workspace_id, limit);
    all.lemma_filter_len(p);
    arranged_facts(own, concept_places(own), place);
    assert(sorted.contains(sorted[i]));
    filter_values(all, p, sorted[i]);
    filter_values(all, p, c);
    assert(sorted.contains(c));
    let k = choose|k: int| 0 <= k < sorted.len() && sorted[k] == c;
    if k < out.len() {
        assert(out[k] == c);
    } else {
        assert(!place(sorted[k]).less(place(sorted[i])));
    }
    assert forall|j: int| i < j < out.len() implies out[i].confidence.order() >= (
    #[trigger] out[j]).confidence.order() && (out[i].confidence.order()
        == out[j].confidence.order() ==> out[i].updated_at >= out[j].updated_at) by {
        assert(out[j] == sorted[j] && out[i] == sorted[i]);
        assert(!place(sorted[j]).less(place(sorted[i])));
    }
}

/// Where a concept stands.
spec fn concept_place(c: ConceptModel) -> Place {
    Place {
        first: -1 - c.confidence.order(),
        second: -1 - c.updated_at,
        third: 0,
        fourth: 0,
        text: Seq::empty(),
    }
}

/// A neighborhood starts from between one and eight concepts, spans four hops at most, and holds between
/// one and a hundred concepts.
pub proof fn neighborhoods_are_limited(n: usize, r: usize)
    ensures
        call_ensures(seed_limit, (n,), r) ==> 1 <= r <= 8 && (1 <= n <= 8 ==> r == n) && (n > 8
            ==> r == 8),
        call_ensures(hop_limit, (n,), r) ==> r <= 4 && (n <= 4 ==> r == n) && (n > 4 ==> r == 4),
        call_ensures(neighborhood_limit, (n,), r) ==> 1 <= r <= 100 && (1 <= n <= 100 ==> r == n)
            && (n > 100 ==> r == 100),
{
}

/// Picking concepts by their identifiers returns one for each that is known, in the order of the
/// identifiers: where all are, the concept at each place is the one that was asked for.
pub proof fn picked_concepts_are_those_asked_for(ids: Seq<Seq<char>>, list: Seq<ConceptModel>, i: int)
    requires
        0 <= i < ids.len(),
        forall|k: int|
            0 <= k < ids.len() ==> exists|c: int|
                0 <= c < list.len() && (#[trigger] list[c]).id == #[trigger] ids[k],
    ensures
        picked(ids, list).len() == ids.len(),
        picked(ids, list)[i].id == ids[i],
        list.contains(picked(ids, list)[i]),
    decreases ids.len(),
{
    let init = ids.drop_last();
    let n = ids.len() - 1;
    let p = |c: ConceptModel| c.id == ids.last();
    first_match_facts(list, p);
    let at = concept_at(list, ids.last());
    let c = choose|c: int| 0 <= c < list.len() && (#[trigger] list[c]).id == ids[n];
    assert(p(list[c]));
    assert(at is Some);
    assert forall|k: int| 0 <= k < init.len() implies exists|c: int|
        0 <= c < list.len() && (#[trigger] list[c]).id == #[trigger] init[k] by {
        assert(init[k] == ids[k]);
    }
    if n > 0 {
        picked_concepts_are_those_asked_for(init, list, if i < n {
            i
        } else {
            0
        });
    } else {
        assert(picked(init, list).len() == 0);
    }
}

/// Only seeds that are concepts of the workspace count, and only its own links are followed.
pub proof fn neighborhoods_stay_in_their_workspace(
    concepts: Seq<ConceptModel>,
    edges: Seq<EdgeModel>,
    namespace: Seq<char>,
    workspace_id: Seq<char>,
    seeds: Seq<Seq<char>>,
    id: Seq<char>,
    e: EdgeModel,
)
    ensures
        known_seeds(seeds, concepts_in(concepts, namespace, workspace_id)).contains(id)
            <==> seeds.contains(id) && exists|k: int|
            0 <= k < concepts.len() && (#[trigger] concepts[k]).id == id && concepts[k].namespace
                == namespace && concepts[k].workspace_id == workspace_id,
        edges_in(edges, namespace, workspace_id).contains(e) <==> edges.contains(e) && e.namespace
            == namespace && e.workspace_id == workspace_id,
{
    let own = concepts_in(concepts, namespace, workspace_id);
    let p = |c: ConceptModel| c.belongs(namespace, workspace_id);
    let named = |c: ConceptModel| c.id == id;
    filter_values(seeds, |s: Seq<char>| concept_at(own, s) is Some, id);
    filter_values(
        edges,
        |e: EdgeModel| e.namespace == namespace && e.workspace_id == workspace_id,
        e,
    );
    first_match_facts(own, named);
    if concept_at(own, id) is Some {
        let n = concept_at(own, id)->Some_0;
        assert(named(own[n]));
        assert(own.contains(own[n]));
        filter_values(concepts, p, own[n]);
        let k = choose|k: int| 0 <= k < concepts.len() && concepts[k] == own[n];
        assert(concepts[k].id == id && p(concepts[k]));
    }
    if exists|k: int|
        0 <= k < concepts.len() && (#[trigger] concepts[k]).id == id && concepts[k].namespace
            == namespace && concepts[k].workspace_id == workspace_id {
        let k = choose|k: int|
            0 <= k < concepts.len() && (#[trigger] concepts[k]).id == id && concepts[k].namespace
                == namespace && concepts[k].workspace_id == workspace_id;
        filter_values(concepts, p, concepts[k]);
        assert(concepts.contains(concepts[k]));
        let n = choose|n: int| 0 <= n < own.len() && own[n] == concepts[k];
        assert(named(own[n]));
    }
}

} // verus!
