use kitt_memory::graph::expand_neighborhood;
use kitt_memory::knowledge::{ConceptRow, CorrectionRow, EdgeRow};
use kitt_memory::learn::{
    concept_ids, expand_concepts, find_concepts, find_corrections, hop_limit, links_of,
    neighborhood_limit, seed_limit,
};
use kitt_memory::ledger::KnowledgeTable;
use kitt_memory::{
    CorrectionRecord, KnowledgeEdge, KnowledgeRelation, KnowledgeStore, MemoryError, NewConcept,
    NewCorrection, Result, Single, StoredConcept,
};

fn single(x: f32) -> Single {
    Single { bits: x.to_bits() }
}

fn strings(list: &[&str]) -> Vec<String> {
    list.iter().map(|s| s.to_string()).collect()
}

fn correction() -> NewCorrection {
    NewCorrection {
        namespace: "agent".into(),
        workspace_id: "w".into(),
        context: " when migrating ".into(),
        predicted: " drop ".into(),
        corrected: " add ".into(),
        reason: Some(" keep data ".into()),
        source: " user ".into(),
    }
}

fn concept(name: &str) -> NewConcept {
    NewConcept {
        namespace: "agent".into(),
        workspace_id: "w".into(),
        name: format!(" {name} "),
        definition: format!(" the {name} "),
        confidence: single(0.5),
        labels: strings(&["b", " a ", "a", ""]),
        source_memory_ids: strings(&["m2", "m1"]),
    }
}

fn refusal<T: std::fmt::Debug>(result: Result<T>) -> String {
    match result {
        Err(MemoryError::Invalid(text)) => text,
        other => panic!("not refused: {other:?}"),
    }
}

fn storage_text<T: std::fmt::Debug>(result: Result<T>) -> String {
    match result {
        Err(MemoryError::Storage(text)) => text,
        other => panic!("not a storage error: {other:?}"),
    }
}

#[test]
fn corrections_are_trimmed() {
    let c = correction().into_record_at(1_000, "9").unwrap();
    assert_eq!(c.id, "corr_9");
    assert_eq!(c.context, "when migrating");
    assert_eq!(c.predicted, "drop");
    assert_eq!(c.corrected, "add");
    assert_eq!(c.reason, Some(" keep data ".into()));
    assert_eq!(c.source, "user");
    assert_eq!(c.applied_count, 0);
    assert_eq!((c.created_at, c.updated_at), (1_000, 1_000));
}

#[test]
fn blank_reason_and_source_are_replaced() {
    let mut c = correction();
    c.reason = Some("  ".into());
    c.source = " ".into();
    let c = c.into_record().unwrap();
    assert_eq!(c.reason, None);
    assert_eq!(c.source, "agent");
    assert!(c.id.starts_with("corr_"));
    assert_eq!(c.id.len(), 37);
}

#[test]
fn incomplete_corrections_are_refused() {
    let text = "correction context, predicted and corrected values are required";
    let mut c = correction();
    c.context = " ".into();
    assert_eq!(refusal(c.into_record()), text);
    let mut c = correction();
    c.predicted = " ".into();
    assert_eq!(refusal(c.into_record()), text);
    let mut c = correction();
    c.corrected = " ".into();
    assert_eq!(refusal(c.into_record()), text);
}

#[test]
fn concepts_are_tidied() {
    let c = concept("queue").into_record_at(1_000, "7").unwrap();
    assert_eq!(c.id, "concept_7");
    assert_eq!(c.name, "queue");
    assert_eq!(c.definition, "the queue");
    assert_eq!(c.revision, 1);
    assert_eq!(c.labels, strings(&["a", "b"]));
    assert_eq!(c.source_memory_ids, strings(&["m1", "m2"]));
    assert_eq!((c.created_at, c.updated_at), (1_000, 1_000));
    assert_eq!(concept("queue").into_record().unwrap().id.len(), 40);
}

#[test]
fn incomplete_concepts_are_refused() {
    let mut c = concept("queue");
    c.name = " ".into();
    assert_eq!(refusal(c.into_record()), "concept name and definition are required");
    let mut c = concept("queue");
    c.definition = "".into();
    assert_eq!(refusal(c.into_record()), "concept name and definition are required");
    for bad in [-0.5, 1.5, f32::NAN] {
        let mut c = concept("queue");
        c.confidence = single(bad);
        assert_eq!(refusal(c.into_record()), "concept confidence must be 0..1");
    }
}

#[test]
fn describing_again_revises_the_concept() {
    let mut table = KnowledgeTable::new();
    let first =
        table.store_concept(concept("queue").into_record_at(1_000, "1").unwrap(), 1_000).unwrap();
    let mut again = concept("queue");
    again.definition = "a list".into();
    again.confidence = single(0.25);
    again.labels = strings(&["c"]);
    again.source_memory_ids = strings(&["m3"]);
    let second = table.store_concept(again.into_record_at(2_000, "2").unwrap(), 2_500).unwrap();
    assert_eq!(second.id, first.id);
    assert_eq!(second.definition, "a list");
    assert_eq!(second.confidence, single(0.5));
    assert_eq!(second.revision, 2);
    assert_eq!(second.labels, strings(&["a", "b", "c"]));
    assert_eq!(second.source_memory_ids, strings(&["m1", "m2", "m3"]));
    assert_eq!((second.created_at, second.updated_at), (1_000, 2_500));
    assert_eq!(table.concepts().len(), 1);
}

#[test]
fn the_last_revision_stays() {
    let mut c = concept("queue").into_record_at(1_000, "1").unwrap();
    c.revision = u64::MAX;
    let again = concept("queue").into_record_at(1_000, "2").unwrap();
    assert_eq!(c.revise(again, 5).revision, u64::MAX);
}

#[test]
fn taken_identifiers_are_refused() {
    let mut table = KnowledgeTable::new();
    table.store_concept(concept("queue").into_record_at(1, "1").unwrap(), 1).unwrap();
    let other = concept("stack").into_record_at(1, "1").unwrap();
    assert_eq!(
        storage_text(table.store_concept(other, 1)),
        "UNIQUE constraint failed: concepts.id"
    );
    table.store_correction(correction().into_record_at(1, "1").unwrap()).unwrap();
    assert_eq!(
        storage_text(table.store_correction(correction().into_record_at(1, "1").unwrap())),
        "UNIQUE constraint failed: corrections.id"
    );
    assert_eq!((table.concepts().len(), table.corrections().len()), (1, 1));
}

#[test]
fn applying_a_correction_is_counted() {
    let mut table = KnowledgeTable::new();
    let stored = table.record_correction(correction()).unwrap();
    assert!(table.mark_correction_applied(&stored.id, 77));
    assert!(!table.mark_correction_applied("none", 78));
    assert_eq!(table.corrections()[0].applied_count, 1);
    assert_eq!(table.corrections()[0].updated_at, 77);
}

fn pair() -> (KnowledgeTable, String, String) {
    let mut table = KnowledgeTable::new();
    let a = table.upsert_concept(concept("a")).unwrap().id;
    let b = table.upsert_concept(concept("b")).unwrap().id;
    (table, a, b)
}

#[test]
fn links_are_checked_in_order() {
    let (mut table, a, b) = pair();
    let requires = KnowledgeRelation::Requires;
    assert_eq!(
        refusal(table.link_concepts("agent", "w", &a, &a, requires, single(f32::NAN))),
        "a concept cannot link to itself"
    );
    for bad in [f32::NAN, f32::INFINITY, f32::NEG_INFINITY] {
        assert_eq!(
            refusal(table.link_concepts("agent", "w", &a, "none", requires, single(bad))),
            "knowledge link weight must be finite"
        );
    }
    let unknown = "knowledge link endpoints must exist in the same namespace/workspace";
    let one = single(1.0);
    assert_eq!(refusal(table.link_concepts("agent", "w", &a, "none", requires, one)), unknown);
    assert_eq!(refusal(table.link_concepts("agent", "v", &a, &b, requires, one)), unknown);
    assert_eq!(refusal(table.link_concepts("other", "w", &a, &b, requires, one)), unknown);
    assert!(table.edges().is_empty());
}

#[test]
fn the_same_link_takes_the_new_weight() {
    let (mut table, a, b) = pair();
    let supports = KnowledgeRelation::Supports;
    let first =
        table.link_concepts_at("agent", "w", &a, &b, supports, single(7.0), "1", 100).unwrap();
    assert_eq!(first.id, "edge_1");
    assert_eq!(first.weight, single(1.0));
    assert_eq!(first.created_at, 100);
    let second =
        table.link_concepts_at("agent", "w", &a, &b, supports, single(-7.0), "2", 200).unwrap();
    assert_eq!(second.id, "edge_1");
    assert_eq!(second.weight, single(0.0));
    assert_eq!(second.created_at, 200);
    assert_eq!(table.edges().len(), 1);
    assert_eq!(table.edges()[0].weight, single(0.0));
    assert_eq!(table.edges()[0].created_at, 100);
    let back =
        table.link_concepts_at("agent", "w", &b, &a, supports, single(0.5), "3", 300).unwrap();
    assert_eq!(back.id, "edge_3");
    let taken = table.link_concepts_at(
        "agent",
        "w",
        &a,
        &b,
        KnowledgeRelation::Refines,
        single(0.5),
        "3",
        400,
    );
    assert_eq!(storage_text(taken), "UNIQUE constraint failed: concept_links.id");
    assert_eq!(table.edges().len(), 2);
}

#[test]
fn new_links_get_random_identifiers() {
    let (mut table, a, b) = pair();
    let edge = table
        .link_concepts("agent", "w", &a, &b, KnowledgeRelation::Related, single(0.5))
        .unwrap();
    assert!(edge.id.starts_with("edge_"));
    assert_eq!(edge.id.len(), 37);
}

fn edge(id: &str, source: &str, target: &str, created_at: i64) -> KnowledgeEdge {
    KnowledgeEdge {
        id: id.into(),
        namespace: "agent".into(),
        workspace_id: "w".into(),
        source_id: source.into(),
        target_id: target.into(),
        relation: KnowledgeRelation::Related,
        weight: single(0.5),
        created_at,
    }
}

#[test]
fn links_of_a_concept_are_listed_by_age() {
    let mut foreign = edge("f", "x", "a", 1);
    foreign.workspace_id = "v".into();
    let edges = vec![
        edge("d", "a", "b", 5),
        edge("c", "b", "a", 5),
        edge("e", "a", "c", 2),
        edge("g", "b", "c", 1),
        foreign,
    ];
    let got = links_of(&edges, "agent", "w", "a");
    let names = got.iter().map(|e| e.id.as_str()).collect::<Vec<_>>();
    assert_eq!(names, ["e", "c", "d"]);
}

#[test]
fn neighborhoods_follow_links_both_ways() {
    let edges = vec![
        edge("1", "a", "b", 1),
        edge("2", "c", "b", 1),
        edge("3", "c", "d", 1),
        edge("4", "d", "a", 1),
        edge("5", "x", "y", 1),
    ];
    let seeds = strings(&["b", "b"]);
    assert_eq!(expand_neighborhood(&seeds, &edges, 0, 10), strings(&["b"]));
    assert_eq!(expand_neighborhood(&seeds, &edges, 1, 10), strings(&["b", "a", "c"]));
    assert_eq!(expand_neighborhood(&seeds, &edges, 2, 10), strings(&["b", "a", "c", "d"]));
    assert_eq!(expand_neighborhood(&seeds, &edges, 9, 10), strings(&["b", "a", "c", "d"]));
    assert_eq!(expand_neighborhood(&seeds, &edges, 9, 2), strings(&["b", "a"]));
    assert_eq!(expand_neighborhood(&strings(&["p", "q"]), &edges, 2, 1), strings(&["p"]));
    assert!(expand_neighborhood(&Vec::new(), &edges, 2, 5).is_empty());
}

#[test]
fn neighborhoods_are_bounded_and_safe_on_cycles() {
    let mut table = KnowledgeTable::new();
    let mut ids = Vec::new();
    for n in 0..130 {
        let mut c = concept(&format!("n{n}"));
        c.labels = Vec::new();
        let stored = table
            .store_concept(c.into_record_at(1, &format!("{n}")).unwrap(), 1)
            .unwrap();
        ids.push(stored.id);
    }
    for n in 0..130 {
        for step in [1usize, 2, 64] {
            table
                .link_concepts_at(
                    "agent",
                    "w",
                    &ids[n],
                    &ids[(n + step) % 130],
                    KnowledgeRelation::Related,
                    single(0.5),
                    &format!("{n}_{step}"),
                    1,
                )
                .unwrap();
        }
    }
    let seeds = vec!["unknown".to_string(), ids[0].clone()];
    let near = expand_concepts(table.concepts(), table.edges(), "agent", "w", &seeds, 1, 999);
    assert_eq!(near.len(), 7);
    let four = expand_concepts(table.concepts(), table.edges(), "agent", "w", &seeds, 4, 999);
    let more = expand_concepts(table.concepts(), table.edges(), "agent", "w", &seeds, 99, 999);
    assert_eq!(concept_ids(&four), concept_ids(&more));
    assert_eq!(four[0].id, ids[0]);
    for n in 1..130 {
        table
            .link_concepts_at(
                "agent",
                "w",
                &ids[0],
                &ids[n],
                KnowledgeRelation::Supports,
                single(0.5),
                &format!("hub_{n}"),
                1,
            )
            .unwrap();
    }
    let got = expand_concepts(table.concepts(), table.edges(), "agent", "w", &seeds, 1, 999);
    assert_eq!(got.len(), 100);
    let mut names = concept_ids(&got);
    names.sort();
    names.dedup();
    assert_eq!(names.len(), 100);
    let foreign = expand_concepts(table.concepts(), table.edges(), "agent", "v", &seeds, 1, 9);
    assert!(foreign.is_empty());
}

#[test]
fn neighborhood_limits_are_clamped() {
    assert_eq!((seed_limit(0), seed_limit(5), seed_limit(99)), (1, 5, 8));
    assert_eq!((hop_limit(0), hop_limit(3), hop_limit(99)), (0, 3, 4));
    assert_eq!(
        (neighborhood_limit(0), neighborhood_limit(5), neighborhood_limit(999)),
        (1, 5, 100)
    );
}

fn recorded(id: &str, applied_count: u64, updated_at: i64) -> CorrectionRecord {
    let mut c = correction().into_record_at(1, id).unwrap();
    c.applied_count = applied_count;
    c.updated_at = updated_at;
    c
}

#[test]
fn correction_search_falls_back_to_the_most_proven() {
    let mut foreign = recorded("f", 9, 9);
    foreign.workspace_id = "v".into();
    let all = vec![recorded("a", 1, 5), recorded("b", 3, 1), recorded("c", 1, 7), foreign];
    let names = |list: Vec<CorrectionRecord>| {
        list.into_iter().map(|c| c.id).collect::<Vec<_>>()
    };
    let got = find_corrections(&Vec::new(), &all, "agent", "w", 10);
    assert_eq!(names(got), ["corr_b", "corr_c", "corr_a"]);
    let got = find_corrections(&Vec::new(), &all, "agent", "w", 0);
    assert_eq!(names(got), ["corr_b"]);
    let matches = vec![recorded("a", 1, 5), recorded("c", 1, 7)];
    let got = find_corrections(&matches, &all, "agent", "w", 10);
    assert_eq!(names(got), ["corr_a", "corr_c"]);
    assert!(find_corrections(&matches, &all, "agent", "none", 10).is_empty());
}

fn known(id: &str, confidence: f32, updated_at: i64) -> StoredConcept {
    let mut c = concept(id).into_record_at(1, id).unwrap();
    c.confidence = single(confidence);
    c.updated_at = updated_at;
    c
}

#[test]
fn concept_search_falls_back_to_the_most_certain() {
    let all = vec![known("a", 0.5, 5), known("b", 0.9, 1), known("c", 0.5, 7)];
    let names = |list: Vec<StoredConcept>| concept_ids(&list);
    let got = find_concepts(&Vec::new(), &all, "agent", "w", 10);
    assert_eq!(names(got), ["concept_b", "concept_c", "concept_a"]);
    let got = find_concepts(&Vec::new(), &all, "agent", "w", 2);
    assert_eq!(names(got), ["concept_b", "concept_c"]);
    let got = find_concepts(&vec![known("a", 0.5, 5)], &all, "agent", "w", 10);
    assert_eq!(names(got), ["concept_a"]);
}

#[test]
fn stored_knowledge_is_read_back() {
    let c = recorded("a", u64::MAX, 5);
    let row = CorrectionRow::encode(&c);
    assert_eq!(row.applied_count, -1);
    assert_eq!(format!("{:?}", row.decode()), format!("{c:?}"));

    let mut k = known("a", 0.5, 5);
    k.labels = strings(&["x\"y", "é\n"]);
    let row = ConceptRow::encode(&k).unwrap();
    assert_eq!(row.labels_json, "[\"x\\\"y\",\"é\\n\"]");
    assert_eq!(row.source_memory_ids_json, "[\"m1\",\"m2\"]");
    assert_eq!(format!("{:?}", row.decode()), format!("{k:?}"));

    let mut broken = ConceptRow::encode(&k).unwrap();
    broken.labels_json = "not json".into();
    assert!(broken.decode().labels.is_empty());

    let e = edge("1", "a", "b", 9);
    let row = EdgeRow::encode(&e);
    assert_eq!(row.relation, "RELATED");
    assert_eq!(format!("{:?}", row.decode()), format!("{e:?}"));
}

struct NoGraph;

impl KnowledgeStore for NoGraph {
    fn record_correction(&self, correction: NewCorrection) -> Result<CorrectionRecord> {
        correction.into_record()
    }

    fn search_corrections(
        &self,
        _namespace: &str,
        _workspace_id: &str,
        _query: &str,
        _limit: usize,
    ) -> Result<Vec<CorrectionRecord>> {
        Ok(Vec::new())
    }

    fn mark_correction_applied(&self, _id: &str) -> Result<bool> {
        Ok(false)
    }

    fn upsert_concept(&self, concept: NewConcept) -> Result<StoredConcept> {
        concept.into_record()
    }

    fn search_concepts(
        &self,
        _namespace: &str,
        _workspace_id: &str,
        _query: &str,
        limit: usize,
    ) -> Result<Vec<StoredConcept>> {
        if limit == 8 {
            Ok(vec![known("a", 0.5, 1)])
        } else {
            Err(MemoryError::Storage("offline".into()))
        }
    }

    fn link_concepts(
        &self,
        _namespace: &str,
        _workspace_id: &str,
        _source_id: &str,
        _target_id: &str,
        _relation: KnowledgeRelation,
        _weight: Single,
    ) -> Result<KnowledgeEdge> {
        Ok(edge("1", "a", "b", 1))
    }

    fn links_for_concept(
        &self,
        _namespace: &str,
        _workspace_id: &str,
        _concept_id: &str,
    ) -> Result<Vec<KnowledgeEdge>> {
        Ok(Vec::new())
    }
}

#[test]
fn stores_without_a_graph_expand_to_nothing() {
    let got = NoGraph.search_concept_neighborhood("agent", "w", "a", 2, 50).unwrap();
    assert!(got.is_empty());
    let failed = NoGraph.search_concept_neighborhood("agent", "w", "a", 2, 3);
    assert_eq!(storage_text(failed), "offline");
}
