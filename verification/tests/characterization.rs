use kitt_memory::baseline::{build_memory_baseline_at, BaselineQuery, MemoryBaseline};
use kitt_memory::import::LegacyRow;
use kitt_memory::learn::{expand_concepts, find_concepts, find_corrections, links_of};
use kitt_memory::ledger::KnowledgeTable;
use kitt_memory::ranking::{usage_base, UsedMemory};
use kitt_memory::recall::{
    ask_reranker, fts_query, gather_candidates, merge_cap, merge_query, rank_recalled, recall_cap,
    report_merge_candidates, salient_rows,
};
use kitt_memory::table::MemoryTable;
use kitt_memory::{
    normalize, now_epoch, CorrectionRecord,
    KnowledgeEdge, KnowledgeRelation, KnowledgeStore, MemoryError, MemoryKind, MemoryRecord,
    MemoryScope, MemoryStatus, MemoryStore, MergeCandidate, MergeDisposition, NewConcept,
    NewCorrection, NewMemory, RecallQuery, Result, SemanticReranker, SemanticScore, Sensitivity,
    Single, StoredConcept,
};
use rusqlite::Connection;
use std::sync::Mutex;

fn single(x: f32) -> Single {
    Single { bits: x.to_bits() }
}

fn with_use(memory: MemoryRecord) -> UsedMemory {
    UsedMemory { use_log: single(f32::from_bits(usage_base(&memory).bits).ln()), memory }
}

/// A store that keeps its memories in tables and matches texts with a full-text index.
struct TableStore {
    memories: Mutex<MemoryTable>,
    knowledge: Mutex<KnowledgeTable>,
}

impl TableStore {
    fn open() -> TableStore {
        TableStore {
            memories: Mutex::new(MemoryTable::new()),
            knowledge: Mutex::new(KnowledgeTable::new()),
        }
    }

    fn matching_positions(texts: &[(String, String)], query: &str) -> Vec<usize> {
        let expression = fts_query(query);
        if expression.is_empty() {
            return Vec::new();
        }
        let conn = Connection::open_in_memory().unwrap();
        conn.execute_batch(
            "CREATE VIRTUAL TABLE t USING fts5(content, more, tokenize='unicode61');",
        )
        .unwrap();
        for (position, (content, more)) in texts.iter().enumerate() {
            conn.execute(
                "INSERT INTO t(rowid,content,more) VALUES(?1,?2,?3)",
                (position as i64, content, more),
            )
            .unwrap();
        }
        let mut statement = conn
            .prepare("SELECT rowid FROM t WHERE t MATCH ?1 ORDER BY bm25(t) ASC")
            .unwrap();
        let found = statement
            .query_map([expression], |row| row.get::<_, i64>(0))
            .unwrap()
            .map(|id| id.unwrap() as usize)
            .collect::<Vec<_>>();
        found
    }

    fn candidates(&self, query: &RecallQuery, cap: usize) -> Vec<MemoryRecord> {
        let now = now_epoch();
        let table = self.memories.lock().unwrap();
        let rows = table.rows();
        let texts = rows
            .iter()
            .map(|m| (m.content.clone(), m.normalized_content.clone()))
            .collect::<Vec<_>>();
        let mut matches = TableStore::matching_positions(&texts, &query.text)
            .into_iter()
            .map(|position| rows[position].clone())
            .filter(|m| m.is_live(&query.namespace, &query.workspace_id, now))
            .collect::<Vec<_>>();
        matches.truncate(cap);
        let salient = salient_rows(rows, &query.namespace, &query.workspace_id, now, cap);
        gather_candidates(&matches, &salient, query, now, cap)
    }

    fn ranked(
        &self,
        query: &RecallQuery,
        reranker: Option<&dyn SemanticReranker>,
    ) -> Result<Vec<MemoryRecord>> {
        let candidates = self.candidates(query, recall_cap(query.limit));
        if candidates.is_empty() {
            return Ok(Vec::new());
        }
        let scores = ask_reranker(reranker, &query.text, &candidates);
        let now = now_epoch();
        let candidates = candidates.into_iter().map(with_use).collect::<Vec<_>>();
        let selected = rank_recalled(query, &candidates, &scores, now);
        let ids = selected.iter().map(|m| m.id.clone()).collect::<Vec<_>>();
        self.memories.lock().unwrap().touch(&ids, now_epoch());
        Ok(selected)
    }
}

impl MemoryStore for TableStore {
    fn remember(&self, memory: NewMemory) -> Result<MemoryRecord> {
        self.memories.lock().unwrap().remember(memory)
    }

    fn upsert_record(&self, memory: &MemoryRecord) -> Result<()> {
        self.memories.lock().unwrap().upsert_record(memory)
    }

    fn recall(&self, query: &RecallQuery) -> Result<Vec<MemoryRecord>> {
        self.ranked(query, None)
    }

    fn recall_with_reranker(
        &self,
        query: &RecallQuery,
        reranker: &dyn SemanticReranker,
    ) -> Result<Vec<MemoryRecord>> {
        self.ranked(query, Some(reranker))
    }

    fn baseline(&self, query: &BaselineQuery) -> Result<MemoryBaseline> {
        let now = now_epoch();
        let table = self.memories.lock().unwrap();
        let rows = salient_rows(table.rows(), &query.namespace, &query.workspace_id, now, 512);
        let rows = rows.into_iter().map(with_use).collect::<Vec<_>>();
        Ok(build_memory_baseline_at(&rows, query, now))
    }

    fn find_merge_candidates(
        &self,
        memory: &NewMemory,
        limit: usize,
        reranker: Option<&dyn SemanticReranker>,
    ) -> Result<Vec<MergeCandidate>> {
        let query = merge_query(memory, limit);
        let records = self.candidates(&query, merge_cap(limit));
        let scores = ask_reranker(reranker, &memory.content, &records);
        Ok(report_merge_candidates(&records, memory, &scores, limit))
    }

    fn forget(&self, id: &str) -> Result<bool> {
        Ok(self.memories.lock().unwrap().forget(id))
    }

    fn set_status(
        &self,
        id: &str,
        status: MemoryStatus,
        supersedes_id: Option<&str>,
    ) -> Result<bool> {
        self.memories.lock().unwrap().set_status(id, status, supersedes_id, now_epoch())
    }

    fn prune_expired(&self) -> Result<usize> {
        Ok(self.memories.lock().unwrap().prune_expired(now_epoch()))
    }

    fn consolidate_exact_duplicates(&self, namespace: &str, workspace_id: &str) -> Result<usize> {
        let now = now_epoch();
        let mut table = self.memories.lock().unwrap();
        Ok(table.consolidate_exact_duplicates(namespace, workspace_id, now))
    }
}

impl KnowledgeStore for TableStore {
    fn record_correction(&self, correction: NewCorrection) -> Result<CorrectionRecord> {
        self.knowledge.lock().unwrap().record_correction(correction)
    }

    fn search_corrections(
        &self,
        namespace: &str,
        workspace_id: &str,
        query: &str,
        limit: usize,
    ) -> Result<Vec<CorrectionRecord>> {
        let table = self.knowledge.lock().unwrap();
        let rows = table.corrections();
        let texts = rows
            .iter()
            .map(|c| (c.context.clone(), format!("{} {}", c.predicted, c.corrected)))
            .collect::<Vec<_>>();
        let matches = TableStore::matching_positions(&texts, query)
            .into_iter()
            .map(|position| rows[position].clone())
            .collect::<Vec<_>>();
        Ok(find_corrections(&matches, rows, namespace, workspace_id, limit))
    }

    fn mark_correction_applied(&self, id: &str) -> Result<bool> {
        Ok(self.knowledge.lock().unwrap().mark_correction_applied(id, now_epoch()))
    }

    fn upsert_concept(&self, concept: NewConcept) -> Result<StoredConcept> {
        self.knowledge.lock().unwrap().upsert_concept(concept)
    }

    fn search_concepts(
        &self,
        namespace: &str,
        workspace_id: &str,
        query: &str,
        limit: usize,
    ) -> Result<Vec<StoredConcept>> {
        let table = self.knowledge.lock().unwrap();
        let rows = table.concepts();
        let texts = rows
            .iter()
            .map(|c| (c.name.clone(), c.definition.clone()))
            .collect::<Vec<_>>();
        let matches = TableStore::matching_positions(&texts, query)
            .into_iter()
            .map(|position| rows[position].clone())
            .collect::<Vec<_>>();
        Ok(find_concepts(&matches, rows, namespace, workspace_id, limit))
    }

    fn link_concepts(
        &self,
        namespace: &str,
        workspace_id: &str,
        source_id: &str,
        target_id: &str,
        relation: KnowledgeRelation,
        weight: Single,
    ) -> Result<KnowledgeEdge> {
        self.knowledge.lock().unwrap().link_concepts(
            namespace,
            workspace_id,
            source_id,
            target_id,
            relation,
            weight,
        )
    }

    fn links_for_concept(
        &self,
        namespace: &str,
        workspace_id: &str,
        concept_id: &str,
    ) -> Result<Vec<KnowledgeEdge>> {
        let table = self.knowledge.lock().unwrap();
        Ok(links_of(table.edges(), namespace, workspace_id, concept_id))
    }

    fn expand_concepts(
        &self,
        namespace: &str,
        workspace_id: &str,
        seed_ids: &[String],
        max_hops: usize,
        limit: usize,
    ) -> Result<Vec<StoredConcept>> {
        let table = self.knowledge.lock().unwrap();
        let seeds = seed_ids.to_vec();
        Ok(expand_concepts(
            table.concepts(),
            table.edges(),
            namespace,
            workspace_id,
            &seeds,
            max_hops,
            limit,
        ))
    }
}

fn memory(content: &str, sensitivity: Sensitivity, pinned: bool) -> NewMemory {
    NewMemory {
        namespace: "assistant".into(),
        workspace_id: "global".into(),
        kind: MemoryKind::UserPreference,
        content: content.into(),
        sensitivity,
        scope: MemoryScope::Global,
        importance: single(0.8),
        confidence: single(1.0),
        pinned,
        ttl_seconds: None,
        metadata_json: "{}".into(),
    }
}

struct FavorSecond;

impl SemanticReranker for FavorSecond {
    fn score(&self, _query: &str, candidates: &[MemoryRecord]) -> Result<Vec<SemanticScore>> {
        Ok(candidates
            .iter()
            .enumerate()
            .map(|(index, memory)| SemanticScore {
                memory_id: memory.id.clone(),
                score: if index == 1 { single(1.0) } else { single(0.0) },
            })
            .collect())
    }
}

struct OutOfOrder;

impl SemanticReranker for OutOfOrder {
    fn score(&self, _query: &str, _candidates: &[MemoryRecord]) -> Result<Vec<SemanticScore>> {
        Err(MemoryError::Storage("no model".into()))
    }
}

#[test]
fn remembers_and_recalls_through_fts() {
    let store = TableStore::open();
    store
        .remember(memory("Prefere respostas curtas", Sensitivity::Private, false))
        .unwrap();
    store
        .remember(memory("Use PostgreSQL for billing", Sensitivity::Private, false))
        .unwrap();
    let got = store
        .recall(&RecallQuery {
            namespace: "assistant".into(),
            workspace_id: "global".into(),
            text: "billing PostgreSQL".into(),
            limit: 1,
            allow_private: true,
            allow_secret: false,
        })
        .unwrap();
    assert_eq!(got.len(), 1);
    assert!(got[0].content.contains("PostgreSQL"));
}

#[test]
fn optional_semantic_reranker_can_change_order() {
    let store = TableStore::open();
    store
        .remember(memory("alpha database rule", Sensitivity::Private, false))
        .unwrap();
    store
        .remember(memory("alpha deployment rule", Sensitivity::Private, false))
        .unwrap();
    let query = RecallQuery {
        namespace: "assistant".into(),
        workspace_id: "global".into(),
        text: "alpha rule".into(),
        limit: 2,
        allow_private: true,
        allow_secret: false,
    };
    let got = store.recall_with_reranker(&query, &FavorSecond).unwrap();
    assert_eq!(got.len(), 2);
}

#[test]
fn reranker_lifts_the_memory_it_favors() {
    let store = TableStore::open();
    store.remember(memory("alpha database rule", Sensitivity::Private, false)).unwrap();
    store.remember(memory("alpha deployment rule", Sensitivity::Private, false)).unwrap();
    let query = RecallQuery {
        namespace: "assistant".into(),
        workspace_id: "global".into(),
        text: "alpha rule".into(),
        limit: 2,
        allow_private: true,
        allow_secret: false,
    };
    let candidates = store.candidates(&query, recall_cap(query.limit));
    let got = store.recall_with_reranker(&query, &FavorSecond).unwrap();
    assert_eq!(got[0].id, candidates[1].id);
    assert_eq!(got[1].id, candidates[0].id);
}

#[test]
fn failing_reranker_counts_as_none() {
    let store = TableStore::open();
    store.remember(memory("alpha database rule", Sensitivity::Private, false)).unwrap();
    let query = RecallQuery {
        namespace: "assistant".into(),
        workspace_id: "global".into(),
        text: "alpha rule".into(),
        limit: 2,
        allow_private: true,
        allow_secret: false,
    };
    let candidates = store.candidates(&query, recall_cap(query.limit));
    let broken: &dyn SemanticReranker = &OutOfOrder;
    assert!(ask_reranker(Some(broken), &query.text, &candidates).is_empty());
    let none: Option<&dyn SemanticReranker> = None;
    assert!(ask_reranker(none, &query.text, &candidates).is_empty());
    assert_eq!(store.recall_with_reranker(&query, &OutOfOrder).unwrap().len(), 1);
}

#[test]
fn exact_duplicate_never_downgrades_sensitivity() {
    let store = TableStore::open();
    let first = store
        .remember(memory("same fact", Sensitivity::Public, false))
        .unwrap();
    let stricter = store
        .remember(memory("same   fact", Sensitivity::Secret, true))
        .unwrap();
    let weaker = store
        .remember(memory("same fact", Sensitivity::Personal, false))
        .unwrap();
    assert_eq!(first.id, stricter.id);
    assert_eq!(first.id, weaker.id);
    assert_eq!(Sensitivity::Secret, weaker.sensitivity);
    assert!(weaker.pinned);
}

#[test]
fn baseline_is_deterministic_and_bounded() {
    let store = TableStore::open();
    store
        .remember(memory("Always run tests", Sensitivity::Private, true))
        .unwrap();
    store
        .remember(memory(&"context ".repeat(100), Sensitivity::Private, false))
        .unwrap();
    let baseline = store
        .baseline(&BaselineQuery {
            namespace: "assistant".into(),
            workspace_id: "global".into(),
            max_tokens: 64,
            allow_private: true,
            allow_secret: false,
        })
        .unwrap();
    assert!(!baseline.entries.is_empty());
    assert!(baseline.entries[0].pinned);
    assert!(baseline.estimated_tokens <= baseline.max_tokens + 64);
}

#[test]
fn similar_non_exact_memory_is_reviewed_not_merged() {
    let store = TableStore::open();
    store
        .remember(memory(
            "Always run integration tests before release",
            Sensitivity::Private,
            false,
        ))
        .unwrap();
    let incoming = memory(
        "Always run integration tests before production release",
        Sensitivity::Private,
        false,
    );
    let candidates = store.find_merge_candidates(&incoming, 4, None).unwrap();
    assert!(!candidates.is_empty());
    assert_ne!(
        candidates[0].assessment.disposition,
        MergeDisposition::Distinct
    );
}

#[test]
fn corrections_and_concepts_are_shared_store_primitives() {
    let store = TableStore::open();
    let correction = store
        .record_correction(NewCorrection {
            namespace: "agent-cli".into(),
            workspace_id: "ws".into(),
            context: "when generating migrations".into(),
            predicted: "drop the table".into(),
            corrected: "use an additive migration".into(),
            reason: Some("preserve production data".into()),
            source: "user".into(),
        })
        .unwrap();
    assert!(store.mark_correction_applied(&correction.id).unwrap());
    let found = store
        .search_corrections("agent-cli", "ws", "additive migration", 4)
        .unwrap();
    assert_eq!(found[0].id, correction.id);
    assert_eq!(found[0].applied_count, 1);

    let parent = store
        .upsert_concept(NewConcept {
            namespace: "agent-cli".into(),
            workspace_id: "ws".into(),
            name: "operation-service".into(),
            definition: "Owns operation settlement".into(),
            confidence: single(0.9),
            labels: vec!["domain:operations".into()],
            source_memory_ids: Vec::new(),
        })
        .unwrap();
    let child = store
        .upsert_concept(NewConcept {
            namespace: "agent-cli".into(),
            workspace_id: "ws".into(),
            name: "settlement-worker".into(),
            definition: "Runs scheduled settlement".into(),
            confidence: single(0.8),
            labels: vec!["type:worker".into()],
            source_memory_ids: Vec::new(),
        })
        .unwrap();
    store
        .link_concepts(
            "agent-cli",
            "ws",
            &child.id,
            &parent.id,
            KnowledgeRelation::Requires,
            single(0.9),
        )
        .unwrap();
    let links = store
        .links_for_concept("agent-cli", "ws", &child.id)
        .unwrap();
    assert_eq!(links.len(), 1);
    assert_eq!(links[0].target_id, parent.id);

    let concepts = store
        .search_concepts("agent-cli", "ws", "settlement", 4)
        .unwrap();
    assert!(!concepts.is_empty());
}

#[test]
fn neighborhood_search_starts_from_matches() {
    let store = TableStore::open();
    let mut ids = Vec::new();
    for name in ["alpha", "beta", "gamma"] {
        let concept = store
            .upsert_concept(NewConcept {
                namespace: "agent-cli".into(),
                workspace_id: "ws".into(),
                name: name.into(),
                definition: format!("the {name} service"),
                confidence: single(0.5),
                labels: Vec::new(),
                source_memory_ids: Vec::new(),
            })
            .unwrap();
        ids.push(concept.id);
    }
    for (source, target) in [(0usize, 1usize), (1, 2), (2, 0)] {
        store
            .link_concepts(
                "agent-cli",
                "ws",
                &ids[source],
                &ids[target],
                KnowledgeRelation::Related,
                single(0.5),
            )
            .unwrap();
    }
    let near = store
        .search_concept_neighborhood("agent-cli", "ws", "beta", 1, 10)
        .unwrap();
    assert_eq!(near.len(), 3);
    assert_eq!(near[0].id, ids[1]);
    let alone = store
        .search_concept_neighborhood("agent-cli", "ws", "beta", 0, 10)
        .unwrap();
    assert_eq!(alone.len(), 1);
    let two = store
        .search_concept_neighborhood("agent-cli", "ws", "beta", 4, 2)
        .unwrap();
    assert_eq!(two.len(), 2);
}

#[test]
fn upsert_record_never_downgrades_sensitivity() {
    let store = TableStore::open();
    let original = store
        .remember(memory("migration fact", Sensitivity::Secret, true))
        .unwrap();
    let mut imported = original.clone();
    imported.sensitivity = Sensitivity::Public;
    imported.content = "migration fact updated".into();
    imported.normalized_content = normalize(&imported.content);
    store.upsert_record(&imported).unwrap();

    let rows = store
        .recall(&RecallQuery {
            namespace: "assistant".into(),
            workspace_id: "global".into(),
            text: "migration fact".into(),
            limit: 5,
            allow_private: true,
            allow_secret: true,
        })
        .unwrap();
    let row = rows.iter().find(|row| row.id == original.id).unwrap();
    assert_eq!(Sensitivity::Secret, row.sensitivity);
}

fn agent_memory(
    workspace_id: &str,
    kind: MemoryKind,
    content: &str,
    importance: f32,
    confidence: f32,
    pinned: bool,
) -> NewMemory {
    NewMemory {
        namespace: "agent-cli".into(),
        workspace_id: workspace_id.into(),
        kind,
        content: content.into(),
        sensitivity: Sensitivity::Private,
        scope: MemoryScope::Workspace,
        importance: single(importance),
        confidence: single(confidence),
        pinned,
        ttl_seconds: None,
        metadata_json: "{}".into(),
    }
}

fn agent_query(workspace_id: &str, text: &str, limit: usize) -> RecallQuery {
    RecallQuery {
        namespace: "agent-cli".into(),
        workspace_id: workspace_id.into(),
        text: text.into(),
        limit,
        allow_private: true,
        allow_secret: true,
    }
}

#[test]
fn test_duplicate_active_memories() {
    let store = TableStore::open();
    let m1 = store
        .remember(agent_memory(
            "ws-1",
            MemoryKind::ProjectRule,
            "Always run tests before committing",
            0.9,
            1.0,
            true,
        ))
        .unwrap();
    let m2 = store
        .remember(agent_memory(
            "ws-1",
            MemoryKind::ProjectRule,
            "  always RUN tests before COMMITTING   ",
            0.9,
            1.0,
            true,
        ))
        .unwrap();

    assert_eq!(m1.id, m2.id);

    let recalled = store.recall(&agent_query("ws-1", "tests committing", 10)).unwrap();
    assert_eq!(recalled.len(), 1);
}

#[test]
fn test_pinned_ordering_and_decision_priority() {
    let store = TableStore::open();
    store
        .remember(agent_memory(
            "ws-1",
            MemoryKind::Episodic,
            "Temporary note about database migration",
            0.5,
            0.5,
            false,
        ))
        .unwrap();
    let pinned = store
        .remember(agent_memory(
            "ws-1",
            MemoryKind::ArchitectureDecision,
            "Architecture rule: database is SQLite WAL",
            0.9,
            1.0,
            true,
        ))
        .unwrap();

    let recalled = store.recall(&agent_query("ws-1", "database", 2)).unwrap();

    assert_eq!(recalled.len(), 2);
    assert_eq!(recalled[0].id, pinned.id);
    assert!(recalled[0].pinned);
}

#[test]
fn test_access_count_and_timestamp_touch() {
    let store = TableStore::open();
    let mem = store
        .remember(agent_memory(
            "ws-1",
            MemoryKind::TechnicalFact,
            "Rust version is 1.85+",
            0.8,
            1.0,
            false,
        ))
        .unwrap();
    assert_eq!(mem.access_count, 0);
    assert_eq!(mem.last_accessed_at, None);

    let recalled = store.recall(&agent_query("ws-1", "Rust version", 5)).unwrap();
    assert_eq!(recalled.len(), 1);

    let recalled2 = store.recall(&agent_query("ws-1", "Rust version", 5)).unwrap();
    assert_eq!(recalled2.len(), 1);
    assert_eq!(recalled2[0].access_count, 1);
    assert!(recalled2[0].last_accessed_at.is_some());
}

#[test]
fn test_expired_and_superseded_exclusion() {
    let store = TableStore::open();
    let mut short_lived = agent_memory(
        "ws-1",
        MemoryKind::Episodic,
        "Short lived ephemeral reminder",
        0.5,
        0.5,
        false,
    );
    short_lived.ttl_seconds = Some(0);
    store.remember(short_lived).unwrap();

    let active = store
        .remember(agent_memory(
            "ws-1",
            MemoryKind::ProjectRule,
            "Active standard rule",
            0.8,
            1.0,
            false,
        ))
        .unwrap();

    let superseded = store
        .remember(agent_memory(
            "ws-1",
            MemoryKind::ProjectRule,
            "Old superseded rule",
            0.7,
            1.0,
            false,
        ))
        .unwrap();
    store
        .set_status(&superseded.id, MemoryStatus::Superseded, Some(&active.id))
        .unwrap();

    let recalled = store.recall(&agent_query("ws-1", "rule reminder", 10)).unwrap();

    assert_eq!(recalled.len(), 1);
    assert_eq!(recalled[0].id, active.id);
}

#[test]
fn test_unicode_and_ptbr_content() {
    let store = TableStore::open();
    let content = "Configuração de autenticação: padrão não-bloqueante com símbolos ✨ e acentuação: ação, café, coração.";
    let mut new = agent_memory("ws-pt", MemoryKind::ProjectRule, content, 0.9, 1.0, true);
    new.metadata_json = r#"{"origem": "especificação_pt_br"}"#.into();
    let mem = store.remember(new).unwrap();

    let recalled = store
        .recall(&agent_query("ws-pt", "configuração autenticação coração", 5))
        .unwrap();

    assert_eq!(recalled.len(), 1);
    assert_eq!(recalled[0].content, content);
    assert_eq!(recalled[0].id, mem.id);
}

fn legacy_row(
    id: &str,
    kind: &str,
    content: &str,
    importance: f32,
    confidence: f32,
    created_at: i64,
    hash: &str,
) -> LegacyRow {
    LegacyRow {
        id: id.into(),
        workspace_id: "ws-test".into(),
        kind: kind.into(),
        content: content.into(),
        normalized_content: normalize(content),
        status: "ACTIVE".into(),
        importance: single(importance),
        confidence: single(confidence),
        created_at,
        updated_at: created_at,
        last_accessed_at: None,
        access_count: 0,
        valid_from: None,
        valid_until: None,
        supersedes_id: None,
        content_hash: hash.into(),
        pinned: 0,
        metadata_json: Some("{}".into()),
    }
}

#[test]
fn test_migration_from_anonymized_agent_cli_db() {
    let mut first = legacy_row(
        "mem-1",
        "PROJECT_RULE",
        "Rule 1: Always test code",
        0.9,
        1.0,
        1700000000,
        "hash_mem_1",
    );
    first.last_accessed_at = Some(1700000100);
    first.access_count = 3;
    first.pinned = 1;
    first.metadata_json = Some(r#"{"source": "test"}"#.into());
    let second = legacy_row(
        "mem-2",
        "ARCHITECTURE_DECISION",
        "Rule 2: SQLite WAL",
        0.8,
        1.0,
        1700000050,
        "hash_mem_2",
    );
    let mut third = legacy_row(
        "mem-3",
        "EPISODIC",
        "Expired note",
        0.5,
        0.8,
        1700000000,
        "hash_mem_3",
    );
    third.valid_until = Some(1700000010);
    let rows = vec![first, second, third];

    let store = TableStore::open();
    let count = store.memories.lock().unwrap().import_legacy(&rows).unwrap();
    assert_eq!(count, 3);
    let after_first = format!("{:?}", store.memories.lock().unwrap().rows());

    let count2 = store.memories.lock().unwrap().import_legacy(&rows).unwrap();
    assert_eq!(count2, 3);
    let after_second = format!("{:?}", store.memories.lock().unwrap().rows());
    assert_eq!(after_first, after_second);

    let recalled = store.recall(&agent_query("ws-test", "Always test code", 5)).unwrap();
    assert_eq!(recalled.len(), 2);
    assert_eq!(recalled[0].id, "mem-1");
    assert_eq!(recalled[0].content, "Rule 1: Always test code");
    assert!(recalled[0].pinned);
    assert_eq!(recalled[0].access_count, 3);
}
