use kitt_memory::ranking::{usage_base, UsedMemory};
use kitt_memory::recall::{
    gather_candidates, merge_cap, merge_limit, merge_query, rank_recalled, recall_cap,
    recall_limit, recall_score, report_merge_candidates, salient_rows, scores_from, search_limit,
    select_merge_candidates, select_recalled, semantic_score_of, semantic_weight,
    sensitivity_allowed, ScoredMemory,
};
use kitt_memory::{
    lexical_similarity, retention_score, MemoryError, MemoryKind, MemoryRecord, MemoryScope,
    MemoryStatus, MergeAssessment, MergeCandidate, MergeDisposition, NewMemory, RecallQuery,
    SemanticScore, Sensitivity, Single,
};

fn single(x: f32) -> Single {
    Single { bits: x.to_bits() }
}

fn row(id: &str) -> MemoryRecord {
    MemoryRecord {
        id: id.into(),
        namespace: "agent".into(),
        workspace_id: "w".into(),
        kind: MemoryKind::TechnicalFact,
        content: id.into(),
        normalized_content: id.into(),
        status: MemoryStatus::Active,
        sensitivity: Sensitivity::Public,
        scope: MemoryScope::Workspace,
        importance: single(0.5),
        confidence: single(0.5),
        created_at: 100,
        updated_at: 100,
        last_accessed_at: None,
        access_count: 0,
        valid_from: 100,
        valid_until: None,
        supersedes_id: None,
        content_hash: id.into(),
        pinned: false,
        metadata_json: "{}".into(),
    }
}

fn query(allow_private: bool, allow_secret: bool) -> RecallQuery {
    RecallQuery {
        namespace: "agent".into(),
        workspace_id: "w".into(),
        text: "x".into(),
        limit: 5,
        allow_private,
        allow_secret,
    }
}

fn ids(rows: &[MemoryRecord]) -> Vec<&str> {
    rows.iter().map(|r| r.id.as_str()).collect()
}

#[test]
fn limits_are_clamped() {
    assert_eq!((recall_limit(0), recall_limit(7), recall_limit(99)), (1, 7, 50));
    assert_eq!((recall_cap(0), recall_cap(10), recall_cap(usize::MAX)), (64, 120, 256));
    assert_eq!((merge_limit(0), merge_limit(7), merge_limit(99)), (1, 7, 32));
    assert_eq!((merge_cap(0), merge_cap(10), merge_cap(usize::MAX)), (32, 80, 128));
    assert_eq!((search_limit(0), search_limit(7), search_limit(99)), (1, 7, 50));
}

#[test]
fn permissions_decide_what_is_seen() {
    assert!(sensitivity_allowed(Sensitivity::Public, &query(false, false)));
    assert!(sensitivity_allowed(Sensitivity::Personal, &query(false, false)));
    assert!(!sensitivity_allowed(Sensitivity::Private, &query(false, true)));
    assert!(sensitivity_allowed(Sensitivity::Private, &query(true, false)));
    assert!(!sensitivity_allowed(Sensitivity::Secret, &query(true, false)));
    assert!(sensitivity_allowed(Sensitivity::Secret, &query(false, true)));
    assert!(!sensitivity_allowed(Sensitivity::Ephemeral, &query(true, true)));
}

#[test]
fn candidates_start_with_matches_and_hold_none_twice() {
    let matches = vec![row("b"), row("a")];
    let salient = vec![row("a"), row("c"), row("b"), row("d")];
    let got = gather_candidates(&matches, &salient, &query(true, true), 100, 64);
    assert_eq!(ids(&got), ["b", "a", "c", "d"]);
    let got = gather_candidates(&matches, &salient, &query(true, true), 100, 3);
    assert_eq!(ids(&got), ["b", "a", "c"]);
    let got = gather_candidates(&matches, &salient, &query(true, true), 100, 2);
    assert_eq!(ids(&got), ["b", "a"]);
}

#[test]
fn candidates_are_admitted_by_the_query() {
    let mut expired = row("expired");
    expired.valid_until = Some(100);
    let mut early = row("early");
    early.valid_from = 101;
    let mut foreign = row("foreign");
    foreign.workspace_id = "v".into();
    let mut everywhere = row("everywhere");
    everywhere.workspace_id = "v".into();
    everywhere.scope = MemoryScope::Global;
    let mut retired = row("retired");
    retired.status = MemoryStatus::Superseded;
    let mut secret = row("secret");
    secret.sensitivity = Sensitivity::Secret;
    let rows = vec![expired, early, foreign, everywhere, retired, secret, row("plain")];
    let got = gather_candidates(&rows, &Vec::new(), &query(true, false), 100, 64);
    assert_eq!(ids(&got), ["everywhere", "plain"]);
    let got = gather_candidates(&Vec::new(), &rows, &query(true, true), 100, 64);
    assert_eq!(ids(&got), ["everywhere", "secret", "plain"]);
}

#[test]
fn salient_rows_are_pinned_important_and_recent() {
    let mut pinned = row("pinned");
    pinned.pinned = true;
    pinned.importance = single(0.1);
    let mut important = row("important");
    important.importance = single(0.9);
    let mut recent = row("recent");
    recent.updated_at = 200;
    let rows = vec![row("plain"), recent, important, pinned, row("other")];
    let got = salient_rows(&rows, "agent", "w", 100, 10);
    assert_eq!(ids(&got), ["pinned", "important", "recent", "plain", "other"]);
    let got = salient_rows(&rows, "agent", "w", 100, 2);
    assert_eq!(ids(&got), ["pinned", "important"]);
}

fn scored(id: &str, score: f32) -> ScoredMemory {
    ScoredMemory { score: single(score), memory: row(id) }
}

#[test]
fn recall_ranks_by_score_and_identifier() {
    let items = vec![scored("c", 0.5), scored("a", 0.5), scored("b", 0.9), scored("d", 0.1)];
    assert_eq!(ids(&select_recalled(&items, 3)), ["b", "a", "c"]);
    assert_eq!(ids(&select_recalled(&items, 0)), ["b"]);
    assert!(select_recalled(&Vec::new(), 3).is_empty());
}

#[test]
fn recall_does_not_depend_on_the_order_of_candidates() {
    let a = vec![scored("c", 0.5), scored("a", 0.5), scored("b", 0.9)];
    let b = vec![scored("b", 0.9), scored("c", 0.5), scored("a", 0.5)];
    assert_eq!(ids(&select_recalled(&a, 10)), ids(&select_recalled(&b, 10)));
}

#[test]
fn recall_returns_fifty_at_most() {
    let items = (0..80).map(|n| scored(&format!("{n:02}"), n as f32)).collect::<Vec<_>>();
    let got = select_recalled(&items, 1_000);
    assert_eq!(got.len(), 50);
    assert_eq!(got[0].id, "79");
    assert_eq!(got[49].id, "30");
}

fn candidate(id: &str, score: f32, disposition: MergeDisposition) -> MergeCandidate {
    MergeCandidate {
        memory: row(id),
        assessment: MergeAssessment {
            disposition,
            score: single(score),
            lexical_score: single(score),
            semantic_score: None,
            reason: String::new(),
        },
    }
}

#[test]
fn merge_candidates_leave_out_distinct_ones() {
    let items = vec![
        candidate("a", 0.7, MergeDisposition::NeedsReview),
        candidate("b", 0.99, MergeDisposition::Distinct),
        candidate("d", 0.9, MergeDisposition::Equivalent),
        candidate("c", 0.9, MergeDisposition::NeedsReview),
    ];
    let got = select_merge_candidates(&items, 10);
    let names = got.iter().map(|c| c.memory.id.as_str()).collect::<Vec<_>>();
    assert_eq!(names, ["c", "d", "a"]);
    assert_eq!(select_merge_candidates(&items, 1).len(), 1);
}

#[test]
fn the_last_semantic_score_counts() {
    let scores = vec![
        SemanticScore { memory_id: "a".into(), score: single(0.2) },
        SemanticScore { memory_id: "b".into(), score: single(5.0) },
        SemanticScore { memory_id: "a".into(), score: single(0.4) },
    ];
    assert_eq!(semantic_score_of(&scores, "a"), Some(single(0.4)));
    assert_eq!(semantic_score_of(&scores, "b"), Some(single(5.0)));
    assert_eq!(semantic_score_of(&scores, "c"), None);
    assert_eq!(semantic_weight(&scores, "b"), single(1.0));
    assert_eq!(semantic_weight(&scores, "c"), single(0.0));
}

#[test]
fn failed_rerankers_give_no_scores() {
    assert!(scores_from(None).is_empty());
    assert!(scores_from(Some(Err(MemoryError::Storage("x".into())))).is_empty());
    let scores = vec![SemanticScore { memory_id: "a".into(), score: single(0.2) }];
    assert_eq!(scores_from(Some(Ok(scores))).len(), 1);
}

#[test]
fn merge_queries_look_for_the_new_memory() {
    let memory = NewMemory {
        namespace: "agent".into(),
        workspace_id: "w".into(),
        kind: MemoryKind::ProjectRule,
        content: "run tests".into(),
        sensitivity: Sensitivity::Public,
        scope: MemoryScope::Workspace,
        importance: single(0.5),
        confidence: single(0.5),
        pinned: false,
        ttl_seconds: None,
        metadata_json: "{}".into(),
    };
    let q = merge_query(&memory, 99);
    assert_eq!((q.namespace.as_str(), q.workspace_id.as_str()), ("agent", "w"));
    assert_eq!(q.text, "run tests");
    assert_eq!(q.limit, 32);
    assert!(q.allow_private && q.allow_secret);
}

fn use_log(memory: &MemoryRecord) -> Single {
    single(f32::from_bits(usage_base(memory).bits).ln())
}

fn expected_score(
    text: &str,
    memory: &MemoryRecord,
    index: usize,
    semantic: Option<f32>,
    now: i64,
) -> f32 {
    let retention = f32::from_bits(retention_score(memory, now, use_log(memory)).bits);
    let lexical = f32::from_bits(lexical_similarity(text, memory).bits);
    let retained = retention.min(1.25);
    let position = 1.0 / (1.0 + (index as f32 * 0.12));
    match semantic {
        Some(s) => lexical * 0.30 + s * 0.35 + retained * 0.20 + position * 0.15,
        None => lexical * 0.48 + retained * 0.32 + position * 0.20,
    }
}

#[test]
fn recall_scores_weigh_terms_retention_position_and_semantics() {
    let mut memory = row("a");
    memory.content = "fix the build".into();
    memory.normalized_content = "fix the build".into();
    memory.access_count = 3;
    memory.pinned = true;
    let log = use_log(&memory);
    let scores = vec![
        SemanticScore { memory_id: "a".into(), score: single(0.61) },
        SemanticScore { memory_id: "b".into(), score: single(7.0) },
    ];
    for index in 0..300 {
        let text = format!("{} and more", memory.content);
        let plain = recall_score(&text, &memory, index, &Vec::new(), 1_000_000, log);
        assert_eq!(plain, single(expected_score(&text, &memory, index, None, 1_000_000)));
        let reranked = recall_score(&text, &memory, index, &scores, 1_000_000, log);
        let wanted = expected_score(&text, &memory, index, Some(0.61), 1_000_000);
        assert_eq!(reranked, single(wanted));
    }
    memory.id = "c".into();
    let unscored = recall_score("x", &memory, 2, &scores, 1_000_000, log);
    assert_eq!(unscored, single(expected_score("x", &memory, 2, Some(0.0), 1_000_000)));
}

#[test]
fn candidates_are_scored_and_ranked() {
    let mut pinned = row("b");
    pinned.pinned = true;
    let candidates = vec![row("c"), row("a"), pinned]
        .into_iter()
        .map(|memory| UsedMemory { use_log: use_log(&memory), memory })
        .collect::<Vec<_>>();
    let q = query(true, true);
    let got = rank_recalled(&q, &candidates, &Vec::new(), 1_000);
    assert_eq!(ids(&got), ["b", "c", "a"]);
    let scores = vec![SemanticScore { memory_id: "a".into(), score: single(1.0) }];
    let got = rank_recalled(&q, &candidates, &scores, 1_000);
    assert_eq!(got[0].id, "a");
    let mut one = query(true, true);
    one.limit = 1;
    assert_eq!(rank_recalled(&one, &candidates, &scores, 1_000).len(), 1);
}

#[test]
fn stored_memories_are_compared_with_a_new_one() {
    let mut stored = vec![row("a"), row("b"), row("c")];
    for (memory, content) in
        stored.iter_mut().zip(["run the tests", "never run the tests", "deploy on friday"])
    {
        memory.content = content.into();
        memory.normalized_content = content.into();
    }
    let incoming = NewMemory {
        namespace: "agent".into(),
        workspace_id: "w".into(),
        kind: stored[0].kind.clone(),
        content: "Run  the tests".into(),
        sensitivity: Sensitivity::Public,
        scope: MemoryScope::Workspace,
        importance: single(0.5),
        confidence: single(0.5),
        pinned: false,
        ttl_seconds: None,
        metadata_json: "{}".into(),
    };
    let got = report_merge_candidates(&stored, &incoming, &Vec::new(), 10);
    assert_eq!(got.len(), 2);
    assert_eq!(got[0].memory.id, "a");
    assert_eq!(got[0].assessment.disposition, MergeDisposition::Equivalent);
    assert_eq!(got[1].memory.id, "b");
    assert_eq!(got[1].assessment.disposition, MergeDisposition::NeedsReview);
    assert_eq!(got[1].assessment.score, single(0.75));
    let scores = vec![SemanticScore { memory_id: "c".into(), score: single(3.0) }];
    assert_eq!(report_merge_candidates(&stored, &incoming, &scores, 10).len(), 2);
    assert_eq!(report_merge_candidates(&stored, &incoming, &scores, 1).len(), 1);
}

#[test]
fn all_readable_rows_are_candidates_while_they_fit() {
    let rows = (0..64).map(|n| row(&format!("{n:02}"))).collect::<Vec<_>>();
    let q = query(true, true);
    let salient = salient_rows(&rows, "agent", "w", 100, 64);
    let matches = vec![rows[40].clone(), rows[3].clone()];
    let got = gather_candidates(&matches, &salient, &q, 100, 64);
    assert_eq!(got.len(), 64);
    assert!(rows.iter().all(|r| got.iter().any(|g| g.id == r.id)));
    let salient = salient_rows(&rows, "agent", "w", 100, 63);
    assert_eq!(gather_candidates(&matches, &salient, &q, 100, 63).len(), 63);
}
