use kitt_memory::ranking::{
    lexical_score as term_score, negation_mismatch, retention_age, term_overlap, usage_base,
};
use kitt_memory::{
    assess_merge_candidate, lexical_score, lexical_score_with_terms, lexical_similarity,
    lexical_terms, normalize, retention_score, MemoryKind, MemoryRecord, MemoryScope, MemoryStatus,
    MergeAssessment, MergeDisposition, NewMemory, Sensitivity, Single,
};

fn single(x: f32) -> Single {
    Single { bits: x.to_bits() }
}

fn record(content: &str) -> MemoryRecord {
    MemoryRecord {
        id: "m".into(),
        namespace: "agent".into(),
        workspace_id: "w".into(),
        kind: MemoryKind::ProjectRule,
        content: content.into(),
        normalized_content: normalize(content),
        status: MemoryStatus::Active,
        sensitivity: Sensitivity::Private,
        scope: MemoryScope::Workspace,
        importance: single(0.8),
        confidence: single(0.9),
        created_at: 1,
        updated_at: 1,
        last_accessed_at: None,
        access_count: 0,
        valid_from: 1,
        valid_until: None,
        supersedes_id: None,
        content_hash: String::new(),
        pinned: false,
        metadata_json: "{}".into(),
    }
}

fn incoming(content: &str) -> NewMemory {
    NewMemory {
        namespace: "agent".into(),
        workspace_id: "w".into(),
        kind: MemoryKind::ProjectRule,
        content: content.into(),
        sensitivity: Sensitivity::Private,
        scope: MemoryScope::Workspace,
        importance: single(0.8),
        confidence: single(1.0),
        pinned: false,
        ttl_seconds: None,
        metadata_json: "{}".into(),
    }
}

fn assess(existing: &MemoryRecord, new: &NewMemory, semantic: Option<f32>) -> MergeAssessment {
    assess_merge_candidate(existing, new, semantic.map(single))
}

#[test]
fn near_duplicate_with_negation_requires_review() {
    let existing = record("always run tests before commit");
    let new = incoming("never run tests before commit");
    let assessment = assess(&existing, &new, Some(0.97));
    assert_eq!(assessment.disposition, MergeDisposition::NeedsReview);
    assert_eq!(assessment.reason, "similar content with a possible polarity change");
}

#[test]
fn similarity_is_the_share_of_common_terms() {
    let memory = record("always run tests before commit");
    assert_eq!(
        lexical_similarity("never run tests before commit", &memory),
        single(4.0 / 6.0)
    );
    assert_eq!(lexical_similarity("x", &memory), single(0.0));
    assert_eq!(lexical_similarity("tests", &record("")), single(0.0));
    assert_eq!(lexical_similarity("commit before tests run always", &memory), single(1.0));
}

#[test]
fn similarities_are_blended() {
    let existing = record("run the tests before each commit");
    let new = incoming("run the tests after each commit");
    let lexical = 5.0 / 7.0_f32;
    for semantic in [0.0_f32, -0.0, 0.1, 0.333, 0.5, 0.97, 1.0, 1e-30, 1e-42] {
        let a = assess(&existing, &new, Some(semantic));
        assert_eq!(a.lexical_score, single(lexical));
        assert_eq!(a.score, single(lexical * 0.45 + semantic * 0.55));
    }
    assert_eq!(assess(&existing, &new, None).score, single(lexical));
    let none = assess(&existing, &new, Some(f32::NAN));
    assert!(f32::from_bits(none.score.bits).is_nan());
    assert!(f32::from_bits(none.semantic_score.unwrap().bits).is_nan());
    assert_eq!(none.disposition, MergeDisposition::NeedsReview);
}

#[test]
fn overlap_counts_terms_that_occur_as_words() {
    let memory = record("run the tests, run them twice");
    assert_eq!(term_overlap(&lexical_terms("run tests twice"), &memory), 2);
    assert_eq!(term_overlap(&Vec::new(), &memory), 0);
}

#[test]
fn equal_contents_are_equivalent() {
    let a = assess(&record("Run the tests"), &incoming(" run   THE tests "), Some(7.0));
    assert_eq!(a.disposition, MergeDisposition::Equivalent);
    assert_eq!(a.score, single(1.0));
    assert_eq!(a.lexical_score, single(1.0));
    assert_eq!(a.semantic_score, Some(single(7.0)));
    assert_eq!(a.reason, "exact normalized content");
}

#[test]
fn reordered_words_are_a_paraphrase() {
    let a = assess(&record("run the tests"), &incoming("the tests run"), None);
    assert_eq!(a.disposition, MergeDisposition::Equivalent);
    assert_eq!(a.reason, "high-confidence same-kind paraphrase");
    assert_eq!(a.score, single(1.0));
    assert_eq!(a.semantic_score, None);
}

#[test]
fn another_kind_is_never_merged() {
    let mut existing = record("run the tests");
    existing.kind = MemoryKind::Episodic;
    let a = assess(&existing, &incoming("the tests run"), Some(1.0));
    assert_eq!(a.disposition, MergeDisposition::NeedsReview);
    assert_eq!(a.reason, "similar content with a different memory kind");
}

#[test]
fn similar_contents_are_reviewed() {
    let a = assess(
        &record("always run integration tests before release"),
        &incoming("always run integration tests before production release"),
        None,
    );
    assert_eq!(a.disposition, MergeDisposition::NeedsReview);
    assert_eq!(a.reason, "similar content requires consolidation review");
    assert_eq!(a.lexical_score, single(6.0 / 7.0));
}

#[test]
fn unrelated_contents_are_distinct() {
    let a = assess(&record("run the tests"), &incoming("deploy on friday"), Some(0.1));
    assert_eq!(a.disposition, MergeDisposition::Distinct);
    assert_eq!(a.reason, "insufficient similarity");
    assert_eq!(a.semantic_score, Some(single(0.1)));
}

#[test]
fn semantic_scores_are_brought_into_range() {
    let a = assess(&record("run the tests"), &incoming("deploy on friday"), Some(3.0));
    assert_eq!(a.semantic_score, Some(single(1.0)));
    let a = assess(&record("run the tests"), &incoming("deploy on friday"), Some(-3.0));
    assert_eq!(a.semantic_score, Some(single(0.0)));
}

#[test]
fn each_negation_changes_the_polarity() {
    for word in ["not", "never", "no", "without", "disable", "avoid"] {
        assert!(negation_mismatch(&format!("do {word} it"), "do it"));
        assert!(negation_mismatch("do it", &format!("do {word} it")));
        assert!(!negation_mismatch(&format!("{word} one"), &format!("one {word}")));
    }
    assert!(!negation_mismatch("knot", "note"));
}

fn use_log(memory: &MemoryRecord) -> Single {
    single(f32::from_bits(usage_base(memory).bits).ln())
}

fn retention(memory: &MemoryRecord, now: i64) -> f32 {
    f32::from_bits(retention_score(memory, now, use_log(memory)).bits)
}

fn expected_retention(memory: &MemoryRecord, now: i64) -> f32 {
    let anchor = memory.last_accessed_at.unwrap_or(memory.updated_at).max(memory.updated_at);
    let age_days = ((now - anchor).max(0) as f32) / 86_400.0;
    let freshness = 1.0 / (1.0 + age_days / 45.0);
    let usage = ((memory.access_count as f32 + 1.0).ln() / 5.0).min(1.0);
    let mut score = f32::from_bits(memory.importance.bits).clamp(0.0, 1.0) * 0.34
        + f32::from_bits(memory.confidence.bits).clamp(0.0, 1.0) * 0.24
        + freshness * 0.27
        + usage * 0.15;
    if memory.pinned {
        score += 0.25;
    }
    score
}

#[test]
fn retention_weighs_importance_confidence_freshness_and_use() {
    let mut seed = 7_u64;
    for _ in 0..2_000 {
        let mut draw = || {
            seed = seed.wrapping_mul(6_364_136_223_846_793_005).wrapping_add(1);
            seed >> 20
        };
        let mut memory = record("rule");
        memory.importance = single(draw() as f32 / 1e13);
        memory.confidence = single(draw() as f32 / 2e13);
        memory.access_count = draw() >> (draw() % 44);
        memory.updated_at = (draw() >> (draw() % 44)) as i64;
        memory.pinned = draw() % 2 == 0;
        let now = (draw() >> (draw() % 44)) as i64;
        assert_eq!(single(retention(&memory, now)), single(expected_retention(&memory, now)));
        let terms = lexical_terms("the rule");
        let expected = 1.0 * 1.5 + expected_retention(&memory, now) * 4.0;
        let log = use_log(&memory);
        assert_eq!(lexical_score_with_terms(&terms, &memory, now, log), single(expected));
        assert_eq!(term_score("the rule", &memory, now, log), single(expected));
        let recency = 1.0 / (1.0 + (((now - memory.updated_at).max(0) as f32) / 86_400.0) / 30.0);
        let expected = 1.0 * 1.5
            + f32::from_bits(memory.importance.bits) * 2.0
            + f32::from_bits(memory.confidence.bits)
            + recency
            + if memory.pinned { 3.0 } else { 0.0 };
        assert_eq!(lexical_score("the rule", &memory, now), single(expected));
    }
}

#[test]
fn weights_that_are_no_numbers_give_no_score() {
    let mut memory = record("rule");
    memory.importance = single(f32::NAN);
    assert!(retention(&memory, 10).is_nan());
    assert!(f32::from_bits(lexical_score("rule", &memory, 10).bits).is_nan());
    memory.importance = single(-4.5);
    assert_eq!(single(retention(&memory, 10)), single(expected_retention(&memory, 10)));
    assert_eq!(lexical_score("rule", &memory, 1), single(1.5 - 9.0 + 0.9 + 1.0 + 0.0));
}

#[test]
fn retention_rewards_recent_access_without_making_it_permanent() {
    let mut old = record("rule");
    old.updated_at = 1;
    let mut accessed = old.clone();
    accessed.last_accessed_at = Some(1_000_000);
    accessed.access_count = 8;
    assert!(retention(&accessed, 1_000_100) > retention(&old, 1_000_100));
}

#[test]
fn recent_access_keeps_a_memory_fresh() {
    let old = record("rule");
    let mut accessed = old.clone();
    accessed.last_accessed_at = Some(1_000_000);
    assert_eq!(retention_age(&old, 1_000_100), 1_000_099);
    assert_eq!(retention_age(&accessed, 1_000_100), 100);
    assert_eq!(retention_age(&accessed, 5), 0);
    accessed.updated_at = 1_000_050;
    assert_eq!(retention_age(&accessed, 1_000_100), 50);
}

#[test]
fn reading_raises_retention() {
    let mut memory = record("rule");
    let now = 50_000_000;
    let mut last = retention(&memory, now);
    for day in 1..400 {
        memory = memory.touched(day * 86_400);
        let next = retention(&memory, now);
        assert!(next >= last);
        last = next;
    }
    assert!(last > retention(&record("rule"), now));
}

#[test]
fn similarity_is_the_same_both_ways() {
    let texts = ["run the tests", "the tests run", "run tests twice", "x", ""];
    for left in texts {
        for right in texts {
            assert_eq!(
                lexical_similarity(left, &record(right)),
                lexical_similarity(right, &record(left))
            );
        }
    }
}

#[test]
fn retention_is_one_at_most_and_more_when_pinned() {
    let mut best = record("rule");
    best.importance = single(5.0);
    best.confidence = single(1.0);
    best.access_count = u64::MAX;
    assert_eq!(retention(&best, 1), 1.0);
    best.pinned = true;
    assert_eq!(retention(&best, 1), 1.25);
    let mut worst = record("rule");
    worst.importance = single(-3.0);
    worst.confidence = single(0.0);
    worst.updated_at = i64::MIN;
    let faded = retention(&worst, i64::MAX);
    assert!((0.0..1e-10).contains(&faded));
    worst.pinned = true;
    assert!(retention(&worst, i64::MAX) > faded);
}

#[test]
fn retention_grows_with_weights_and_fades_with_time() {
    let steps = (0..=100).map(|n| single(n as f32 / 100.0)).collect::<Vec<_>>();
    let mut memory = record("rule");
    let mut last = 0.0;
    for importance in &steps {
        memory.importance = *importance;
        assert!(retention(&memory, 1_000) >= last);
        last = retention(&memory, 1_000);
    }
    last = 0.0;
    for confidence in &steps {
        memory.confidence = *confidence;
        assert!(retention(&memory, 1_000) >= last);
        last = retention(&memory, 1_000);
    }
    for day in 0..500 {
        let next = retention(&memory, 1_000 + day * 86_400);
        assert!(next <= last);
        last = next;
    }
    assert_eq!(retention(&memory, 1), retention(&memory, -1_000_000));
}
