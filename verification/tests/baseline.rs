use kitt_memory::baseline::{
    baseline_score, build_memory_baseline_at, section, truncate_chars,
};
use kitt_memory::ranking::{usage_base, UsedMemory};
use kitt_memory::{
    build_memory_baseline, normalize, BaselineQuery, MemoryKind, MemoryRecord,
    MemoryScope, MemoryStatus, Sensitivity, Single,
};

fn single(x: f32) -> Single {
    Single { bits: x.to_bits() }
}

fn item(id: &str, kind: MemoryKind, content: &str, pinned: bool) -> MemoryRecord {
    MemoryRecord {
        id: id.into(),
        namespace: "agent".into(),
        workspace_id: "ws".into(),
        kind,
        content: content.into(),
        normalized_content: normalize(content),
        status: MemoryStatus::Active,
        sensitivity: Sensitivity::Private,
        scope: MemoryScope::Workspace,
        importance: single(0.8),
        confidence: single(1.0),
        created_at: 1,
        updated_at: 1,
        last_accessed_at: None,
        access_count: 0,
        valid_from: 1,
        valid_until: None,
        supersedes_id: None,
        content_hash: String::new(),
        pinned,
        metadata_json: "{}".into(),
    }
}

fn used(memory: MemoryRecord) -> UsedMemory {
    UsedMemory { use_log: single(f32::from_bits(usage_base(&memory).bits).ln()), memory }
}

fn query(max_tokens: usize) -> BaselineQuery {
    BaselineQuery {
        namespace: "agent".into(),
        workspace_id: "ws".into(),
        max_tokens,
        allow_private: true,
        allow_secret: false,
    }
}

#[test]
fn baseline_is_bounded_and_reports_pressure() {
    let memories = vec![
        used(item("b", MemoryKind::TechnicalFact, &"x".repeat(900), false)),
        used(item("a", MemoryKind::ProjectRule, "always test changes", true)),
        used(item("c", MemoryKind::OpenIssue, &"y".repeat(900), false)),
    ];
    let result = build_memory_baseline(
        &memories,
        &BaselineQuery {
            namespace: "agent".into(),
            workspace_id: "ws".into(),
            max_tokens: 80,
            allow_private: true,
            allow_secret: false,
        },
    );
    assert_eq!(result.entries[0].memory_id, "a");
    assert!(result.dropped_count > 0);
    assert!(f32::from_bits(result.budget_pressure.bits) > 0.0);
}

#[test]
fn costs_are_counted_exactly() {
    let now = 1_000;
    let memories = vec![
        used(item("b", MemoryKind::TechnicalFact, &"x".repeat(900), false)),
        used(item("a", MemoryKind::ProjectRule, "always test changes", true)),
        used(item("c", MemoryKind::OpenIssue, &"y".repeat(900), false)),
    ];
    let result = build_memory_baseline_at(&memories, &query(80), now);
    // 19 + 18 + 8 = 45, then 120 + 22 + 8 = 150; another 120 + 21 + 8 = 149 would exceed 320.
    assert_eq!(result.entries.len(), 2);
    assert_eq!(result.entries[0].section, "Project guardrails");
    assert_eq!(result.entries[1].memory_id, "b");
    assert_eq!(result.entries[1].section, "Architecture knowledge");
    assert_eq!(result.entries[1].content, format!("{}...", "x".repeat(117)));
    assert_eq!(result.estimated_tokens, 49);
    assert_eq!(result.max_tokens, 80);
    assert_eq!(result.dropped_count, 1);
    assert_eq!(result.budget_pressure, single(49.0 / 80.0));
}

#[test]
fn a_skipped_memory_makes_room_for_a_shorter_one() {
    let memories = vec![
        used(item("a", MemoryKind::UserPreference, &"x".repeat(120), true)),
        used(item("b", MemoryKind::ProjectRule, &"y".repeat(120), false)),
        used(item("c", MemoryKind::Episodic, "z", false)),
    ];
    let result = build_memory_baseline_at(&memories, &query(50), 10);
    let shown = result.entries.iter().map(|e| e.memory_id.as_str()).collect::<Vec<_>>();
    assert_eq!(shown, ["a", "c"]);
    assert_eq!(result.dropped_count, 1);
    // 120 + 13 + 8 = 141 and 1 + 22 + 8 = 31.
    assert_eq!(result.estimated_tokens, 43);
}

#[test]
fn budgets_are_clamped() {
    assert_eq!(build_memory_baseline_at(&Vec::new(), &query(0), 10).max_tokens, 32);
    assert_eq!(build_memory_baseline_at(&Vec::new(), &query(usize::MAX), 10).max_tokens, 16_384);
    let empty = build_memory_baseline_at(&Vec::new(), &query(100), 10);
    assert!(empty.entries.is_empty());
    assert_eq!(empty.estimated_tokens, 0);
    assert_eq!(empty.dropped_count, 0);
    assert_eq!(empty.budget_pressure, single(0.0));
}

#[test]
fn the_smallest_budget_is_exceeded_by_six_tokens_at_most() {
    let memories =
        vec![used(item("a", MemoryKind::Episodic, &"x".repeat(5_000), false))];
    let result = build_memory_baseline_at(&memories, &query(1), 10);
    assert_eq!(result.max_tokens, 32);
    assert_eq!(result.entries[0].content.len(), 120);
    assert_eq!(result.estimated_tokens, 38);
    assert_eq!(result.budget_pressure, single(38.0 / 32.0));
    let result = build_memory_baseline_at(&memories, &query(38), 10);
    assert!(result.estimated_tokens <= result.max_tokens);
}

#[test]
fn one_memory_is_shown_with_twelve_hundred_characters_at_most() {
    let memories =
        vec![used(item("a", MemoryKind::Routine, &"é".repeat(5_000), false))];
    let result = build_memory_baseline_at(&memories, &query(16_384), 10);
    assert_eq!(result.entries[0].content.chars().count(), 1_200);
    assert!(result.entries[0].content.ends_with("..."));
}

#[test]
fn entries_are_ordered_by_pin_section_score_time_and_identifier() {
    let entry = |id: &str, kind: MemoryKind, pinned: bool, importance: f32, updated_at: i64| {
        let mut memory = item(id, kind, id, pinned);
        memory.importance = single(importance);
        memory.updated_at = updated_at;
        memory
    };
    let memories = vec![
        entry("f", MemoryKind::Episodic, false, 1.0, 1),
        entry("e", MemoryKind::OpenIssue, false, 0.5, 1),
        entry("d", MemoryKind::OpenIssue, false, 0.5, 1),
        entry("z", MemoryKind::OpenIssue, false, 0.5, 2),
        entry("c", MemoryKind::OpenIssue, false, 0.6, 1),
        entry("b", MemoryKind::PersonalFact, false, 0.0, 1),
        entry("a", MemoryKind::Episodic, true, 0.0, 1),
    ];
    let mut reversed = memories.clone();
    reversed.reverse();
    let memories = memories.into_iter().map(used).collect::<Vec<_>>();
    let reversed = reversed.into_iter().map(used).collect::<Vec<_>>();
    let result = build_memory_baseline_at(&memories, &query(1_000), 1);
    let shown = result.entries.iter().map(|e| e.memory_id.as_str()).collect::<Vec<_>>();
    assert_eq!(shown, ["a", "b", "c", "z", "d", "e", "f"]);
    let again = build_memory_baseline_at(&reversed, &query(1_000), 1);
    assert_eq!(format!("{result:?}"), format!("{again:?}"));
}

#[test]
fn kinds_and_pins_raise_the_score() {
    let now = 900_000;
    let retention = |pinned: bool| {
        let freshness = 1.0 / (1.0 + (899_999.0_f32 / 86_400.0) / 45.0);
        let usage = (8.0_f32.ln() / 5.0).min(1.0);
        let score: f32 = 0.8 * 0.34 + 1.0 * 0.24 + freshness * 0.27 + usage * 0.15;
        if pinned { score + 0.25 } else { score }
    };
    let leads = [
        (MemoryKind::ProjectRule, 0.2),
        (MemoryKind::ArchitectureDecision, 0.2),
        (MemoryKind::UserPreference, 0.15),
        (MemoryKind::Episodic, 0.0),
        (MemoryKind::Routine, 0.0),
    ];
    for (kind, lead) in leads {
        for pinned in [true, false] {
            let mut memory = item("a", kind.clone(), "a", pinned);
            memory.access_count = 7;
            let memory = used(memory);
            let expected = retention(pinned) + if pinned { 0.4 } else { 0.0 } + lead;
            assert_eq!(baseline_score(&memory.memory, now, memory.use_log), single(expected));
            let shown = build_memory_baseline_at(&vec![memory], &query(100), now);
            assert_eq!(shown.entries[0].score, single(expected));
        }
    }
}

#[test]
fn only_admitted_memories_are_shown() {
    let mut secret = item("secret", MemoryKind::Routine, "s", false);
    secret.sensitivity = Sensitivity::Secret;
    let mut fleeting = item("fleeting", MemoryKind::Routine, "f", false);
    fleeting.sensitivity = Sensitivity::Ephemeral;
    let mut archived = item("archived", MemoryKind::Routine, "r", false);
    archived.status = MemoryStatus::Archived;
    let mut expired = item("expired", MemoryKind::Routine, "e", false);
    expired.valid_until = Some(10);
    let mut early = item("early", MemoryKind::Routine, "l", false);
    early.valid_from = 11;
    let mut foreign = item("foreign", MemoryKind::Routine, "o", false);
    foreign.workspace_id = "other".into();
    let mut global = item("global", MemoryKind::Routine, "g", false);
    global.workspace_id = "other".into();
    global.scope = MemoryScope::Global;
    let memories = vec![secret, fleeting, archived, expired, early, foreign, global]
        .into_iter()
        .map(used)
        .collect::<Vec<_>>();
    let shown = |q: &BaselineQuery| {
        build_memory_baseline_at(&memories, q, 10)
            .entries
            .into_iter()
            .map(|e| e.memory_id)
            .collect::<Vec<_>>()
    };
    assert_eq!(shown(&query(500)), ["global"]);
    let mut open = query(500);
    open.allow_secret = true;
    open.allow_private = false;
    assert_eq!(shown(&open), ["secret"]);
}

#[test]
fn sections_are_named_and_ranked() {
    assert_eq!(section(&MemoryKind::UserPreference), ("User baseline", 0));
    assert_eq!(section(&MemoryKind::PersonalFact), ("User baseline", 0));
    assert_eq!(section(&MemoryKind::Routine), ("User baseline", 0));
    assert_eq!(section(&MemoryKind::ProjectRule), ("Project guardrails", 1));
    assert_eq!(section(&MemoryKind::WorkingPattern), ("Project guardrails", 1));
    assert_eq!(section(&MemoryKind::ArchitectureDecision), ("Architecture knowledge", 2));
    assert_eq!(section(&MemoryKind::TechnicalFact), ("Architecture knowledge", 2));
    assert_eq!(section(&MemoryKind::OpenIssue), ("Current project state", 3));
    assert_eq!(section(&MemoryKind::ProjectState), ("Current project state", 3));
    assert_eq!(section(&MemoryKind::FailedApproach), ("Current project state", 3));
    assert_eq!(section(&MemoryKind::Episodic), ("Recent durable context", 4));
}

#[test]
fn long_texts_end_in_an_ellipsis() {
    assert_eq!(truncate_chars("abcdef", 6), "abcdef");
    assert_eq!(truncate_chars("abcdefg", 6), "abc...");
    assert_eq!(truncate_chars("ééééé", 4), "é...");
    assert_eq!(truncate_chars("abcdef", 2), "...");
    assert_eq!(truncate_chars("", 0), "");
}

#[test]
fn memories_of_any_age_are_shown() {
    for updated_at in [-1, 0, i64::MIN, i64::MAX] {
        let mut memory = item("a", MemoryKind::Routine, "a", false);
        memory.updated_at = updated_at;
        let shown = build_memory_baseline(&vec![used(memory)], &query(100));
        assert_eq!(shown.entries.len(), 1);
    }
}
