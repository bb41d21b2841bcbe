use kitt_memory::consolidate::{plan_consolidation, retire};
use kitt_memory::import::{LegacyImport, LegacyRow};
use kitt_memory::table::{merge_valid_until, remember_step, MemoryTable, RememberStep};
use kitt_memory::{
    hash_normalized, normalize, MemoryError, MemoryKind, MemoryRecord, MemoryScope, MemoryStatus,
    NewMemory, Result, Sensitivity, Single,
};

const SLOT_TEXT: &str =
    "UNIQUE constraint failed: memories.namespace, memories.workspace_id, memories.content_hash";

fn single(x: f32) -> Single {
    Single { bits: x.to_bits() }
}

fn row(id: &str, content: &str) -> MemoryRecord {
    MemoryRecord {
        id: id.into(),
        namespace: "agent".into(),
        workspace_id: "w".into(),
        kind: MemoryKind::TechnicalFact,
        content: content.into(),
        normalized_content: normalize(content),
        status: MemoryStatus::Active,
        sensitivity: Sensitivity::Private,
        scope: MemoryScope::Workspace,
        importance: single(0.5),
        confidence: single(0.5),
        created_at: 100,
        updated_at: 100,
        last_accessed_at: None,
        access_count: 0,
        valid_from: 100,
        valid_until: None,
        supersedes_id: None,
        content_hash: hash_normalized(&normalize(content)),
        pinned: false,
        metadata_json: "{}".into(),
    }
}

fn table(rows: &[MemoryRecord]) -> MemoryTable {
    let mut table = MemoryTable::new();
    for row in rows {
        table.upsert_record(row).unwrap();
    }
    table
}

fn storage_text<T: std::fmt::Debug>(result: Result<T>) -> String {
    match result {
        Err(MemoryError::Storage(text)) => text,
        other => panic!("not a storage error: {other:?}"),
    }
}

fn ids(table: &MemoryTable) -> Vec<&str> {
    table.rows().iter().map(|r| r.id.as_str()).collect()
}

#[test]
fn an_open_end_stays_open() {
    assert_eq!(merge_valid_until(None, None), None);
    assert_eq!(merge_valid_until(Some(5), None), None);
    assert_eq!(merge_valid_until(None, Some(5)), None);
    assert_eq!(merge_valid_until(Some(5), Some(9)), Some(9));
    assert_eq!(merge_valid_until(Some(9), Some(5)), Some(9));
}

#[test]
fn a_duplicate_is_merged_field_by_field() {
    let mut stored = row("a", "same fact");
    stored.valid_until = Some(500);
    stored.importance = single(0.9);
    let mut again = row("b", "Same  Fact");
    again.sensitivity = Sensitivity::Secret;
    again.pinned = true;
    again.importance = single(0.1);
    again.confidence = single(0.7);
    again.valid_until = Some(900);
    again.metadata_json = "{\"x\":1}".into();
    let merged = match remember_step(again, &vec![row("z", "other"), stored.clone()], 300) {
        RememberStep::Merged(m) => m,
        other => panic!("not merged: {other:?}"),
    };
    let mut expected = stored;
    expected.sensitivity = Sensitivity::Secret;
    expected.pinned = true;
    expected.confidence = single(0.7);
    expected.valid_until = Some(900);
    expected.updated_at = 300;
    assert_eq!(format!("{merged:?}"), format!("{expected:?}"));
}

#[test]
fn only_memories_in_use_are_merged_with() {
    let mut retired = row("a", "same fact");
    retired.status = MemoryStatus::Superseded;
    let mut foreign = row("c", "same fact");
    foreign.workspace_id = "v".into();
    let step = remember_step(row("b", "same fact"), &vec![retired, foreign], 300);
    assert!(matches!(step, RememberStep::Inserted(m) if m.id == "b"));
}

#[test]
fn ephemeral_memories_are_not_stored() {
    let mut t = table(&[row("a", "same fact")]);
    let mut fleeting = row("b", "same fact");
    fleeting.sensitivity = Sensitivity::Ephemeral;
    let got = t.remember_record(fleeting, 300).unwrap();
    assert_eq!(got.id, "b");
    assert_eq!(ids(&t), ["a"]);
    assert_eq!(t.get("a").unwrap().sensitivity, Sensitivity::Private);
}

#[test]
fn a_taken_identifier_is_refused() {
    let mut t = table(&[row("a", "one")]);
    let refused = t.remember_record(row("a", "two"), 300);
    assert_eq!(storage_text(refused), "UNIQUE constraint failed: memories.id");
    assert_eq!(ids(&t), ["a"]);
    assert_eq!(t.get("a").unwrap().content, "one");
}

#[test]
fn what_was_remembered_is_found() {
    let mut t = MemoryTable::new();
    let stored = t
        .remember(NewMemory {
            namespace: "agent".into(),
            workspace_id: "w".into(),
            kind: MemoryKind::Routine,
            content: " Water the plants ".into(),
            sensitivity: Sensitivity::Personal,
            scope: MemoryScope::Global,
            importance: single(0.2),
            confidence: single(0.3),
            pinned: false,
            ttl_seconds: None,
            metadata_json: "{}".into(),
        })
        .unwrap();
    assert_eq!(stored.content, "Water the plants");
    assert_eq!(format!("{:?}", t.get(&stored.id).unwrap()), format!("{stored:?}"));
    assert!(t.get("mem_").is_none());
}

#[test]
fn invalid_memories_change_nothing() {
    let mut t = table(&[row("a", "one")]);
    let refused = t.remember(NewMemory {
        namespace: "agent".into(),
        workspace_id: "w".into(),
        kind: MemoryKind::Routine,
        content: " ".into(),
        sensitivity: Sensitivity::Personal,
        scope: MemoryScope::Global,
        importance: single(0.2),
        confidence: single(0.3),
        pinned: false,
        ttl_seconds: None,
        metadata_json: "{}".into(),
    });
    assert!(matches!(refused, Err(MemoryError::Invalid(text)) if text == "content is empty"));
    assert_eq!(ids(&t), ["a"]);
}

#[test]
fn a_write_keeps_creation_time_and_sensitivity() {
    let mut t = table(&[row("a", "one")]);
    let mut newer = row("a", "two");
    newer.sensitivity = Sensitivity::Public;
    newer.created_at = 900;
    newer.updated_at = 900;
    newer.valid_from = 900;
    t.upsert_record(&newer).unwrap();
    let stored = t.get("a").unwrap();
    assert_eq!(stored.content, "two");
    assert_eq!(stored.created_at, 100);
    assert_eq!(stored.updated_at, 900);
    assert_eq!(stored.valid_from, 900);
    assert_eq!(stored.sensitivity, Sensitivity::Private);
    assert_eq!(ids(&t), ["a"]);
}

#[test]
fn a_second_memory_in_use_with_the_same_content_is_refused() {
    let mut t = table(&[row("a", "one"), row("b", "two")]);
    assert_eq!(storage_text(t.upsert_record(&row("c", "ONE"))), SLOT_TEXT);
    assert_eq!(ids(&t), ["a", "b"]);
    let mut retired = row("c", "one");
    retired.status = MemoryStatus::Archived;
    t.upsert_record(&retired).unwrap();
    assert_eq!(ids(&t), ["a", "b", "c"]);
    assert_eq!(storage_text(t.set_status("c", MemoryStatus::Active, None, 500)), SLOT_TEXT);
    assert_eq!(t.get("c").unwrap().status, MemoryStatus::Archived);
}

#[test]
fn setting_a_status_closes_the_validity() {
    let mut t = table(&[row("a", "one"), row("b", "two")]);
    assert!(t.set_status("a", MemoryStatus::Superseded, Some("b"), 500).unwrap());
    let a = t.get("a").unwrap();
    assert_eq!(a.status, MemoryStatus::Superseded);
    assert_eq!(a.supersedes_id, Some("b".into()));
    assert_eq!(a.valid_until, Some(500));
    assert_eq!(a.updated_at, 500);
    assert!(!t.set_status("none", MemoryStatus::Active, None, 500).unwrap());
}

#[test]
fn forgetting_removes_one_memory() {
    let mut t = table(&[row("a", "one"), row("b", "two")]);
    assert!(t.forget("a"));
    assert_eq!(ids(&t), ["b"]);
    assert!(!t.forget("a"));
    assert_eq!(ids(&t), ["b"]);
}

#[test]
fn pruning_removes_what_has_run_out() {
    let mut gone = row("a", "one");
    gone.valid_until = Some(500);
    gone.status = MemoryStatus::Archived;
    let mut later = row("b", "two");
    later.valid_until = Some(501);
    let mut t = table(&[gone, later, row("c", "three")]);
    assert_eq!(t.prune_expired(500), 1);
    assert_eq!(ids(&t), ["b", "c"]);
    assert_eq!(t.prune_expired(500), 0);
}

#[test]
fn touching_counts_the_named_memories() {
    let mut t = table(&[row("a", "one"), row("b", "two")]);
    t.touch(&vec!["b".into(), "x".into()], 700);
    t.touch(&vec!["b".into()], 800);
    assert_eq!(t.get("a").unwrap().access_count, 0);
    assert_eq!(t.get("b").unwrap().access_count, 2);
    assert_eq!(t.get("b").unwrap().last_accessed_at, Some(800));
}

#[test]
fn consolidation_keeps_the_most_salient() {
    let mut important = row("b", "one");
    important.importance = single(0.9);
    let mut pinned = row("c", "one");
    pinned.pinned = true;
    let mut foreign = row("f", "one");
    foreign.workspace_id = "v".into();
    let rows = vec![row("a", "one"), important, pinned, row("d", "two"), foreign];
    let plan = plan_consolidation(&rows, "agent", "w");
    let pairs =
        plan.iter().map(|p| (p.id.as_str(), p.keeper.as_str())).collect::<Vec<_>>();
    assert_eq!(pairs, [("b", "c"), ("a", "c")]);
    assert!(plan_consolidation(&rows, "agent", "none").is_empty());
}

#[test]
fn consolidation_counts_what_it_retires() {
    let mut archived = row("e", "one");
    archived.status = MemoryStatus::Archived;
    let rows = vec![
        row("a", "one"),
        row("b", "one"),
        row("c", "two"),
        row("d", "one"),
        archived,
        row("f", "two"),
    ];
    let plan = plan_consolidation(&rows, "agent", "w");
    let after = rows.into_iter().map(|m| retire(m, &plan, 900)).collect::<Vec<_>>();
    let retired = after.iter().filter(|m| m.status == MemoryStatus::Superseded).count();
    assert_eq!((plan.len(), retired), (3, 3));
    assert!(plan_consolidation(&after, "agent", "w").is_empty());
}

#[test]
fn equally_salient_memories_are_kept_in_order() {
    let mut newer = row("b", "one");
    newer.updated_at = 200;
    let plan = plan_consolidation(&vec![row("a", "one"), newer], "agent", "w");
    assert_eq!((plan[0].id.as_str(), plan[0].keeper.as_str()), ("a", "b"));
    let plan = plan_consolidation(&vec![row("a", "one"), row("b", "one")], "agent", "w");
    assert_eq!((plan[0].id.as_str(), plan[0].keeper.as_str()), ("b", "a"));
}

#[test]
fn retired_copies_name_their_keeper() {
    let rows = vec![row("a", "one"), row("b", "one")];
    let plan = plan_consolidation(&rows, "agent", "w");
    let kept = retire(rows[0].clone(), &plan, 900);
    let gone = retire(rows[1].clone(), &plan, 900);
    assert_eq!(format!("{kept:?}"), format!("{:?}", rows[0]));
    assert_eq!(gone.status, MemoryStatus::Superseded);
    assert_eq!(gone.supersedes_id, Some("a".into()));
    assert_eq!(gone.valid_until, Some(900));
    assert!(plan_consolidation(&vec![kept, gone], "agent", "w").is_empty());
}

#[test]
fn a_table_has_nothing_to_consolidate() {
    let mut t = table(&[row("a", "one"), row("b", "two")]);
    assert_eq!(t.consolidate_exact_duplicates("agent", "w", 900), 0);
    assert_eq!(ids(&t), ["a", "b"]);
}

fn legacy(id: &str, content: &str) -> LegacyRow {
    LegacyRow {
        id: id.into(),
        workspace_id: "w".into(),
        kind: "PROJECT_RULE".into(),
        content: content.into(),
        normalized_content: normalize(content),
        status: "ACTIVE".into(),
        importance: single(0.5),
        confidence: single(0.5),
        created_at: 100,
        updated_at: 150,
        last_accessed_at: Some(160),
        access_count: 2,
        valid_from: None,
        valid_until: None,
        supersedes_id: None,
        content_hash: hash_normalized(&normalize(content)),
        pinned: 1,
        metadata_json: None,
    }
}

#[test]
fn legacy_rows_become_private_memories() {
    let m = legacy("a", "One Rule").decode();
    assert_eq!(m.namespace, "agent-cli");
    assert_eq!(m.workspace_id, "w");
    assert_eq!(m.kind, MemoryKind::ProjectRule);
    assert_eq!(m.status, MemoryStatus::Active);
    assert_eq!(m.sensitivity, Sensitivity::Private);
    assert_eq!(m.scope, MemoryScope::Workspace);
    assert_eq!(m.valid_from, 100);
    assert_eq!(m.access_count, 2);
    assert!(m.pinned);
    assert_eq!(m.metadata_json, "{}");
    let mut dated = legacy("a", "One Rule");
    dated.valid_from = Some(120);
    dated.metadata_json = Some("{\"k\":1}".into());
    assert_eq!(dated.decode().valid_from, 120);
    assert_eq!(dated.decode().metadata_json, "{\"k\":1}");
}

#[test]
fn imported_duplicates_are_superseded_by_the_first() {
    let mut import = LegacyImport::new();
    let first = import.take_in(legacy("a", "one").decode());
    let second = import.take_in(legacy("b", "one").decode());
    let third = import.take_in(legacy("c", "one").decode());
    let other = import.take_in(legacy("d", "two").decode());
    assert_eq!(first.status, MemoryStatus::Active);
    assert_eq!(other.status, MemoryStatus::Active);
    for copy in [second, third] {
        assert_eq!(copy.status, MemoryStatus::Superseded);
        assert_eq!(copy.supersedes_id, Some("a".into()));
        assert_eq!(copy.updated_at, 150);
        assert_eq!(copy.valid_until, Some(150));
    }
}

#[test]
fn importing_twice_changes_nothing() {
    let rows = vec![legacy("a", "one"), legacy("b", "one"), legacy("c", "two")];
    let mut t = table(&[row("z", "other")]);
    assert_eq!(t.import_legacy(&rows).unwrap(), 3);
    let once = format!("{t:?}");
    assert_eq!(t.import_legacy(&rows).unwrap(), 3);
    assert_eq!(format!("{t:?}"), once);
}

#[test]
fn an_import_keeps_a_higher_sensitivity() {
    let mut t = MemoryTable::new();
    let mut secret = legacy("a", "one").decode();
    secret.sensitivity = Sensitivity::Secret;
    t.upsert_record(&secret).unwrap();
    t.import_legacy(&vec![legacy("a", "one")]).unwrap();
    assert_eq!(t.get("a").unwrap().sensitivity, Sensitivity::Secret);
}

#[test]
fn an_import_stops_at_a_taken_content() {
    let mut taken = legacy("z", "two").decode();
    taken.id = "z".into();
    let mut t = table(&[taken]);
    let rows = vec![legacy("a", "one"), legacy("b", "two"), legacy("c", "three")];
    assert_eq!(storage_text(t.import_legacy(&rows)), SLOT_TEXT);
    assert_eq!(ids(&t), ["z", "a"]);
}
