use kitt_memory::hash::hash_normalized;
use kitt_memory::memory::MemoryRow;
use kitt_memory::{
    MemoryError, MemoryKind, MemoryRecord, MemoryScope, MemoryStatus, NewMemory, Sensitivity,
    Single,
};

fn single(x: f32) -> Single {
    Single { bits: x.to_bits() }
}

fn draft(content: &str) -> NewMemory {
    NewMemory {
        namespace: "agent".into(),
        workspace_id: "w".into(),
        kind: MemoryKind::ProjectRule,
        content: content.into(),
        sensitivity: Sensitivity::Private,
        scope: MemoryScope::Workspace,
        importance: single(0.5),
        confidence: single(1.0),
        pinned: true,
        ttl_seconds: None,
        metadata_json: "{\"a\":1}".into(),
    }
}

fn refusal(memory: NewMemory) -> String {
    match memory.into_record() {
        Err(MemoryError::Invalid(text)) => text,
        other => panic!("not refused: {other:?}"),
    }
}

#[test]
fn a_record_holds_what_was_written() {
    let r = draft("  Keep  It Simple \n").into_record_at(1_000, "0123").unwrap();
    assert_eq!(r.id, "mem_0123");
    assert_eq!(r.namespace, "agent");
    assert_eq!(r.workspace_id, "w");
    assert_eq!(r.kind, MemoryKind::ProjectRule);
    assert_eq!(r.content, "Keep  It Simple");
    assert_eq!(r.normalized_content, "keep it simple");
    assert_eq!(r.status, MemoryStatus::Active);
    assert_eq!(r.sensitivity, Sensitivity::Private);
    assert_eq!(r.scope, MemoryScope::Workspace);
    assert_eq!(r.importance, single(0.5));
    assert_eq!(r.confidence, single(1.0));
    assert_eq!((r.created_at, r.updated_at, r.valid_from), (1_000, 1_000, 1_000));
    assert_eq!(r.last_accessed_at, None);
    assert_eq!(r.access_count, 0);
    assert_eq!(r.valid_until, None);
    assert_eq!(r.supersedes_id, None);
    assert_eq!(r.content_hash, hash_normalized("keep it simple"));
    assert!(r.pinned);
    assert_eq!(r.metadata_json, "{\"a\":1}");
}

#[test]
fn new_identifiers_are_random() {
    let a = draft("x").into_record().unwrap();
    let b = draft("x").into_record().unwrap();
    assert_ne!(a.id, b.id);
    let suffix = a.id.strip_prefix("mem_").unwrap();
    assert_eq!(suffix.len(), 32);
    assert!(suffix.chars().all(|c| c.is_ascii_digit() || ('a'..='f').contains(&c)));
    assert_eq!(&suffix[12..13], "4");
    assert!("89ab".contains(&suffix[16..17]));
}

#[test]
fn empty_content_is_refused() {
    assert_eq!(refusal(draft(" \t\n")), "content is empty");
}

#[test]
fn weights_outside_the_unit_range_are_refused() {
    for bad in [-0.1, 1.1, f32::NAN, f32::INFINITY] {
        let mut m = draft("x");
        m.importance = single(bad);
        assert_eq!(refusal(m), "importance/confidence must be 0..1");
        let mut m = draft("x");
        m.confidence = single(bad);
        assert_eq!(refusal(m), "importance/confidence must be 0..1");
    }
    for good in [0.0, -0.0, 1.0] {
        let mut m = draft("x");
        m.importance = single(good);
        assert!(m.into_record().is_ok());
    }
}

#[test]
fn time_to_live_sets_the_expiry() {
    let expiry = |now: i64, ttl: u64| {
        let mut m = draft("x");
        m.ttl_seconds = Some(ttl);
        m.into_record_at(now, "0").unwrap().valid_until
    };
    assert_eq!(expiry(1_000, 60), Some(1_060));
    assert_eq!(expiry(1_000, 0), Some(1_000));
    assert_eq!(expiry(1_000, i64::MAX as u64), Some(i64::MAX));
    assert_eq!(expiry(1_000, u64::MAX), Some(999));
}

#[test]
fn zero_time_to_live_expires_at_once() {
    let mut m = draft("x");
    m.ttl_seconds = Some(0);
    let r = m.into_record_at(1_000, "0").unwrap();
    assert!(r.is_expired_at(1_000));
    assert!(!r.is_valid_at(1_000));
    assert!(r.is_expired_at(2_000));
}

fn record() -> MemoryRecord {
    draft("x").into_record_at(1_000, "0").unwrap()
}

#[test]
fn validity_is_a_half_open_interval() {
    let mut r = record();
    r.valid_until = Some(2_000);
    assert!(!r.is_valid_at(999));
    assert!(r.is_valid_at(1_000));
    assert!(r.is_valid_at(1_999));
    assert!(!r.is_valid_at(2_000));
}

#[test]
fn reads_are_confined_to_the_workspace() {
    let mut r = record();
    assert!(r.is_live("agent", "w", 1_000));
    assert!(!r.is_live("agent", "v", 1_000));
    assert!(!r.is_live("other", "w", 1_000));
    r.scope = MemoryScope::Global;
    assert!(r.is_live("agent", "v", 1_000));
    assert!(!r.is_live("other", "v", 1_000));
    r.status = MemoryStatus::Archived;
    assert!(!r.is_live("agent", "w", 1_000));
}

#[test]
fn an_access_is_counted() {
    let r = record().touched(5_000);
    assert_eq!(r.access_count, 1);
    assert_eq!(r.last_accessed_at, Some(5_000));
    assert_eq!(r.updated_at, 1_000);
}

#[test]
fn retiring_closes_an_open_validity() {
    let r = record().set_status(MemoryStatus::Archived, Some("k".into()), 3_000);
    assert_eq!(r.status, MemoryStatus::Archived);
    assert_eq!(r.supersedes_id, Some("k".into()));
    assert_eq!(r.updated_at, 3_000);
    assert_eq!(r.valid_until, Some(3_000));
    let mut ends = record();
    ends.valid_until = Some(2_000);
    let r = ends.set_status(MemoryStatus::Superseded, None, 3_000);
    assert_eq!(r.valid_until, Some(2_000));
    let r = record().set_status(MemoryStatus::Active, None, 3_000);
    assert_eq!(r.valid_until, None);
}

#[test]
fn a_stored_memory_is_read_back() {
    let mut r = record();
    r.access_count = u64::MAX;
    r.supersedes_id = Some("k".into());
    r.valid_until = Some(-5);
    r.sensitivity = Sensitivity::Secret;
    let row = MemoryRow::encode(&r);
    assert_eq!(row.kind, "PROJECT_RULE");
    assert_eq!(row.status, "ACTIVE");
    assert_eq!(row.sensitivity, "secret");
    assert_eq!(row.scope, "workspace");
    assert_eq!(row.access_count, -1);
    assert_eq!(row.pinned, 1);
    assert_eq!(format!("{:?}", row.decode()), format!("{r:?}"));
}

#[test]
fn unknown_names_are_read_as_defaults() {
    let mut row = MemoryRow::encode(&record());
    row.kind = "?".into();
    row.status = "?".into();
    row.sensitivity = "?".into();
    row.scope = "?".into();
    row.pinned = 7;
    let r = row.decode();
    assert_eq!(r.kind, MemoryKind::Episodic);
    assert_eq!(r.status, MemoryStatus::Active);
    assert_eq!(r.sensitivity, Sensitivity::Private);
    assert_eq!(r.scope, MemoryScope::Workspace);
    assert!(r.pinned);
}
