use kitt_memory::{
    EgressPolicy, KnowledgeRelation, MemoryError, MemoryKind, MemoryScope, MemoryStatus,
    Sensitivity,
};

#[test]
fn kinds_are_read_back() {
    let all = [
        (MemoryKind::UserPreference, "USER_PREFERENCE"),
        (MemoryKind::ProjectRule, "PROJECT_RULE"),
        (MemoryKind::ArchitectureDecision, "ARCHITECTURE_DECISION"),
        (MemoryKind::TechnicalFact, "TECHNICAL_FACT"),
        (MemoryKind::WorkingPattern, "WORKING_PATTERN"),
        (MemoryKind::FailedApproach, "FAILED_APPROACH"),
        (MemoryKind::OpenIssue, "OPEN_ISSUE"),
        (MemoryKind::ProjectState, "PROJECT_STATE"),
        (MemoryKind::Episodic, "EPISODIC"),
        (MemoryKind::PersonalFact, "PERSONAL_FACT"),
        (MemoryKind::Routine, "ROUTINE"),
    ];
    for (kind, name) in all {
        assert_eq!(kind.as_db(), name);
        assert_eq!(MemoryKind::from_db(name), kind);
    }
    assert_eq!(MemoryKind::from_db("project_rule"), MemoryKind::Episodic);
}

#[test]
fn sensitivities_are_read_back() {
    let all = [
        (Sensitivity::Public, "public", 0),
        (Sensitivity::Personal, "personal", 1),
        (Sensitivity::Private, "private", 2),
        (Sensitivity::Secret, "secret", 3),
        (Sensitivity::Ephemeral, "ephemeral", 4),
    ];
    for (level, name, rank) in all {
        assert_eq!(level.as_db(), name);
        assert_eq!(Sensitivity::from_db(name), level);
        assert_eq!(level.restriction_rank(), rank);
    }
    assert_eq!(Sensitivity::from_db("?"), Sensitivity::Private);
}

#[test]
fn scopes_statuses_and_relations_are_read_back() {
    for (scope, name) in [
        (MemoryScope::Global, "global"),
        (MemoryScope::Workspace, "workspace"),
        (MemoryScope::Conversation, "conversation"),
    ] {
        assert_eq!(scope.as_db(), name);
        assert_eq!(MemoryScope::from_db(name), scope);
    }
    assert_eq!(MemoryScope::from_db(""), MemoryScope::Workspace);
    for (status, name) in [
        (MemoryStatus::Active, "ACTIVE"),
        (MemoryStatus::Superseded, "SUPERSEDED"),
        (MemoryStatus::Archived, "ARCHIVED"),
    ] {
        assert_eq!(status.as_db(), name);
        assert_eq!(MemoryStatus::from_db(name), status);
    }
    assert_eq!(MemoryStatus::from_db(""), MemoryStatus::Active);
    for (relation, name) in [
        (KnowledgeRelation::Supports, "SUPPORTS"),
        (KnowledgeRelation::Requires, "REQUIRES"),
        (KnowledgeRelation::Conflicts, "CONFLICTS"),
        (KnowledgeRelation::Refines, "REFINES"),
        (KnowledgeRelation::Replaces, "REPLACES"),
        (KnowledgeRelation::Related, "RELATED"),
    ] {
        assert_eq!(relation.as_db(), name);
        assert_eq!(KnowledgeRelation::from_db(name), relation);
    }
    assert_eq!(KnowledgeRelation::from_db(""), KnowledgeRelation::Related);
}

#[test]
fn combined_sensitivity_never_falls() {
    let all = [
        Sensitivity::Public,
        Sensitivity::Personal,
        Sensitivity::Private,
        Sensitivity::Secret,
        Sensitivity::Ephemeral,
    ];
    for a in all {
        for b in all {
            let both = a.most_restrictive(b);
            assert!(both.restriction_rank() >= a.restriction_rank());
            assert!(both.restriction_rank() >= b.restriction_rank());
            assert_eq!(both, b.most_restrictive(a));
        }
    }
}

#[test]
fn egress_narrows_with_the_level() {
    for local in [false, true] {
        for personal in [false, true] {
            let policy = EgressPolicy {
                is_local_provider: local,
                allow_personal_remote: personal,
            };
            assert!(policy.allows(Sensitivity::Public));
            assert_eq!(policy.allows(Sensitivity::Personal), local || personal);
            assert_eq!(policy.allows(Sensitivity::Private), local);
            assert_eq!(policy.allows(Sensitivity::Secret), local);
            assert_eq!(policy.allows(Sensitivity::Ephemeral), local);
        }
    }
}

#[test]
fn errors_say_what_went_wrong() {
    assert_eq!(
        MemoryError::Storage("disk full".into()).message(),
        "storage error: disk full"
    );
    assert_eq!(
        MemoryError::Invalid("content is empty".into()).message(),
        "invalid memory: content is empty"
    );
    assert_eq!(
        kitt_memory::error::storage("locked".into()).message(),
        "storage error: locked"
    );
}
