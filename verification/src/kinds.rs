use vstd::prelude::*;

use crate::text::same_text;

verus! {

/// What a memory is about.
#[derive(Debug, Clone, Copy, PartialEq, Eq, Structural)]
pub enum MemoryKind {
    UserPreference,
    ProjectRule,
    ArchitectureDecision,
    TechnicalFact,
    WorkingPattern,
    FailedApproach,
    OpenIssue,
    ProjectState,
    Episodic,
    PersonalFact,
    Routine,
}

impl MemoryKind {
    /// The name under which the value is stored.
    pub open spec fn name(self) -> Seq<char> {
        match self {
            MemoryKind::UserPreference => "USER_PREFERENCE"@,
            MemoryKind::ProjectRule => "PROJECT_RULE"@,
            MemoryKind::ArchitectureDecision => "ARCHITECTURE_DECISION"@,
            MemoryKind::TechnicalFact => "TECHNICAL_FACT"@,
            MemoryKind::WorkingPattern => "WORKING_PATTERN"@,
            MemoryKind::FailedApproach => "FAILED_APPROACH"@,
            MemoryKind::OpenIssue => "OPEN_ISSUE"@,
            MemoryKind::ProjectState => "PROJECT_STATE"@,
            MemoryKind::Episodic => "EPISODIC"@,
            MemoryKind::PersonalFact => "PERSONAL_FACT"@,
            MemoryKind::Routine => "ROUTINE"@,
        }
    }

    /// The value stored under a name; an unknown name stands for `Episodic`.
    pub open spec fn named(v: Seq<char>) -> MemoryKind {
        if v == "USER_PREFERENCE"@ {
            MemoryKind::UserPreference
        } else if v == "PROJECT_RULE"@ {
            MemoryKind::ProjectRule
        } else if v == "ARCHITECTURE_DECISION"@ {
            MemoryKind::ArchitectureDecision
        } else if v == "TECHNICAL_FACT"@ {
            MemoryKind::TechnicalFact
        } else if v == "WORKING_PATTERN"@ {
            MemoryKind::WorkingPattern
        } else if v == "FAILED_APPROACH"@ {
            MemoryKind::FailedApproach
        } else if v == "OPEN_ISSUE"@ {
            MemoryKind::OpenIssue
        } else if v == "PROJECT_STATE"@ {
            MemoryKind::ProjectState
        } else if v == "PERSONAL_FACT"@ {
            MemoryKind::PersonalFact
        } else if v == "ROUTINE"@ {
            MemoryKind::Routine
        } else {
            MemoryKind::Episodic
        }
    }

    /// The name under which the value is stored.
    pub fn as_db(&self) -> (r: &'static str)
        ensures
            r@ == self.name(),
    {
        match self {
            MemoryKind::UserPreference => "USER_PREFERENCE",
            MemoryKind::ProjectRule => "PROJECT_RULE",
            MemoryKind::ArchitectureDecision => "ARCHITECTURE_DECISION",
            MemoryKind::TechnicalFact => "TECHNICAL_FACT",
            MemoryKind::WorkingPattern => "WORKING_PATTERN",
            MemoryKind::FailedApproach => "FAILED_APPROACH",
            MemoryKind::OpenIssue => "OPEN_ISSUE",
            MemoryKind::ProjectState => "PROJECT_STATE",
            MemoryKind::Episodic => "EPISODIC",
            MemoryKind::PersonalFact => "PERSONAL_FACT",
            MemoryKind::Routine => "ROUTINE",
        }
    }

    /// The value stored under a name.
    pub fn from_db(v: &str) -> (r: MemoryKind)
        ensures
            r == MemoryKind::named(v@),
    {
        if same_text(v, "USER_PREFERENCE") {
            MemoryKind::UserPreference
        } else if same_text(v, "PROJECT_RULE") {
            MemoryKind::ProjectRule
        } else if same_text(v, "ARCHITECTURE_DECISION") {
            MemoryKind::ArchitectureDecision
        } else if same_text(v, "TECHNICAL_FACT") {
            MemoryKind::TechnicalFact
        } else if same_text(v, "WORKING_PATTERN") {
            MemoryKind::WorkingPattern
        } else if same_text(v, "FAILED_APPROACH") {
            MemoryKind::FailedApproach
        } else if same_text(v, "OPEN_ISSUE") {
            MemoryKind::OpenIssue
        } else if same_text(v, "PROJECT_STATE") {
            MemoryKind::ProjectState
        } else if same_text(v, "PERSONAL_FACT") {
            MemoryKind::PersonalFact
        } else if same_text(v, "ROUTINE") {
            MemoryKind::Routine
        } else {
            MemoryKind::Episodic
        }
    }
}

/// A stored kind is read back as it was.
pub proof fn kind_survives_storage(x: MemoryKind)
    ensures
        MemoryKind::named(x.name()) == x,
{
    reveal_strlit("USER_PREFERENCE");
    assert("USER_PREFERENCE"@.len() == 15);
    reveal_strlit("PROJECT_RULE");
    assert("PROJECT_RULE"@.len() == 12);
    reveal_strlit("ARCHITECTURE_DECISION");
    assert("ARCHITECTURE_DECISION"@.len() == 21);
    reveal_strlit("TECHNICAL_FACT");
    assert("TECHNICAL_FACT"@.len() == 14);
    reveal_strlit("WORKING_PATTERN");
    assert("WORKING_PATTERN"@.len() == 15);
    reveal_strlit("FAILED_APPROACH");
    assert("FAILED_APPROACH"@.len() == 15);
    reveal_strlit("OPEN_ISSUE");
    assert("OPEN_ISSUE"@.len() == 10);
    reveal_strlit("PROJECT_STATE");
    assert("PROJECT_STATE"@.len() == 13);
    reveal_strlit("EPISODIC");
    assert("EPISODIC"@.len() == 8);
    reveal_strlit("PERSONAL_FACT");
    assert("PERSONAL_FACT"@.len() == 13);
    reveal_strlit("ROUTINE");
    assert("ROUTINE"@.len() == 7);
    assert("USER_PREFERENCE"@[0] != "WORKING_PATTERN"@[0]);
    assert("USER_PREFERENCE"@[0] != "FAILED_APPROACH"@[0]);
    assert("WORKING_PATTERN"@[0] != "FAILED_APPROACH"@[0]);
    assert("PROJECT_STATE"@[1] != "PERSONAL_FACT"@[1]);
}

/// How closely a memory must be kept.
#[derive(Debug, Clone, Copy, PartialEq, Eq, Structural)]
pub enum Sensitivity {
    Public,
    Personal,
    Private,
    Secret,
    /// Never stored.
    Ephemeral,
}

impl Sensitivity {
    /// The name under which the value is stored.
    pub open spec fn name(self) -> Seq<char> {
        match self {
            Sensitivity::Public => "public"@,
            Sensitivity::Personal => "personal"@,
            Sensitivity::Private => "private"@,
            Sensitivity::Secret => "secret"@,
            Sensitivity::Ephemeral => "ephemeral"@,
        }
    }

    /// The value stored under a name; an unknown name stands for `Private`.
    pub open spec fn named(v: Seq<char>) -> Sensitivity {
        if v == "public"@ {
            Sensitivity::Public
        } else if v == "personal"@ {
            Sensitivity::Personal
        } else if v == "secret"@ {
            Sensitivity::Secret
        } else if v == "ephemeral"@ {
            Sensitivity::Ephemeral
        } else {
            Sensitivity::Private
        }
    }

    /// The name under which the value is stored.
    pub fn as_db(self) -> (r: &'static str)
        ensures
            r@ == self.name(),
    {
        match self {
            Sensitivity::Public => "public",
            Sensitivity::Personal => "personal",
            Sensitivity::Private => "private",
            Sensitivity::Secret => "secret",
            Sensitivity::Ephemeral => "ephemeral",
        }
    }

    /// The value stored under a name.
    pub fn from_db(v: &str) -> (r: Sensitivity)
        ensures
            r == Sensitivity::named(v@),
    {
        if same_text(v, "public") {
            Sensitivity::Public
        } else if same_text(v, "personal") {
            Sensitivity::Personal
        } else if same_text(v, "secret") {
            Sensitivity::Secret
        } else if same_text(v, "ephemeral") {
            Sensitivity::Ephemeral
        } else {
            Sensitivity::Private
        }
    }
}

/// A stored sensitivity is read back as it was.
pub proof fn sensitivity_survives_storage(x: Sensitivity)
    ensures
        Sensitivity::named(x.name()) == x,
{
    reveal_strlit("public");
    assert("public"@.len() == 6);
    reveal_strlit("personal");
    assert("personal"@.len() == 8);
    reveal_strlit("private");
    assert("private"@.len() == 7);
    reveal_strlit("secret");
    assert("secret"@.len() == 6);
    reveal_strlit("ephemeral");
    assert("ephemeral"@.len() == 9);
    assert("public"@[0] != "secret"@[0]);
}

/// Where a memory applies.
#[derive(Debug, Clone, Copy, PartialEq, Eq, Structural)]
pub enum MemoryScope {
    Global,
    Workspace,
    Conversation,
}

impl MemoryScope {
    /// The name under which the value is stored.
    pub open spec fn name(self) -> Seq<char> {
        match self {
            MemoryScope::Global => "global"@,
            MemoryScope::Workspace => "workspace"@,
            MemoryScope::Conversation => "conversation"@,
        }
    }

    /// The value stored under a name; an unknown name stands for `Workspace`.
    pub open spec fn named(v: Seq<char>) -> MemoryScope {
        if v == "global"@ {
            MemoryScope::Global
        } else if v == "conversation"@ {
            MemoryScope::Conversation
        } else {
            MemoryScope::Workspace
        }
    }

    /// The name under which the value is stored.
    pub fn as_db(&self) -> (r: &'static str)
        ensures
            r@ == self.name(),
    {
        match self {
            MemoryScope::Global => "global",
            MemoryScope::Workspace => "workspace",
            MemoryScope::Conversation => "conversation",
        }
    }

    /// The value stored under a name.
    pub fn from_db(v: &str) -> (r: MemoryScope)
        ensures
            r == MemoryScope::named(v@),
    {
        if same_text(v, "global") {
            MemoryScope::Global
        } else if same_text(v, "conversation") {
            MemoryScope::Conversation
        } else {
            MemoryScope::Workspace
        }
    }
}

/// A stored scope is read back as it was.
pub proof fn scope_survives_storage(x: MemoryScope)
    ensures
        MemoryScope::named(x.name()) == x,
{
    reveal_strlit("global");
    assert("global"@.len() == 6);
    reveal_strlit("workspace");
    assert("workspace"@.len() == 9);
    reveal_strlit("conversation");
    assert("conversation"@.len() == 12);
}

/// Whether a memory is in use.
#[derive(Debug, Clone, Copy, PartialEq, Eq, Structural)]
pub enum MemoryStatus {
    Active,
    Superseded,
    Archived,
}

impl MemoryStatus {
    /// The name under which the value is stored.
    pub open spec fn name(self) -> Seq<char> {
        match self {
            MemoryStatus::Active => "ACTIVE"@,
            MemoryStatus::Superseded => "SUPERSEDED"@,
            MemoryStatus::Archived => "ARCHIVED"@,
        }
    }

    /// The value stored under a name; an unknown name stands for `Active`.
    pub open spec fn named(v: Seq<char>) -> MemoryStatus {
        if v == "SUPERSEDED"@ {
            MemoryStatus::Superseded
        } else if v == "ARCHIVED"@ {
            MemoryStatus::Archived
        } else {
            MemoryStatus::Active
        }
    }

    /// The name under which the value is stored.
    pub fn as_db(&self) -> (r: &'static str)
        ensures
            r@ == self.name(),
    {
        match self {
            MemoryStatus::Active => "ACTIVE",
            MemoryStatus::Superseded => "SUPERSEDED",
            MemoryStatus::Archived => "ARCHIVED",
        }
    }

    /// The value stored under a name.
    pub fn from_db(v: &str) -> (r: MemoryStatus)
        ensures
            r == MemoryStatus::named(v@),
    {
        if same_text(v, "SUPERSEDED") {
            MemoryStatus::Superseded
        } else if same_text(v, "ARCHIVED") {
            MemoryStatus::Archived
        } else {
            MemoryStatus::Active
        }
    }
}

/// A stored status is read back as it was.
pub proof fn status_survives_storage(x: MemoryStatus)
    ensures
        MemoryStatus::named(x.name()) == x,
{
    reveal_strlit("ACTIVE");
    assert("ACTIVE"@.len() == 6);
    reveal_strlit("SUPERSEDED");
    assert("SUPERSEDED"@.len() == 10);
    reveal_strlit("ARCHIVED");
    assert("ARCHIVED"@.len() == 8);
}

/// How one concept bears on another.
#[derive(Debug, Clone, Copy, PartialEq, Eq, Structural)]
pub enum KnowledgeRelation {
    Supports,
    Requires,
    Conflicts,
    Refines,
    Replaces,
    Related,
}

impl KnowledgeRelation {
    /// The name under which the value is stored.
    pub open spec fn name(self) -> Seq<char> {
        match self {
            KnowledgeRelation::Supports => "SUPPORTS"@,
            KnowledgeRelation::Requires => "REQUIRES"@,
            KnowledgeRelation::Conflicts => "CONFLICTS"@,
            KnowledgeRelation::Refines => "REFINES"@,
            KnowledgeRelation::Replaces => "REPLACES"@,
            KnowledgeRelation::Related => "RELATED"@,
        }
    }

    /// The value stored under a name; an unknown name stands for `Related`.
    pub open spec fn named(v: Seq<char>) -> KnowledgeRelation {
        if v == "SUPPORTS"@ {
            KnowledgeRelation::Supports
        } else if v == "REQUIRES"@ {
            KnowledgeRelation::Requires
        } else if v == "CONFLICTS"@ {
            KnowledgeRelation::Conflicts
        } else if v == "REFINES"@ {
            KnowledgeRelation::Refines
        } else if v == "REPLACES"@ {
            KnowledgeRelation::Replaces
        } else {
            KnowledgeRelation::Related
        }
    }

    /// The name under which the value is stored.
    pub fn as_db(self) -> (r: &'static str)
        ensures
            r@ == self.name(),
    {
        match self {
            KnowledgeRelation::Supports => "SUPPORTS",
            KnowledgeRelation::Requires => "REQUIRES",
            KnowledgeRelation::Conflicts => "CONFLICTS",
            KnowledgeRelation::Refines => "REFINES",
            KnowledgeRelation::Replaces => "REPLACES",
            KnowledgeRelation::Related => "RELATED",
        }
    }

    /// The value stored under a name.
    pub fn from_db(value: &str) -> (r: KnowledgeRelation)
        ensures
            r == KnowledgeRelation::named(value@),
    {
        if same_text(value, "SUPPORTS") {
            KnowledgeRelation::Supports
        } else if same_text(value, "REQUIRES") {
            KnowledgeRelation::Requires
        } else if same_text(value, "CONFLICTS") {
            KnowledgeRelation::Conflicts
        } else if same_text(value, "REFINES") {
            KnowledgeRelation::Refines
        } else if same_text(value, "REPLACES") {
            KnowledgeRelation::Replaces
        } else {
            KnowledgeRelation::Related
        }
    }
}

/// A stored relation is read back as it was.
pub proof fn relation_survives_storage(x: KnowledgeRelation)
    ensures
        KnowledgeRelation::named(x.name()) == x,
{
    reveal_strlit("SUPPORTS");
    assert("SUPPORTS"@.len() == 8);
    reveal_strlit("REQUIRES");
    assert("REQUIRES"@.len() == 8);
    reveal_strlit("CONFLICTS");
    assert("CONFLICTS"@.len() == 9);
    reveal_strlit("REFINES");
    assert("REFINES"@.len() == 7);
    reveal_strlit("REPLACES");
    assert("REPLACES"@.len() == 8);
    reveal_strlit("RELATED");
    assert("RELATED"@.len() == 7);
    assert("SUPPORTS"@[0] != "REQUIRES"@[0]);
    assert("SUPPORTS"@[0] != "REPLACES"@[0]);
    assert("REQUIRES"@[2] != "REPLACES"@[2]);
    assert("REFINES"@[2] != "RELATED"@[2]);
}

/// A name stands for a kind only where it is that value's own name; every other text stands for
/// `Episodic`.
pub proof fn only_its_name_stands_for_kind(v: Seq<char>, x: MemoryKind)
    ensures
        x != MemoryKind::Episodic ==> (MemoryKind::named(v) == x <==> v == x.name()),
        MemoryKind::named(v) == MemoryKind::Episodic || MemoryKind::named(v).name() == v,
{
    kind_survives_storage(x);
}

/// The names under which values of `MemoryKind` are stored.
pub proof fn kinds_are_stored_by_name()
    ensures
        MemoryKind::UserPreference.name() == "USER_PREFERENCE"@,
        MemoryKind::ProjectRule.name() == "PROJECT_RULE"@,
        MemoryKind::ArchitectureDecision.name() == "ARCHITECTURE_DECISION"@,
        MemoryKind::TechnicalFact.name() == "TECHNICAL_FACT"@,
        MemoryKind::WorkingPattern.name() == "WORKING_PATTERN"@,
        MemoryKind::FailedApproach.name() == "FAILED_APPROACH"@,
        MemoryKind::OpenIssue.name() == "OPEN_ISSUE"@,
        MemoryKind::ProjectState.name() == "PROJECT_STATE"@,
        MemoryKind::Episodic.name() == "EPISODIC"@,
        MemoryKind::PersonalFact.name() == "PERSONAL_FACT"@,
        MemoryKind::Routine.name() == "ROUTINE"@,
{
}

/// A name stands for a sensitivity only where it is that value's own name; every other text stands for
/// `Private`.
pub proof fn only_its_name_stands_for_sensitivity(v: Seq<char>, x: Sensitivity)
    ensures
        x != Sensitivity::Private ==> (Sensitivity::named(v) == x <==> v == x.name()),
        Sensitivity::named(v) == Sensitivity::Private || Sensitivity::named(v).name() == v,
{
    sensitivity_survives_storage(x);
}

/// The names under which values of `Sensitivity` are stored.
pub proof fn sensitivities_are_stored_by_name()
    ensures
        Sensitivity::Public.name() == "public"@,
        Sensitivity::Personal.name() == "personal"@,
        Sensitivity::Private.name() == "private"@,
        Sensitivity::Secret.name() == "secret"@,
        Sensitivity::Ephemeral.name() == "ephemeral"@,
{
}

/// A name stands for a scope only where it is that value's own name; every other text stands for
/// `Workspace`.
pub proof fn only_its_name_stands_for_scope(v: Seq<char>, x: MemoryScope)
    ensures
        x != MemoryScope::Workspace ==> (MemoryScope::named(v) == x <==> v == x.name()),
        MemoryScope::named(v) == MemoryScope::Workspace || MemoryScope::named(v).name() == v,
{
    scope_survives_storage(x);
}

/// The names under which values of `MemoryScope` are stored.
pub proof fn scopes_are_stored_by_name()
    ensures
        MemoryScope::Global.name() == "global"@,
        MemoryScope::Workspace.name() == "workspace"@,
        MemoryScope::Conversation.name() == "conversation"@,
{
}

/// A name stands for a status only where it is that value's own name; every other text stands for
/// `Active`.
pub proof fn only_its_name_stands_for_status(v: Seq<char>, x: MemoryStatus)
    ensures
        x != MemoryStatus::Active ==> (MemoryStatus::named(v) == x <==> v == x.name()),
        MemoryStatus::named(v) == MemoryStatus::Active || MemoryStatus::named(v).name() == v,
{
    status_survives_storage(x);
}

/// The names under which values of `MemoryStatus` are stored.
pub proof fn statuses_are_stored_by_name()
    ensures
        MemoryStatus::Active.name() == "ACTIVE"@,
        MemoryStatus::Superseded.name() == "SUPERSEDED"@,
        MemoryStatus::Archived.name() == "ARCHIVED"@,
{
}

/// A name stands for a relation only where it is that value's own name; every other text stands for
/// `Related`.
pub proof fn only_its_name_stands_for_relation(v: Seq<char>, x: KnowledgeRelation)
    ensures
        x != KnowledgeRelation::Related ==> (KnowledgeRelation::named(v) == x <==> v == x.name()),
        KnowledgeRelation::named(v) == KnowledgeRelation::Related || KnowledgeRelation::named(v).name() == v,
{
    relation_survives_storage(x);
}

/// The names under which values of `KnowledgeRelation` are stored.
pub proof fn relations_are_stored_by_name()
    ensures
        KnowledgeRelation::Supports.name() == "SUPPORTS"@,
        KnowledgeRelation::Requires.name() == "REQUIRES"@,
        KnowledgeRelation::Conflicts.name() == "CONFLICTS"@,
        KnowledgeRelation::Refines.name() == "REFINES"@,
        KnowledgeRelation::Replaces.name() == "REPLACES"@,
        KnowledgeRelation::Related.name() == "RELATED"@,
{
}

} // verus!
