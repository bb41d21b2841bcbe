use vstd::prelude::*;

use crate::clock::{clock_reading, now_epoch, saturated, signed, to_signed, to_unsigned, unsigned};
use crate::error::{invalid, refuses, Result};
use crate::hash::{digest_text, hash_normalized};
use crate::ident::{is_fresh_id, prefixed, random_suffix};
use crate::kinds::{
    kind_survives_storage, scope_survives_storage, sensitivity_survives_storage,
    status_survives_storage, MemoryKind, MemoryScope, MemoryStatus, Sensitivity,
};
use crate::single::Single;
use crate::text::{
    blank_texts_have_no_words, normalization_ignores_padding, normalize, normalized, same_text,
    trim_text, trimmed, trimming_is_exact, white_space,
};

verus! {

/// The content of an optional string.
pub open spec fn optional_text(s: Option<String>) -> Option<Seq<char>> {
    match s {
        Some(text) => Some(text@),
        None => None,
    }
}

/// One memory.
#[derive(Debug)]
pub struct MemoryRecord {
    pub id: String,
    pub namespace: String,
    pub workspace_id: String,
    pub kind: MemoryKind,
    pub content: String,
    pub normalized_content: String,
    pub status: MemoryStatus,
    pub sensitivity: Sensitivity,
    pub scope: MemoryScope,
    pub importance: Single,
    pub confidence: Single,
    pub created_at: i64,
    pub updated_at: i64,
    pub last_accessed_at: Option<i64>,
    pub access_count: u64,
    /// The first second at which the memory is valid.
    pub valid_from: i64,
    /// The first second at which it is not valid any more.
    pub valid_until: Option<i64>,
    pub supersedes_id: Option<String>,
    pub content_hash: String,
    pub pinned: bool,
    pub metadata_json: String,
}

/// What a `MemoryRecord` says.
#[verifier::ext_equal]
pub struct MemoryModel {
    pub id: Seq<char>,
    pub namespace: Seq<char>,
    pub workspace_id: Seq<char>,
    pub kind: MemoryKind,
    pub content: Seq<char>,
    pub normalized_content: Seq<char>,
    pub status: MemoryStatus,
    pub sensitivity: Sensitivity,
    pub scope: MemoryScope,
    pub importance: Single,
    pub confidence: Single,
    pub created_at: i64,
    pub updated_at: i64,
    pub last_accessed_at: Option<i64>,
    pub access_count: u64,
    pub valid_from: i64,
    pub valid_until: Option<i64>,
    pub supersedes_id: Option<Seq<char>>,
    pub content_hash: Seq<char>,
    pub pinned: bool,
    pub metadata_json: Seq<char>,
}

impl View for MemoryRecord {
    type V = MemoryModel;

    open spec fn view(&self) -> MemoryModel {
        MemoryModel {
            id: self.id@,
            namespace: self.namespace@,
            workspace_id: self.workspace_id@,
            kind: self.kind,
            content: self.content@,
            normalized_content: self.normalized_content@,
            status: self.status,
            sensitivity: self.sensitivity,
            scope: self.scope,
            importance: self.importance,
            confidence: self.confidence,
            created_at: self.created_at,
            updated_at: self.updated_at,
            last_accessed_at: self.last_accessed_at,
            access_count: self.access_count,
            valid_from: self.valid_from,
            valid_until: self.valid_until,
            supersedes_id: optional_text(self.supersedes_id),
            content_hash: self.content_hash@,
            pinned: self.pinned,
            metadata_json: self.metadata_json@,
        }
    }
}

/// What a list of records says.
pub open spec fn models(records: Seq<MemoryRecord>) -> Seq<MemoryModel> {
    Seq::new(records.len(), |i: int| records[i]@)
}

impl Clone for MemoryRecord {
    fn clone(&self) -> (r: MemoryRecord)
        ensures
            r == *self,
    {
        MemoryRecord {
            id: self.id.clone(),
            namespace: self.namespace.clone(),
            workspace_id: self.workspace_id.clone(),
            kind: self.kind,
            content: self.content.clone(),
            normalized_content: self.normalized_content.clone(),
            status: self.status,
            sensitivity: self.sensitivity,
            scope: self.scope,
            importance: self.importance,
            confidence: self.confidence,
            created_at: self.created_at,
            updated_at: self.updated_at,
            last_accessed_at: self.last_accessed_at,
            access_count: self.access_count,
            valid_from: self.valid_from,
            valid_until: self.valid_until,
            supersedes_id: match &self.supersedes_id {
                Some(id) => Some(id.clone()),
                None => None,
            },
            content_hash: self.content_hash.clone(),
            pinned: self.pinned,
            metadata_json: self.metadata_json.clone(),
        }
    }
}

/// A memory that is to be stored.
#[derive(Debug, Clone)]
pub struct NewMemory {
    pub namespace: String,
    pub workspace_id: String,
    pub kind: MemoryKind,
    pub content: String,
    pub sensitivity: Sensitivity,
    pub scope: MemoryScope,
    pub importance: Single,
    pub confidence: Single,
    pub pinned: bool,
    pub ttl_seconds: Option<u64>,
    pub metadata_json: String,
}

/// When a memory written at `now` expires.
pub open spec fn expiry(now: i64, ttl_seconds: Option<u64>) -> Option<i64> {
    match ttl_seconds {
        Some(ttl) => Some(saturated(now + signed(ttl)) as i64),
        None => None,
    }
}

impl NewMemory {
    /// Whether something is left of the content once the white space around it is gone.
    pub open spec fn has_content(&self) -> bool {
        trimmed(self.content@).len() > 0
    }

    /// Whether importance and confidence are numbers between zero and one.
    pub open spec fn has_valid_weights(&self) -> bool {
        self.importance.unit() && self.confidence.unit()
    }

    /// The record of this memory, written at `now` under the given identifier.
    pub open spec fn record(&self, now: i64, id: Seq<char>) -> MemoryModel {
        MemoryModel {
            id,
            namespace: self.namespace@,
            workspace_id: self.workspace_id@,
            kind: self.kind,
            content: trimmed(self.content@),
            normalized_content: normalized(trimmed(self.content@)),
            status: MemoryStatus::Active,
            sensitivity: self.sensitivity,
            scope: self.scope,
            importance: self.importance,
            confidence: self.confidence,
            created_at: now,
            updated_at: now,
            last_accessed_at: None,
            access_count: 0,
            valid_from: now,
            valid_until: expiry(now, self.ttl_seconds),
            supersedes_id: None,
            content_hash: digest_text(normalized(trimmed(self.content@))),
            pinned: self.pinned,
            metadata_json: self.metadata_json@,
        }
    }

    /// The record of this memory, written at `now` under an identifier that ends in `suffix`.
    pub fn into_record_at(self, now: i64, suffix: &str) -> (r: Result<MemoryRecord>)
        ensures
            !self.has_content() <==> refuses(r, "content is empty"@),
            self.has_content() && !self.has_valid_weights() <==> refuses(
                r,
                "importance/confidence must be 0..1"@,
            ),
            r is Ok <==> self.has_content() && self.has_valid_weights(),
            r matches Ok(m) ==> m@ == self.record(now, "mem_"@ + suffix@),
    {
        proof {
            reveal_strlit("content is empty");
            reveal_strlit("importance/confidence must be 0..1");
            assert("content is empty"@.len() != "importance/confidence must be 0..1"@.len());
        }
        let content = trim_text(self.content.as_str());
        if content.as_str().is_empty() {
            return Err(invalid("content is empty"));
        }
        if !self.importance.in_unit_range() || !self.confidence.in_unit_range() {
            return Err(invalid("importance/confidence must be 0..1"));
        }
        let normal = normalize(content.as_str());
        let content_hash = hash_normalized(normal.as_str());
        Ok(
            MemoryRecord {
                id: prefixed("mem_", suffix),
                namespace: self.namespace,
                workspace_id: self.workspace_id,
                kind: self.kind,
                content,
                normalized_content: normal,
                status: MemoryStatus::Active,
                sensitivity: self.sensitivity,
                scope: self.scope,
                importance: self.importance,
                confidence: self.confidence,
                created_at: now,
                updated_at: now,
                last_accessed_at: None,
                access_count: 0,
                valid_from: now,
                valid_until: expiry_of(now, self.ttl_seconds),
                supersedes_id: None,
                content_hash,
                pinned: self.pinned,
                metadata_json: self.metadata_json,
            },
        )
    }

    /// The record of this memory, written now under a new random identifier.
    pub fn into_record(self) -> (r: Result<MemoryRecord>)
        ensures
            !self.has_content() <==> refuses(r, "content is empty"@),
            self.has_content() && !self.has_valid_weights() <==> refuses(
                r,
                "importance/confidence must be 0..1"@,
            ),
            r is Ok <==> self.has_content() && self.has_valid_weights(),
            r matches Ok(m) ==> is_fresh_id(m@.id, "mem_"@) && clock_reading(m@.created_at) && m@
                == self.record(m@.created_at, m@.id),
    {
        let suffix = random_suffix();
        self.into_record_at(now_epoch(), suffix.as_str())
    }
}

fn expiry_of(now: i64, ttl_seconds: Option<u64>) -> (r: Option<i64>)
    ensures
        r == expiry(now, ttl_seconds),
{
    match ttl_seconds {
        Some(ttl) => {
            let span: i64 = to_signed(ttl);
            match now.checked_add(span) {
                Some(end) => Some(end),
                None => if span > 0 {
                    Some(i64::MAX)
                } else {
                    Some(i64::MIN)
                },
            }
        },
        None => None,
    }
}

/// What a caller asks to be reminded of.
#[derive(Debug, Clone)]
pub struct RecallQuery {
    pub namespace: String,
    pub workspace_id: String,
    pub text: String,
    pub limit: usize,
    pub allow_private: bool,
    pub allow_secret: bool,
}

impl MemoryModel {
    /// Whether `now` lies in the interval in which the memory is valid.
    pub open spec fn valid_at(self, now: i64) -> bool {
        self.valid_from <= now && (self.valid_until matches Some(end) ==> now < end)
    }

    /// Whether the memory has run out by `now`.
    pub open spec fn expired_at(self, now: i64) -> bool {
        self.valid_until matches Some(end) && end <= now
    }

    /// Whether the memory belongs to a workspace of a namespace, or to all of its workspaces.
    pub open spec fn belongs(self, namespace: Seq<char>, workspace_id: Seq<char>) -> bool {
        self.namespace == namespace && (self.workspace_id == workspace_id || self.scope
            == MemoryScope::Global)
    }

    /// Whether a read of a workspace may return the memory, sensitivity aside.
    pub open spec fn live(self, namespace: Seq<char>, workspace_id: Seq<char>, now: i64) -> bool {
        self.status == MemoryStatus::Active && self.belongs(namespace, workspace_id)
            && self.valid_at(now)
    }

    /// The memory after a read has returned it.
    pub open spec fn touched_at(self, now: i64) -> MemoryModel {
        MemoryModel {
            last_accessed_at: Some(now),
            access_count: (self.access_count + 1) as u64,
            ..self
        }
    }

    /// The end of the validity of a memory that takes the status at `now`: a memory that goes out
    /// of use while its validity is open is valid no longer.
    pub open spec fn end_under(self, status: MemoryStatus, now: i64) -> Option<i64> {
        if status != MemoryStatus::Active && self.valid_until is None {
            Some(now)
        } else {
            self.valid_until
        }
    }

    /// The memory after its status was set.
    pub open spec fn with_status(
        self,
        status: MemoryStatus,
        supersedes_id: Option<Seq<char>>,
        now: i64,
    ) -> MemoryModel {
        MemoryModel {
            status,
            supersedes_id,
            updated_at: now,
            valid_until: self.end_under(status, now),
            ..self
        }
    }
}

impl MemoryRecord {
    /// Whether `now` lies in the interval in which the memory is valid.
    pub fn is_valid_at(&self, now: i64) -> (r: bool)
        ensures
            r == self@.valid_at(now),
    {
        self.valid_from <= now && match self.valid_until {
            Some(end) => now < end,
            None => true,
        }
    }

    /// Whether the memory has run out by `now`.
    pub fn is_expired_at(&self, now: i64) -> (r: bool)
        ensures
            r == self@.expired_at(now),
    {
        match self.valid_until {
            Some(end) => end <= now,
            None => false,
        }
    }

    /// Whether a read of a workspace may return the memory, sensitivity aside.
    pub fn is_live(&self, namespace: &str, workspace_id: &str, now: i64) -> (r: bool)
        ensures
            r == self@.live(namespace@, workspace_id@, now),
    {
        self.status == MemoryStatus::Active && same_text(self.namespace.as_str(), namespace) && (
        same_text(self.workspace_id.as_str(), workspace_id) || self.scope == MemoryScope::Global)
            && self.is_valid_at(now)
    }

    /// The memory after a read at `now` has returned it.
    pub fn touched(self, now: i64) -> (r: MemoryRecord)
        requires
            self.access_count < u64::MAX,
        ensures
            r@ == self@.touched_at(now),
    {
        let mut memory = self;
        memory.last_accessed_at = Some(now);
        memory.access_count = memory.access_count + 1;
        memory
    }

    /// The memory after its status was set at `now`.
    pub fn set_status(
        self,
        status: MemoryStatus,
        supersedes_id: Option<String>,
        now: i64,
    ) -> (r: MemoryRecord)
        ensures
            r@ == self@.with_status(status, optional_text(supersedes_id), now),
    {
        let mut memory = self;
        if status != MemoryStatus::Active && memory.valid_until.is_none() {
            memory.valid_until = Some(now);
        }
        memory.status = status;
        memory.supersedes_id = supersedes_id;
        memory.updated_at = now;
        memory
    }
}

/// A memory that was superseded or archived is valid no longer than until then or its earlier
/// expiry, and no read returns it.
pub proof fn retired_memory_is_closed(
    m: MemoryModel,
    status: MemoryStatus,
    supersedes_id: Option<Seq<char>>,
    now: i64,
    namespace: Seq<char>,
    workspace_id: Seq<char>,
    later: i64,
)
    requires
        status != MemoryStatus::Active,
    ensures
        m.with_status(status, supersedes_id, now).valid_until is Some,
        m.valid_until is Some ==> m.with_status(status, supersedes_id, now).valid_until
            == m.valid_until,
        m.valid_until is None ==> m.with_status(status, supersedes_id, now).valid_until == Some(now),
        !m.with_status(status, supersedes_id, now).live(namespace, workspace_id, later),
{
}

/// A memory is at no time both expired and valid, and what has expired stays so.
pub proof fn expiry_is_final(m: MemoryModel, now: i64, later: i64)
    requires
        m.expired_at(now),
        now <= later,
    ensures
        m.expired_at(later),
        !m.valid_at(later),
{
}

/// A memory whose time to live is zero has expired as soon as it is written.
pub proof fn zero_ttl_expires_at_once(memory: NewMemory, now: i64, id: Seq<char>)
    requires
        memory.ttl_seconds == Some(0u64),
    ensures
        memory.record(now, id).expired_at(now),
{
}

/// A memory as the columns of a table hold it.
#[derive(Debug)]
pub struct MemoryRow {
    pub id: String,
    pub namespace: String,
    pub workspace_id: String,
    pub kind: String,
    pub content: String,
    pub normalized_content: String,
    pub status: String,
    pub sensitivity: String,
    pub scope: String,
    pub importance: Single,
    pub confidence: Single,
    pub created_at: i64,
    pub updated_at: i64,
    pub last_accessed_at: Option<i64>,
    pub access_count: i64,
    pub valid_from: i64,
    pub valid_until: Option<i64>,
    pub supersedes_id: Option<String>,
    pub content_hash: String,
    pub pinned: i64,
    pub metadata_json: String,
}

impl MemoryRow {
    /// The memory that the columns hold.
    pub open spec fn decoded(&self) -> MemoryModel {
        MemoryModel {
            id: self.id@,
            namespace: self.namespace@,
            workspace_id: self.workspace_id@,
            kind: MemoryKind::named(self.kind@),
            content: self.content@,
            normalized_content: self.normalized_content@,
            status: MemoryStatus::named(self.status@),
            sensitivity: Sensitivity::named(self.sensitivity@),
            scope: MemoryScope::named(self.scope@),
            importance: self.importance,
            confidence: self.confidence,
            created_at: self.created_at,
            updated_at: self.updated_at,
            last_accessed_at: self.last_accessed_at,
            access_count: unsigned(self.access_count) as u64,
            valid_from: self.valid_from,
            valid_until: self.valid_until,
            supersedes_id: optional_text(self.supersedes_id),
            content_hash: self.content_hash@,
            pinned: self.pinned != 0,
            metadata_json: self.metadata_json@,
        }
    }

    /// Whether the columns hold the memory.
    pub open spec fn encodes(&self, m: MemoryModel) -> bool {
        &&& self.id@ == m.id
        &&& self.namespace@ == m.namespace
        &&& self.workspace_id@ == m.workspace_id
        &&& self.kind@ == m.kind.name()
        &&& self.content@ == m.content
        &&& self.normalized_content@ == m.normalized_content
        &&& self.status@ == m.status.name()
        &&& self.sensitivity@ == m.sensitivity.name()
        &&& self.scope@ == m.scope.name()
        &&& self.importance == m.importance
        &&& self.confidence == m.confidence
        &&& self.created_at == m.created_at
        &&& self.updated_at == m.updated_at
        &&& self.last_accessed_at == m.last_accessed_at
        &&& self.access_count == signed(m.access_count)
        &&& self.valid_from == m.valid_from
        &&& self.valid_until == m.valid_until
        &&& optional_text(self.supersedes_id) == m.supersedes_id
        &&& self.content_hash@ == m.content_hash
        &&& self.pinned == (if m.pinned { 1int } else { 0 })
        &&& self.metadata_json@ == m.metadata_json
    }

    /// The memory that the columns hold.
    pub fn decode(self) -> (r: MemoryRecord)
        ensures
            r@ == self.decoded(),
    {
        MemoryRecord {
            id: self.id,
            namespace: self.namespace,
            workspace_id: self.workspace_id,
            kind: MemoryKind::from_db(self.kind.as_str()),
            content: self.content,
            normalized_content: self.normalized_content,
            status: MemoryStatus::from_db(self.status.as_str()),
            sensitivity: Sensitivity::from_db(self.sensitivity.as_str()),
            scope: MemoryScope::from_db(self.scope.as_str()),
            importance: self.importance,
            confidence: self.confidence,
            created_at: self.created_at,
            updated_at: self.updated_at,
            last_accessed_at: self.last_accessed_at,
            access_count: to_unsigned(self.access_count),
            valid_from: self.valid_from,
            valid_until: self.valid_until,
            supersedes_id: self.supersedes_id,
            content_hash: self.content_hash,
            pinned: self.pinned != 0,
            metadata_json: self.metadata_json,
        }
    }

    /// The columns that hold a memory.
    pub fn encode(memory: &MemoryRecord) -> (r: MemoryRow)
        ensures
            r.encodes(memory@),
    {
        let copy = memory.clone();
        MemoryRow {
            id: copy.id,
            namespace: copy.namespace,
            workspace_id: copy.workspace_id,
            kind: memory.kind.as_db().to_owned(),
            content: copy.content,
            normalized_content: copy.normalized_content,
            status: memory.status.as_db().to_owned(),
            sensitivity: memory.sensitivity.as_db().to_owned(),
            scope: memory.scope.as_db().to_owned(),
            importance: memory.importance,
            confidence: memory.confidence,
            created_at: memory.created_at,
            updated_at: memory.updated_at,
            last_accessed_at: memory.last_accessed_at,
            access_count: to_signed(memory.access_count),
            valid_from: memory.valid_from,
            valid_until: memory.valid_until,
            supersedes_id: copy.supersedes_id,
            content_hash: copy.content_hash,
            pinned: if memory.pinned { 1 } else { 0 },
            metadata_json: copy.metadata_json,
        }
    }
}

/// A stored memory is read back as it was written.
pub proof fn memory_survives_storage(row: MemoryRow, m: MemoryModel)
    requires
        row.encodes(m),
    ensures
        row.decoded() == m,
{
    kind_survives_storage(m.kind);
    status_survives_storage(m.status);
    sensitivity_survives_storage(m.sensitivity);
    scope_survives_storage(m.scope);
}

/// A record says what was given: every field of the new memory, its content without the white space
/// around it, and one time for its creation, its last change and the start of its validity.
pub proof fn record_says_what_was_given(memory: NewMemory, now: i64, id: Seq<char>)
    ensures
        ({
            let m = memory.record(now, id);
            &&& m.id == id
            &&& m.namespace == memory.namespace@
            &&& m.workspace_id == memory.workspace_id@
            &&& m.kind == memory.kind
            &&& m.content == trimmed(memory.content@)
            &&& m.normalized_content == normalized(memory.content@)
            &&& m.content_hash == digest_text(m.normalized_content)
            &&& m.status == MemoryStatus::Active
            &&& m.sensitivity == memory.sensitivity
            &&& m.scope == memory.scope
            &&& m.importance == memory.importance
            &&& m.confidence == memory.confidence
            &&& m.created_at == now
            &&& m.updated_at == now
            &&& m.valid_from == now
            &&& m.last_accessed_at is None
            &&& m.access_count == 0
            &&& m.supersedes_id is None
            &&& m.pinned == memory.pinned
            &&& m.metadata_json == memory.metadata_json@
            &&& m.valid_until is None <==> memory.ttl_seconds is None
        }),
{
    normalization_ignores_padding(memory.content@);
}

/// A memory with a time to live is valid from when it is written for exactly that many seconds; for
/// ever, as far as seconds can be counted, where the end cannot be reached.
pub proof fn time_to_live_is_exact(memory: NewMemory, now: i64, id: Seq<char>, ttl: u64, at: i64)
    requires
        memory.ttl_seconds == Some(ttl),
        ttl <= i64::MAX,
    ensures
        now + ttl <= i64::MAX ==> (memory.record(now, id).valid_at(at) <==> now <= at < now + ttl),
        now + ttl > i64::MAX && now <= at < i64::MAX ==> memory.record(now, id).valid_at(at),
{
}

/// New memories are taken exactly where some of the content is no white space and both weights are
/// numbers between zero and one.
pub proof fn only_blank_or_unweighed_is_refused(memory: NewMemory)
    ensures
        memory.has_content() <==> exists|i: int|
            0 <= i < memory.content@.len() && !white_space(#[trigger] memory.content@[i]),
        memory.has_valid_weights() <==> 0 <= memory.importance.order() <= 0x3f80_0000 && 0
            <= memory.confidence.order() <= 0x3f80_0000,
{
    let s = memory.content@;
    normalization_ignores_padding(s);
    blank_texts_have_no_words(s);
    blank_texts_have_no_words(trimmed(s));
    trimming_is_exact(s);
    if trimmed(s).len() > 0 {
        assert(!white_space(trimmed(s)[0]));
    }
}

/// A read may return a memory exactly where it is active, belongs to the workspace or to the whole
/// namespace, has become valid and has not run out.
pub proof fn live_memories_are_active_and_valid(
    m: MemoryModel,
    namespace: Seq<char>,
    workspace_id: Seq<char>,
    now: i64,
)
    ensures
        m.live(namespace, workspace_id, now) <==> m.status == MemoryStatus::Active && m.namespace
            == namespace && (m.scope == MemoryScope::Global || m.workspace_id == workspace_id)
            && m.valid_from <= now && !(m.valid_until is Some && m.valid_until->Some_0 <= now),
        m.expired_at(now) <==> m.valid_until is Some && m.valid_until->Some_0 <= now,
        m.valid_at(now) <==> m.valid_from <= now && !m.expired_at(now),
{
}

/// A read changes the time and the number of the accesses, and nothing else.
pub proof fn reading_changes_only_access(m: MemoryModel, now: i64)
    requires
        m.access_count < u64::MAX,
    ensures
        ({
            let after = m.touched_at(now);
            &&& after.last_accessed_at == Some(now)
            &&& after.access_count == m.access_count + 1
            &&& m == (MemoryModel {
                last_accessed_at: m.last_accessed_at,
                access_count: m.access_count,
                ..after
            })
        }),
{
}

/// A change of status sets the status, what supersedes and the time of the change; it may close the
/// validity, and touches nothing else.
pub proof fn status_changes_only_status(
    m: MemoryModel,
    status: MemoryStatus,
    supersedes_id: Option<Seq<char>>,
    now: i64,
)
    ensures
        ({
            let after = m.with_status(status, supersedes_id, now);
            &&& after.status == status
            &&& after.supersedes_id == supersedes_id
            &&& after.updated_at == now
            &&& after.valid_until == (if status == MemoryStatus::Active || m.valid_until is Some {
                m.valid_until
            } else {
                Some(now)
            })
            &&& m == (MemoryModel {
                status: m.status,
                supersedes_id: m.supersedes_id,
                updated_at: m.updated_at,
                valid_until: m.valid_until,
                ..after
            })
        }),
{
}

/// Each column of a row holds the field of its name.
pub proof fn columns_hold_their_fields(row: MemoryRow)
    ensures
        ({
            let m = row.decoded();
            &&& m.id == row.id@
            &&& m.namespace == row.namespace@
            &&& m.workspace_id == row.workspace_id@
            &&& m.kind == MemoryKind::named(row.kind@)
            &&& m.content == row.content@
            &&& m.normalized_content == row.normalized_content@
            &&& m.status == MemoryStatus::named(row.status@)
            &&& m.sensitivity == Sensitivity::named(row.sensitivity@)
            &&& m.scope == MemoryScope::named(row.scope@)
            &&& m.importance == row.importance
            &&& m.confidence == row.confidence
            &&& m.created_at == row.created_at
            &&& m.updated_at == row.updated_at
            &&& m.last_accessed_at == row.last_accessed_at
            &&& row.access_count >= 0 ==> m.access_count == row.access_count
            &&& m.valid_from == row.valid_from
            &&& m.valid_until == row.valid_until
            &&& m.supersedes_id is Some <==> row.supersedes_id is Some
            &&& row.supersedes_id is Some ==> m.supersedes_id->Some_0 == row.supersedes_id->Some_0@
            &&& m.content_hash == row.content_hash@
            &&& m.pinned <==> row.pinned != 0
            &&& m.metadata_json == row.metadata_json@
        }),
{
}

/// A memory is written into the columns of the names of its fields.
pub proof fn fields_go_to_their_columns(row: MemoryRow, m: MemoryModel)
    requires
        row.encodes(m),
    ensures
        row.id@ == m.id,
        row.namespace@ == m.namespace,
        row.workspace_id@ == m.workspace_id,
        row.content@ == m.content,
        row.normalized_content@ == m.normalized_content,
        row.importance == m.importance,
        row.confidence == m.confidence,
        row.created_at == m.created_at,
        row.updated_at == m.updated_at,
        row.last_accessed_at == m.last_accessed_at,
        m.access_count <= i64::MAX ==> row.access_count == m.access_count,
        row.valid_from == m.valid_from,
        row.valid_until == m.valid_until,
        row.content_hash@ == m.content_hash,
        row.pinned == 0 || row.pinned == 1,
        row.metadata_json@ == m.metadata_json,
{
}

} // verus!
