//! Persistent local memory: records, ranking, baselines, consolidation and shared knowledge.

pub mod arith;
pub mod baseline;
pub mod clock;
pub mod consolidate;
pub mod database;
pub mod error;
pub mod find;
pub mod graph;
pub mod hash;
pub mod ident;
pub mod import;
pub mod json;
pub mod keyword;
pub mod kinds;
pub mod knowledge;
pub mod learn;
pub mod ledger;
pub mod memory;
pub mod order;
pub mod ranking;
pub mod recall;
pub mod sensitivity;
pub mod single;
pub mod store;
pub mod table;
pub mod text;

pub use baseline::{build_memory_baseline, BaselineEntry, BaselineQuery, MemoryBaseline};
pub use clock::now_epoch;
pub use error::{MemoryError, Result};
pub use hash::hash_normalized;
pub use keyword::lexical_score;
pub use kinds::{KnowledgeRelation, MemoryKind, MemoryScope, MemoryStatus, Sensitivity};
pub use knowledge::{
    CorrectionRecord, KnowledgeEdge, NewConcept, NewCorrection, StoredConcept,
};
pub use memory::{MemoryRecord, NewMemory, RecallQuery};
pub use ranking::{
    assess_merge_candidate, lexical_score_with_terms, lexical_similarity, lexical_terms,
    retention_score, MergeAssessment, MergeCandidate, MergeDisposition, SemanticReranker,
    SemanticScore,
};
pub use sensitivity::EgressPolicy;
pub use single::Single;
pub use store::{KnowledgeStore, MemoryStore};
pub use text::normalize;
