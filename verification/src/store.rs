use vstd::prelude::*;

use crate::baseline::{BaselineQuery, MemoryBaseline};
use crate::error::{MemoryError, Result};
use crate::kinds::{KnowledgeRelation, MemoryStatus};
use crate::knowledge::{
    concept_models, ConceptModel, CorrectionRecord, KnowledgeEdge, NewConcept, NewCorrection,
    StoredConcept,
};
use crate::learn::{concept_ids, hop_limit, neighborhood_limit, seed_limit};
use crate::memory::{MemoryRecord, NewMemory, RecallQuery};
use crate::ranking::{MergeCandidate, SemanticReranker};
use crate::recall::within;
use crate::single::Single;
use crate::text::texts;

verus! {

/// What a memory store offers. Stores keep memories outside this library.
pub trait MemoryStore: Send + Sync {
    fn remember(&self, memory: NewMemory) -> Result<MemoryRecord>;

    fn upsert_record(&self, memory: &MemoryRecord) -> Result<()>;

    fn recall(&self, query: &RecallQuery) -> Result<Vec<MemoryRecord>>;

    fn recall_with_reranker(
        &self,
        query: &RecallQuery,
        reranker: &dyn SemanticReranker,
    ) -> Result<Vec<MemoryRecord>>;

    fn baseline(&self, query: &BaselineQuery) -> Result<MemoryBaseline>;

    fn find_merge_candidates(
        &self,
        memory: &NewMemory,
        limit: usize,
        reranker: Option<&dyn SemanticReranker>,
    ) -> Result<Vec<MergeCandidate>>;

    fn forget(&self, id: &str) -> Result<bool>;

    fn set_status(
        &self,
        id: &str,
        status: MemoryStatus,
        supersedes_id: Option<&str>,
    ) -> Result<bool>;

    fn prune_expired(&self) -> Result<usize>;

    fn consolidate_exact_duplicates(&self, namespace: &str, workspace_id: &str) -> Result<usize>;
}

/// What a store of corrections, concepts and links offers. Stores keep them outside this library.
pub trait KnowledgeStore: Send + Sync {
    fn record_correction(&self, correction: NewCorrection) -> Result<CorrectionRecord>;

    fn search_corrections(
        &self,
        namespace: &str,
        workspace_id: &str,
        query: &str,
        limit: usize,
    ) -> Result<Vec<CorrectionRecord>>;

    fn mark_correction_applied(&self, id: &str) -> Result<bool>;

    fn upsert_concept(&self, concept: NewConcept) -> Result<StoredConcept>;

    fn search_concepts(
        &self,
        namespace: &str,
        workspace_id: &str,
        query: &str,
        limit: usize,
    ) -> Result<Vec<StoredConcept>>;

    fn link_concepts(
        &self,
        namespace: &str,
        workspace_id: &str,
        source_id: &str,
        target_id: &str,
        relation: KnowledgeRelation,
        weight: Single,
    ) -> Result<KnowledgeEdge>;

    fn links_for_concept(
        &self,
        namespace: &str,
        workspace_id: &str,
        concept_id: &str,
    ) -> Result<Vec<KnowledgeEdge>>;

    /// The concepts around the seeds; a store without a graph knows of none.
    fn expand_concepts(
        &self,
        _namespace: &str,
        _workspace_id: &str,
        _seed_ids: &[String],
        _max_hops: usize,
        _limit: usize,
    ) -> (r: Result<Vec<StoredConcept>>)
        default_ensures
            r matches Ok(list) && list@.len() == 0,
    {
        Ok(Vec::new())
    }

    /// The concepts around those that match the text: up to eight to start from, four hops and a
    /// hundred concepts.
    fn search_concept_neighborhood(
        &self,
        namespace: &str,
        workspace_id: &str,
        query: &str,
        max_hops: usize,
        limit: usize,
    ) -> (r: Result<Vec<StoredConcept>>)
        default_ensures
            exists|n: usize, found: Result<Vec<StoredConcept>>|
                {
                    &&& n == within(limit as int, 1, 8)
                    &&& #[trigger] call_ensures(
                        Self::search_concepts,
                        (self, namespace, workspace_id, query, n),
                        found,
                    )
                    &&& match found {
                        Err(e) => r == Err::<Vec<StoredConcept>, MemoryError>(e),
                        Ok(seeds) => exists|ids: &[String], hops: usize, most: usize|
                            {
                                &&& texts(ids@) == concept_models(seeds@).map_values(
                                    |c: ConceptModel| c.id,
                                )
                                &&& hops == within(max_hops as int, 0, 4)
                                &&& most == within(limit as int, 1, 100)
                                &&& #[trigger] call_ensures(
                                    Self::expand_concepts,
                                    (self, namespace, workspace_id, ids, hops, most),
                                    r,
                                )
                            },
                    }
                },
    {
        let seeds = match self.search_concepts(namespace, workspace_id, query, seed_limit(limit)) {
            Ok(seeds) => seeds,
            Err(error) => {
                return Err(error);
            },
        };
        let ids = concept_ids(&seeds);
        self.expand_concepts(
            namespace,
            workspace_id,
            ids.as_slice(),
            hop_limit(max_hops),
            neighborhood_limit(limit),
        )
    }
}

} // verus!
