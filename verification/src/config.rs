use vstd::prelude::*;

verus! {

/// How the sorter compresses the chunks that it spills.
#[derive(Debug, Clone, Copy, PartialEq, Eq, Structural)]
pub enum ChunkCompressionType {
    /// The chunks are written as they are.
    Uncompressed,
    Snappy,
    Zlib,
    Lz4,
    Zstd,
}

/// Whether a document that is known already is replaced by the one that
/// comes in, or completed by it.
#[derive(Debug, Clone, Copy, PartialEq, Eq, Structural)]
pub enum IndexDocumentsMethod {
    /// The incoming document takes the place of the stored one.
    ReplaceDocuments,
    /// The fields of the incoming document are laid over the stored one.
    UpdateDocuments,
}

/// The settings of the sorters and of the progress reports.
#[derive(Debug, Clone, Copy)]
pub struct IndexerConfig {
    /// Between how many documents progress is reported, besides the
    /// reports that are always made.
    pub log_every_n: Option<usize>,
    /// The most chunks that a sorter keeps before it merges them.
    pub max_nb_chunks: Option<usize>,
    /// The memory, in bytes, after which a sorter spills a chunk.
    pub max_memory: Option<usize>,
    pub chunk_compression_type: ChunkCompressionType,
    pub chunk_compression_level: Option<u32>,
}

impl Default for IndexerConfig {
    fn default() -> (config: IndexerConfig)
        ensures
            config.log_every_n is None,
            config.max_nb_chunks is None,
            config.max_memory is None,
            config.chunk_compression_type == ChunkCompressionType::Uncompressed,
            config.chunk_compression_level is None,
    {
        IndexerConfig {
            log_every_n: None,
            max_nb_chunks: None,
            max_memory: None,
            chunk_compression_type: ChunkCompressionType::Uncompressed,
            chunk_compression_level: None,
        }
    }
}

/// What a transformation reports of its progress.
#[derive(Debug, Clone, Copy, PartialEq, Eq, Structural)]
pub enum UpdateIndexingStep {
    /// The fields of the documents are given their ids in the registry.
    RemapDocumentAddition { documents_seen: usize },
    /// The documents get their internal ids and meet their stored versions.
    ComputeIdsAndMergeDocuments { documents_seen: usize, total_documents: usize },
    /// The documents are indexed.
    IndexDocuments { documents_seen: usize, total_documents: usize },
    /// The databases that were built are merged into the final ones.
    MergeDataIntoFinalDatabase { databases_seen: usize, total_databases: usize },
}

impl UpdateIndexingStep {
    /// The rank of the step among the steps of an indexation.
    pub open spec fn spec_step(&self) -> usize {
        match self {
            UpdateIndexingStep::RemapDocumentAddition { .. } => 0,
            UpdateIndexingStep::ComputeIdsAndMergeDocuments { .. } => 1,
            UpdateIndexingStep::IndexDocuments { .. } => 2,
            UpdateIndexingStep::MergeDataIntoFinalDatabase { .. } => 3,
        }
    }

    /// The rank of the step among the steps of an indexation, from zero.
    pub fn step(&self) -> (rank: usize)
        ensures
            rank == self.spec_step(),
            rank < 4,
    {
        match self {
            UpdateIndexingStep::RemapDocumentAddition { .. } => 0,
            UpdateIndexingStep::ComputeIdsAndMergeDocuments { .. } => 1,
            UpdateIndexingStep::IndexDocuments { .. } => 2,
            UpdateIndexingStep::MergeDataIntoFinalDatabase { .. } => 3,
        }
    }
}

} // verus!
