//! Transformation of batches of user documents into internally keyed,
//! deduplicated records that are ready to be indexed.
//!
//! A [`Transform`] reads batches of documents, finds the external id of
//! each document and keeps one record for each external id. When it is
//! finalized every external id gets its internal id, what comes in meets
//! what is stored, and the records to store are written out by internal
//! id, together with their flattened forms.

pub mod available_documents_ids;
pub mod bitmap;
pub mod bytes;
pub mod config;
pub mod consistency;
pub mod determinism;
pub mod documents;
pub mod error;
pub mod external_documents_ids;
pub mod field_distribution;
pub mod fields_ids_map;
pub mod fields_mapping;
pub mod idempotence;
pub mod finalize;
pub mod index;
pub mod json;
pub mod laws;
pub mod merge;
pub mod order;
pub mod primary_key;
pub mod record;
pub mod remap;
pub mod runs;
pub mod sorter;
pub mod stream;
pub mod text;
pub mod transform;

pub use available_documents_ids::AvailableDocumentsIds;
pub use config::{ChunkCompressionType, IndexDocumentsMethod, IndexerConfig, UpdateIndexingStep};
pub use documents::{DocumentBatchReader, DocumentFields, DocumentsBatchIndex};
pub use error::TransformError;
pub use external_documents_ids::ExternalDocumentsIds;
pub use field_distribution::FieldDistribution;
pub use fields_ids_map::{FieldId, FieldsIdsMap};
pub use fields_mapping::create_fields_mapping;
pub use index::{Documents, Index};
pub use merge::{forbid_duplicates, keep_latest_obkv, merge_obkvs, merge_two_obkvs, MergePolicy};
pub use primary_key::{compute_primary_key_pair, find_primary_key, validate_document_id};
pub use record::{decode_record, encode_record};
pub use transform::{drop_and_reuse, Transform, TransformOutput};
