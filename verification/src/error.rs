use vstd::prelude::*;

verus! {

/// Everything that can stop a transformation.
///
/// The first five variants are caused by what the user submitted, the next
/// three denote a broken internal invariant, and the last ones are failures
/// reported by the sorter, the record codec or the external ids map.
#[derive(Debug, Clone, PartialEq, Eq)]
pub enum TransformError {
    /// The fields registry already holds as many names as there are field ids.
    AttributeLimitReached,
    /// Every internal document id is in use.
    DocumentLimitReached,
    /// No primary key is known, none could be inferred, and identifiers
    /// must not be generated.
    MissingPrimaryKey,
    /// A document has no value under the primary key and identifiers must
    /// not be generated. `document` lists the fields of the document that
    /// hold valid JSON, by name, with their raw JSON text.
    MissingDocumentId { primary_key: String, document: Vec<(String, Vec<u8>)> },
    /// The value under the primary key is neither a number nor a string made
    /// of the accepted characters. `value` is its raw JSON text.
    InvalidDocumentId { value: Vec<u8> },
    /// The external ids map names an internal id that has no stored record.
    DatabaseMissingEntry,
    /// Two records were emitted under the same internal id.
    IndexingMergingKeys,
    /// A value that had to be parsed is not valid JSON.
    SerdeJson,
    /// A record could not be encoded: its keys were not strictly ascending
    /// or one of its values was too long.
    InvalidRecord,
    /// The sorter failed to read or write one of its chunks.
    Io,
    /// The sorter was asked for a compression that it was not built with.
    InvalidCompression,
    /// A chunk of the sorter is in a format that cannot be read.
    InvalidFormatVersion,
    /// The external ids map could not be built.
    Fst,
}

impl TransformError {
    /// Whether the error is due to the submitted documents or settings.
    pub open spec fn is_user_error(self) -> bool {
        self is AttributeLimitReached || self is DocumentLimitReached || self is MissingPrimaryKey
            || self is MissingDocumentId || self is InvalidDocumentId
    }

    /// Whether the error is one that a sorter reports: a failure to read
    /// or write, or what its merge function refused.
    pub open spec fn is_sorter_error(self) -> bool {
        self is Io || self is InvalidCompression || self is InvalidFormatVersion || self is InvalidRecord
            || self is IndexingMergingKeys
    }

    /// The short description of each kind of error.
    pub open spec fn description(self) -> Seq<char> {
        match self {
            TransformError::AttributeLimitReached => "maximum number of attributes reached"@,
            TransformError::DocumentLimitReached => "maximum number of documents reached"@,
            TransformError::MissingPrimaryKey => "missing primary key"@,
            TransformError::MissingDocumentId { .. } => "document doesn't have an identifier"@,
            TransformError::InvalidDocumentId { .. } => "document identifier is invalid"@,
            TransformError::DatabaseMissingEntry => "missing entry in the documents database"@,
            TransformError::IndexingMergingKeys => "invalid merge while processing documents"@,
            TransformError::SerdeJson => "invalid JSON value"@,
            TransformError::InvalidRecord => "invalid record"@,
            TransformError::Io => "input or output failure"@,
            TransformError::InvalidCompression => "invalid compression type"@,
            TransformError::InvalidFormatVersion => "invalid format version"@,
            TransformError::Fst => "invalid external documents ids map"@,
        }
    }

    /// A short description of the error: the one that goes with its kind,
    /// whatever the error carries.
    pub fn message(&self) -> (text: &'static str)
        ensures
            text@ == self.description(),
    {
        match self {
            TransformError::AttributeLimitReached => "maximum number of attributes reached",
            TransformError::DocumentLimitReached => "maximum number of documents reached",
            TransformError::MissingPrimaryKey => "missing primary key",
            TransformError::MissingDocumentId { .. } => "document doesn't have an identifier",
            TransformError::InvalidDocumentId { .. } => "document identifier is invalid",
            TransformError::DatabaseMissingEntry => "missing entry in the documents database",
            TransformError::IndexingMergingKeys => "invalid merge while processing documents",
            TransformError::SerdeJson => "invalid JSON value",
            TransformError::InvalidRecord => "invalid record",
            TransformError::Io => "input or output failure",
            TransformError::InvalidCompression => "invalid compression type",
            TransformError::InvalidFormatVersion => "invalid format version",
            TransformError::Fst => "invalid external documents ids map",
        }
    }
}

} // verus!
