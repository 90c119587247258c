//! The capabilities that a table asks of its readers and writers.

use vstd::prelude::*;

pub mod variant_type;

verus! {

/// A capability that a table asks of its readers.
#[derive(Debug, Clone, Copy, PartialEq, Eq, Structural)]
pub enum ReaderFeature {
    ColumnMapping,
    DeletionVectors,
    TimestampWithoutTimezone,
    TypeWidening,
    TypeWideningPreview,
    V2Checkpoint,
    VacuumProtocolCheck,
    VariantType,
    VariantTypePreview,
}

/// A capability that a table asks of its writers.
#[derive(Debug, Clone, Copy, PartialEq, Eq, Structural)]
pub enum WriterFeature {
    AppendOnly,
    Invariants,
    CheckConstraints,
    ChangeDataFeed,
    GeneratedColumns,
    ColumnMapping,
    IdentityColumns,
    DeletionVectors,
    RowTracking,
    TimestampWithoutTimezone,
    TypeWidening,
    TypeWideningPreview,
    DomainMetadata,
    V2Checkpoint,
    IcebergCompatV1,
    IcebergCompatV2,
    VacuumProtocolCheck,
    ClusteredTable,
    VariantType,
    VariantTypePreview,
}

} // verus!
