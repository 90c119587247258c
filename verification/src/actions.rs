//! The protocol of a table: the versions and the capabilities that it asks
//! of its readers and writers.

use vstd::prelude::*;
use crate::error::TableError;
use crate::table_features::{ReaderFeature, WriterFeature};

verus! {

/// The reader version from which a protocol lists reader features.
pub const TABLE_FEATURES_MIN_READER_VERSION: i32 = 3;

/// The writer version from which a protocol lists writer features.
pub const TABLE_FEATURES_MIN_WRITER_VERSION: i32 = 7;

/// The protocol of a table.
#[derive(Debug)]
pub struct Protocol {
    min_reader_version: i32,
    min_writer_version: i32,
    reader_features: Option<Vec<ReaderFeature>>,
    writer_features: Option<Vec<WriterFeature>>,
}

/// A protocol lists reader features if and only if its reader version is
/// that of table features, and writer features likewise.
pub open spec fn features_go_with_versions(
    min_reader_version: i32,
    min_writer_version: i32,
    reader_features: Option<Vec<ReaderFeature>>,
    writer_features: Option<Vec<WriterFeature>>,
) -> bool {
    &&& (min_reader_version == TABLE_FEATURES_MIN_READER_VERSION) == reader_features is Some
    &&& (min_writer_version == TABLE_FEATURES_MIN_WRITER_VERSION) == writer_features is Some
}

impl Protocol {
    /// The least version of a reader of the table.
    pub closed spec fn spec_min_reader_version(&self) -> i32 {
        self.min_reader_version
    }

    /// The least version of a writer of the table.
    pub closed spec fn spec_min_writer_version(&self) -> i32 {
        self.min_writer_version
    }

    /// The reader features that the protocol lists; none where it lists
    /// none.
    pub closed spec fn reader_features(&self) -> Seq<ReaderFeature> {
        match self.reader_features {
            Some(features) => features@,
            None => Seq::empty(),
        }
    }

    /// The writer features that the protocol lists; none where it lists
    /// none.
    pub closed spec fn writer_features(&self) -> Seq<WriterFeature> {
        match self.writer_features {
            Some(features) => features@,
            None => Seq::empty(),
        }
    }

    /// A protocol with the given versions and features. Fails where
    /// features are listed with a version that has none, or are missing
    /// with a version that has them.
    pub fn try_new(
        min_reader_version: i32,
        min_writer_version: i32,
        reader_features: Option<Vec<ReaderFeature>>,
        writer_features: Option<Vec<WriterFeature>>,
    ) -> (result: Result<Protocol, TableError>)
        ensures
            result is Ok == features_go_with_versions(
                min_reader_version,
                min_writer_version,
                reader_features,
                writer_features,
            ),
            result matches Ok(protocol) ==> {
                &&& protocol.spec_min_reader_version() == min_reader_version
                &&& protocol.spec_min_writer_version() == min_writer_version
                &&& protocol.reader_features() == match reader_features {
                    Some(features) => features@,
                    None => Seq::empty(),
                }
                &&& protocol.writer_features() == match writer_features {
                    Some(features) => features@,
                    None => Seq::empty(),
                }
            },
            result matches Err(error) ==> error matches TableError::InvalidProtocol(text) && text@ == (if (
            min_reader_version == TABLE_FEATURES_MIN_READER_VERSION) != reader_features is Some {
                "Reader features must be present exactly when the minimum reader version is 3"@
            } else {
                "Writer features must be present exactly when the minimum writer version is 7"@
            }),
    {
        if (min_reader_version == TABLE_FEATURES_MIN_READER_VERSION) != reader_features.is_some() {
            return Err(
                TableError::InvalidProtocol(
                    "Reader features must be present exactly when the minimum reader version is 3".to_owned(),
                ),
            );
        }
        if (min_writer_version == TABLE_FEATURES_MIN_WRITER_VERSION) != writer_features.is_some() {
            return Err(
                TableError::InvalidProtocol(
                    "Writer features must be present exactly when the minimum writer version is 7".to_owned(),
                ),
            );
        }
        Ok(Protocol { min_reader_version, min_writer_version, reader_features, writer_features })
    }

    /// The least version of a reader of the table.
    pub fn min_reader_version(&self) -> (version: i32)
        ensures
            version == self.spec_min_reader_version(),
    {
        self.min_reader_version
    }

    /// The least version of a writer of the table.
    pub fn min_writer_version(&self) -> (version: i32)
        ensures
            version == self.spec_min_writer_version(),
    {
        self.min_writer_version
    }

    /// Whether the protocol lists the reader feature `feature`.
    pub fn has_reader_feature(&self, feature: &ReaderFeature) -> (has: bool)
        ensures
            has == self.reader_features().contains(*feature),
    {
        match &self.reader_features {
            Some(features) => {
                let mut i: usize = 0;
                while i < features.len()
                    invariant
                        i <= features@.len(),
                        self.reader_features() == features@,
                        forall|j: int| 0 <= j < i ==> features@[j] != *feature,
                    decreases features@.len() - i,
                {
                    if features[i] == *feature {
                        assert(features@[i as int] == *feature);
                        return true;
                    }
                    i += 1;
                }
                false
            },
            None => false,
        }
    }

    /// Whether the protocol lists the writer feature `feature`.
    pub fn has_writer_feature(&self, feature: &WriterFeature) -> (has: bool)
        ensures
            has == self.writer_features().contains(*feature),
    {
        match &self.writer_features {
            Some(features) => {
                let mut i: usize = 0;
                while i < features.len()
                    invariant
                        i <= features@.len(),
                        self.writer_features() == features@,
                        forall|j: int| 0 <= j < i ==> features@[j] != *feature,
                    decreases features@.len() - i,
                {
                    if features[i] == *feature {
                        assert(features@[i as int] == *feature);
                        return true;
                    }
                    i += 1;
                }
                false
            },
            None => false,
        }
    }
}

} // verus!
