//! Errors of key generation and partitioning.

use vstd::prelude::*;

verus! {

/// An error generating a partition key for a row.
#[derive(Debug, Clone)]
pub enum PartitionKeyError {
    /// A time-format part of the template has a strftime format that cannot
    /// be rendered.
    InvalidStrftime,
    /// A tag-value or bucket part names a column that is not a tag column;
    /// the payload describes the column's type.
    TagValueNotTag(String),
    /// A formatter failed without saying why.
    FmtError,
}

impl PartitionKeyError {
    /// Whether two errors are the same error (type descriptions compared by
    /// their characters).
    pub open spec fn same(&self, other: &Self) -> bool {
        match (self, other) {
            (PartitionKeyError::InvalidStrftime, PartitionKeyError::InvalidStrftime) => true,
            (PartitionKeyError::TagValueNotTag(a), PartitionKeyError::TagValueNotTag(b)) => a@ == b@,
            (PartitionKeyError::FmtError, PartitionKeyError::FmtError) => true,
            _ => false,
        }
    }
}

impl PartialEq for PartitionKeyError {
    fn eq(&self, other: &Self) -> (r: bool)
        ensures
            r == self.same(other),
    {
        match (self, other) {
            (PartitionKeyError::InvalidStrftime, PartitionKeyError::InvalidStrftime) => true,
            (PartitionKeyError::TagValueNotTag(a), PartitionKeyError::TagValueNotTag(b)) => a.eq(b),
            (PartitionKeyError::FmtError, PartitionKeyError::FmtError) => true,
            _ => false,
        }
    }
}

impl vstd::std_specs::cmp::PartialEqSpecImpl for PartitionKeyError {
    open spec fn obeys_eq_spec() -> bool {
        true
    }

    open spec fn eq_spec(&self, other: &Self) -> bool {
        self.same(other)
    }
}

impl Eq for PartitionKeyError {}

/// An error reading the time column of a batch.
#[derive(Debug, Clone, Copy, PartialEq, Eq, Structural)]
pub enum TimeColumnError {
    /// The batch has no time column.
    NotFound,
}

/// An error partitioning a batch.
#[derive(Debug, Clone)]
pub enum PartitionWriteError {
    /// A row's partition key could not be generated.
    PartitionKey(PartitionKeyError),
    /// The time column could not be read.
    TimeColumn(TimeColumnError),
}

impl PartitionWriteError {
    /// Whether two errors are the same error.
    pub open spec fn same(&self, other: &Self) -> bool {
        match (self, other) {
            (PartitionWriteError::PartitionKey(a), PartitionWriteError::PartitionKey(b)) => a.same(b),
            (PartitionWriteError::TimeColumn(a), PartitionWriteError::TimeColumn(b)) => a == b,
            _ => false,
        }
    }
}

impl PartialEq for PartitionWriteError {
    fn eq(&self, other: &Self) -> (r: bool)
        ensures
            r == self.same(other),
    {
        match (self, other) {
            (PartitionWriteError::PartitionKey(a), PartitionWriteError::PartitionKey(b)) => a == b,
            (PartitionWriteError::TimeColumn(a), PartitionWriteError::TimeColumn(b)) => a == b,
            _ => false,
        }
    }
}

impl vstd::std_specs::cmp::PartialEqSpecImpl for PartitionWriteError {
    open spec fn obeys_eq_spec() -> bool {
        true
    }

    open spec fn eq_spec(&self, other: &Self) -> bool {
        self.same(other)
    }
}

impl Eq for PartitionWriteError {}

impl From<PartitionKeyError> for PartitionWriteError {
    fn from(e: PartitionKeyError) -> (r: Self)
        ensures
            r == PartitionWriteError::PartitionKey(e),
    {
        PartitionWriteError::PartitionKey(e)
    }
}

impl vstd::std_specs::convert::FromSpecImpl<PartitionKeyError> for PartitionWriteError {
    open spec fn obeys_from_spec() -> bool {
        true
    }

    open spec fn from_spec(e: PartitionKeyError) -> Self {
        PartitionWriteError::PartitionKey(e)
    }
}

impl From<TimeColumnError> for PartitionWriteError {
    fn from(e: TimeColumnError) -> (r: Self)
        ensures
            r == PartitionWriteError::TimeColumn(e),
    {
        PartitionWriteError::TimeColumn(e)
    }
}

impl vstd::std_specs::convert::FromSpecImpl<TimeColumnError> for PartitionWriteError {
    open spec fn obeys_from_spec() -> bool {
        true
    }

    open spec fn from_spec(e: TimeColumnError) -> Self {
        PartitionWriteError::TimeColumn(e)
    }
}

} // verus!
