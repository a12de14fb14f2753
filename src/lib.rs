//! Partition keys for the rows of a columnar batch.
//!
//! A partition template is an ordered list of parts (a tag value, a formatted
//! timestamp or a hash bucket of a tag value). Each row of a batch renders to
//! a key made of those parts joined by `|`; runs of rows that share a key are
//! grouped into row ranges, and the ranges of each distinct key are gathered
//! into a [`PartitionWrite`].

mod batch;
mod bucket;
mod encode;
mod error;
mod key_index;
mod rle;
mod strftime;
mod template;
mod write;

pub use batch::{Batch, Column, ColumnValues};
pub use bucket::{bucket_for_hash, BucketHasher};
pub use encode::{
    encode_key_part, percent_encode, truncate_clusters, PARTITION_KEY_DELIMITER, PARTITION_KEY_MAX_PART_LEN,
    PARTITION_KEY_PART_TRUNCATED, PARTITION_KEY_VALUE_EMPTY, PARTITION_KEY_VALUE_NULL,
};
pub use error::{PartitionKeyError, PartitionWriteError, TimeColumnError};
pub use rle::{range_encode, RunValue};
pub use strftime::StrftimeFormatter;
pub use template::{
    partition_batch, partition_keys, Template, TemplatePart, MAXIMUM_NUMBER_OF_TEMPLATE_PARTS,
};
pub use write::{min_max_time, PartitionWrite};
