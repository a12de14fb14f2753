//! Hash buckets of tag values.

use vstd::prelude::*;
use vstd::utf8::encode_utf8;

verus! {

/// The 32-bit x86 MurmurHash3 of `data` under `seed`.
pub uninterp spec fn murmur3_x86_32(data: Seq<u8>, seed: u32) -> u32;

/// Relies on `murmur3::murmur3_32`: the 32-bit x86 MurmurHash3 of the bytes
/// read from the source, under the given seed. Reading a byte slice cannot
/// fail, so the error arm is never taken. The crate counts the bytes it has
/// read in a `u32`, so longer input would overflow that count.
#[verifier::external_body]
fn murmur3_32(data: &[u8], seed: u32) -> (r: u32)
    requires
        data@.len() <= u32::MAX,
    ensures
        r == murmur3_x86_32(data@, seed),
{
    let mut source = data;
    match murmur3::murmur3_32(&mut source, seed) {
        Ok(h) => h,
        Err(_) => 0,
    }
}

/// The bucket of a hash: the hash with its sign bit cleared, modulo the
/// number of buckets.
pub open spec fn bucket_of_hash(hash: u32, num_buckets: u32) -> u32
    recommends
        num_buckets > 0,
{
    ((hash & 0x7fff_ffffu32) % num_buckets) as u32
}

/// The bucket that a tag value falls in: that of the MurmurHash3 (seed 0)
/// of its UTF-8 bytes.
pub open spec fn bucket_of(value: Seq<char>, num_buckets: u32) -> u32
    recommends
        num_buckets > 0,
{
    bucket_of_hash(murmur3_x86_32(encode_utf8(value), 0), num_buckets)
}

/// A tag value short enough to be hashed: at most `u32::MAX` UTF-8 bytes.
pub open spec fn hashable(value: Seq<char>) -> bool {
    encode_utf8(value).len() <= u32::MAX
}

/// The bucket of `hash` among `num_buckets` buckets.
pub fn bucket_for_hash(hash: u32, num_buckets: u32) -> (r: u32)
    requires
        num_buckets > 0,
    ensures
        r == bucket_of_hash(hash, num_buckets),
        r < num_buckets,
{
    (hash & 0x7fff_ffffu32) % num_buckets
}

/// Assigns tag values to one of a fixed number of buckets, and remembers the
/// last bucket it assigned.
pub struct BucketHasher {
    num_buckets: u32,
    last_assigned_bucket: Option<u32>,
}

impl BucketHasher {
    /// The number of buckets.
    pub closed spec fn spec_num_buckets(&self) -> u32 {
        self.num_buckets
    }

    /// The bucket returned by the last call of `assign_bucket`, if any.
    pub closed spec fn spec_last_bucket(&self) -> Option<u32> {
        self.last_assigned_bucket
    }

    /// A hasher over `num_buckets` buckets that has assigned nothing yet.
    pub fn new(num_buckets: u32) -> (r: Self)
        requires
            num_buckets > 0,
        ensures
            r.spec_num_buckets() == num_buckets,
            r.spec_last_bucket() == None::<u32>,
    {
        BucketHasher { num_buckets, last_assigned_bucket: None }
    }

    /// Returns the bucket of `value` and remembers it.
    pub fn assign_bucket(&mut self, value: &str) -> (r: u32)
        requires
            old(self).spec_num_buckets() > 0,
            hashable(value@),
        ensures
            r == bucket_of(value@, old(self).spec_num_buckets()),
            r < old(self).spec_num_buckets(),
            final(self).spec_num_buckets() == old(self).spec_num_buckets(),
            final(self).spec_last_bucket() == Some(r),
    {
        let hash = murmur3_32(value.as_bytes(), 0);
        let bucket = bucket_for_hash(hash, self.num_buckets);
        self.last_assigned_bucket = Some(bucket);
        bucket
    }

    /// The bucket returned by the last call of `assign_bucket`, or `None`
    /// before the first.
    pub fn last_assigned_bucket(&self) -> (r: Option<u32>)
        ensures
            r == self.spec_last_bucket(),
    {
        self.last_assigned_bucket
    }
}

} // verus!
