//! Assignment of keys to partitions by hash.
use vstd::prelude::*;

use crate::error::Error;
use crate::key::{bucket_of, hash_bucket, ShuffleKey};

verus! {

/// Assigns every key to one of a fixed number of partitions.
#[derive(Clone, Copy, Debug, PartialEq, Eq, Structural)]
pub struct HashPartitioner {
    n: usize,
}

impl HashPartitioner {
    /// The number of partitions.
    pub closed spec fn partitions(&self) -> usize {
        self.n
    }

    #[verifier::type_invariant]
    closed spec fn has_partitions(&self) -> bool {
        self.n > 0
    }

    /// A partitioner over `n` partitions, of which there must be at least one.
    pub fn new(n: usize) -> (r: Result<Self, Error>)
        ensures
            match r {
                Ok(p) => n > 0 && p.partitions() == n,
                Err(e) => n == 0 && e == Error::InvalidParallelism(0),
            },
    {
        if n == 0 {
            return Err(Error::InvalidParallelism(0));
        }
        Ok(HashPartitioner { n })
    }

    pub fn num_partitions(self) -> (n: usize)
        ensures
            n == self.partitions(),
            n > 0,
    {
        proof {
            use_type_invariant(&self);
        }
        self.n
    }

    /// The partition that a key belongs to.
    pub fn get_partition<K: ShuffleKey>(self, key: &K) -> (p: usize)
        ensures
            p == bucket_of::<K>(key.deep_view(), self.partitions()),
            p < self.partitions(),
    {
        proof {
            use_type_invariant(&self);
        }
        hash_bucket(key, self.n)
    }
}

} // verus!
