//! Identifiers of datasets and shuffles, and how datasets depend on each other.
use vstd::prelude::*;

verus! {

#[derive(Clone, Copy, Debug, PartialEq, Eq, Structural, Hash)]
pub struct RddId(pub u64);

#[derive(Clone, Copy, Debug, PartialEq, Eq, Structural, Hash)]
pub struct ShuffleId(pub u64);

/// How a dataset depends on a parent: partition by partition, or through a shuffle.
#[derive(Clone, Copy, Debug, PartialEq, Eq, Structural)]
pub enum Dependency {
    Narrow { parent: RddId },
    Shuffle { parent: RddId, shuffle: ShuffleId },
}

impl Dependency {
    /// The dataset that is depended on.
    pub fn parent(self) -> (id: RddId)
        ensures
            match self {
                Dependency::Narrow { parent } => id == parent,
                Dependency::Shuffle { parent, shuffle } => id == parent,
            },
    {
        match self {
            Dependency::Narrow { parent } => parent,
            Dependency::Shuffle { parent, .. } => parent,
        }
    }
}

} // verus!
