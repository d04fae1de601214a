//! How datasets were derived from each other.
use std::sync::Arc;

use vstd::prelude::*;

use crate::ids::{Dependency, RddId};
use crate::partitioner::HashPartitioner;

verus! {

/// A dataset in the graph of the datasets that it was derived from.
#[derive(Debug)]
pub struct LineageNode {
    pub id: RddId,
    pub deps: Vec<Dependency>,
    pub n_partitions: usize,
    pub parents: Vec<Arc<LineageNode>>,
    pub partitioner: Option<HashPartitioner>,
}

} // verus!
