//! What most programs need.
pub use crate::bootstrap::{launch_mode, run_executor, LaunchMode};
pub use crate::context::SpatterContext;
pub use crate::dag::{Stage, StageKind};
pub use crate::error::Error;
pub use crate::ids::{Dependency, RddId, ShuffleId};
pub use crate::partitioner::HashPartitioner;
pub use crate::rdd::Rdd;
