//! Partitioned datasets: lazy transformations, aggregation by key, and the rules by which a
//! cluster computes them.
pub mod actions;
pub mod bootstrap;
pub mod bytes;
pub mod chains;
pub mod chunks;
pub mod clock;
pub mod cluster;
pub mod combine;
pub mod context;
pub mod dag;
pub mod dataset;
pub mod dispatch;
pub mod error;
pub mod exchange;
pub mod exec;
pub mod folds;
pub mod grouping;
pub mod ids;
pub mod jobs;
pub mod key;
pub mod keyed;
pub mod laws;
pub mod lineage;
pub mod metrics;
pub mod partition;
pub mod partitioner;
pub mod prelude;
pub mod rdd;
pub mod seqs;
pub mod shuffle;
pub mod shuffled;
pub mod source;
pub mod spill;
pub mod tally;
pub mod text;
pub mod wire;

pub use bootstrap::{launch_mode, run_executor, LaunchMode};
pub use context::{ContextBuilder, Setup, SpatterContext};
pub use dag::{Stage, StageKind};
pub use error::Error;
pub use ids::{Dependency, RddId, ShuffleId};
pub use key::{hash_bucket, ShuffleKey};
pub use partitioner::HashPartitioner;
pub use rdd::Rdd;
