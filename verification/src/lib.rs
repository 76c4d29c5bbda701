//! Entropy-scaling similarity search over metric spaces.
//!
//! A dataset of points is recursively partitioned into a hierarchy of balls;
//! range queries and k-nearest-neighbour queries prune whole subtrees of that
//! hierarchy with triangle-inequality bounds.  The hierarchy can be adapted so
//! that every node's members occupy a contiguous index range, and from that
//! form a compressed dataset can be built whose leaves store their members as
//! deltas against a single reference point.

pub mod cluster;
pub mod codec;
pub mod codec_data;
pub mod combination;
pub mod dataset;
pub mod metric;
pub mod offset_ball;
pub mod search;
pub mod squishy_ball;
pub mod tree;
pub mod utils;
pub mod wasserstein;

pub use cluster::{Ball, PartitionCriteria};
pub use codec::Decodable;
pub use codec_data::{CodecData, Decompressible, ParDecompressible};
pub use combination::{GraphAlgorithm, TrainedCombination, TrainedMetaMlModel};
pub use dataset::FlatVec;
pub use metric::{Metric, MetricKind};
pub use offset_ball::OffsetBall;
pub use search::KnnAlgorithm;
pub use squishy_ball::SquishyBall;
pub use tree::{Cakes, Tree};
pub use utils::{arg_max, arg_min, pos_val, rows_to_cols};
