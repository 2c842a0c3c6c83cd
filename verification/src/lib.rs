//! Aggregation index tree: a static binary index over value-sorted
//! `(document id, value)` pairs with precomputed `{min, max, sum, count}`
//! summaries per subtree, queried under set-membership filters.

pub mod summary;
pub mod tree;
pub mod range;
pub mod lookup;
pub mod bitmap;
pub mod filter;
pub mod query;
pub mod columnar;
pub mod memory;

pub use columnar::ColumnarStorage;
pub use summary::NodeAggregations;
pub use tree::AggregationIndexTree;
pub use tree::AggregationTreeNode;
pub use tree::BuildError;
pub use tree::build_aggregation_index_tree;
