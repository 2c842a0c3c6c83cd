use agg_index_tree::build_aggregation_index_tree;
use agg_index_tree::AggregationTreeNode;
use agg_index_tree::BuildError;
use agg_index_tree::NodeAggregations;
use roaring::RoaringBitmap;

fn sample_corpus() -> Vec<(u32, u64)> {
    // (id, value) pairs already sorted by value: ids [3, 1, 0, 4, 2] carry
    // the sorted values [1, 3, 5, 7, 9].
    vec![(3, 1), (1, 3), (0, 5), (4, 7), (2, 9)]
}

fn bitmap_of(ids: &[u32]) -> RoaringBitmap {
    let mut b = RoaringBitmap::new();
    for &id in ids {
        b.insert(id);
    }
    b
}

#[test]
fn combine_with_identity_returns_other() {
    let identity = NodeAggregations::empty();
    let a = NodeAggregations { min_value: 1, max_value: 5, sum: 6, count: 2 };
    assert_eq!(NodeAggregations::combine(&identity, &a), a);
    assert_eq!(NodeAggregations::combine(&a, &identity), a);
}

#[test]
fn combine_commutative_concrete() {
    let a = NodeAggregations { min_value: 1, max_value: 5, sum: 6, count: 2 };
    let b = NodeAggregations { min_value: 10, max_value: 10, sum: 10, count: 1 };
    assert_eq!(
        NodeAggregations::combine(&a, &b),
        NodeAggregations::combine(&b, &a)
    );
}

#[test]
fn combine_associative_concrete() {
    let a = NodeAggregations { min_value: 1, max_value: 5, sum: 6, count: 2 };
    let b = NodeAggregations { min_value: 10, max_value: 10, sum: 10, count: 1 };
    let c = NodeAggregations { min_value: 2, max_value: 3, sum: 5, count: 2 };
    let left = NodeAggregations::combine(&NodeAggregations::combine(&a, &b), &c);
    let right = NodeAggregations::combine(&a, &NodeAggregations::combine(&b, &c));
    assert_eq!(left, right);
}

#[test]
fn identity_on_empty_corpus() {
    let values: Vec<(u32, u64)> = Vec::new();
    let tree = build_aggregation_index_tree(&values, 64).unwrap();
    let global = tree.get_global_aggregations();
    assert_eq!(global.count, 0);
    assert_eq!(global.sum, 0);
    assert_eq!(global.min_value, u64::MAX);
    assert_eq!(global.max_value, 0);
}

#[test]
fn empty_corpus_nonempty_filter_is_identity() {
    let values: Vec<(u32, u64)> = Vec::new();
    let tree = build_aggregation_index_tree(&values, 3).unwrap();
    let result = tree.query_with_bitmap(&bitmap_of(&[5]));
    assert_eq!(result, NodeAggregations::empty());
}

#[test]
fn zero_leaf_size_rejected() {
    let values = sample_corpus();
    match build_aggregation_index_tree(&values, 0) {
        Err(e) => assert_eq!(e, BuildError::InvalidLeafSize),
        Ok(_) => panic!("a zero leaf size must be rejected"),
    }
}

#[test]
fn concrete_scenario_filtered_aggregate() {
    let values = sample_corpus();
    let tree = build_aggregation_index_tree(&values, 2).unwrap();
    let result = tree.query_with_bitmap(&bitmap_of(&[0, 2, 4]));
    assert_eq!(result.min_value, 5);
    assert_eq!(result.max_value, 9);
    assert_eq!(result.sum, 21);
    assert_eq!(result.count, 3);
}

#[test]
fn concrete_scenario_root_splits_ranks() {
    // With leaf size 2, the root splits ranks [0, 3) / [3, 5); its children
    // sit right after it in pre-order.
    let values = sample_corpus();
    let tree = build_aggregation_index_tree(&values, 2).unwrap();
    match &tree.nodes[0] {
        AggregationTreeNode::Internal { left, right, aggregations, .. } => {
            assert_eq!(*left, 1);
            assert_eq!(aggregations.count, 5);
            match &tree.nodes[*left] {
                AggregationTreeNode::Leaf { values, .. } => assert_eq!(values, &vec![1u64, 3]),
                AggregationTreeNode::Internal { .. } => panic!("left child should be a leaf"),
            }
            match &tree.nodes[*right] {
                AggregationTreeNode::Internal { aggregations, .. } => {
                    assert_eq!(aggregations.count, 3)
                }
                AggregationTreeNode::Leaf { .. } => panic!("right child should be internal"),
            }
        }
        AggregationTreeNode::Leaf { .. } => panic!("root should be internal"),
    }
}

#[test]
fn missing_id_contributes_nothing() {
    let values = sample_corpus();
    let tree = build_aggregation_index_tree(&values, 2).unwrap();
    let result = tree.query_with_bitmap(&bitmap_of(&[999]));
    assert_eq!(result.count, 0);
    assert_eq!(result.sum, 0);
    assert_eq!(result.min_value, u64::MAX);
    assert_eq!(result.max_value, 0);
}

#[test]
fn full_filter_equals_global() {
    let values = sample_corpus();
    let tree = build_aggregation_index_tree(&values, 2).unwrap();
    let global = tree.get_global_aggregations();
    let result = tree.query_with_bitmap(&bitmap_of(&[0, 1, 2, 3, 4]));
    assert_eq!(result, global);
    assert_eq!(global.min_value, 1);
    assert_eq!(global.max_value, 9);
    assert_eq!(global.sum, 25);
    assert_eq!(global.count, 5);
}

#[test]
fn position_round_trip() {
    let values = sample_corpus();
    let tree = build_aggregation_index_tree(&values, 2).unwrap();
    let sorted_values = [1u64, 3, 5, 7, 9];
    for (rank, expected) in sorted_values.iter().enumerate() {
        assert_eq!(tree.get_value_at_position(rank), *expected);
    }
}

#[test]
fn range_aggregate_full_range_equals_global() {
    let values = sample_corpus();
    let tree = build_aggregation_index_tree(&values, 2).unwrap();
    let global = tree.get_global_aggregations();
    let full = tree.range_aggregate(0, 4);
    assert_eq!(full, global);
}

#[test]
fn range_aggregate_partial_range() {
    let values = sample_corpus();
    let tree = build_aggregation_index_tree(&values, 2).unwrap();
    let mid = tree.range_aggregate(1, 3);
    assert_eq!(mid.min_value, 3);
    assert_eq!(mid.max_value, 7);
    assert_eq!(mid.sum, 15);
    assert_eq!(mid.count, 3);
}

#[test]
fn single_document_corpus() {
    let values = vec![(7u32, 42u64)];
    let tree = build_aggregation_index_tree(&values, 64).unwrap();
    let global = tree.get_global_aggregations();
    assert_eq!(global.min_value, 42);
    assert_eq!(global.max_value, 42);
    assert_eq!(global.sum, 42);
    assert_eq!(global.count, 1);
    assert_eq!(tree.get_value_at_position(0), 42);
    let result = tree.query_with_bitmap(&bitmap_of(&[7]));
    assert_eq!(result, global);
}

#[test]
fn tied_values_are_all_counted() {
    let values = vec![(1u32, 5u64), (2, 5), (3, 5)];
    let tree = build_aggregation_index_tree(&values, 1).unwrap();
    let result = tree.query_with_bitmap(&bitmap_of(&[2]));
    assert_eq!(result.count, 1);
    assert_eq!(result.sum, 5);
    let global = tree.get_global_aggregations();
    assert_eq!(global.sum, 15);
    assert_eq!(global.count, 3);
}

#[test]
fn leaf_counts_conserve_documents() {
    let values = sample_corpus();
    let tree = build_aggregation_index_tree(&values, 2).unwrap();
    let mut leaf_total: u64 = 0;
    for node in &tree.nodes {
        if let AggregationTreeNode::Leaf { aggregations, .. } = node {
            leaf_total += aggregations.count as u64;
        }
    }
    assert_eq!(leaf_total, 5);
    assert_eq!(tree.get_global_aggregations().count, 5);
}

#[test]
fn memory_estimate_small_tree() {
    // Five entries at leaf size 2 build five nodes (two internal, three
    // leaves holding 2, 1 and 2 entries): 5 * 72 fixed bytes, 5 * (4 + 8)
    // bytes of leaf contents, and 5 * 12 bytes of id-map entries.
    let values = sample_corpus();
    let tree = build_aggregation_index_tree(&values, 2).unwrap();
    assert_eq!(tree.estimate_memory_bytes(), 480);
}

#[test]
fn mostly_consecutive_bitmap_detection() {
    let values = sample_corpus();
    let tree = build_aggregation_index_tree(&values, 2).unwrap();
    assert!(tree.is_sorted_bitmap(&bitmap_of(&[1, 2, 3, 4, 5])));
    assert!(!tree.is_sorted_bitmap(&bitmap_of(&[1, 2, 3, 4, 10])));
    assert!(!tree.is_sorted_bitmap(&RoaringBitmap::new()));
}
