use agg_index_tree::build_aggregation_index_tree;
use agg_index_tree::ColumnarStorage;
use roaring::RoaringBitmap;

/// A small deterministic pseudo-random value for document `i`.
fn pseudo_value(i: u32) -> u64 {
    let x = (i as u64).wrapping_mul(6364136223846793005).wrapping_add(1442695040888963407);
    (x >> 33) % 10_000
}

/// Builds the index (corpus sorted by value) and the flat oracle (values in
/// document-id order) over the same `n` documents.
fn build_pair(n: u32, leaf_size: usize) -> (agg_index_tree::AggregationIndexTree, ColumnarStorage) {
    let mut pairs: Vec<(u32, u64)> = (0..n).map(|i| (i, pseudo_value(i))).collect();
    let columnar = ColumnarStorage { values: pairs.iter().map(|p| p.1).collect() };
    pairs.sort_by_key(|p| p.1);
    let tree = build_aggregation_index_tree(&pairs, leaf_size).unwrap();
    (tree, columnar)
}

fn bitmap_of(ids: &[u32]) -> RoaringBitmap {
    let mut b = RoaringBitmap::new();
    for &id in ids {
        b.insert(id);
    }
    b
}

#[test]
fn oracle_matches_global_aggregate() {
    let (tree, columnar) = build_pair(200, 8);
    assert_eq!(tree.get_global_aggregations(), columnar.get_global_aggregations());
}

#[test]
fn oracle_matches_empty_filter() {
    let (tree, columnar) = build_pair(200, 8);
    let filter = RoaringBitmap::new();
    assert_eq!(
        tree.query_with_bitmap(&filter),
        columnar.query_with_bitmap(&filter)
    );
}

#[test]
fn oracle_matches_singleton_filter() {
    let (tree, columnar) = build_pair(200, 8);
    let filter = bitmap_of(&[5]);
    assert_eq!(
        tree.query_with_bitmap(&filter),
        columnar.query_with_bitmap(&filter)
    );
}

#[test]
fn oracle_matches_sparse_filter() {
    let (tree, columnar) = build_pair(200, 8);
    let filter = bitmap_of(&[7, 42]);
    assert_eq!(
        tree.query_with_bitmap(&filter),
        columnar.query_with_bitmap(&filter)
    );
}

#[test]
fn oracle_matches_half_filter() {
    let (tree, columnar) = build_pair(200, 8);
    let ids: Vec<u32> = (0..100).collect();
    let filter = bitmap_of(&ids);
    assert_eq!(
        tree.query_with_bitmap(&filter),
        columnar.query_with_bitmap(&filter)
    );
}

#[test]
fn oracle_matches_full_filter() {
    let (tree, columnar) = build_pair(200, 8);
    let ids: Vec<u32> = (0..200).collect();
    let filter = bitmap_of(&ids);
    assert_eq!(
        tree.query_with_bitmap(&filter),
        columnar.query_with_bitmap(&filter)
    );
}

#[test]
fn oracle_matches_parallel_path() {
    // 15,000 of 20,000 ids: large enough for the parallel path, and at most
    // 80% of the corpus, so the exact direct evaluation runs.
    let (tree, columnar) = build_pair(20_000, 64);
    let ids: Vec<u32> = (0..15_000).collect();
    let filter = bitmap_of(&ids);
    assert_eq!(
        tree.query_with_bitmap(&filter),
        columnar.query_with_bitmap(&filter)
    );
}

#[test]
fn dense_path_sum_and_count_match_oracle() {
    // 17,000 of 20,000 ids exceeds the 80% density threshold, so the
    // complement path runs: sum and count are exact; min and max are the
    // global ones by the documented shortcut (see
    // `dense_path_min_max_shortcut_diverges`).
    let (tree, columnar) = build_pair(20_000, 64);
    let ids: Vec<u32> = (0..17_000).collect();
    let filter = bitmap_of(&ids);
    let dense = tree.query_with_bitmap(&filter);
    let oracle = columnar.query_with_bitmap(&filter);
    let global = tree.get_global_aggregations();
    assert_eq!(dense.sum, oracle.sum);
    assert_eq!(dense.count, oracle.count);
    assert_eq!(dense.min_value, global.min_value);
    assert_eq!(dense.max_value, global.max_value);
}

#[test]
fn dense_path_min_max_shortcut_diverges() {
    // The dense (complement) path reuses the global min and max unchanged.
    // Here the filter excludes the document holding the global minimum, so
    // the reported minimum stays at the global minimum (1) while the oracle
    // reports the true minimum of the retained set (2). Sum and count are
    // still exact. This documents the shortcut rather than hiding it.
    let pairs: Vec<(u32, u64)> = (0u32..10).map(|i| (i, (i + 1) as u64)).collect();
    let columnar = ColumnarStorage { values: pairs.iter().map(|p| p.1).collect() };
    let tree = build_aggregation_index_tree(&pairs, 2).unwrap();
    let ids: Vec<u32> = (1..10).collect();
    let filter = bitmap_of(&ids);

    let dense = tree.query_with_bitmap(&filter);
    let oracle = columnar.query_with_bitmap(&filter);

    assert_eq!(dense.sum, 54);
    assert_eq!(dense.count, 9);
    assert_eq!(oracle.sum, 54);
    assert_eq!(oracle.count, 9);

    assert_eq!(oracle.min_value, 2);
    assert_eq!(dense.min_value, 1);
    assert_ne!(dense.min_value, oracle.min_value);
    assert_eq!(dense.max_value, oracle.max_value);
}

#[test]
fn sequential_and_parallel_paths_agree() {
    let (tree, _columnar) = build_pair(20_000, 64);
    let ids: Vec<u32> = (2_000..14_000).collect();
    let filter = bitmap_of(&ids);
    assert_eq!(
        tree.direct_query_sequential(&filter),
        tree.direct_query_parallel(&filter)
    );
    assert_eq!(
        tree.direct_query_with_bitmap(&filter),
        tree.query_with_bitmap(&filter)
    );
}
