//! The aggregation index tree: a node arena laid out in pre-order over a
//! value-sorted sequence of `(document id, value)` pairs, together with the
//! id-to-rank map and the rank-to-leaf-location map.

use vstd::prelude::*;
use vstd::arithmetic::mul::lemma_mul_inequality;
use std::collections::HashMap;

use crate::summary::NodeAggregations;
use crate::summary::SummarySpec;
use crate::summary::identity_summary;
use crate::summary::lemma_summary_of_concat;
use crate::summary::lemma_summary_of_push;
use crate::summary::lemma_summary_of_wf;
use crate::summary::summary_of;

verus! {

broadcast use vstd::std_specs::hash::group_hash_axioms;

/// One indexed document: its id and its numeric value.
pub type Entry = (u32, u64);

/// The values of a run of entries, in order.
pub open spec fn values_of(entries: Seq<Entry>) -> Seq<u64> {
    entries.map_values(|e: Entry| e.1)
}

/// The document ids of a run of entries, in order.
pub open spec fn ids_of(entries: Seq<Entry>) -> Seq<u32> {
    entries.map_values(|e: Entry| e.0)
}

/// Entries are sorted by value, ascending (ties allowed).
pub open spec fn sorted_by_value(entries: Seq<Entry>) -> bool {
    forall|i: int, j: int| 0 <= i < j < entries.len() ==> entries[i].1 <= entries[j].1
}

/// No document id occurs twice.
pub open spec fn unique_ids(entries: Seq<Entry>) -> bool {
    forall|i: int, j: int| 0 <= i < j < entries.len() ==> entries[i].0 != entries[j].0
}

/// A tree node: either an internal node referring to its two children by
/// arena index, or a leaf holding a contiguous run of the sorted corpus.
#[derive(Clone, Debug)]
pub enum AggregationTreeNode {
    Internal {
        split_value: u64,
        left: usize,
        right: usize,
        aggregations: NodeAggregations,
    },
    Leaf { doc_ids: Vec<u32>, values: Vec<u64>, aggregations: NodeAggregations },
}

/// The summary stored in a node, whichever variant it is.
pub open spec fn node_summary(n: AggregationTreeNode) -> SummarySpec {
    match n {
        AggregationTreeNode::Internal { aggregations, .. } => aggregations@,
        AggregationTreeNode::Leaf { aggregations, .. } => aggregations@,
    }
}

/// The arena slots `[i, j)` hold a well-formed subtree rooted at `i` that
/// covers the entry range `[start, end)`: leaves carry exactly their run of
/// the sorted corpus, internal nodes split at the midpoint, children sit in
/// pre-order right after their parent, and every stored summary is the
/// summary of the covered values.
pub open spec fn subtree_wf(
    nodes: Seq<AggregationTreeNode>,
    i: int,
    j: int,
    entries: Seq<Entry>,
    start: int,
    end: int,
) -> bool
    decreases end - start,
{
    &&& 0 <= start <= end <= entries.len()
    &&& 0 <= i < j <= nodes.len()
    &&& match nodes[i] {
        AggregationTreeNode::Leaf { doc_ids, values, aggregations } => {
            &&& j == i + 1
            &&& doc_ids@ == ids_of(entries.subrange(start, end))
            &&& values@ == values_of(entries.subrange(start, end))
            &&& aggregations@ == summary_of(values_of(entries.subrange(start, end)))
        },
        AggregationTreeNode::Internal { split_value, left, right, aggregations } => {
            let mid = start + (end - start) / 2;
            &&& end - start >= 2
            &&& left == i + 1
            &&& i + 1 < right < j
            &&& subtree_wf(nodes, i + 1, right as int, entries, start, mid)
            &&& subtree_wf(nodes, right as int, j, entries, mid, end)
            &&& split_value == entries[mid].1
            &&& aggregations@ == summary_of(values_of(entries.subrange(start, end)))
        },
    }
}

/// A subtree's well-formedness reads only the arena slots it occupies, so it
/// survives any edit outside `[i, j)` and any growth of the arena.
pub proof fn lemma_subtree_wf_frame(
    nodes1: Seq<AggregationTreeNode>,
    nodes2: Seq<AggregationTreeNode>,
    i: int,
    j: int,
    entries: Seq<Entry>,
    start: int,
    end: int,
)
    requires
        subtree_wf(nodes1, i, j, entries, start, end),
        j <= nodes2.len(),
        forall|k: int| i <= k < j ==> nodes2[k] == nodes1[k],
    ensures
        subtree_wf(nodes2, i, j, entries, start, end),
    decreases end - start,
{
    match nodes1[i] {
        AggregationTreeNode::Internal { right, .. } => {
            let mid = start + (end - start) / 2;
            lemma_subtree_wf_frame(nodes1, nodes2, i + 1, right as int, entries, start, mid);
            lemma_subtree_wf_frame(nodes1, nodes2, right as int, j, entries, mid, end);
        },
        AggregationTreeNode::Leaf { .. } => {},
    }
}

/// Builds the subtree over `values[start..end)` at the next free arena slot,
/// returning that slot's index. The slot is reserved with a placeholder
/// before the children are built, so the subtree occupies exactly the slots
/// `[idx, nodes.len())` in pre-order when the call returns.
pub fn build_tree_recursive(
    nodes: &mut Vec<AggregationTreeNode>,
    values: &Vec<Entry>,
    start: usize,
    end: usize,
    leaf_size: usize,
) -> (idx: usize)
    requires
        leaf_size >= 1,
        start <= end <= values@.len(),
        values@.len() <= u32::MAX,
    ensures
        idx == old(nodes)@.len(),
        final(nodes)@.len() > idx,
        final(nodes)@.subrange(0, idx as int) == old(nodes)@,
        subtree_wf(
            final(nodes)@,
            idx as int,
            final(nodes)@.len() as int,
            values@,
            start as int,
            end as int,
        ),
    decreases end - start,
{
    let current_idx = nodes.len();

    if end - start <= leaf_size {
        let mut min_value: u64 = u64::MAX;
        let mut max_value: u64 = 0;
        let mut sum: u128 = 0;
        let count: u32 = (end - start) as u32;

        let mut leaf_doc_ids: Vec<u32> = Vec::with_capacity(end - start);
        let mut leaf_values: Vec<u64> = Vec::with_capacity(end - start);

        let mut i = start;
        while i < end
            invariant
                start <= i <= end <= values@.len(),
                values@.len() <= u32::MAX,
                leaf_doc_ids@ == ids_of(values@.subrange(start as int, i as int)),
                leaf_values@ == values_of(values@.subrange(start as int, i as int)),
                (SummarySpec {
                    min: min_value as int,
                    max: max_value as int,
                    sum: sum as int,
                    count: (i - start) as nat,
                }) == summary_of(values_of(values@.subrange(start as int, i as int))),
            decreases end - i,
        {
            let ghost prefix = values_of(values@.subrange(start as int, i as int));
            let (doc_id, value) = values[i];
            proof {
                lemma_summary_of_wf(prefix);
                lemma_mul_inequality(
                    (i - start) as int,
                    u32::MAX as int,
                    u64::MAX as int,
                );
                lemma_summary_of_push(prefix, value);
                assert(values@.subrange(start as int, i + 1) =~= values@.subrange(
                    start as int,
                    i as int,
                ).push(values@[i as int]));
                assert(values_of(values@.subrange(start as int, i + 1)) =~= prefix.push(value));
                assert(ids_of(values@.subrange(start as int, i + 1)) =~= ids_of(
                    values@.subrange(start as int, i as int),
                ).push(doc_id));
            }
            leaf_doc_ids.push(doc_id);
            leaf_values.push(value);

            if value < min_value {
                min_value = value;
            }
            if value > max_value {
                max_value = value;
            }
            sum = sum + value as u128;
            i = i + 1;
        }

        let node = AggregationTreeNode::Leaf {
            doc_ids: leaf_doc_ids,
            values: leaf_values,
            aggregations: NodeAggregations { min_value, max_value, sum, count },
        };
        nodes.push(node);
        proof {
            assert(nodes@.subrange(0, current_idx as int) =~= old(nodes)@);
        }
        current_idx
    } else {
        let mid = start + (end - start) / 2;
        let split_value = values[mid].1;

        nodes.push(
            AggregationTreeNode::Leaf {
                doc_ids: Vec::new(),
                values: Vec::new(),
                aggregations: NodeAggregations::empty(),
            },
        );

        let ghost nodes_reserved = nodes@;
        let left_idx = build_tree_recursive(nodes, values, start, mid, leaf_size);
        let ghost nodes_after_left = nodes@;
        let right_idx = build_tree_recursive(nodes, values, mid, end, leaf_size);
        let ghost nodes_after_right = nodes@;

        proof {
            // The right build only appended, so the left subtree is intact.
            assert forall|k: int| left_idx <= k < right_idx implies nodes_after_right[k]
                == nodes_after_left[k] by {
                assert(nodes_after_right.subrange(0, right_idx as int)[k] == nodes_after_right[k]);
            }
            lemma_subtree_wf_frame(
                nodes_after_left,
                nodes_after_right,
                left_idx as int,
                right_idx as int,
                values@,
                start as int,
                mid as int,
            );
        }

        let left_aggs = match &nodes[left_idx] {
            AggregationTreeNode::Internal { aggregations, .. } => *aggregations,
            AggregationTreeNode::Leaf { aggregations, .. } => *aggregations,
        };
        let right_aggs = match &nodes[right_idx] {
            AggregationTreeNode::Internal { aggregations, .. } => *aggregations,
            AggregationTreeNode::Leaf { aggregations, .. } => *aggregations,
        };

        proof {
            let left_vals = values_of(values@.subrange(start as int, mid as int));
            let right_vals = values_of(values@.subrange(mid as int, end as int));
            lemma_summary_of_wf(left_vals);
            lemma_summary_of_wf(right_vals);
            lemma_mul_inequality((mid - start) as int, u32::MAX as int, u64::MAX as int);
            lemma_mul_inequality((end - mid) as int, u32::MAX as int, u64::MAX as int);
        }
        let combined = NodeAggregations::combine(&left_aggs, &right_aggs);

        nodes[current_idx] = AggregationTreeNode::Internal {
            split_value,
            left: left_idx,
            right: right_idx,
            aggregations: combined,
        };

        proof {
            let fin = nodes@;
            assert forall|k: int| left_idx <= k < fin.len() implies fin[k]
                == nodes_after_right[k] by {}
            lemma_subtree_wf_frame(
                nodes_after_right,
                fin,
                left_idx as int,
                right_idx as int,
                values@,
                start as int,
                mid as int,
            );
            lemma_subtree_wf_frame(
                nodes_after_right,
                fin,
                right_idx as int,
                fin.len() as int,
                values@,
                mid as int,
                end as int,
            );
            let all_vals = values_of(values@.subrange(start as int, end as int));
            let left_vals = values_of(values@.subrange(start as int, mid as int));
            let right_vals = values_of(values@.subrange(mid as int, end as int));
            assert(all_vals =~= left_vals + right_vals) by {
                assert(values@.subrange(start as int, end as int) =~= values@.subrange(
                    start as int,
                    mid as int,
                ) + values@.subrange(mid as int, end as int));
                assert(values_of(
                    values@.subrange(start as int, mid as int) + values@.subrange(
                        mid as int,
                        end as int,
                    ),
                ) =~= left_vals + right_vals);
            }
            lemma_summary_of_concat(left_vals, right_vals);
            assert forall|k: int| 0 <= k < current_idx implies fin[k] == old(nodes)@[k] by {
                assert(nodes_after_right.subrange(0, right_idx as int)[k] == nodes_after_right[k]);
                assert(nodes_after_left.subrange(0, left_idx as int)[k] == nodes_after_left[k]);
                assert(nodes_reserved[k] == old(nodes)@.push(nodes_reserved.last())[k]);
            }
            assert(nodes@.subrange(0, current_idx as int) =~= old(nodes)@);
        }
        current_idx
    }
}

/// The summary stored at the root of a well-formed subtree is the summary of
/// the values it covers.
pub proof fn lemma_subtree_node_summary(
    nodes: Seq<AggregationTreeNode>,
    i: int,
    j: int,
    entries: Seq<Entry>,
    start: int,
    end: int,
)
    requires
        subtree_wf(nodes, i, j, entries, start, end),
    ensures
        node_summary(nodes[i]) == summary_of(values_of(entries.subrange(start, end))),
        crate::summary::summary_wf(node_summary(nodes[i])),
        node_summary(nodes[i]).count == end - start,
{
    lemma_summary_of_wf(values_of(entries.subrange(start, end)));
}

/// What a well-formed subtree rooted at a leaf slot holds: exactly the run
/// `[start, end)` of the sorted corpus, with its summary.
pub proof fn lemma_subtree_leaf_shape(
    nodes: Seq<AggregationTreeNode>,
    i: int,
    j: int,
    entries: Seq<Entry>,
    start: int,
    end: int,
)
    requires
        subtree_wf(nodes, i, j, entries, start, end),
        nodes[i] is Leaf,
    ensures
        nodes[i] matches AggregationTreeNode::Leaf { doc_ids, values, aggregations } ==> {
            &&& doc_ids@ == ids_of(entries.subrange(start, end))
            &&& values@ == values_of(entries.subrange(start, end))
            &&& values@.len() == end - start
            &&& doc_ids@.len() == end - start
            &&& aggregations@ == summary_of(values_of(entries.subrange(start, end)))
        },
{
}

/// What a well-formed subtree rooted at an internal slot guarantees of its
/// two children: their places in the arena, their covered halves, and their
/// stored summaries.
pub proof fn lemma_subtree_internal_children(
    nodes: Seq<AggregationTreeNode>,
    i: int,
    j: int,
    entries: Seq<Entry>,
    start: int,
    end: int,
)
    requires
        subtree_wf(nodes, i, j, entries, start, end),
        nodes[i] is Internal,
    ensures
        ({
            let mid = start + (end - start) / 2;
            let l = nodes[i]->Internal_left as int;
            let r = nodes[i]->Internal_right as int;
            &&& end - start >= 2
            &&& l == i + 1
            &&& i + 1 < r < j <= nodes.len()
            &&& subtree_wf(nodes, l, r, entries, start, mid)
            &&& subtree_wf(nodes, r, j, entries, mid, end)
            &&& node_summary(nodes[l]) == summary_of(values_of(entries.subrange(start, mid)))
            &&& node_summary(nodes[r]) == summary_of(values_of(entries.subrange(mid, end)))
            &&& node_summary(nodes[l]).count == mid - start
            &&& node_summary(nodes[r]).count == end - mid
            &&& crate::summary::summary_wf(node_summary(nodes[l]))
            &&& crate::summary::summary_wf(node_summary(nodes[r]))
            &&& (nodes[l] is Leaf ==> nodes[l]->Leaf_values@.len() == mid - start)
            &&& (nodes[r] is Leaf ==> nodes[r]->Leaf_values@.len() == end - mid)
            &&& node_summary(nodes[i]) == summary_of(values_of(entries.subrange(start, end)))
            &&& crate::summary::summary_wf(node_summary(nodes[i]))
            &&& node_summary(nodes[i]).count == end - start
        }),
{
    let mid = start + (end - start) / 2;
    let l = nodes[i]->Internal_left as int;
    let r = nodes[i]->Internal_right as int;
    lemma_subtree_node_summary(nodes, l, r, entries, start, mid);
    lemma_subtree_node_summary(nodes, r, j, entries, mid, end);
    lemma_subtree_node_summary(nodes, i, j, entries, start, end);
    if nodes[l] is Leaf {
        lemma_subtree_leaf_shape(nodes, l, r, entries, start, mid);
    }
    if nodes[r] is Leaf {
        lemma_subtree_leaf_shape(nodes, r, j, entries, mid, end);
    }
}

/// `loc` points at a leaf slot of the arena whose value equals the value of
/// the entry of rank `p`.
pub open spec fn loc_ok(
    nodes: Seq<AggregationTreeNode>,
    entries: Seq<Entry>,
    p: int,
    loc: (usize, usize),
) -> bool {
    &&& (loc.0 as int) < nodes.len()
    &&& match nodes[loc.0 as int] {
        AggregationTreeNode::Leaf { values, .. } => {
            &&& (loc.1 as int) < values@.len()
            &&& values@[loc.1 as int] == entries[p].1
        },
        AggregationTreeNode::Internal { .. } => false,
    }
}

/// Fills `position_map[start..end)` with the leaf location of each rank
/// covered by the subtree at `node_idx`, by in-order traversal; returns the
/// number of ranks covered. Slots outside the covered range are untouched.
pub fn build_position_map(
    nodes: &Vec<AggregationTreeNode>,
    node_idx: usize,
    position_map: &mut Vec<(usize, usize)>,
    start_pos: usize,
    Ghost(j): Ghost<int>,
    Ghost(entries): Ghost<Seq<Entry>>,
    Ghost(start): Ghost<int>,
    Ghost(end): Ghost<int>,
) -> (size: usize)
    requires
        subtree_wf(nodes@, node_idx as int, j, entries, start, end),
        old(position_map)@.len() == entries.len(),
        entries.len() <= u32::MAX,
        start_pos == start,
    ensures
        size == end - start,
        final(position_map)@.len() == entries.len(),
        forall|p: int|
            0 <= p < entries.len() && !(start <= p < end) ==> final(position_map)@[p] == old(
                position_map,
            )@[p],
        forall|p: int|
            start <= p < end ==> loc_ok(nodes@, entries, p, #[trigger] final(position_map)@[p]),
    decreases end - start,
{
    match &nodes[node_idx] {
        AggregationTreeNode::Internal { left, right, .. } => {
            let l = *left;
            let r = *right;
            let left_size = build_position_map(
                nodes,
                l,
                position_map,
                start_pos,
                Ghost(r as int),
                Ghost(entries),
                Ghost(start),
                Ghost(start + (end - start) / 2),
            );
            let right_size = build_position_map(
                nodes,
                r,
                position_map,
                start_pos + left_size,
                Ghost(j),
                Ghost(entries),
                Ghost(start + (end - start) / 2),
                Ghost(end),
            );
            left_size + right_size
        },
        AggregationTreeNode::Leaf { values, .. } => {
            let len = values.len();
            let mut i: usize = 0;
            while i < len
                invariant
                    i <= len,
                    len == end - start,
                    start_pos == start,
                    0 <= start <= end <= entries.len() <= u32::MAX,
                    old(position_map)@.len() == entries.len(),
                    node_idx < nodes@.len(),
                    loc_ok_leaf_run(nodes@, entries, node_idx as int, start, end),
                    position_map@.len() == entries.len(),
                    forall|p: int|
                        0 <= p < entries.len() && !(start <= p < start + i)
                            ==> position_map@[p] == old(position_map)@[p],
                    forall|p: int|
                        start <= p < start + i ==> loc_ok(
                            nodes@,
                            entries,
                            p,
                            #[trigger] position_map@[p],
                        ),
                decreases len - i,
            {
                position_map[start_pos + i] = (node_idx, i);
                i = i + 1;
            }
            len
        },
    }
}

/// The slot `node_idx` is a leaf whose values are exactly the values of the
/// entries of ranks `[start, end)`.
pub open spec fn loc_ok_leaf_run(
    nodes: Seq<AggregationTreeNode>,
    entries: Seq<Entry>,
    node_idx: int,
    start: int,
    end: int,
) -> bool {
    &&& 0 <= start <= end <= entries.len()
    &&& 0 <= node_idx < nodes.len()
    &&& match nodes[node_idx] {
        AggregationTreeNode::Leaf { values, .. } => values@ == values_of(
            entries.subrange(start, end),
        ),
        AggregationTreeNode::Internal { .. } => false,
    }
}

/// Rejected construction input.
#[derive(Clone, Copy, Debug, PartialEq, Eq, Structural)]
pub enum BuildError {
    /// The leaf-size threshold was zero; the builder requires at least one.
    InvalidLeafSize,
}

/// The immutable aggregation index: the node arena (root at slot zero), the
/// id-to-rank map and the rank-to-leaf-location map, built together from one
/// value-sorted corpus and never mutated afterwards.
pub struct AggregationIndexTree {
    pub nodes: Vec<AggregationTreeNode>,
    pub doc_id_map: HashMap<u32, usize>,
    pub position_map: Vec<(usize, usize)>,
    pub entries: Ghost<Seq<Entry>>,
}

impl AggregationIndexTree {
    /// Everything the queries rely on: the arena is exactly one well-formed
    /// pre-order tree over the sorted corpus, the id map sends each document
    /// id to its rank and nothing else, and the position map sends each rank
    /// to a leaf slot holding its value.
    pub open spec fn wf(self) -> bool {
        let entries = self.entries@;
        &&& sorted_by_value(entries)
        &&& unique_ids(entries)
        &&& entries.len() <= u32::MAX
        &&& subtree_wf(self.nodes@, 0, self.nodes@.len() as int, entries, 0, entries.len() as int)
        &&& forall|p: int|
            0 <= p < entries.len() ==> self.doc_id_map@.contains_key(
                (#[trigger] entries[p]).0,
            ) && self.doc_id_map@[entries[p].0] == p
        &&& forall|d: u32|
            #[trigger] self.doc_id_map@.contains_key(d) ==> exists|p: int|
                0 <= p < entries.len() && entries[p].0 == d
        &&& self.position_map@.len() == entries.len()
        &&& forall|p: int|
            0 <= p < entries.len() ==> loc_ok(
                self.nodes@,
                entries,
                p,
                #[trigger] self.position_map@[p],
            )
    }

    /// The summary of the whole corpus.
    pub open spec fn global_summary(self) -> SummarySpec {
        summary_of(values_of(self.entries@))
    }
}

/// Builds the index over a value-sorted corpus. Fails fast, before touching
/// anything, exactly when the leaf-size threshold is zero.
pub fn build_aggregation_index_tree(values: &Vec<Entry>, leaf_size: usize) -> (r: Result<
    AggregationIndexTree,
    BuildError,
>)
    requires
        sorted_by_value(values@),
        unique_ids(values@),
        values@.len() <= u32::MAX,
    ensures
        match r {
            Ok(tree) => leaf_size >= 1 && tree.wf() && tree.entries@ == values@,
            Err(e) => leaf_size == 0 && e == BuildError::InvalidLeafSize,
        },
{
    if leaf_size == 0 {
        return Err(BuildError::InvalidLeafSize);
    }

    let n = values.len();
    let mut doc_id_map: HashMap<u32, usize> = HashMap::new();
    let mut i: usize = 0;
    while i < n
        invariant
            n == values@.len() <= u32::MAX,
            i <= n,
            unique_ids(values@),
            forall|p: int|
                0 <= p < i ==> doc_id_map@.contains_key((#[trigger] values@[p]).0)
                    && doc_id_map@[values@[p].0] == p,
            forall|d: u32|
                #[trigger] doc_id_map@.contains_key(d) ==> exists|p: int|
                    0 <= p < i && values@[p].0 == d,
        decreases n - i,
    {
        let (doc_id, _value) = values[i];
        doc_id_map.insert(doc_id, i);
        i = i + 1;
    }

    let mut nodes: Vec<AggregationTreeNode> = Vec::new();
    let _root = build_tree_recursive(&mut nodes, values, 0, n, leaf_size);

    let mut position_map: Vec<(usize, usize)> = Vec::new();
    let mut k: usize = 0;
    while k < n
        invariant
            k <= n,
            position_map@.len() == k,
        decreases n - k,
    {
        position_map.push((0, 0));
        k = k + 1;
    }

    build_position_map(
        &nodes,
        0,
        &mut position_map,
        0,
        Ghost(nodes@.len() as int),
        Ghost(values@),
        Ghost(0),
        Ghost(values@.len() as int),
    );

    Ok(
        AggregationIndexTree {
            nodes,
            doc_id_map,
            position_map,
            entries: Ghost(values@),
        },
    )
}

/// The number of entries held by leaves in the arena slot range `[i, j)`.
pub open spec fn leaf_count_range(nodes: Seq<AggregationTreeNode>, i: int, j: int) -> int
    decreases j - i,
{
    if i < 0 || i >= j || j > nodes.len() {
        0
    } else {
        (match nodes[i] {
            AggregationTreeNode::Leaf { values, .. } => values@.len() as int,
            AggregationTreeNode::Internal { .. } => 0,
        }) + leaf_count_range(nodes, i + 1, j)
    }
}

proof fn lemma_leaf_count_split(nodes: Seq<AggregationTreeNode>, i: int, m: int, j: int)
    requires
        0 <= i <= m <= j <= nodes.len(),
    ensures
        leaf_count_range(nodes, i, j) == leaf_count_range(nodes, i, m) + leaf_count_range(
            nodes,
            m,
            j,
        ),
    decreases m - i,
{
    if i < m {
        lemma_leaf_count_split(nodes, i + 1, m, j);
    }
}

/// A well-formed subtree's leaves hold exactly the entries it covers.
pub proof fn lemma_subtree_leaf_count(
    nodes: Seq<AggregationTreeNode>,
    i: int,
    j: int,
    entries: Seq<Entry>,
    start: int,
    end: int,
)
    requires
        subtree_wf(nodes, i, j, entries, start, end),
    ensures
        leaf_count_range(nodes, i, j) == end - start,
    decreases end - start,
{
    match nodes[i] {
        AggregationTreeNode::Leaf { .. } => {
            assert(leaf_count_range(nodes, i + 1, j) == 0);
        },
        AggregationTreeNode::Internal { right, .. } => {
            let mid = start + (end - start) / 2;
            lemma_subtree_leaf_count(nodes, i + 1, right as int, entries, start, mid);
            lemma_subtree_leaf_count(nodes, right as int, j, entries, mid, end);
            lemma_leaf_count_split(nodes, i + 1, right as int, j);
        },
    }
}

/// Law: conservation — in a built index, the sum of all leaf counts equals
/// the number of input documents, and so does the global aggregate's count.
pub proof fn lemma_conservation(tree: AggregationIndexTree)
    requires
        tree.wf(),
    ensures
        leaf_count_range(tree.nodes@, 0, tree.nodes@.len() as int) == tree.entries@.len(),
        tree.global_summary().count == tree.entries@.len(),
{
    lemma_subtree_leaf_count(
        tree.nodes@,
        0,
        tree.nodes@.len() as int,
        tree.entries@,
        0,
        tree.entries@.len() as int,
    );
    lemma_summary_of_wf(values_of(tree.entries@));
}

/// Law: identity on empty corpus — an index built from zero documents has
/// the identity global aggregate.
pub proof fn lemma_identity_on_empty(tree: AggregationIndexTree)
    requires
        tree.wf(),
        tree.entries@.len() == 0,
    ensures
        tree.global_summary() == identity_summary(),
{
    assert(values_of(tree.entries@) =~= Seq::<u64>::empty());
}

} // verus!
