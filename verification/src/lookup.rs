//! Rank-to-value lookup: O(1) through the position map, with a defensive
//! O(log n) tree descent as fallback. In a well-formed index the fallback is
//! unreachable; it exists as a structural-integrity safety net.

use vstd::prelude::*;

use crate::tree::AggregationIndexTree;
use crate::tree::values_of;
use crate::tree::AggregationTreeNode;
use crate::tree::lemma_subtree_internal_children;
use crate::tree::subtree_wf;

verus! {

impl AggregationIndexTree {
    /// The value of the entry of sorted rank `global_pos` within the subtree
    /// at `node_idx`, found by descending on left-subtree counts.
    fn find_value_recursive(
        &self,
        node_idx: usize,
        global_pos: usize,
        Ghost(j): Ghost<int>,
        Ghost(start): Ghost<int>,
        Ghost(end): Ghost<int>,
    ) -> (r: u64)
        requires
            subtree_wf(self.nodes@, node_idx as int, j, self.entries@, start, end),
            global_pos < end - start,
        ensures
            r == self.entries@[start + global_pos].1,
        decreases end - start,
    {
        let ghost mid = start + (end - start) / 2;
        match &self.nodes[node_idx] {
            AggregationTreeNode::Internal { left, right, .. } => {
                let l = *left;
                let r = *right;
                proof {
                    lemma_subtree_internal_children(
                        self.nodes@,
                        node_idx as int,
                        j,
                        self.entries@,
                        start,
                        end,
                    );
                }
                let left_node = &self.nodes[l];
                let left_count = match left_node {
                    AggregationTreeNode::Internal { aggregations, .. } => aggregations.count
                        as usize,
                    AggregationTreeNode::Leaf { values, .. } => values.len(),
                };

                if global_pos < left_count {
                    self.find_value_recursive(l, global_pos, Ghost(r as int), Ghost(start), Ghost(mid))
                } else {
                    self.find_value_recursive(
                        r,
                        global_pos - left_count,
                        Ghost(j),
                        Ghost(mid),
                        Ghost(end),
                    )
                }
            },
            AggregationTreeNode::Leaf { values, .. } => values[global_pos],
        }
    }

    /// The value of the entry of sorted rank `pos`: since the corpus is
    /// sorted by value, this is the `pos`-th smallest indexed value. Resolved
    /// through the position map; falls back to a tree descent if the map
    /// lookup cannot be used.
    pub fn get_value_at_position(&self, pos: usize) -> (r: u64)
        requires
            self.wf(),
            pos < self.entries@.len(),
        ensures
            r == self.entries@[pos as int].1,
    {
        if pos < self.position_map.len() {
            let (node_idx, offset) = self.position_map[pos];
            match &self.nodes[node_idx] {
                AggregationTreeNode::Leaf { values, .. } => {
                    if offset < values.len() {
                        return values[offset];
                    }
                },
                AggregationTreeNode::Internal { .. } => {},
            }
        }
        self.find_value_recursive(
            0,
            pos,
            Ghost(self.nodes@.len() as int),
            Ghost(0),
            Ghost(self.entries@.len() as int),
        )
    }
}

/// Law: position round-trip — since the corpus is sorted by value, the
/// value at rank `p` (what `get_value_at_position` returns) is the `p`-th
/// element of the ascending sequence of indexed values.
pub proof fn lemma_position_round_trip(tree: AggregationIndexTree, p: int)
    requires
        tree.wf(),
        0 <= p < tree.entries@.len(),
    ensures
        tree.entries@[p].1 == values_of(tree.entries@)[p],
        forall|k: int, l: int|
            0 <= k < l < tree.entries@.len() ==> values_of(tree.entries@)[k] <= values_of(
                tree.entries@,
            )[l],
{
}

} // verus!
