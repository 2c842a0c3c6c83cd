//! Contiguous range aggregation: aggregates the entries of a rank interval,
//! consuming a node's precomputed summary whenever the interval covers the
//! node's whole range, and descending only into partially covered children.

use vstd::prelude::*;

use crate::summary::NodeAggregations;
use crate::summary::combine_summary;
use crate::summary::identity_summary;
use crate::summary::lemma_combine_associative;
use crate::summary::lemma_summary_of_concat;
use crate::summary::lemma_summary_of_wf;
use crate::summary::summary_of;
use crate::summary::summary_wf;
use crate::tree::AggregationIndexTree;
use crate::tree::AggregationTreeNode;
use crate::tree::Entry;
use crate::tree::subtree_wf;
use crate::tree::values_of;

verus! {

/// The summary of the values of the entries of ranks `[lo, hi]`, inclusive.
pub open spec fn range_summary(entries: Seq<Entry>, lo: int, hi: int) -> crate::summary::SummarySpec {
    summary_of(values_of(entries.subrange(lo, hi + 1)))
}

impl AggregationIndexTree {
    /// Folds the summary of the ranks `[start_pos, end_pos]` (relative to the
    /// range covered by the subtree at `node_idx`) into `result`, consuming
    /// precomputed node summaries wherever the interval covers a whole node.
    #[verifier::rlimit(50)]
    pub fn recursive_range_query(
        &self,
        result: &mut NodeAggregations,
        node_idx: usize,
        start_pos: usize,
        end_pos: usize,
        Ghost(j): Ghost<int>,
        Ghost(start): Ghost<int>,
        Ghost(end): Ghost<int>,
    )
        requires
            subtree_wf(self.nodes@, node_idx as int, j, self.entries@, start, end),
            self.entries@.len() <= u32::MAX,
            start_pos <= end_pos < end - start,
            summary_wf(old(result)@),
            old(result)@.count + (end - start) <= u32::MAX,
        ensures
            final(result)@ == combine_summary(
                old(result)@,
                range_summary(self.entries@, start + start_pos, start + end_pos),
            ),
            summary_wf(final(result)@),
        decreases end - start,
    {
        let ghost entries = self.entries@;
        let ghost mid = start + (end - start) / 2;
        match &self.nodes[node_idx] {
            AggregationTreeNode::Internal { left, right, aggregations, .. } => {
                let l = *left;
                let r = *right;
                proof {
                    crate::tree::lemma_subtree_internal_children(
                        self.nodes@,
                        node_idx as int,
                        j,
                        entries,
                        start,
                        end,
                    );
                }

                let left_size = match &self.nodes[l] {
                    AggregationTreeNode::Internal { aggregations, .. } => aggregations.count
                        as usize,
                    AggregationTreeNode::Leaf { values, .. } => values.len(),
                };
                let right_size = match &self.nodes[r] {
                    AggregationTreeNode::Internal { aggregations, .. } => aggregations.count
                        as usize,
                    AggregationTreeNode::Leaf { values, .. } => values.len(),
                };
                proof {
                    assert(left_size == mid - start);
                    assert(right_size == end - mid);
                }

                let left_start: usize = 0;
                let left_end = left_size - 1;
                let right_start = left_size;
                let right_end = right_start + right_size - 1;

                // The whole node range lies inside the queried interval:
                // consume its precomputed summary.
                if start_pos <= left_start && end_pos >= right_end {
                    result.merge(aggregations);
                    proof {
                        assert(entries.subrange(start + start_pos, start + end_pos + 1) =~= entries
                            .subrange(start, end));
                    }
                    return ;
                }

                let ghost mid_state = old(result)@;
                let ghost left_part = if start_pos <= left_end {
                    let o_s = if start_pos > left_start { start_pos as int } else { 0 };
                    let o_e = if end_pos < left_end { end_pos as int } else { left_end as int };
                    range_summary(entries, start + o_s, start + o_e)
                } else {
                    identity_summary()
                };

                if start_pos <= left_end && end_pos >= left_start {
                    let overlap_start = if start_pos > left_start {
                        start_pos
                    } else {
                        left_start
                    };
                    let overlap_end = if end_pos < left_end {
                        end_pos
                    } else {
                        left_end
                    };

                    if overlap_start == left_start && overlap_end == left_end {
                        let left_aggs = match &self.nodes[l] {
                            AggregationTreeNode::Internal { aggregations, .. } => *aggregations,
                            AggregationTreeNode::Leaf { aggregations, .. } => *aggregations,
                        };
                        result.merge(&left_aggs);
                        proof {
                            assert(entries.subrange(start, mid) =~= entries.subrange(
                                start + overlap_start,
                                start + overlap_end + 1,
                            ));
                        }
                    } else {
                        self.recursive_range_query(
                            result,
                            l,
                            overlap_start,
                            overlap_end,
                            Ghost(r as int),
                            Ghost(start),
                            Ghost(mid),
                        );
                    }
                }

                proof {
                    assert(result@ == combine_summary(mid_state, left_part));
                    if start_pos <= left_end {
                        let o_s = if start_pos > left_start { start_pos as int } else { 0 };
                        let o_e = if end_pos < left_end { end_pos as int } else { left_end as int };
                        lemma_summary_of_wf(values_of(entries.subrange(start + o_s, start + o_e + 1)));
                    }
                }

                if start_pos <= right_end && end_pos >= right_start {
                    let overlap_start = if start_pos > right_start {
                        start_pos
                    } else {
                        right_start
                    };
                    let overlap_end = if end_pos < right_end {
                        end_pos
                    } else {
                        right_end
                    };
                    let ghost right_part = range_summary(
                        entries,
                        mid + (overlap_start - right_start),
                        mid + (overlap_end - right_start),
                    );

                    if overlap_start == right_start && overlap_end == right_end {
                        let right_aggs = match &self.nodes[r] {
                            AggregationTreeNode::Internal { aggregations, .. } => *aggregations,
                            AggregationTreeNode::Leaf { aggregations, .. } => *aggregations,
                        };
                        result.merge(&right_aggs);
                        proof {
                            assert(entries.subrange(mid, end) =~= entries.subrange(
                                mid + (overlap_start - right_start),
                                mid + (overlap_end - right_start) + 1,
                            ));
                        }
                    } else {
                        self.recursive_range_query(
                            result,
                            r,
                            overlap_start - right_start,
                            overlap_end - right_start,
                            Ghost(j),
                            Ghost(mid),
                            Ghost(end),
                        );
                    }

                    proof {
                        assert(result@ == combine_summary(
                            combine_summary(mid_state, left_part),
                            right_part,
                        ));
                        lemma_combine_associative(mid_state, left_part, right_part);
                        let lo = start + start_pos;
                        let hi = start + end_pos;
                        if start_pos <= left_end {
                            // The interval spans both children: stitch the
                            // two partial summaries back together.
                            let a = entries.subrange(lo, mid);
                            let b = entries.subrange(mid, hi + 1);
                            assert(entries.subrange(lo, hi + 1) =~= a + b);
                            assert(values_of(a + b) =~= values_of(a) + values_of(b));
                            lemma_summary_of_concat(values_of(a), values_of(b));
                        }
                    }
                }
            },
            AggregationTreeNode::Leaf { values, .. } => {
                let last = values.len() - 1;
                let limit = if end_pos < last {
                    end_pos
                } else {
                    last
                };
                let mut i = start_pos;
                proof {
                    assert(entries.subrange(start + start_pos, start + start_pos) =~= Seq::<
                        Entry,
                    >::empty());
                    assert(values_of(Seq::<Entry>::empty()) =~= Seq::<u64>::empty());
                }
                while i <= limit
                    invariant
                        values@ == values_of(entries.subrange(start, end)),
                        start_pos <= i <= limit + 1,
                        limit == end_pos,
                        0 <= start <= end <= entries.len(),
                        start_pos <= end_pos < end - start,
                        entries.len() <= u32::MAX,
                        summary_wf(result@),
                        old(result)@.count + (end - start) <= u32::MAX,
                        summary_wf(old(result)@),
                        result@ == combine_summary(
                            old(result)@,
                            summary_of(
                                values_of(entries.subrange(start + start_pos, start + i)),
                            ),
                        ),
                    decreases limit + 1 - i,
                {
                    let value = values[i];
                    proof {
                        let pre = values_of(entries.subrange(start + start_pos, start + i));
                        lemma_summary_of_wf(pre);
                        crate::summary::lemma_summary_of_push(pre, value);
                        assert(entries.subrange(start + start_pos, start + i + 1) =~= entries
                            .subrange(start + start_pos, start + i).push(entries[start + i]));
                        assert(values_of(entries.subrange(start + start_pos, start + i + 1)) =~= pre
                            .push(value));
                        lemma_combine_associative(
                            old(result)@,
                            summary_of(pre),
                            crate::summary::singleton_summary(value),
                        );
                    }
                    result.merge_value(value);
                    i = i + 1;
                }
            },
        }
    }

    /// Aggregates the entries whose ranks lie in `[start_pos, end_pos]`,
    /// inclusive, in `O(log n + overlap/leaf size)` node visits.
    pub fn range_aggregate(&self, start_pos: usize, end_pos: usize) -> (r: NodeAggregations)
        requires
            self.wf(),
            start_pos <= end_pos < self.entries@.len(),
        ensures
            r@ == range_summary(self.entries@, start_pos as int, end_pos as int),
            summary_wf(r@),
    {
        let mut result = NodeAggregations::empty();
        self.recursive_range_query(
            &mut result,
            0,
            start_pos,
            end_pos,
            Ghost(self.nodes@.len() as int),
            Ghost(0),
            Ghost(self.entries@.len() as int),
        );
        result
    }
}

/// Law: aggregating the full rank range `[0, count - 1]` of a non-empty index
/// yields exactly the global summary.
pub proof fn lemma_range_aggregation_consistency(tree: AggregationIndexTree)
    requires
        tree.wf(),
        tree.entries@.len() > 0,
    ensures
        range_summary(tree.entries@, 0, tree.entries@.len() - 1) == tree.global_summary(),
{
    assert(tree.entries@.subrange(0, tree.entries@.len() as int) =~= tree.entries@);
}

} // verus!
