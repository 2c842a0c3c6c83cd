//! The memory accountant: an estimate of the index's resident bytes, summing
//! a fixed overhead per arena node, the bytes of the leaf arrays, and the id
//! map's entries. Reporting only; stored element counts stand in for
//! allocator capacities, which the model cannot observe.

use vstd::prelude::*;

use crate::tree::AggregationIndexTree;
use crate::tree::AggregationTreeNode;
use crate::tree::Entry;
use crate::tree::ids_of;
use crate::tree::subtree_wf;

verus! {

broadcast use vstd::std_specs::hash::group_hash_axioms;

/// Fixed bytes charged per arena node (tag, references and summary).
pub const NODE_OVERHEAD_BYTES: u64 = 72;

/// Bytes per stored document id.
pub const DOC_ID_BYTES: u64 = 4;

/// Bytes per stored value.
pub const VALUE_BYTES: u64 = 8;

/// Bytes per id-map entry (a document id and a rank).
pub const MAP_ENTRY_BYTES: u64 = 12;

/// The bytes charged to one node.
pub open spec fn node_bytes(n: AggregationTreeNode) -> int {
    match n {
        AggregationTreeNode::Internal { .. } => NODE_OVERHEAD_BYTES as int,
        AggregationTreeNode::Leaf { doc_ids, values, .. } => NODE_OVERHEAD_BYTES + doc_ids@.len()
            * (DOC_ID_BYTES as int) + values@.len() * (VALUE_BYTES as int),
    }
}

/// The bytes charged to the arena slots `[i, j)`.
pub open spec fn arena_bytes_range(nodes: Seq<AggregationTreeNode>, i: int, j: int) -> int
    decreases j - i,
{
    if i < 0 || i >= j || j > nodes.len() {
        0
    } else {
        node_bytes(nodes[i]) + arena_bytes_range(nodes, i + 1, j)
    }
}

/// The whole estimate: the arena plus the id map.
pub open spec fn estimate_spec(tree: AggregationIndexTree) -> int {
    arena_bytes_range(tree.nodes@, 0, tree.nodes@.len() as int) + tree.doc_id_map@.len() * (
    MAP_ENTRY_BYTES as int)
}

proof fn lemma_arena_bytes_split(nodes: Seq<AggregationTreeNode>, i: int, m: int, j: int)
    requires
        0 <= i <= m <= j <= nodes.len(),
    ensures
        arena_bytes_range(nodes, i, j) == arena_bytes_range(nodes, i, m) + arena_bytes_range(
            nodes,
            m,
            j,
        ),
    decreases m - i,
{
    if i < m {
        lemma_arena_bytes_split(nodes, i + 1, m, j);
    }
}

/// A well-formed subtree occupies one slot per leaf run plus its internal
/// nodes: at most `2 * covered - 1` slots (one slot for an empty run).
pub proof fn lemma_subtree_span(
    nodes: Seq<AggregationTreeNode>,
    i: int,
    j: int,
    entries: Seq<Entry>,
    start: int,
    end: int,
)
    requires
        subtree_wf(nodes, i, j, entries, start, end),
    ensures
        end - start == 0 ==> j - i == 1,
        end - start >= 1 ==> j - i <= 2 * (end - start) - 1,
    decreases end - start,
{
    match nodes[i] {
        AggregationTreeNode::Leaf { .. } => {},
        AggregationTreeNode::Internal { right, .. } => {
            let mid = start + (end - start) / 2;
            lemma_subtree_span(nodes, i + 1, right as int, entries, start, mid);
            lemma_subtree_span(nodes, right as int, j, entries, mid, end);
        },
    }
}

/// The bytes of a well-formed subtree are bounded by its slots and covered
/// entries, so the whole estimate fits comfortably in 64 bits.
proof fn lemma_subtree_bytes_bound(
    nodes: Seq<AggregationTreeNode>,
    i: int,
    j: int,
    entries: Seq<Entry>,
    start: int,
    end: int,
)
    requires
        subtree_wf(nodes, i, j, entries, start, end),
    ensures
        arena_bytes_range(nodes, i, j) <= (j - i) * (NODE_OVERHEAD_BYTES as int) + (end - start)
            * 12,
        arena_bytes_range(nodes, i, j) >= 0,
    decreases end - start,
{
    match nodes[i] {
        AggregationTreeNode::Leaf { .. } => {
            assert(arena_bytes_range(nodes, i + 1, j) == 0);
        },
        AggregationTreeNode::Internal { right, .. } => {
            let mid = start + (end - start) / 2;
            lemma_subtree_bytes_bound(nodes, i + 1, right as int, entries, start, mid);
            lemma_subtree_bytes_bound(nodes, right as int, j, entries, mid, end);
            lemma_arena_bytes_split(nodes, i + 1, right as int, j);
        },
    }
}

proof fn lemma_arena_bytes_nonneg(nodes: Seq<AggregationTreeNode>, i: int, j: int)
    ensures
        arena_bytes_range(nodes, i, j) >= 0,
    decreases j - i,
{
    if 0 <= i < j && j <= nodes.len() {
        lemma_arena_bytes_nonneg(nodes, i + 1, j);
        match nodes[i] {
            AggregationTreeNode::Leaf { .. } => {},
            AggregationTreeNode::Internal { .. } => {},
        }
    }
}

/// The id map of a well-formed index holds exactly one entry per document.
pub proof fn lemma_doc_id_map_len(tree: AggregationIndexTree)
    requires
        tree.wf(),
    ensures
        tree.doc_id_map@.len() == tree.entries@.len(),
{
    broadcast use vstd::seq_lib::seq_to_set_is_finite;

    let entries = tree.entries@;
    let idseq = ids_of(entries);
    assert(idseq.no_duplicates()) by {
        assert forall|k: int, l: int|
            0 <= k < idseq.len() && 0 <= l < idseq.len() && k != l implies idseq[k]
            != idseq[l] by {
            assert(idseq[k] == entries[k].0);
            assert(idseq[l] == entries[l].0);
        }
    }
    idseq.unique_seq_to_set();
    assert(tree.doc_id_map@.dom() =~= idseq.to_set()) by {
        assert forall|d: u32| #[trigger]
            tree.doc_id_map@.dom().contains(d) == idseq.to_set().contains(d) by {
            if tree.doc_id_map@.contains_key(d) {
                let p = choose|p: int| 0 <= p < entries.len() && entries[p].0 == d;
                assert(idseq[p] == d);
                assert(idseq.contains(d));
            }
            if idseq.to_set().contains(d) {
                let p = choose|p: int| 0 <= p < idseq.len() && idseq[p] == d;
                assert(entries[p].0 == d);
                assert(tree.doc_id_map@.contains_key(entries[p].0));
            }
        }
    }
}

impl AggregationIndexTree {
    /// Estimates the resident bytes of the index: per-node overhead, leaf
    /// array contents, and the id map's entries.
    pub fn estimate_memory_bytes(&self) -> (r: u64)
        requires
            self.wf(),
        ensures
            r == estimate_spec(*self),
    {
        let ghost entries = self.entries@;
        let n = self.nodes.len();
        proof {
            lemma_subtree_span(self.nodes@, 0, n as int, entries, 0, entries.len() as int);
            lemma_subtree_bytes_bound(self.nodes@, 0, n as int, entries, 0, entries.len() as int);
            lemma_doc_id_map_len(*self);
            assert((n as int) * (NODE_OVERHEAD_BYTES as int) + (entries.len() as int) * 12
                <= 0x8_0000_0000int * 72 + 0x1_0000_0000int * 12) by (nonlinear_arith)
                requires
                    n as int <= 2 * 0x1_0000_0000int,
                    entries.len() <= 0x1_0000_0000int,
            ;
        }
        let mut size: u64 = 0;
        let mut i: usize = 0;
        while i < n
            invariant
                self.wf(),
                entries == self.entries@,
                n == self.nodes@.len(),
                i <= n,
                size == arena_bytes_range(self.nodes@, 0, i as int),
                arena_bytes_range(self.nodes@, 0, n as int) <= 0x8_0000_0000int * 72
                    + 0x1_0000_0000int * 12,
            decreases n - i,
        {
            proof {
                lemma_arena_bytes_split(self.nodes@, 0, i as int, n as int);
                lemma_arena_bytes_split(self.nodes@, i + 1, i + 1, n as int);
                lemma_arena_bytes_nonneg(self.nodes@, i + 1, n as int);
                lemma_arena_bytes_nonneg(self.nodes@, 0, i as int);
                assert(arena_bytes_range(self.nodes@, i as int, n as int) == node_bytes(
                    self.nodes@[i as int],
                ) + arena_bytes_range(self.nodes@, i + 1, n as int));
                lemma_arena_bytes_split(self.nodes@, 0, i as int, i + 1);
                assert(arena_bytes_range(self.nodes@, i + 1, i + 1) == 0);
                assert(arena_bytes_range(self.nodes@, i as int, i + 1) == node_bytes(
                    self.nodes@[i as int],
                ));
            }
            let node_size: u64 = match &self.nodes[i] {
                AggregationTreeNode::Internal { .. } => NODE_OVERHEAD_BYTES,
                AggregationTreeNode::Leaf { doc_ids, values, .. } => {
                    proof {
                        assert(doc_ids@.len() * (DOC_ID_BYTES as int) + values@.len() * (
                        VALUE_BYTES as int) >= 0) by (nonlinear_arith);
                    }
                    NODE_OVERHEAD_BYTES + (doc_ids.len() as u64) * DOC_ID_BYTES + (values.len()
                        as u64) * VALUE_BYTES
                },
            };
            size = size + node_size;
            i = i + 1;
        }
        size + (self.doc_id_map.len() as u64) * MAP_ENTRY_BYTES
    }
}

} // verus!
