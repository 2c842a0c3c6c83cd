//! The filtered-query engine: global aggregation in O(1) from the root, and
//! filtered aggregation under a bitmap of document ids, dispatching among an
//! identity shortcut, a complement-based dense path, a sequential path and a
//! parallel path — all proved against `filtered_summary`.

use vstd::prelude::*;
use roaring::RoaringBitmap;
use rayon::iter::IntoParallelRefIterator;
use rayon::iter::ParallelIterator;

use crate::bitmap::bitmap_contains;
use crate::bitmap::bitmap_ids;
use crate::bitmap::bitmap_insert;
use crate::bitmap::bitmap_is_empty;
use crate::bitmap::bitmap_len;
use crate::bitmap::bitmap_new;
use crate::bitmap::bitmap_to_vec;
use crate::filter::lemma_positions_characterize;
use crate::filter::in_filter;
use crate::filter::filtered_summary;
use crate::filter::filtered_values;
use crate::filter::values_at;
use crate::summary::NodeAggregations;
use crate::summary::SummarySpec;
use crate::summary::combine_summary;
use crate::summary::lemma_combine_associative;
use crate::summary::lemma_summary_of_concat;
use crate::summary::lemma_summary_of_push;
use crate::summary::lemma_summary_of_wf;
use crate::summary::singleton_summary;
use crate::summary::summary_of;
use crate::summary::summary_wf;
use crate::tree::AggregationIndexTree;
use crate::tree::AggregationTreeNode;
use crate::tree::lemma_subtree_node_summary;
use crate::tree::values_of;

verus! {

broadcast use vstd::std_specs::hash::group_hash_axioms;

/// Relies on slice::sort_unstable (std): sorts the ranks in place, ascending;
/// the result holds the same multiset of ranks.
#[verifier::external_body]
fn sort_positions(v: &mut Vec<usize>)
    ensures
        final(v)@.to_multiset() == old(v)@.to_multiset(),
        forall|k: int, l: int|
            #![trigger final(v)@[k], final(v)@[l]]
            0 <= k <= l < final(v)@.len() ==> final(v)@[k] <= final(v)@[l],
        final(v)@.len() == old(v)@.len(),
{
    v.sort_unstable();
}

impl AggregationIndexTree {
    /// The root's precomputed summary: the global aggregate, in O(1).
    pub fn get_global_aggregations(&self) -> (r: NodeAggregations)
        requires
            self.wf(),
        ensures
            r@ == self.global_summary(),
            summary_wf(r@),
    {
        proof {
            lemma_summary_of_wf(values_of(self.entries@));
        }
        if self.nodes.is_empty() {
            return NodeAggregations::empty();
        }
        proof {
            lemma_subtree_node_summary(
                self.nodes@,
                0,
                self.nodes@.len() as int,
                self.entries@,
                0,
                self.entries@.len() as int,
            );
            assert(self.entries@.subrange(0, self.entries@.len() as int) =~= self.entries@);
        }
        match &self.nodes[0] {
            AggregationTreeNode::Internal { aggregations, .. } => *aggregations,
            AggregationTreeNode::Leaf { aggregations, .. } => *aggregations,
        }
    }

    /// Translates document ids (strictly ascending) to sorted-corpus ranks
    /// through the id map; ids absent from the corpus are silently dropped.
    fn translate_positions(&self, ids: &Vec<u32>) -> (positions: Vec<usize>)
        requires
            self.wf(),
            forall|k: int, l: int|
                #![trigger ids@[k], ids@[l]]
                0 <= k < l < ids@.len() ==> ids@[k] < ids@[l],
        ensures
            positions@.no_duplicates(),
            forall|q: usize| #[trigger]
                positions@.contains(q) ==> (q as int) < self.entries@.len() && ids@.contains(
                    self.entries@[q as int].0,
                ),
            forall|p: int|
                0 <= p < self.entries@.len() && ids@.contains(#[trigger] self.entries@[p].0)
                    ==> positions@.contains(p as usize),
    {
        let ghost entries = self.entries@;
        let mut positions: Vec<usize> = Vec::with_capacity(ids.len());
        let n = ids.len();
        let mut i: usize = 0;
        while i < n
            invariant
                self.wf(),
                entries == self.entries@,
                n == ids@.len(),
                i <= n,
                forall|k: int, l: int|
                    #![trigger ids@[k], ids@[l]]
                    0 <= k < l < ids@.len() ==> ids@[k] < ids@[l],
                positions@.no_duplicates(),
                forall|q: usize| #[trigger]
                    positions@.contains(q) ==> (q as int) < entries.len() && ids@.take(
                        i as int,
                    ).contains(entries[q as int].0),
                forall|p: int|
                    0 <= p < entries.len() && ids@.take(i as int).contains(
                        #[trigger] entries[p].0,
                    ) ==> positions@.contains(p as usize),
            decreases n - i,
        {
            let doc_id = ids[i];
            let ghost old_positions = positions@;
            match self.doc_id_map.get(&doc_id) {
                Some(pos) => {
                    let p = *pos;
                    proof {
                        assert(self.doc_id_map@.contains_key(doc_id));
                        let w = choose|w: int|
                            0 <= w < entries.len() && entries[w].0 == doc_id;
                        assert(self.doc_id_map@[entries[w].0] == w);
                        assert(p as int == w);
                        assert(entries[p as int].0 == doc_id);
                        assert(!old_positions.contains(p)) by {
                            if old_positions.contains(p) {
                                assert(ids@.take(i as int).contains(entries[p as int].0));
                                let k = choose|k: int|
                                    0 <= k < i && ids@.take(i as int)[k] == doc_id;
                                assert(ids@[k] < ids@[i as int]);
                            }
                        }
                    }
                    positions.push(p);
                },
                None => {
                    proof {
                        assert(!self.doc_id_map@.contains_key(doc_id));
                    }
                },
            }
            proof {
                assert(ids@.take(i + 1) =~= ids@.take(i as int).push(ids@[i as int]));
                assert forall|q: usize| #[trigger]
                    positions@.contains(q) implies (q as int) < entries.len() && ids@.take(
                    i + 1,
                ).contains(entries[q as int].0) by {
                    if old_positions.contains(q) {
                        let k = choose|k: int|
                            0 <= k < i && ids@.take(i as int)[k] == entries[q as int].0;
                        assert(ids@.take(i + 1)[k] == entries[q as int].0);
                    } else {
                        assert(positions@.last() == q);
                        assert(ids@.take(i + 1)[i as int] == ids@[i as int]);
                    }
                }
                assert forall|p: int|
                    0 <= p < entries.len() && ids@.take(i + 1).contains(
                        #[trigger] entries[p].0,
                    ) implies positions@.contains(p as usize) by {
                    let k = choose|k: int| 0 <= k <= i && #[trigger] ids@.take(i + 1)[k] == entries[p].0;
                    if k < i {
                        assert(ids@.take(i as int)[k] == entries[p].0);
                        assert(ids@.take(i as int).contains(entries[p].0));
                        assert(old_positions.contains(p as usize));
                        if old_positions != positions@ {
                            let w = choose|w: int|
                                0 <= w < old_positions.len() && old_positions[w] == p as usize;
                            assert(positions@[w] == p as usize);
                        }
                    } else {
                        // The id just processed: it was found in the map,
                        // since its entry witnesses membership.
                        assert(entries[p].0 == ids@[i as int]);
                        assert(self.doc_id_map@.contains_key(entries[p].0));
                        assert(self.doc_id_map@[entries[p].0] == p);
                        assert(positions@.last() == p as usize);
                        assert(positions@.contains(p as usize));
                    }
                }
            }
            i = i + 1;
        }
        proof {
            assert(ids@.take(n as int) =~= ids@);
        }
        positions
    }

    /// Folds the values at a batch of ranks into the running summary. Batches
    /// under 32 ranks accumulate straight into `result`; larger ones fold
    /// into a local summary in cache-sized sub-chunks of 16 and merge once.
    /// Both produce the identical aggregate.
    pub fn process_position_batch(&self, result: &mut NodeAggregations, positions: &[usize])
        requires
            self.wf(),
            forall|k: int|
                0 <= k < positions@.len() ==> (#[trigger] positions@[k] as int)
                    < self.entries@.len(),
            summary_wf(old(result)@),
            old(result)@.count + positions@.len() <= u32::MAX,
        ensures
            final(result)@ == combine_summary(
                old(result)@,
                summary_of(values_at(self.entries@, positions@)),
            ),
            summary_wf(final(result)@),
    {
        let ghost entries = self.entries@;
        let n = positions.len();
        proof {
            assert(values_at(entries, positions@.take(0)) =~= Seq::<u64>::empty());
        }
        if n < 32 {
            let mut i: usize = 0;
            while i < n
                invariant
                    self.wf(),
                    entries == self.entries@,
                    n == positions@.len(),
                    i <= n,
                    forall|k: int|
                        0 <= k < positions@.len() ==> (#[trigger] positions@[k] as int)
                            < entries.len(),
                    summary_wf(old(result)@),
                    old(result)@.count + n <= u32::MAX,
                    summary_wf(result@),
                    result@ == combine_summary(
                        old(result)@,
                        summary_of(values_at(entries, positions@.take(i as int))),
                    ),
                decreases n - i,
            {
                let pos = positions[i];
                let value = self.get_value_at_position(pos);
                proof {
                    let pre = values_at(entries, positions@.take(i as int));
                    lemma_summary_of_wf(pre);
                    lemma_summary_of_push(pre, value);
                    assert(values_at(entries, positions@.take(i + 1)) =~= pre.push(value));
                    lemma_combine_associative(
                        old(result)@,
                        summary_of(pre),
                        singleton_summary(value),
                    );
                }
                result.merge_value(value);
                i = i + 1;
            }
            proof {
                assert(positions@.take(n as int) =~= positions@);
            }
            return ;
        }

        let mut local = NodeAggregations::empty();
        let mut c: usize = 0;
        while c < n
            invariant
                self.wf(),
                entries == self.entries@,
                n == positions@.len(),
                c <= n,
                n <= u32::MAX,
                forall|k: int|
                    0 <= k < positions@.len() ==> (#[trigger] positions@[k] as int)
                        < entries.len(),
                summary_wf(local@),
                local@ == summary_of(values_at(entries, positions@.take(c as int))),
            decreases n - c,
        {
            let hi = if n - c > 16 {
                c + 16
            } else {
                n
            };
            let mut j = c;
            while j < hi
                invariant
                    self.wf(),
                    entries == self.entries@,
                    n == positions@.len(),
                    c <= j <= hi <= n,
                    n <= u32::MAX,
                    forall|k: int|
                        0 <= k < positions@.len() ==> (#[trigger] positions@[k] as int)
                            < entries.len(),
                    summary_wf(local@),
                    local@ == summary_of(values_at(entries, positions@.take(j as int))),
                decreases hi - j,
            {
                let pos = positions[j];
                let value = self.get_value_at_position(pos);
                proof {
                    let pre = values_at(entries, positions@.take(j as int));
                    lemma_summary_of_wf(pre);
                    lemma_summary_of_push(pre, value);
                    assert(values_at(entries, positions@.take(j + 1)) =~= pre.push(value));
                }
                local.merge_value(value);
                j = j + 1;
            }
            c = hi;
        }
        proof {
            assert(positions@.take(n as int) =~= positions@);
            lemma_summary_of_wf(values_at(entries, positions@));
        }
        if local.count > 0 {
            result.merge(&local);
        }
    }

    /// The summary of the values at one chunk of ranks, folded in batches of
    /// 1,024 through the batch processor.
    fn aggregate_positions(&self, chunk: &Vec<usize>) -> (r: NodeAggregations)
        requires
            self.wf(),
            forall|k: int|
                0 <= k < chunk@.len() ==> (#[trigger] chunk@[k] as int) < self.entries@.len(),
            chunk@.len() <= u32::MAX,
        ensures
            r@ == summary_of(values_at(self.entries@, chunk@)),
            summary_wf(r@),
    {
        let ghost entries = self.entries@;
        let mut result = NodeAggregations::empty();
        let n = chunk.len();
        let mut i: usize = 0;
        proof {
            assert(values_at(entries, chunk@.take(0)) =~= Seq::<u64>::empty());
        }
        while i < n
            invariant
                self.wf(),
                entries == self.entries@,
                n == chunk@.len() <= u32::MAX,
                i <= n,
                forall|k: int|
                    0 <= k < chunk@.len() ==> (#[trigger] chunk@[k] as int) < entries.len(),
                summary_wf(result@),
                result@ == summary_of(values_at(entries, chunk@.take(i as int))),
            decreases n - i,
        {
            let hi = if n - i > 1024 {
                i + 1024
            } else {
                n
            };
            let batch = &chunk[i..hi];
            proof {
                let pre = values_at(entries, chunk@.take(i as int));
                lemma_summary_of_wf(pre);
                lemma_summary_of_wf(values_at(entries, batch@));
                lemma_summary_of_concat(pre, values_at(entries, batch@));
                assert(values_at(entries, chunk@.take(hi as int)) =~= pre + values_at(
                    entries,
                    batch@,
                ));
            }
            self.process_position_batch(&mut result, batch);
            i = hi;
        }
        proof {
            assert(chunk@.take(n as int) =~= chunk@);
        }
        result
    }
}

/// The rank where the `c`-th parallel chunk of `n` sorted ranks begins (the
/// chunks are 50,000 ranks wide; the last one may be shorter).
pub open spec fn block_start(c: int, n: int) -> int {
    if c * 50000 <= n {
        c * 50000
    } else {
        n
    }
}

/// A chunk the parallel path may hand to a worker: ranks into the corpus.
pub open spec fn chunk_ok(tree: AggregationIndexTree, chunk: Seq<usize>) -> bool {
    &&& chunk.len() <= u32::MAX
    &&& forall|k: int| 0 <= k < chunk.len() ==> (#[trigger] chunk[k] as int) < tree.entries@.len()
}

/// The set of document ranks in `[0, count)` that a dense filter excludes.
pub open spec fn complement_ids(f: Set<u32>, count: nat) -> Set<u32> {
    Set::new(|d: u32| (d as nat) < count && !f.contains(d))
}

/// What a filtered query returns, as a function of the corpus and the filter
/// set, mirroring the dispatch policy: identity for an empty filter; the
/// global summary when the filter's cardinality matches the corpus (the
/// filter is then assumed to cover all documents); for a dense filter (over
/// 80% of the corpus) the complement-based subtraction, which keeps the
/// global min and max unchanged; otherwise the exact filtered summary.
pub open spec fn query_spec(entries: Seq<crate::tree::Entry>, f: Set<u32>) -> SummarySpec {
    let g = summary_of(values_of(entries));
    if f =~= Set::<u32>::empty() {
        crate::summary::identity_summary()
    } else if f.len() == g.count {
        g
    } else if f.len() > g.count * 80 / 100 {
        let compl = complement_ids(f, g.count);
        if compl =~= Set::<u32>::empty() {
            g
        } else {
            let excl = filtered_summary(entries, compl);
            SummarySpec {
                min: g.min,
                max: g.max,
                sum: g.sum - excl.sum,
                count: (g.count - excl.count) as nat,
            }
        }
    } else {
        filtered_summary(entries, f)
    }
}

impl AggregationIndexTree {
    /// Relies on rayon's `par_iter().map().collect()`: an order-preserving
    /// data-parallel map over the chunk list; each element is produced by the
    /// verified `aggregate_positions`, whose contract gives the clause below.
    #[verifier::external_body]
    fn par_chunk_summaries(&self, chunks: &Vec<Vec<usize>>) -> (r: Vec<NodeAggregations>)
        requires
            self.wf(),
            forall|c: int| 0 <= c < chunks@.len() ==> chunk_ok(*self, #[trigger] chunks@[c]@),
        ensures
            r@.len() == chunks@.len(),
            forall|c: int|
                0 <= c < chunks@.len() ==> #[trigger] r@[c]@ == summary_of(
                    values_at(self.entries@, chunks@[c]@),
                ),
    {
        chunks.par_iter().map(|chunk| self.aggregate_positions(chunk)).collect()
    }

    /// Sequential filtered aggregation: translate the filter's ids to sorted
    /// ranks (dropping ids outside the corpus), sort them for locality, and
    /// fold them in batches.
    pub fn direct_query_sequential(&self, bitmap: &RoaringBitmap) -> (r: NodeAggregations)
        requires
            self.wf(),
        ensures
            r@ == filtered_summary(self.entries@, bitmap_ids(*bitmap)),
            summary_wf(r@),
    {
        let ghost entries = self.entries@;
        let ghost f = bitmap_ids(*bitmap);
        let ids = bitmap_to_vec(bitmap);
        let mut positions = self.translate_positions(&ids);
        let ghost unsorted = positions@;
        sort_positions(&mut positions);
        proof {
            lemma_positions_characterize(entries, f, ids@, unsorted, positions@);
        }
        self.aggregate_positions(&positions)
    }

    /// Parallel filtered aggregation: the same rank translation and sort,
    /// then fixed chunks of 50,000 ranks aggregated concurrently over the
    /// shared immutable index and combined in chunk order.
    pub fn direct_query_parallel(&self, bitmap: &RoaringBitmap) -> (r: NodeAggregations)
        requires
            self.wf(),
        ensures
            r@ == filtered_summary(self.entries@, bitmap_ids(*bitmap)),
            summary_wf(r@),
    {
        let ghost entries = self.entries@;
        let ghost f = bitmap_ids(*bitmap);
        let ids = bitmap_to_vec(bitmap);
        let mut positions = self.translate_positions(&ids);

        if positions.is_empty() {
            proof {
                let pred = in_filter(f);
                assert forall|p: int| 0 <= p < entries.len() implies !pred(#[trigger] entries[p]) by {
                    if f.contains(entries[p].0) {
                        assert(ids@.to_set().contains(entries[p].0));
                        assert(positions@.contains(p as usize));
                    }
                }
                assert(entries.all(|e: crate::tree::Entry| !pred(e)));
                entries.lemma_all_neg_filter_empty(pred);
                assert(filtered_values(entries, f) =~= Seq::<u64>::empty());
            }
            return NodeAggregations::empty();
        }

        let ghost unsorted = positions@;
        sort_positions(&mut positions);
        proof {
            lemma_positions_characterize(entries, f, ids@, unsorted, positions@);
        }

        let n = positions.len();
        let mut chunks: Vec<Vec<usize>> = Vec::new();
        let mut i: usize = 0;
        while i < n
            invariant
                n == positions@.len() <= entries.len() <= u32::MAX,
                entries == self.entries@,
                self.wf(),
                forall|k: int|
                    0 <= k < positions@.len() ==> (#[trigger] positions@[k] as int) < entries.len(),
                i == block_start(chunks@.len() as int, n as int),
                i <= n,
                forall|c: int|
                    0 <= c < chunks@.len() ==> #[trigger] chunks@[c]@ == positions@.subrange(
                        block_start(c, n as int),
                        block_start(c + 1, n as int),
                    ),
            decreases n - i,
        {
            let hi = if n - i > 50000 {
                i + 50000
            } else {
                n
            };
            let mut chunk: Vec<usize> = Vec::with_capacity(hi - i);
            let mut t = i;
            while t < hi
                invariant
                    i <= t <= hi <= n == positions@.len(),
                    chunk@ == positions@.subrange(i as int, t as int),
                decreases hi - t,
            {
                chunk.push(positions[t]);
                proof {
                    assert(positions@.subrange(i as int, t + 1) =~= positions@.subrange(
                        i as int,
                        t as int,
                    ).push(positions@[t as int]));
                }
                t = t + 1;
            }
            let ghost c = chunks@.len() as int;
            chunks.push(chunk);
            proof {
                assert(block_start(c, n as int) == i);
                assert(block_start(c + 1, n as int) == hi);
            }
            i = hi;
        }

        proof {
            assert forall|c: int| 0 <= c < chunks@.len() implies chunk_ok(
                *self,
                #[trigger] chunks@[c]@,
            ) by {
                assert(chunks@[c]@ == positions@.subrange(
                    block_start(c, n as int),
                    block_start(c + 1, n as int),
                ));
            }
        }
        let results = self.par_chunk_summaries(&chunks);

        let mut result = NodeAggregations::empty();
        let m = results.len();
        let mut c: usize = 0;
        proof {
            assert(values_at(entries, positions@.take(0)) =~= Seq::<u64>::empty());
            assert(block_start(0, n as int) == 0);
        }
        while c < m
            invariant
                self.wf(),
                entries == self.entries@,
                m == results@.len() == chunks@.len(),
                c <= m,
                n == positions@.len() <= entries.len() <= u32::MAX,
                forall|k: int|
                    0 <= k < positions@.len() ==> (#[trigger] positions@[k] as int) < entries.len(),
                forall|c0: int|
                    0 <= c0 < chunks@.len() ==> #[trigger] chunks@[c0]@ == positions@.subrange(
                        block_start(c0, n as int),
                        block_start(c0 + 1, n as int),
                    ),
                forall|c0: int|
                    0 <= c0 < chunks@.len() ==> #[trigger] results@[c0]@ == summary_of(
                        values_at(entries, chunks@[c0]@),
                    ),
                block_start(m as int, n as int) == n,
                summary_wf(result@),
                result@ == summary_of(
                    values_at(entries, positions@.take(block_start(c as int, n as int))),
                ),
            decreases m - c,
        {
            let ghost lo = block_start(c as int, n as int);
            let ghost hi = block_start(c as int + 1, n as int);
            proof {
                let pre = values_at(entries, positions@.take(lo));
                let mid = values_at(entries, chunks@[c as int]@);
                lemma_summary_of_wf(pre);
                lemma_summary_of_wf(mid);
                lemma_summary_of_concat(pre, mid);
                assert(values_at(entries, positions@.take(hi)) =~= pre + mid);
            }
            let chunk_result = &results[c];
            result.merge(chunk_result);
            c = c + 1;
        }
        proof {
            assert(positions@.take(n as int) =~= positions@);
        }
        result
    }

    /// Dispatches a direct lookup query by filter size: sequential for small
    /// filters, parallel for large ones.
    pub fn direct_query_with_bitmap(&self, bitmap: &RoaringBitmap) -> (r: NodeAggregations)
        requires
            self.wf(),
        ensures
            r@ == filtered_summary(self.entries@, bitmap_ids(*bitmap)),
            summary_wf(r@),
    {
        if bitmap_len(bitmap) < 10000 {
            return self.direct_query_sequential(bitmap);
        }
        self.direct_query_parallel(bitmap)
    }

    /// Filtered aggregation under a bitmap of document ids, following the
    /// dispatch policy of `query_spec`: empty filter, full-cardinality
    /// filter, dense filter (complement-based subtraction, keeping the
    /// global min and max), then sequential or parallel direct evaluation.
    pub fn query_with_bitmap(&self, bitmap: &RoaringBitmap) -> (r: NodeAggregations)
        requires
            self.wf(),
        ensures
            r@ == query_spec(self.entries@, bitmap_ids(*bitmap)),
    {
        let ghost entries = self.entries@;
        let ghost f = bitmap_ids(*bitmap);
        proof {
            lemma_summary_of_wf(values_of(entries));
        }

        if self.nodes.is_empty() {
            return NodeAggregations::empty();
        }

        let global_aggs = self.get_global_aggregations();

        if bitmap_is_empty(bitmap) {
            return NodeAggregations::empty();
        }

        let blen = bitmap_len(bitmap);
        if blen == global_aggs.count as u64 {
            return global_aggs;
        }

        let threshold = (global_aggs.count as u64) * 80 / 100;
        if blen > threshold {
            let count = global_aggs.count;
            let mut complement = bitmap_new();
            let mut i: u32 = 0;
            proof {
                assert(bitmap_ids(complement) =~= Set::new(
                    |d: u32| d < 0u32 && !f.contains(d),
                ));
            }
            while i < count
                invariant
                    f == bitmap_ids(*bitmap),
                    i <= count,
                    bitmap_ids(complement) == Set::new(|d: u32| d < i && !f.contains(d)),
                decreases count - i,
            {
                let ghost pre = bitmap_ids(complement);
                if !bitmap_contains(bitmap, i) {
                    bitmap_insert(&mut complement, i);
                    proof {
                        assert(bitmap_ids(complement) =~= Set::new(
                            |d: u32| d < i + 1 && !f.contains(d),
                        ));
                    }
                } else {
                    proof {
                        assert(bitmap_ids(complement) =~= Set::new(
                            |d: u32| d < i + 1 && !f.contains(d),
                        ));
                    }
                }
                i = i + 1;
            }
            proof {
                assert(bitmap_ids(complement) =~= complement_ids(f, count as nat));
            }

            if bitmap_is_empty(&complement) {
                return global_aggs;
            }

            let excluded = self.direct_query_sequential(&complement);
            proof {
                crate::filter::lemma_filtered_summary_le(entries, bitmap_ids(complement));
                lemma_summary_of_wf(crate::filter::filtered_values(
                    entries,
                    bitmap_ids(complement),
                ));
            }
            return NodeAggregations {
                min_value: global_aggs.min_value,
                max_value: global_aggs.max_value,
                sum: global_aggs.sum - excluded.sum,
                count: global_aggs.count - excluded.count,
            };
        }

        if blen < 10000 {
            self.direct_query_sequential(bitmap)
        } else {
            self.direct_query_parallel(bitmap)
        }
    }
}

/// The set of document ids the corpus holds.
pub open spec fn id_set(entries: Seq<crate::tree::Entry>) -> Set<u32> {
    Set::new(
        |d: u32| exists|p: int| 0 <= p < entries.len() && (#[trigger] entries[p]).0 == d,
    )
}

/// Law: full-filter equivalence — for a filter equal to the corpus's entire
/// id universe, the query returns exactly the global aggregate, which is
/// also exactly the filtered summary of that filter.
pub proof fn lemma_full_filter_equivalence(entries: Seq<crate::tree::Entry>, f: Set<u32>)
    requires
        crate::tree::unique_ids(entries),
        f == id_set(entries),
    ensures
        query_spec(entries, f) == summary_of(values_of(entries)),
        filtered_summary(entries, f) == summary_of(values_of(entries)),
{
    let g = summary_of(values_of(entries));
    lemma_summary_of_wf(values_of(entries));

    let idseq = crate::tree::ids_of(entries);
    assert(idseq.no_duplicates()) by {
        assert forall|k: int, l: int|
            0 <= k < idseq.len() && 0 <= l < idseq.len() && k != l implies idseq[k]
            != idseq[l] by {
            assert(idseq[k] == entries[k].0);
            assert(idseq[l] == entries[l].0);
        }
    }
    idseq.unique_seq_to_set();
    assert(f =~= idseq.to_set()) by {
        assert forall|d: u32| #[trigger] f.contains(d) == idseq.to_set().contains(d) by {
            if f.contains(d) {
                let p = choose|p: int| 0 <= p < entries.len() && (#[trigger] entries[p]).0 == d;
                assert(idseq[p] == d);
                assert(idseq.contains(d));
            }
            if idseq.to_set().contains(d) {
                let p = choose|p: int| 0 <= p < idseq.len() && idseq[p] == d;
                assert(entries[p].0 == d);
                assert(f.contains(d));
            }
        }
    }
    assert(f.len() == entries.len());

    assert forall|k: int| 0 <= k < entries.len() implies in_filter(f)(#[trigger] entries[k]) by {
        assert(entries[k].0 == entries[k].0);
        assert(f.contains(entries[k].0));
    }
    crate::filter::lemma_filter_all(entries, in_filter(f));
    assert(filtered_values(entries, f) == values_of(entries));

    if entries.len() == 0 {
        assert(f =~= Set::<u32>::empty());
        assert(values_of(entries) =~= Seq::<u64>::empty());
    } else {
        assert(f.contains(entries[0].0));
        assert(!(f =~= Set::<u32>::empty()));
        assert(f.len() == g.count);
    }
}

/// Law: oracle equivalence — on any filter holding at most 80% of the corpus
/// (so the empty, sequential and parallel paths; the dense path's min/max
/// shortcut is excluded), the query's result equals the flat oracle's exact
/// filtered summary, computed over any corpus holding the same documents.
pub proof fn lemma_oracle_equivalence(
    entries: Seq<crate::tree::Entry>,
    pairs: Seq<crate::tree::Entry>,
    f: Set<u32>,
)
    requires
        entries.to_multiset() == pairs.to_multiset(),
        f.finite(),
        f.len() <= summary_of(values_of(entries)).count * 80 / 100,
    ensures
        query_spec(entries, f) == filtered_summary(pairs, f),
{
    let g = summary_of(values_of(entries));
    let pred = in_filter(f);
    lemma_summary_of_wf(values_of(entries));
    crate::filter::lemma_filtered_summary_permutation(entries, pairs, f);

    if f.len() == 0 {
        f.lemma_len0_is_empty();
        assert(f =~= Set::<u32>::empty());
        assert(pairs.all(|e: crate::tree::Entry| !pred(e)));
        pairs.lemma_all_neg_filter_empty(pred);
        assert(filtered_values(pairs, f) =~= Seq::<u64>::empty());
    } else {
        assert(g.count > 0) by {
            if g.count == 0 {
                assert(f.len() <= 0);
            }
        }
        assert(f.len() < g.count) by {
            vstd::arithmetic::div_mod::lemma_fundamental_div_mod(
                (g.count * 80) as int,
                100,
            );
        }
        assert(!(f =~= Set::<u32>::empty())) by {
            if f =~= Set::<u32>::empty() {
                assert(f.len() == 0);
            }
        }
    }
}

/// A strictly ascending sequence of ids.
pub open spec fn strictly_increasing(ids: Seq<u32>) -> bool {
    forall|k: int, l: int| #![trigger ids[k], ids[l]] 0 <= k < l < ids.len() ==> ids[k] < ids[l]
}

/// The one strictly ascending enumeration of a finite id set (see
/// `lemma_ascending_unique`).
pub open spec fn ascending_ids(f: Set<u32>) -> Seq<u32> {
    choose|ids: Seq<u32>| strictly_increasing(ids) && ids.to_set() == f
}

/// Two strictly ascending sequences over the same id set are equal.
pub proof fn lemma_ascending_unique(a: Seq<u32>, b: Seq<u32>)
    requires
        strictly_increasing(a),
        strictly_increasing(b),
        a.to_set() == b.to_set(),
    ensures
        a == b,
    decreases a.len(),
{
    if a.len() == 0 {
        assert(b.len() == 0) by {
            if b.len() > 0 {
                assert(b.to_set().contains(b[0]));
                assert(a.contains(b[0]));
            }
        }
        assert(a =~= b);
    } else {
        assert(b.len() > 0) by {
            assert(a.to_set().contains(a[0]));
            assert(b.contains(a[0]));
        }
        // The last elements are the maxima of the same set, hence equal.
        assert(a.last() == b.last()) by {
            assert(a.to_set().contains(a.last()));
            assert(b.contains(a.last()));
            let kb = choose|k: int| 0 <= k < b.len() && b[k] == a.last();
            assert(b[kb] <= b.last()) by {
                if kb < b.len() - 1 {
                    assert(b[kb] < b[b.len() - 1]);
                }
            }
            assert(b.to_set().contains(b.last()));
            assert(a.contains(b.last()));
            let ka = choose|k: int| 0 <= k < a.len() && a[k] == b.last();
            assert(a[ka] <= a.last()) by {
                if ka < a.len() - 1 {
                    assert(a[ka] < a[a.len() - 1]);
                }
            }
        }
        assert(a.drop_last().to_set() =~= b.drop_last().to_set()) by {
            assert forall|d: u32| #[trigger]
                a.drop_last().to_set().contains(d) == b.drop_last().to_set().contains(d) by {
                lemma_ascending_drop_last_membership(a, d);
                lemma_ascending_drop_last_membership(b, d);
            }
        }
        lemma_ascending_unique(a.drop_last(), b.drop_last());
        assert(a =~= b) by {
            assert(a.drop_last() == b.drop_last());
            assert(a.drop_last().push(a.last()) =~= a);
            assert(b.drop_last().push(b.last()) =~= b);
        }
    }
}

/// In a strictly ascending sequence, dropping the last element removes
/// exactly the maximum from the id set.
proof fn lemma_ascending_drop_last_membership(a: Seq<u32>, d: u32)
    requires
        strictly_increasing(a),
        a.len() > 0,
    ensures
        a.drop_last().to_set().contains(d) == (a.to_set().contains(d) && d != a.last()),
{
    if a.drop_last().to_set().contains(d) {
        let k = choose|k: int| 0 <= k < a.len() - 1 && a.drop_last()[k] == d;
        assert(a[k] == d);
        assert(a[k] < a[a.len() - 1]);
        assert(a.contains(d));
    }
    if a.to_set().contains(d) && d != a.last() {
        let k = choose|k: int| 0 <= k < a.len() && a[k] == d;
        assert(k < a.len() - 1);
        assert(a.drop_last()[k] == d);
        assert(a.drop_last().contains(d));
    }
}

/// How many adjacent pairs of a strictly ascending id sequence are directly
/// consecutive integers.
pub open spec fn consecutive_pairs(ids: Seq<u32>) -> int
    decreases ids.len(),
{
    if ids.len() < 2 {
        0
    } else {
        (if ids.last() == ids[ids.len() - 2] + 1 {
            1int
        } else {
            0int
        }) + consecutive_pairs(ids.drop_last())
    }
}

impl AggregationIndexTree {
    /// Whether the bitmap's ids are mostly consecutive: more than 70% of its
    /// ids (in ascending order) directly follow their predecessor. The
    /// seven-tenths threshold is compared exactly.
    pub fn is_sorted_bitmap(&self, bitmap: &RoaringBitmap) -> (r: bool)
        ensures
            r == ({
                let ids = ascending_ids(bitmap_ids(*bitmap));
                ids.len() > 0 && 10 * consecutive_pairs(ids) > 7 * ids.len()
            }),
    {
        let ids = bitmap_to_vec(bitmap);
        proof {
            assert(strictly_increasing(ids@) && ids@.to_set() == bitmap_ids(*bitmap));
            let picked = ascending_ids(bitmap_ids(*bitmap));
            assert(strictly_increasing(picked) && picked.to_set() == bitmap_ids(*bitmap));
            lemma_ascending_unique(ids@, picked);
        }
        let n = ids.len();
        let mut consecutive_count: u64 = 0;
        let mut total: u64 = 0;
        let mut k: usize = 0;
        proof {
            assert(consecutive_pairs(ids@.take(0)) == 0);
        }
        while k < n
            invariant
                n == ids@.len(),
                k <= n,
                total == k,
                0 <= consecutive_count <= k,
                consecutive_count == consecutive_pairs(ids@.take(k as int)),
            decreases n - k,
        {
            total = total + 1;
            if k > 0 {
                let prev = ids[k - 1];
                let cur = ids[k];
                proof {
                    assert(ids@.take(k + 1).drop_last() =~= ids@.take(k as int));
                    assert(ids@.take(k + 1).last() == ids@[k as int]);
                    assert(ids@.take(k + 1)[k - 1] == ids@[k - 1]);
                }
                if cur as u64 == prev as u64 + 1 {
                    consecutive_count = consecutive_count + 1;
                }
            } else {
                proof {
                    assert(consecutive_pairs(ids@.take(1)) == 0);
                }
            }
            k = k + 1;
        }
        proof {
            assert(ids@.take(n as int) =~= ids@);
        }
        total > 0 && 10u128 * (consecutive_count as u128) > 7u128 * (total as u128)
    }
}

} // verus!
