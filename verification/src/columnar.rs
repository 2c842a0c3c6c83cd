//! The flat-array baseline: a document-id-ordered value column aggregated by
//! linear scan. It computes the same summaries as the index and serves to
//! cross-check the engine's output.

use vstd::prelude::*;
use roaring::RoaringBitmap;

use crate::bitmap::bitmap_contains;
use crate::bitmap::bitmap_ids;
use crate::filter::filtered_summary;
use crate::filter::in_filter;
use crate::summary::NodeAggregations;
use crate::summary::SummarySpec;
use crate::summary::lemma_summary_of_push;
use crate::summary::lemma_summary_of_wf;
use crate::summary::summary_of;
use crate::summary::summary_wf;
use crate::tree::Entry;

verus! {

/// Traditional columnar storage: the value of document `i` sits at index `i`.
#[derive(Clone, Debug)]
pub struct ColumnarStorage {
    pub values: Vec<u64>,
}

impl ColumnarStorage {
    /// The column as a corpus: document id `i` paired with `values[i]`.
    pub open spec fn pairs(self) -> Seq<Entry> {
        Seq::new(self.values@.len(), |i: int| (i as u32, self.values@[i]))
    }

    /// The summary of the whole column, by one linear fold.
    pub fn get_global_aggregations(&self) -> (r: NodeAggregations)
        requires
            self.values@.len() <= u32::MAX,
        ensures
            r@ == summary_of(self.values@),
            summary_wf(r@),
    {
        proof {
            lemma_summary_of_wf(self.values@);
        }
        if self.values.is_empty() {
            proof {
                assert(self.values@ =~= Seq::<u64>::empty());
            }
            return NodeAggregations::empty();
        }

        let n = self.values.len();
        let mut min_value: u64 = u64::MAX;
        let mut max_value: u64 = 0;
        let mut sum: u128 = 0;
        let mut i: usize = 0;
        while i < n
            invariant
                n == self.values@.len() <= u32::MAX,
                i <= n,
                (SummarySpec {
                    min: min_value as int,
                    max: max_value as int,
                    sum: sum as int,
                    count: i as nat,
                }) == summary_of(self.values@.take(i as int)),
            decreases n - i,
        {
            let value = self.values[i];
            proof {
                let pre = self.values@.take(i as int);
                lemma_summary_of_wf(pre);
                vstd::arithmetic::mul::lemma_mul_inequality(
                    i as int,
                    u32::MAX as int,
                    u64::MAX as int,
                );
                lemma_summary_of_push(pre, value);
                assert(self.values@.take(i + 1) =~= pre.push(value));
            }
            if value < min_value {
                min_value = value;
            }
            if value > max_value {
                max_value = value;
            }
            sum = sum + value as u128;
            i = i + 1;
        }
        proof {
            assert(self.values@.take(n as int) =~= self.values@);
        }
        NodeAggregations { min_value, max_value, sum, count: n as u32 }
    }

    /// The summary of the documents the filter retains, by a linear scan
    /// with a membership test per document.
    pub fn query_with_bitmap(&self, bitmap: &RoaringBitmap) -> (r: NodeAggregations)
        requires
            self.values@.len() <= u32::MAX,
        ensures
            r@ == filtered_summary(self.pairs(), bitmap_ids(*bitmap)),
            summary_wf(r@),
    {
        let ghost f = bitmap_ids(*bitmap);
        let ghost pred = in_filter(f);
        let mut result = NodeAggregations::empty();
        let n = self.values.len();
        let mut i: usize = 0;
        proof {
            reveal(Seq::filter);
            assert(self.pairs().take(0) =~= Seq::<Entry>::empty());
            assert(self.pairs().take(0).filter(pred) =~= Seq::<Entry>::empty());
            assert(crate::tree::values_of(Seq::<Entry>::empty()) =~= Seq::<u64>::empty());
        }
        while i < n
            invariant
                n == self.values@.len() <= u32::MAX,
                i <= n,
                f == bitmap_ids(*bitmap),
                pred == in_filter(f),
                summary_wf(result@),
                result@ == summary_of(
                    crate::tree::values_of(self.pairs().take(i as int).filter(pred)),
                ),
            decreases n - i,
        {
            let ghost prefix = self.pairs().take(i as int);
            let value = self.values[i];
            let retained = bitmap_contains(bitmap, i as u32);
            proof {
                reveal(Seq::filter);
                assert(self.pairs().take(i + 1) =~= prefix.push(self.pairs()[i as int]));
                assert(self.pairs().take(i + 1).drop_last() =~= prefix);
                assert(self.pairs()[i as int] == ((i as u32, value)));
                let pre_vals = crate::tree::values_of(prefix.filter(pred));
                lemma_summary_of_wf(pre_vals);
                if retained {
                    assert(self.pairs().take(i + 1).filter(pred) == prefix.filter(pred).push(
                        (i as u32, value),
                    ));
                    assert(crate::tree::values_of(prefix.filter(pred).push((i as u32, value)))
                        =~= pre_vals.push(value));
                    lemma_summary_of_push(pre_vals, value);
                    assert(prefix.filter(pred).len() <= prefix.len()) by {
                        Seq::lemma_filter_len(prefix, pred);
                    }
                } else {
                    assert(self.pairs().take(i + 1).filter(pred) == prefix.filter(pred));
                }
            }
            if retained {
                result.merge_value(value);
            }
            i = i + 1;
        }
        proof {
            assert(self.pairs().take(n as int) =~= self.pairs());
        }
        result
    }
}

} // verus!
