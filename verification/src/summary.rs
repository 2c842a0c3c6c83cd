//! The aggregate summary `{min, max, sum, count}` of a multiset of values,
//! and the combinator that merges two summaries.
//!
//! The identity element (`count == 0`, `min == u64::MAX`, `max == 0`,
//! `sum == 0`) plays the role of the summary of no values at all; combining
//! any summary with it yields the other summary unchanged, which makes
//! combination a commutative monoid on well-formed summaries.

use vstd::prelude::*;
use vstd::seq_lib::commutative_foldl;
use vstd::seq_lib::lemma_fold_left_permutation;

verus! {

/// Mathematical model of an aggregate summary over a multiset of `u64`
/// values: minimum, maximum, sum and cardinality.
pub struct SummarySpec {
    pub min: int,
    pub max: int,
    pub sum: int,
    pub count: nat,
}

/// The summary of the empty multiset: the identity of `combine_summary`.
pub open spec fn identity_summary() -> SummarySpec {
    SummarySpec { min: u64::MAX as int, max: 0, sum: 0, count: 0 }
}

/// The summary of a single value.
pub open spec fn singleton_summary(v: u64) -> SummarySpec {
    SummarySpec { min: v as int, max: v as int, sum: v as int, count: 1 }
}

/// Merges the summaries of two disjoint multisets into the summary of their
/// union: pointwise min/max, added sums and counts; an empty side yields the
/// other side unchanged.
pub open spec fn combine_summary(a: SummarySpec, b: SummarySpec) -> SummarySpec {
    if a.count == 0 {
        b
    } else if b.count == 0 {
        a
    } else {
        SummarySpec {
            min: if a.min <= b.min { a.min } else { b.min },
            max: if a.max >= b.max { a.max } else { b.max },
            sum: a.sum + b.sum,
            count: a.count + b.count,
        }
    }
}

/// A summary that can arise as the summary of some multiset of `u64` values:
/// canonical when empty, and with fields in the ranges the values force.
pub open spec fn summary_wf(s: SummarySpec) -> bool {
    &&& (s.count == 0 ==> s == identity_summary())
    &&& 0 <= s.sum <= s.count * (u64::MAX as int)
    &&& (s.count > 0 ==> 0 <= s.min <= s.max <= u64::MAX as int)
}

/// The fold step that extends a summary by one more value.
pub open spec fn summary_step() -> spec_fn(SummarySpec, u64) -> SummarySpec {
    |acc: SummarySpec, v: u64| combine_summary(acc, singleton_summary(v))
}

/// The summary of a sequence of values (order-independent, see
/// `lemma_summary_of_permutation`).
pub open spec fn summary_of(vals: Seq<u64>) -> SummarySpec {
    vals.fold_left(identity_summary(), summary_step())
}

/// Law: combining the identity with any summary yields that summary; on
/// well-formed summaries the identity is neutral on either side.
pub proof fn lemma_combine_identity(x: SummarySpec)
    ensures
        combine_summary(identity_summary(), x) == x,
        summary_wf(x) ==> combine_summary(x, identity_summary()) == x,
{
}

/// Law: combination of well-formed summaries is commutative.
pub proof fn lemma_combine_commutative(a: SummarySpec, b: SummarySpec)
    requires
        summary_wf(a),
        summary_wf(b),
    ensures
        combine_summary(a, b) == combine_summary(b, a),
{
}

/// Law: combination is associative.
pub proof fn lemma_combine_associative(a: SummarySpec, b: SummarySpec, c: SummarySpec)
    ensures
        combine_summary(combine_summary(a, b), c) == combine_summary(a, combine_summary(b, c)),
{
}

/// Combining well-formed summaries yields a well-formed summary.
pub proof fn lemma_combine_wf(a: SummarySpec, b: SummarySpec)
    requires
        summary_wf(a),
        summary_wf(b),
    ensures
        summary_wf(combine_summary(a, b)),
{
    if a.count > 0 && b.count > 0 {
        assert((a.count + b.count) * (u64::MAX as int) == a.count * (u64::MAX as int) + b.count * (
        u64::MAX as int)) by (nonlinear_arith);
    }
}

/// Unfolding the summary of a sequence extended by one value.
pub proof fn lemma_summary_of_push(s: Seq<u64>, v: u64)
    ensures
        summary_of(s.push(v)) == combine_summary(summary_of(s), singleton_summary(v)),
{
    assert(s.push(v).drop_last() =~= s);
    assert(s.push(v).last() == v);
}

/// The summary of a concatenation is the combination of the summaries.
pub proof fn lemma_summary_of_concat(a: Seq<u64>, b: Seq<u64>)
    ensures
        summary_of(a + b) == combine_summary(summary_of(a), summary_of(b)),
    decreases b.len(),
{
    if b.len() == 0 {
        assert(a + b =~= a);
    } else {
        let b0 = b.drop_last();
        lemma_summary_of_concat(a, b0);
        assert((a + b).drop_last() =~= a + b0);
        lemma_summary_of_push(a + b0, b.last());
        lemma_summary_of_push(b0, b.last());
        assert((a + b0).push(b.last()) =~= a + b);
        assert(b0.push(b.last()) =~= b);
        lemma_combine_associative(summary_of(a), summary_of(b0), singleton_summary(b.last()));
    }
}

/// The summary of any value sequence is well formed, and counts its length.
pub proof fn lemma_summary_of_wf(s: Seq<u64>)
    ensures
        summary_wf(summary_of(s)),
        summary_of(s).count == s.len(),
    decreases s.len(),
{
    if s.len() > 0 {
        lemma_summary_of_wf(s.drop_last());
        lemma_summary_of_push(s.drop_last(), s.last());
        assert(s.drop_last().push(s.last()) =~= s);
        lemma_combine_wf(summary_of(s.drop_last()), singleton_summary(s.last()));
    }
}

/// The fold step is commutative, so summaries ignore sequence order.
proof fn lemma_summary_step_commutative()
    ensures
        commutative_foldl(summary_step()),
{
    let f = summary_step();
    assert forall|x: u64, y: u64, v: SummarySpec| #[trigger] f(f(v, x), y) == f(f(v, y), x) by {
        lemma_combine_associative(v, singleton_summary(x), singleton_summary(y));
        lemma_combine_associative(v, singleton_summary(y), singleton_summary(x));
        assert(combine_summary(singleton_summary(x), singleton_summary(y)) == combine_summary(
            singleton_summary(y),
            singleton_summary(x),
        ));
    }
}

/// Sequences holding the same multiset of values have the same summary.
pub proof fn lemma_summary_of_permutation(a: Seq<u64>, b: Seq<u64>)
    requires
        a.to_multiset() == b.to_multiset(),
    ensures
        summary_of(a) == summary_of(b),
{
    lemma_summary_step_commutative();
    lemma_fold_left_permutation(a, b, summary_step(), identity_summary());
}

/// Executable aggregate summary: minimum, maximum, sum and count of a
/// multiset of `u64` values. The sum is kept in 128 bits so that any
/// multiset of at most `u32::MAX` values fits without overflow.
#[derive(Clone, Copy, Debug, PartialEq, Eq, Structural)]
pub struct NodeAggregations {
    pub min_value: u64,
    pub max_value: u64,
    pub sum: u128,
    pub count: u32,
}

impl View for NodeAggregations {
    type V = SummarySpec;

    open spec fn view(&self) -> SummarySpec {
        SummarySpec {
            min: self.min_value as int,
            max: self.max_value as int,
            sum: self.sum as int,
            count: self.count as nat,
        }
    }
}

impl NodeAggregations {
    /// The identity summary: no values seen yet.
    pub fn empty() -> (r: NodeAggregations)
        ensures
            r@ == identity_summary(),
    {
        NodeAggregations { min_value: u64::MAX, max_value: 0, sum: 0, count: 0 }
    }

    /// Merges two summaries of disjoint multisets.
    pub fn combine(a: &NodeAggregations, b: &NodeAggregations) -> (r: NodeAggregations)
        requires
            a@.count + b@.count <= u32::MAX,
            a@.sum + b@.sum <= u128::MAX,
        ensures
            r@ == combine_summary(a@, b@),
    {
        if a.count == 0 {
            return *b;
        }
        if b.count == 0 {
            return *a;
        }
        NodeAggregations {
            min_value: if a.min_value <= b.min_value {
                a.min_value
            } else {
                b.min_value
            },
            max_value: if a.max_value >= b.max_value {
                a.max_value
            } else {
                b.max_value
            },
            sum: a.sum + b.sum,
            count: a.count + b.count,
        }
    }

    /// Folds another summary into this running summary in place.
    pub fn merge(&mut self, other: &NodeAggregations)
        requires
            summary_wf(old(self)@),
            summary_wf(other@),
            old(self)@.count + other@.count <= u32::MAX,
        ensures
            final(self)@ == combine_summary(old(self)@, other@),
            summary_wf(final(self)@),
    {
        proof {
            lemma_combine_wf(self@, other@);
            assert(self@.count * (u64::MAX as int) + other@.count * (u64::MAX as int) == (
            self@.count + other@.count) * (u64::MAX as int)) by (nonlinear_arith);
            vstd::arithmetic::mul::lemma_mul_inequality(
                (self@.count + other@.count) as int,
                u32::MAX as int,
                u64::MAX as int,
            );
        }
        if self.count == 0 {
            *self = *other;
        } else {
            if other.min_value < self.min_value {
                self.min_value = other.min_value;
            }
            if other.max_value > self.max_value {
                self.max_value = other.max_value;
            }
            self.sum = self.sum + other.sum;
            self.count = self.count + other.count;
        }
    }

    /// Folds one more value into this running summary in place.
    pub fn merge_value(&mut self, value: u64)
        requires
            summary_wf(old(self)@),
            old(self)@.count + 1 <= u32::MAX,
        ensures
            final(self)@ == combine_summary(old(self)@, singleton_summary(value)),
            summary_wf(final(self)@),
    {
        proof {
            lemma_combine_wf(self@, singleton_summary(value));
            assert(self@.count * (u64::MAX as int) + 1 * (u64::MAX as int) == (self@.count
                + 1) * (u64::MAX as int)) by (nonlinear_arith);
            vstd::arithmetic::mul::lemma_mul_inequality(
                (self@.count + 1) as int,
                u32::MAX as int,
                u64::MAX as int,
            );
        }
        if self.count == 0 {
            self.min_value = value;
            self.max_value = value;
        } else {
            if value < self.min_value {
                self.min_value = value;
            }
            if value > self.max_value {
                self.max_value = value;
            }
        }
        self.sum = self.sum + value as u128;
        self.count = self.count + 1;
    }
}

} // verus!
