//! What a filtered query means: the summary of the values of the entries
//! whose document id lies in the filter set, together with the lemmas that
//! let the engine's position-translation, sorting, batching and complement
//! strategies all be proved against that one definition.

use vstd::prelude::*;
use vstd::relations::injective;
use vstd::seq_lib::commutative_foldl;
use vstd::seq_lib::lemma_fold_left_permutation;
use vstd::seq_lib::lemma_multiset_commutative;
use vstd::set_lib::lemma_len_subset;
use vstd::set_lib::lemma_int_range;
use vstd::set_lib::set_int_range;

use crate::summary::SummarySpec;
use crate::summary::combine_summary;
use crate::summary::identity_summary;
use crate::summary::lemma_combine_associative;
use crate::summary::lemma_summary_of_push;
use crate::summary::lemma_summary_of_wf;
use crate::summary::singleton_summary;
use crate::summary::summary_of;
use crate::tree::Entry;
use crate::tree::values_of;

verus! {

broadcast use vstd::seq_lib::group_to_multiset_ensures;

/// Membership of an entry's document id in a filter set.
pub open spec fn in_filter(f: Set<u32>) -> spec_fn(Entry) -> bool {
    |e: Entry| f.contains(e.0)
}

/// The values of the entries retained by a filter, in corpus order.
pub open spec fn filtered_values(entries: Seq<Entry>, f: Set<u32>) -> Seq<u64> {
    values_of(entries.filter(in_filter(f)))
}

/// What a filtered aggregation returns: the summary of the retained values.
pub open spec fn filtered_summary(entries: Seq<Entry>, f: Set<u32>) -> SummarySpec {
    summary_of(filtered_values(entries, f))
}

/// The values of the entries at the given ranks, in rank-list order.
pub open spec fn values_at(entries: Seq<Entry>, positions: Seq<usize>) -> Seq<u64> {
    positions.map_values(|q: usize| entries[q as int].1)
}

/// Filtering keeps everything when the predicate holds of every element.
pub proof fn lemma_filter_all<A>(s: Seq<A>, pred: spec_fn(A) -> bool)
    requires
        forall|k: int| 0 <= k < s.len() ==> pred(#[trigger] s[k]),
    ensures
        s.filter(pred) == s,
    decreases s.len(),
{
    reveal(Seq::filter);
    if s.len() > 0 {
        lemma_filter_all(s.drop_last(), pred);
        assert(s.drop_last().push(s.last()) =~= s);
    }
}

/// Filtering is invariant under permutation, up to multiset equality.
pub proof fn lemma_filter_multiset<A>(s: Seq<A>, t: Seq<A>, pred: spec_fn(A) -> bool)
    requires
        s.to_multiset() == t.to_multiset(),
    ensures
        s.filter(pred).to_multiset() == t.filter(pred).to_multiset(),
    decreases s.len(),
{
    reveal(Seq::filter);
    vstd::seq_lib::to_multiset_len(s);
    vstd::seq_lib::to_multiset_len(t);
    if s.len() == 0 {
        assert(t.len() == 0);
    } else {
        let e = s.last();
        let s0 = s.drop_last();
        assert(s.contains(e));
        vstd::seq_lib::to_multiset_contains(s, e);
        vstd::seq_lib::to_multiset_contains(t, e);
        assert(t.contains(e));
        let i = choose|i: int| 0 <= i < t.len() && t[i] == e;
        let t0 = t.remove(i);

        assert(s0.to_multiset() == t0.to_multiset()) by {
            assert(s.remove(s.len() - 1) =~= s0);
        }
        lemma_filter_multiset(s0, t0, pred);

        // Split t around position i and distribute the filter.
        let a = t.subrange(0, i);
        let a1 = t.subrange(0, i + 1);
        let b = t.subrange(i + 1, t.len() as int);
        assert(t =~= a1 + b);
        assert(t0 =~= a + b);
        assert(a1.drop_last() =~= a);
        Seq::filter_distributes_over_add(a1, b, pred);
        Seq::filter_distributes_over_add(a, b, pred);
        lemma_multiset_commutative(a1.filter(pred), b.filter(pred));
        lemma_multiset_commutative(a.filter(pred), b.filter(pred));

        if pred(e) {
            assert(s.filter(pred).to_multiset() =~= s0.filter(pred).to_multiset().insert(e));
            assert(a1.filter(pred).to_multiset() =~= a.filter(pred).to_multiset().insert(e));
            assert(t.filter(pred).to_multiset() =~= t0.filter(pred).to_multiset().insert(e));
        } else {
            assert(a1.filter(pred) == a.filter(pred));
        }
    }
}

/// The entries picked out by a strictly increasing list of exactly the ranks
/// satisfying a predicate are the filtered corpus, in order.
pub proof fn lemma_filter_by_sorted_positions(
    entries: Seq<Entry>,
    pred: spec_fn(Entry) -> bool,
    positions: Seq<usize>,
)
    requires
        entries.len() <= usize::MAX,
        forall|k: int, l: int|
            #![trigger positions[k], positions[l]]
            0 <= k < l < positions.len() ==> positions[k] < positions[l],
        forall|k: int| 0 <= k < positions.len() ==> (#[trigger] positions[k] as int) < entries.len(),
        forall|k: int| 0 <= k < positions.len() ==> pred(entries[#[trigger] positions[k] as int]),
        forall|p: int|
            0 <= p < entries.len() && pred(#[trigger] entries[p]) ==> positions.contains(
                p as usize,
            ),
    ensures
        positions.map_values(|q: usize| entries[q as int]) == entries.filter(pred),
    decreases entries.len(),
{
    reveal(Seq::filter);
    if entries.len() == 0 {
        assert(positions.len() == 0) by {
            if positions.len() > 0 {
                assert((positions[0] as int) < entries.len());
            }
        }
        assert(positions.map_values(|q: usize| entries[q as int]) =~= entries.filter(pred));
    } else {
        let n = entries.len() - 1;
        let e = entries.last();
        let entries0 = entries.drop_last();
        if pred(e) {
            assert(positions.contains(n as usize));
            let ki = choose|k: int| 0 <= k < positions.len() && positions[k] == n as usize;
            assert(ki == positions.len() - 1) by {
                if ki < positions.len() - 1 {
                    assert(positions[ki] < positions[positions.len() - 1]);
                }
            }
            let positions0 = positions.drop_last();
            assert forall|p: int|
                0 <= p < entries0.len() && pred(#[trigger] entries0[p]) implies positions0.contains(
                p as usize,
            ) by {
                assert(entries0[p] == entries[p]);
                assert(positions.contains(p as usize));
                let k = choose|k: int| 0 <= k < positions.len() && positions[k] == p as usize;
                assert(k < positions.len() - 1) by {
                    assert(positions[positions.len() - 1] == n as usize);
                }
                assert(positions0[k] == p as usize);
            }
            lemma_filter_by_sorted_positions(entries0, pred, positions0);
            assert(positions.map_values(|q: usize| entries[q as int]) =~= positions0.map_values(
                |q: usize| entries0[q as int],
            ).push(e)) by {
                assert forall|k: int| 0 <= k < positions.len() - 1 implies entries[positions[k] as int]
                    == entries0[positions0[k] as int] by {
                    assert(positions[k] < positions[positions.len() - 1]);
                }
            }
            assert(entries0.filter(pred).push(e) == entries.filter(pred));
        } else {
            assert forall|k: int| 0 <= k < positions.len() implies (positions[k] as int) < n by {
                if positions[k] as int == n {
                    assert(pred(entries[n]));
                }
            }
            assert forall|p: int|
                0 <= p < entries0.len() && pred(#[trigger] entries0[p]) implies positions.contains(
                p as usize,
            ) by {
                assert(entries0[p] == entries[p]);
            }
            lemma_filter_by_sorted_positions(entries0, pred, positions);
            assert(positions.map_values(|q: usize| entries[q as int]) =~= positions.map_values(
                |q: usize| entries0[q as int],
            ));
            assert(entries0.filter(pred) == entries.filter(pred));
        }
    }
}

/// A filtered summary never counts more, nor sums to more, than the summary
/// of the whole corpus: values are non-negative and filtering only drops.
pub proof fn lemma_filtered_summary_le(entries: Seq<Entry>, f: Set<u32>)
    ensures
        filtered_summary(entries, f).count <= summary_of(values_of(entries)).count,
        filtered_summary(entries, f).sum <= summary_of(values_of(entries)).sum,
    decreases entries.len(),
{
    reveal(Seq::filter);
    let pred = in_filter(f);
    lemma_summary_of_wf(filtered_values(entries, f));
    lemma_summary_of_wf(values_of(entries));
    if entries.len() > 0 {
        let e = entries.last();
        let entries0 = entries.drop_last();
        lemma_filtered_summary_le(entries0, f);
        lemma_summary_of_wf(filtered_values(entries0, f));
        lemma_summary_of_wf(values_of(entries0));
        assert(values_of(entries) =~= values_of(entries0).push(e.1));
        lemma_summary_of_push(values_of(entries0), e.1);
        if pred(e) {
            assert(filtered_values(entries, f) =~= filtered_values(entries0, f).push(e.1));
            lemma_summary_of_push(filtered_values(entries0, f), e.1);
        } else {
            assert(filtered_values(entries, f) == filtered_values(entries0, f));
        }
    }
}

/// A duplicate-free list of ranks below `n` has at most `n` elements.
pub proof fn lemma_distinct_bounded_len(positions: Seq<usize>, n: int)
    requires
        positions.no_duplicates(),
        forall|k: int| 0 <= k < positions.len() ==> (#[trigger] positions[k] as int) < n,
        0 <= n,
    ensures
        positions.len() <= n,
{
    broadcast use vstd::seq_lib::seq_to_set_is_finite;

    let cast = |p: usize| p as int;
    let ints = positions.map_values(cast);
    assert(injective(cast));
    positions.lemma_no_duplicates_injective(cast);
    ints.unique_seq_to_set();
    lemma_int_range(0, n);
    assert(ints.to_set().subset_of(set_int_range(0, n))) by {
        assert forall|x: int| ints.to_set().contains(x) implies set_int_range(0, n).contains(
            x,
        ) by {
            assert(ints.contains(x));
            let k = choose|k: int| 0 <= k < ints.len() && ints[k] == x;
            assert(positions[k] as int == x);
        }
    }
    lemma_len_subset(ints.to_set(), set_int_range(0, n));
}

/// After translating an ascending enumeration of the filter to ranks and
/// sorting, the rank list enumerates exactly the retained entries in corpus
/// order: the values it picks out are the filtered values.
pub proof fn lemma_positions_characterize(
    entries: Seq<Entry>,
    f: Set<u32>,
    ids: Seq<u32>,
    unsorted: Seq<usize>,
    sorted: Seq<usize>,
)
    requires
        entries.len() <= usize::MAX,
        forall|k: int, l: int| #![trigger ids[k], ids[l]] 0 <= k < l < ids.len() ==> ids[k] < ids[l],
        ids.to_set() == f,
        unsorted.no_duplicates(),
        forall|q: usize| #[trigger]
            unsorted.contains(q) ==> (q as int) < entries.len() && ids.contains(
                entries[q as int].0,
            ),
        forall|p: int|
            0 <= p < entries.len() && ids.contains(#[trigger] entries[p].0) ==> unsorted.contains(
                p as usize,
            ),
        sorted.to_multiset() == unsorted.to_multiset(),
        forall|k: int, l: int|
            #![trigger sorted[k], sorted[l]]
            0 <= k <= l < sorted.len() ==> sorted[k] <= sorted[l],
    ensures
        values_at(entries, sorted) == filtered_values(entries, f),
        sorted.len() <= entries.len(),
        forall|k: int| 0 <= k < sorted.len() ==> (#[trigger] sorted[k] as int) < entries.len(),
{
    let pred = in_filter(f);
    assert forall|q: usize| #[trigger] sorted.contains(q) == unsorted.contains(q) by {
        vstd::seq_lib::to_multiset_contains(sorted, q);
        vstd::seq_lib::to_multiset_contains(unsorted, q);
    }
    unsorted.lemma_multiset_has_no_duplicates();
    sorted.lemma_multiset_has_no_duplicates_conv();
    assert forall|k: int, l: int|
        #![trigger sorted[k], sorted[l]]
        0 <= k < l < sorted.len() implies sorted[k] < sorted[l] by {
        assert(sorted[k] <= sorted[l]);
        assert(sorted[k] != sorted[l]);
    }
    assert forall|k: int| 0 <= k < sorted.len() implies (#[trigger] sorted[k] as int)
        < entries.len() && pred(entries[sorted[k] as int]) by {
        assert(sorted.contains(sorted[k]));
        assert(unsorted.contains(sorted[k]));
        assert(ids.to_set().contains(entries[sorted[k] as int].0));
    }
    assert forall|p: int|
        0 <= p < entries.len() && pred(#[trigger] entries[p]) implies sorted.contains(
        p as usize,
    ) by {
        assert(ids.to_set().contains(entries[p].0));
        assert(ids.contains(entries[p].0));
        assert(unsorted.contains(p as usize));
    }
    lemma_filter_by_sorted_positions(entries, pred, sorted);
    assert(values_at(entries, sorted) =~= filtered_values(entries, f)) by {
        let mapped = sorted.map_values(|q: usize| entries[q as int]);
        assert(mapped == entries.filter(pred));
        assert forall|k: int| 0 <= k < sorted.len() implies values_at(entries, sorted)[k]
            == filtered_values(entries, f)[k] by {
            assert(values_at(entries, sorted)[k] == entries[sorted[k] as int].1);
            assert(mapped[k] == entries[sorted[k] as int]);
            assert(entries.filter(pred)[k].1 == entries[sorted[k] as int].1);
        }
        Seq::lemma_filter_len(entries, pred);
    }
    lemma_distinct_bounded_len(sorted, entries.len() as int);
}

/// The fold step that extends a summary by one entry's value.
pub open spec fn entry_step() -> spec_fn(SummarySpec, Entry) -> SummarySpec {
    |acc: SummarySpec, e: Entry| combine_summary(acc, singleton_summary(e.1))
}

/// The summary of a run of entries, folded entry by entry.
pub open spec fn summary_of_entries(s: Seq<Entry>) -> SummarySpec {
    s.fold_left(identity_summary(), entry_step())
}

/// Folding entries agrees with summarising their values.
pub proof fn lemma_summary_of_entries_eq(s: Seq<Entry>)
    ensures
        summary_of_entries(s) == summary_of(values_of(s)),
    decreases s.len(),
{
    if s.len() == 0 {
        assert(values_of(s) =~= Seq::<u64>::empty());
    } else {
        lemma_summary_of_entries_eq(s.drop_last());
        assert(values_of(s) =~= values_of(s.drop_last()).push(s.last().1));
        lemma_summary_of_push(values_of(s.drop_last()), s.last().1);
    }
}

/// Entry runs holding the same multiset of entries have the same summary.
pub proof fn lemma_summary_of_entries_permutation(a: Seq<Entry>, b: Seq<Entry>)
    requires
        a.to_multiset() == b.to_multiset(),
    ensures
        summary_of_entries(a) == summary_of_entries(b),
{
    let f = entry_step();
    assert forall|x: Entry, y: Entry, v: SummarySpec| #[trigger] f(f(v, x), y) == f(f(v, y), x) by {
        lemma_combine_associative(v, singleton_summary(x.1), singleton_summary(y.1));
        lemma_combine_associative(v, singleton_summary(y.1), singleton_summary(x.1));
        assert(combine_summary(singleton_summary(x.1), singleton_summary(y.1)) == combine_summary(
            singleton_summary(y.1),
            singleton_summary(x.1),
        ));
    }
    assert(commutative_foldl(f));
    lemma_fold_left_permutation(a, b, f, identity_summary());
}

/// Corpora holding the same multiset of entries have the same filtered
/// summary, for every filter: the engine may aggregate a value-sorted
/// permutation of the oracle's id-ordered corpus.
pub proof fn lemma_filtered_summary_permutation(a: Seq<Entry>, b: Seq<Entry>, f: Set<u32>)
    requires
        a.to_multiset() == b.to_multiset(),
    ensures
        filtered_summary(a, f) == filtered_summary(b, f),
{
    let pred = in_filter(f);
    lemma_filter_multiset(a, b, pred);
    lemma_summary_of_entries_permutation(a.filter(pred), b.filter(pred));
    lemma_summary_of_entries_eq(a.filter(pred));
    lemma_summary_of_entries_eq(b.filter(pred));
}

} // verus!
