//! What holds of two sequences that list the same items in another order.

use vstd::prelude::*;
use vstd::set_lib::{lemma_int_range, lemma_len_subset, lemma_subset_equality, set_int_range};

verus! {

/// Two sequences list the same items, each as often as the other.
pub open spec fn same_items<A>(one: Seq<A>, other: Seq<A>) -> bool {
    one.to_multiset() == other.to_multiset()
}

/// Sequences of the same items are of one length.
pub proof fn lemma_same_len<A>(one: Seq<A>, other: Seq<A>)
    requires
        same_items(one, other),
    ensures
        one.len() == other.len(),
{
    vstd::seq_lib::to_multiset_len(one);
    vstd::seq_lib::to_multiset_len(other);
}

/// An item of one sequence is found in any sequence of the same items.
pub proof fn lemma_same_member<A>(one: Seq<A>, other: Seq<A>, i: int) -> (j: int)
    requires
        same_items(one, other),
        0 <= i < one.len(),
    ensures
        0 <= j < other.len(),
        other[j] == one[i],
{
    vstd::seq_lib::to_multiset_contains(one, one[i]);
    vstd::seq_lib::to_multiset_contains(other, one[i]);
    assert(one.contains(one[i]));
    choose|j: int| 0 <= j < other.len() && other[j] == one[i]
}

/// Sequences without duplicates that hold the same items list the same
/// items.
pub proof fn lemma_distinct_same_items<A>(one: Seq<A>, other: Seq<A>)
    requires
        one.no_duplicates(),
        other.no_duplicates(),
        forall|item: A| one.contains(item) <==> other.contains(item),
    ensures
        same_items(one, other),
{
    broadcast use vstd::multiset::group_multiset_axioms;

    one.lemma_multiset_has_no_duplicates();
    other.lemma_multiset_has_no_duplicates();
    assert forall|item: A| one.to_multiset().count(item) == other.to_multiset().count(item) by {
        vstd::seq_lib::to_multiset_contains(one, item);
        vstd::seq_lib::to_multiset_contains(other, item);
    }
    assert(one.to_multiset() =~= other.to_multiset());
}

/// A sequence of different whole numbers below a bound is no longer than
/// the bound, and at that length it holds every number below the bound.
pub proof fn lemma_distinct_below(numbers: Seq<int>, bound: int)
    requires
        0 <= bound,
        numbers.no_duplicates(),
        forall|i: int| 0 <= i < numbers.len() ==> 0 <= #[trigger] numbers[i] < bound,
    ensures
        numbers.len() <= bound,
        numbers.len() == bound ==> forall|k: int| 0 <= k < bound ==> numbers.contains(k),
{
    if numbers.len() > 0 {
        assert(0 <= numbers[0] < bound);
        numbers.unique_seq_to_set();
        vstd::seq_lib::seq_to_set_is_finite(numbers);
        lemma_int_range(0, bound);
        assert(numbers.to_set().subset_of(set_int_range(0, bound))) by {
            assert forall|k: int| numbers.to_set().contains(k) implies set_int_range(
                0,
                bound,
            ).contains(k) by {
                let i = choose|i: int| 0 <= i < numbers.len() && numbers[i] == k;
                assert(0 <= numbers[i] < bound);
            }
        }
        lemma_len_subset(numbers.to_set(), set_int_range(0, bound));
        if numbers.len() == bound {
            lemma_subset_equality(numbers.to_set(), set_int_range(0, bound));
            assert forall|k: int| 0 <= k < bound implies numbers.contains(k) by {
                assert(set_int_range(0, bound).contains(k));
                assert(numbers.to_set().contains(k));
            }
        }
    }
}

/// Taking the last item from one sequence, and the same item from a sequence
/// of the same items, leaves sequences of the same items.
pub proof fn lemma_same_without_last<A>(one: Seq<A>, other: Seq<A>) -> (j: int)
    requires
        same_items(one, other),
        one.len() > 0,
    ensures
        0 <= j < other.len(),
        other[j] == one.last(),
        same_items(one.drop_last(), other.remove(j)),
{
    broadcast use vstd::multiset::group_multiset_axioms;

    let j = lemma_same_member(one, other, one.len() - 1);
    vstd::seq_lib::to_multiset_remove(other, j);
    vstd::seq_lib::to_multiset_remove(one, one.len() - 1);
    assert(one.remove(one.len() - 1) =~= one.drop_last());
    j
}

/// An item counts once among the items of a sequence that have a property
/// where it has the property, and not at all where it has not.
pub proof fn lemma_filter_len_remove<A>(items: Seq<A>, j: int, kept: spec_fn(A) -> bool)
    requires
        0 <= j < items.len(),
    ensures
        items.filter(kept).len() == items.remove(j).filter(kept).len() + if kept(items[j]) {
            1int
        } else {
            0int
        },
{
    let head = items.take(j);
    let tail = items.skip(j + 1);
    assert(items =~= head.push(items[j]) + tail);
    assert(items.remove(j) =~= head + tail);
    Seq::filter_distributes_over_add(head.push(items[j]), tail, kept);
    Seq::filter_distributes_over_add(head, tail, kept);
    head.lemma_filter_push(items[j], kept);
}

/// Sequences of the same items hold as many items with a property.
pub proof fn lemma_same_filter_len<A>(one: Seq<A>, other: Seq<A>, kept: spec_fn(A) -> bool)
    requires
        same_items(one, other),
    ensures
        one.filter(kept).len() == other.filter(kept).len(),
    decreases one.len(),
{
    lemma_same_len(one, other);
    if one.len() == 0 {
        assert(one =~= other);
    } else {
        let j = lemma_same_without_last(one, other);
        lemma_same_filter_len(one.drop_last(), other.remove(j), kept);
        lemma_filter_len_remove(other, j, kept);
        lemma_filter_len_remove(one, one.len() - 1, kept);
        assert(one.remove(one.len() - 1) =~= one.drop_last());
    }
}

/// What is made item by item from sequences of the same items are sequences
/// of the same items.
pub proof fn lemma_same_map<A, B>(one: Seq<A>, other: Seq<A>, make: spec_fn(A) -> B)
    requires
        same_items(one, other),
    ensures
        same_items(one.map_values(make), other.map_values(make)),
    decreases one.len(),
{
    broadcast use vstd::multiset::group_multiset_axioms;

    lemma_same_len(one, other);
    if one.len() == 0 {
        assert(one.map_values(make) =~= other.map_values(make));
    } else {
        let j = lemma_same_without_last(one, other);
        lemma_same_map(one.drop_last(), other.remove(j), make);
        let made_one = one.map_values(make);
        let made_other = other.map_values(make);
        assert(made_one.drop_last() =~= one.drop_last().map_values(make));
        assert(made_other.remove(j) =~= other.remove(j).map_values(make));
        assert(made_one.remove(made_one.len() - 1) =~= made_one.drop_last());
        vstd::seq_lib::to_multiset_remove(made_one, made_one.len() - 1);
        vstd::seq_lib::to_multiset_remove(made_other, j);
        vstd::seq_lib::to_multiset_contains(made_one, made_one.last());
        vstd::seq_lib::to_multiset_contains(made_other, made_other[j]);
        assert(made_one.contains(made_one[made_one.len() - 1]));
        assert(made_other.contains(made_other[j]));
        assert(made_one.last() == made_other[j]);
        assert(made_one.to_multiset() =~= made_one.to_multiset().remove(made_one.last()).insert(
            made_one.last(),
        ));
        assert(made_other.to_multiset() =~= made_other.to_multiset().remove(
            made_other[j],
        ).insert(made_other[j]));
    }
}

} // verus!
