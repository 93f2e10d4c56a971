//! Sums over finite sets.

use vstd::prelude::*;

verus! {

/// The sum of `value` over the elements of the finite set `keys`.
pub open spec fn sum_over<A>(keys: Set<A>, value: spec_fn(A) -> nat) -> nat
    decreases keys.len(),
    when keys.finite()
{
    if keys.len() == 0 {
        0
    } else {
        let key = keys.choose();
        value(key) + sum_over(keys.remove(key), value)
    }
}

/// Any element can be taken out of a sum.
pub proof fn lemma_sum_over_remove<A>(keys: Set<A>, value: spec_fn(A) -> nat, key: A)
    requires
        keys.finite(),
        keys.contains(key),
    ensures
        sum_over(keys, value) == value(key) + sum_over(keys.remove(key), value),
    decreases keys.len(),
{
    let chosen = keys.choose();
    if chosen != key {
        lemma_sum_over_remove(keys.remove(chosen), value, key);
        lemma_sum_over_remove(keys.remove(key), value, chosen);
        assert(keys.remove(chosen).remove(key) =~= keys.remove(key).remove(chosen));
    }
}

/// A new element adds its value to a sum.
pub proof fn lemma_sum_over_insert<A>(keys: Set<A>, value: spec_fn(A) -> nat, key: A)
    requires
        keys.finite(),
        !keys.contains(key),
    ensures
        sum_over(keys.insert(key), value) == sum_over(keys, value) + value(key),
{
    lemma_sum_over_remove(keys.insert(key), value, key);
    assert(keys.insert(key).remove(key) =~= keys);
}

/// A sum over part of a set is not over the sum over the whole.
pub proof fn lemma_sum_over_subset<A>(part: Set<A>, whole: Set<A>, value: spec_fn(A) -> nat)
    requires
        whole.finite(),
        part.subset_of(whole),
    ensures
        sum_over(part, value) <= sum_over(whole, value),
    decreases whole.len(),
{
    vstd::set_lib::lemma_len_subset(part, whole);
    if part.len() == 0 {
        assert(sum_over(part, value) == 0);
    } else {
        let chosen = part.choose();
        lemma_sum_over_remove(part, value, chosen);
        lemma_sum_over_remove(whole, value, chosen);
        lemma_sum_over_subset(part.remove(chosen), whole.remove(chosen), value);
    }
}

/// The elements among the first `count` of a sequence without repetition,
/// and what the next one adds to them.
pub proof fn lemma_take_next<A>(items: Seq<A>, count: int)
    requires
        items.no_duplicates(),
        0 <= count < items.len(),
    ensures
        items.take(count).to_set().finite(),
        !items.take(count).to_set().contains(items[count]),
        items.take(count + 1).to_set() == items.take(count).to_set().insert(items[count]),
{
    let before = items.take(count);
    let after = items.take(count + 1);
    vstd::seq_lib::seq_to_set_is_finite(before);
    if before.to_set().contains(items[count]) {
        let i = choose|i: int| 0 <= i < before.len() && before[i] == items[count];
        assert(items[i] == items[count]);
    }
    assert forall|item: A| after.to_set().contains(item) <==> before.to_set().insert(
        items[count],
    ).contains(item) by {
        if after.to_set().contains(item) {
            let i = choose|i: int| 0 <= i < after.len() && after[i] == item;
            if i < count {
                assert(before[i] == item);
            }
        }
        if before.to_set().contains(item) {
            let i = choose|i: int| 0 <= i < before.len() && before[i] == item;
            assert(after[i] == item);
        }
        if item == items[count] {
            assert(after[count] == item);
        }
    }
    assert(after.to_set() =~= before.to_set().insert(items[count]));
}

} // verus!
