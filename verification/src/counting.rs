//! Counting the occurrences of an item in a sequence, and adding up weights.
use vstd::prelude::*;

verus! {

/// Number of occurrences of `item` in `items`.
pub open spec fn count<T>(items: Seq<T>, item: T) -> nat
    decreases items.len(),
{
    if items.len() == 0 {
        0
    } else {
        count(items.drop_last(), item) + if items.last() == item {
            1nat
        } else {
            0nat
        }
    }
}

/// Appending one item adds it to the count.
pub proof fn lemma_count_push<T>(items: Seq<T>, last: T, item: T)
    ensures
        count(items.push(last), item) == count(items, item) + if last == item {
            1nat
        } else {
            0nat
        },
{
    assert(items.push(last).drop_last() =~= items);
}

/// The count over a concatenation is the sum of the counts.
pub proof fn lemma_count_add<T>(a: Seq<T>, b: Seq<T>, item: T)
    ensures
        count(a + b, item) == count(a, item) + count(b, item),
    decreases b.len(),
{
    if b.len() == 0 {
        assert(a + b =~= a);
    } else {
        assert((a + b).drop_last() =~= a + b.drop_last());
        lemma_count_add(a, b.drop_last(), item);
    }
}

/// An item occurs iff its count is positive.
pub proof fn lemma_count_contains<T>(items: Seq<T>, item: T)
    ensures
        items.contains(item) <==> count(items, item) > 0,
    decreases items.len(),
{
    if items.len() > 0 {
        let rest = items.drop_last();
        lemma_count_contains(rest, item);
        if items.contains(item) && items.last() != item {
            let i = choose|i: int| 0 <= i < items.len() && items[i] == item;
            assert(rest[i] == item);
        }
        if rest.contains(item) {
            let i = choose|i: int| 0 <= i < rest.len() && rest[i] == item;
            assert(items[i] == item);
        }
        if items.last() == item {
            assert(items[items.len() - 1] == item);
        }
    }
}

/// An item in two places is counted at least twice.
pub proof fn lemma_count_two<T>(items: Seq<T>, i: int, j: int)
    requires
        0 <= i < j < items.len(),
        items[i] == items[j],
    ensures
        count(items, items[i]) >= 2,
    decreases items.len(),
{
    let rest = items.drop_last();
    if j < items.len() - 1 {
        lemma_count_two(rest, i, j);
    } else {
        assert(rest[i] == items[i]);
        lemma_count_contains(rest, items[i]);
    }
}

/// An item occurs at most as often as there are items.
pub proof fn lemma_count_len<T>(items: Seq<T>, item: T)
    ensures
        count(items, item) <= items.len(),
    decreases items.len(),
{
    if items.len() > 0 {
        lemma_count_len(items.drop_last(), item);
    }
}

/// Sum of the weights of `items`.
pub open spec fn sum<T>(items: Seq<T>, weight: spec_fn(T) -> nat) -> nat
    decreases items.len(),
{
    if items.len() == 0 {
        0
    } else {
        sum(items.drop_last(), weight) + weight(items.last())
    }
}

/// The weight of what is kept.
pub open spec fn kept_weight<T>(keep: spec_fn(T) -> bool, weight: spec_fn(T) -> nat) -> spec_fn(
    T,
) -> nat {
    |item: T|
        if keep(item) {
            weight(item)
        } else {
            0
        }
}

/// Appending one item adds its weight.
pub proof fn lemma_sum_push<T>(items: Seq<T>, last: T, weight: spec_fn(T) -> nat)
    ensures
        sum(items.push(last), weight) == sum(items, weight) + weight(last),
{
    assert(items.push(last).drop_last() =~= items);
}

/// The sum over a concatenation is the sum of the sums.
pub proof fn lemma_sum_add<T>(a: Seq<T>, b: Seq<T>, weight: spec_fn(T) -> nat)
    ensures
        sum(a + b, weight) == sum(a, weight) + sum(b, weight),
    decreases b.len(),
{
    if b.len() == 0 {
        assert(a + b =~= a);
    } else {
        assert((a + b).drop_last() =~= a + b.drop_last());
        lemma_sum_add(a, b.drop_last(), weight);
    }
}

/// Replacing one item exchanges its weight.
pub proof fn lemma_sum_update<T>(items: Seq<T>, i: int, item: T, weight: spec_fn(T) -> nat)
    requires
        0 <= i < items.len(),
    ensures
        sum(items.update(i, item), weight) + weight(items[i]) == sum(items, weight) + weight(item),
    decreases items.len(),
{
    let rest = items.drop_last();
    if i == items.len() - 1 {
        assert(items.update(i, item).drop_last() =~= rest);
    } else {
        assert(items.update(i, item).drop_last() =~= rest.update(i, item));
        lemma_sum_update(rest, i, item, weight);
    }
}

/// Weights that agree on every item have the same sum.
pub proof fn lemma_sum_same<T>(items: Seq<T>, f: spec_fn(T) -> nat, g: spec_fn(T) -> nat)
    requires
        forall|i: int| 0 <= i < items.len() ==> f(#[trigger] items[i]) == g(items[i]),
    ensures
        sum(items, f) == sum(items, g),
    decreases items.len(),
{
    if items.len() > 0 {
        let rest = items.drop_last();
        assert forall|i: int| 0 <= i < rest.len() implies f(#[trigger] rest[i]) == g(rest[i]) by {
            assert(rest[i] == items[i]);
        }
        lemma_sum_same(rest, f, g);
        assert(f(items[items.len() - 1]) == g(items[items.len() - 1]));
    }
}

/// Sequences whose items weigh the same, place by place, have the same sum.
pub proof fn lemma_sum_zip<S, T>(
    a: Seq<S>,
    b: Seq<T>,
    f: spec_fn(S) -> nat,
    g: spec_fn(T) -> nat,
)
    requires
        a.len() == b.len(),
        forall|i: int| 0 <= i < a.len() ==> f(#[trigger] a[i]) == g(b[i]),
    ensures
        sum(a, f) == sum(b, g),
    decreases a.len(),
{
    if a.len() > 0 {
        assert forall|i: int| 0 <= i < a.len() - 1 implies f(#[trigger] a.drop_last()[i]) == g(
            b.drop_last()[i],
        ) by {
            assert(f(a[i]) == g(b[i]));
        }
        lemma_sum_zip(a.drop_last(), b.drop_last(), f, g);
        assert(f(a[a.len() - 1]) == g(b[b.len() - 1]));
    }
}

/// Every item weighs at most as much as all together.
pub proof fn lemma_sum_one<T>(items: Seq<T>, i: int, weight: spec_fn(T) -> nat)
    requires
        0 <= i < items.len(),
    ensures
        weight(items[i]) <= sum(items, weight),
    decreases items.len(),
{
    if i < items.len() - 1 {
        lemma_sum_one(items.drop_last(), i, weight);
    }
}

/// Two items weigh at most as much as all together.
pub proof fn lemma_sum_two<T>(items: Seq<T>, i: int, j: int, weight: spec_fn(T) -> nat)
    requires
        0 <= i < j < items.len(),
    ensures
        weight(items[i]) + weight(items[j]) <= sum(items, weight),
    decreases items.len(),
{
    if j < items.len() - 1 {
        lemma_sum_two(items.drop_last(), i, j, weight);
    } else {
        lemma_sum_one(items.drop_last(), i, weight);
    }
}

/// Nothing but zeros adds up to zero.
pub proof fn lemma_sum_nothing<T>(items: Seq<T>, weight: spec_fn(T) -> nat)
    requires
        forall|i: int| 0 <= i < items.len() ==> weight(#[trigger] items[i]) == 0,
    ensures
        sum(items, weight) == 0,
    decreases items.len(),
{
    if items.len() > 0 {
        let rest = items.drop_last();
        assert forall|i: int| 0 <= i < rest.len() implies weight(#[trigger] rest[i]) == 0 by {
            assert(rest[i] == items[i]);
        }
        lemma_sum_nothing(rest, weight);
        assert(weight(items[items.len() - 1]) == 0);
    }
}

/// A single item with a weight is the whole sum.
pub proof fn lemma_sum_only<T>(items: Seq<T>, i: int, weight: spec_fn(T) -> nat)
    requires
        0 <= i < items.len(),
        forall|j: int| 0 <= j < items.len() && j != i ==> weight(#[trigger] items[j]) == 0,
    ensures
        sum(items, weight) == weight(items[i]),
    decreases items.len(),
{
    let rest = items.drop_last();
    let last = items.len() - 1;
    if i == last {
        assert forall|j: int| 0 <= j < rest.len() implies weight(#[trigger] rest[j]) == 0 by {
            assert(rest[j] == items[j]);
        }
        lemma_sum_nothing(rest, weight);
    } else {
        assert forall|j: int| 0 <= j < rest.len() && j != i implies weight(#[trigger] rest[j])
            == 0 by {
            assert(rest[j] == items[j]);
        }
        lemma_sum_only(rest, i, weight);
        assert(weight(items[last]) == 0);
    }
}

/// Summing a filtered sequence counts only what is kept.
pub proof fn lemma_sum_filter<T>(
    items: Seq<T>,
    keep: spec_fn(T) -> bool,
    weight: spec_fn(T) -> nat,
)
    ensures
        sum(items.filter(keep), weight) == sum(items, kept_weight(keep, weight)),
    decreases items.len(),
{
    reveal(Seq::filter);
    if items.len() > 0 {
        let rest = items.drop_last();
        lemma_sum_filter(rest, keep, weight);
        lemma_sum_push(rest.filter(keep), items.last(), weight);
    }
}

/// Reversing does not change the sum.
pub proof fn lemma_sum_reverse<T>(items: Seq<T>, weight: spec_fn(T) -> nat)
    ensures
        sum(items.reverse(), weight) == sum(items, weight),
    decreases items.len(),
{
    if items.len() > 0 {
        let rest = items.drop_last();
        let last = Seq::<T>::empty().push(items.last());
        assert(items.reverse() =~= last + rest.reverse());
        lemma_sum_reverse(rest, weight);
        lemma_sum_add(last, rest.reverse(), weight);
        lemma_sum_push(Seq::<T>::empty(), items.last(), weight);
    }
}

/// Smaller weights have a smaller sum.
pub proof fn lemma_sum_le<T>(items: Seq<T>, f: spec_fn(T) -> nat, g: spec_fn(T) -> nat)
    requires
        forall|i: int| 0 <= i < items.len() ==> f(#[trigger] items[i]) <= g(items[i]),
    ensures
        sum(items, f) <= sum(items, g),
    decreases items.len(),
{
    if items.len() > 0 {
        let rest = items.drop_last();
        assert forall|i: int| 0 <= i < rest.len() implies f(#[trigger] rest[i]) <= g(rest[i]) by {
            assert(rest[i] == items[i]);
        }
        lemma_sum_le(rest, f, g);
        assert(f(items[items.len() - 1]) <= g(items[items.len() - 1]));
    }
}

/// Two weights that stay below a third together do so in sum.
pub proof fn lemma_sum_two_le<T>(
    items: Seq<T>,
    f: spec_fn(T) -> nat,
    g: spec_fn(T) -> nat,
    bound: spec_fn(T) -> nat,
)
    requires
        forall|i: int|
            0 <= i < items.len() ==> f(#[trigger] items[i]) + g(items[i]) <= bound(items[i]),
    ensures
        sum(items, f) + sum(items, g) <= sum(items, bound),
    decreases items.len(),
{
    if items.len() > 0 {
        let rest = items.drop_last();
        assert forall|i: int| 0 <= i < rest.len() implies f(#[trigger] rest[i]) + g(rest[i])
            <= bound(rest[i]) by {
            assert(rest[i] == items[i]);
        }
        lemma_sum_two_le(rest, f, g, bound);
        assert(f(items[items.len() - 1]) + g(items[items.len() - 1]) <= bound(
            items[items.len() - 1],
        ));
    }
}

/// The sum over mapped items is the sum of the weights of their images.
pub proof fn lemma_sum_map<S, T>(items: Seq<S>, image: spec_fn(S) -> T, weight: spec_fn(T) -> nat)
    ensures
        sum(items.map_values(image), weight) == sum(items, |item: S| weight(image(item))),
    decreases items.len(),
{
    if items.len() > 0 {
        assert(items.map_values(image).drop_last() =~= items.drop_last().map_values(image));
        lemma_sum_map(items.drop_last(), image, weight);
    }
}

/// The items that satisfy a condition and those that do not add up to all.
pub proof fn lemma_sum_split<T>(
    items: Seq<T>,
    keep: spec_fn(T) -> bool,
    drop: spec_fn(T) -> bool,
    weight: spec_fn(T) -> nat,
)
    requires
        forall|item: T| #[trigger] drop(item) == !keep(item),
    ensures
        sum(items, weight) == sum(items.filter(keep), weight) + sum(items.filter(drop), weight),
    decreases items.len(),
{
    reveal(Seq::filter);
    if items.len() > 0 {
        let rest = items.drop_last();
        let last = items.last();
        lemma_sum_split(rest, keep, drop, weight);
        assert(drop(last) == !keep(last));
        lemma_sum_push(rest.filter(keep), last, weight);
        lemma_sum_push(rest.filter(drop), last, weight);
    }
}

/// The sum does not depend on the order of the items.
pub proof fn lemma_sum_permuted<T>(a: Seq<T>, b: Seq<T>, weight: spec_fn(T) -> nat)
    requires
        a.to_multiset() == b.to_multiset(),
    ensures
        sum(a, weight) == sum(b, weight),
    decreases a.len(),
{
    broadcast use vstd::seq_lib::group_to_multiset_ensures;

    assert(a.to_multiset().len() == a.len());
    assert(b.to_multiset().len() == b.len());
    if a.len() > 0 {
        let last = a.last();
        assert(a.contains(last)) by {
            assert(a[a.len() - 1] == last);
        }
        assert(a.to_multiset().count(last) > 0);
        assert(b.to_multiset().count(last) > 0);
        assert(b.contains(last));
        let i = choose|i: int| 0 <= i < b.len() && b[i] == last;
        let before = b.take(i);
        let after = b.skip(i + 1);
        assert(b =~= before + seq![last] + after);
        assert(b.remove(i) =~= before + after);
        assert(a.remove(a.len() - 1) =~= a.drop_last());
        assert(a.drop_last().to_multiset() =~= b.remove(i).to_multiset());
        lemma_sum_permuted(a.drop_last(), before + after, weight);
        lemma_sum_add(before, after, weight);
        lemma_sum_add(before + seq![last], after, weight);
        assert(before + seq![last] =~= before.push(last));
        lemma_sum_push(before, last, weight);
    }
}

} // verus!
