//! Sums of weights over sequences and over finite maps.

use vstd::prelude::*;

verus! {

/// The sum of the weights of the items.
pub open spec fn total<T>(items: Seq<T>, weight: spec_fn(T) -> nat) -> nat
    decreases items.len(),
{
    if items.len() == 0 {
        0
    } else {
        total(items.drop_last(), weight) + weight(items.last())
    }
}

/// The sum of the weights of the values of a finite map.
pub open spec fn tally<T>(map: Map<usize, T>, weight: spec_fn(T) -> nat) -> nat
    decreases map.dom().len(),
{
    if map.dom().finite() && map.dom().len() > 0 {
        let key = map.dom().choose();
        tally(map.remove(key), weight) + weight(map[key])
    } else {
        0
    }
}

/// The values that `map` holds at `keys`.
pub open spec fn values_at<T>(map: Map<usize, T>, keys: Seq<usize>) -> Seq<T> {
    keys.map_values(|key: usize| map[key])
}

/// `keys` names every key of `map` once.
pub open spec fn lists<T>(keys: Seq<usize>, map: Map<usize, T>) -> bool {
    &&& keys.no_duplicates()
    &&& keys.to_set() == map.dom()
}

/// Adding an item at the end adds its weight.
pub proof fn lemma_total_push<T>(items: Seq<T>, item: T, weight: spec_fn(T) -> nat)
    ensures
        total(items.push(item), weight) == total(items, weight) + weight(item),
{
    assert(items.push(item).drop_last() =~= items);
}

/// The sum over the first `i + 1` items is the sum over the first `i` and one weight more.
pub proof fn lemma_total_step<T>(items: Seq<T>, i: int, weight: spec_fn(T) -> nat)
    requires
        0 <= i < items.len(),
    ensures
        total(items.take(i + 1), weight) == total(items.take(i), weight) + weight(items[i]),
{
    assert(items.take(i + 1).drop_last() =~= items.take(i));
}

/// Two lists in a row weigh what both of them do.
pub proof fn lemma_total_concat<T>(a: Seq<T>, b: Seq<T>, weight: spec_fn(T) -> nat)
    ensures
        total(a + b, weight) == total(a, weight) + total(b, weight),
    decreases b.len(),
{
    if b.len() == 0 {
        assert(a + b =~= a);
    } else {
        lemma_total_concat(a, b.drop_last(), weight);
        assert((a + b).drop_last() =~= a + b.drop_last());
    }
}

/// Where no weight grows, neither does the sum.
pub proof fn lemma_total_le<T>(items: Seq<T>, low: spec_fn(T) -> nat, high: spec_fn(T) -> nat)
    requires
        forall|i: int| 0 <= i < items.len() ==> low(#[trigger] items[i]) <= high(items[i]),
    ensures
        total(items, low) <= total(items, high),
    decreases items.len(),
{
    if items.len() > 0 {
        lemma_total_le(items.drop_last(), low, high);
    }
}

/// A part of the items weighs no more than all of them.
pub proof fn lemma_total_prefix<T>(items: Seq<T>, i: int, weight: spec_fn(T) -> nat)
    requires
        0 <= i <= items.len(),
    ensures
        total(items.take(i), weight) <= total(items, weight),
    decreases items.len(),
{
    if i == items.len() {
        assert(items.take(i) =~= items);
    } else {
        lemma_total_prefix(items.drop_last(), i, weight);
        assert(items.drop_last().take(i) =~= items.take(i));
    }
}

/// A map's sum is the sum without one of its keys, and that key's weight.
pub proof fn lemma_tally_remove<T>(map: Map<usize, T>, key: usize, weight: spec_fn(T) -> nat)
    requires
        map.dom().finite(),
        map.contains_key(key),
    ensures
        tally(map, weight) == tally(map.remove(key), weight) + weight(map[key]),
    decreases map.dom().len(),
{
    let chosen = map.dom().choose();
    assert(map.dom().contains(key));
    assert(map.dom().len() > 0);
    if chosen != key {
        lemma_tally_remove(map.remove(chosen), key, weight);
        lemma_tally_remove(map.remove(key), chosen, weight);
        assert(map.remove(chosen).remove(key) =~= map.remove(key).remove(chosen));
    }
}

/// A new key adds its weight.
pub proof fn lemma_tally_insert<T>(
    map: Map<usize, T>,
    key: usize,
    value: T,
    weight: spec_fn(T) -> nat,
)
    requires
        map.dom().finite(),
        !map.contains_key(key),
    ensures
        tally(map.insert(key, value), weight) == tally(map, weight) + weight(value),
{
    lemma_tally_remove(map.insert(key, value), key, weight);
    assert(map.insert(key, value).remove(key) =~= map);
}

/// A map's sum is the sum over any listing of it.
pub proof fn lemma_tally_listing<T>(
    map: Map<usize, T>,
    keys: Seq<usize>,
    weight: spec_fn(T) -> nat,
)
    requires
        lists(keys, map),
    ensures
        map.dom().finite(),
        tally(map, weight) == total(values_at(map, keys), weight),
    decreases keys.len(),
{
    vstd::seq_lib::seq_to_set_is_finite(keys);
    keys.unique_seq_to_set();
    if keys.len() > 0 {
        let key = keys.last();
        let rest = keys.drop_last();
        assert(keys.to_set().contains(key));
        assert(rest.to_set() =~= map.remove(key).dom()) by {
            assert forall|k: usize| rest.to_set().contains(k) <==> map.remove(key).dom().contains(k) by {
                if map.remove(key).dom().contains(k) {
                    assert(keys.to_set().contains(k));
                    let i = choose|i: int| 0 <= i < keys.len() && keys[i] == k;
                    assert(rest[i] == k);
                }
                if rest.to_set().contains(k) {
                    let i = choose|i: int| 0 <= i < rest.len() && rest[i] == k;
                    assert(keys[i] == k);
                    assert(keys.to_set().contains(k));
                }
            }
        }
        lemma_tally_listing(map.remove(key), rest, weight);
        lemma_tally_remove(map, key, weight);
        assert(values_at(map, keys).drop_last() =~= values_at(map.remove(key), rest)) by {
            assert forall|i: int| 0 <= i < rest.len() implies rest[i] != key by {
                assert(keys[i] != keys[keys.len() - 1]);
            }
        }
    }
}

/// Where no weight grows, neither does the sum.
pub proof fn lemma_tally_le<T>(map: Map<usize, T>, low: spec_fn(T) -> nat, high: spec_fn(T) -> nat)
    requires
        forall|key: usize| #[trigger] map.contains_key(key) ==> low(map[key]) <= high(map[key]),
    ensures
        tally(map, low) <= tally(map, high),
    decreases map.dom().len(),
{
    if map.dom().finite() && map.dom().len() > 0 {
        let key = map.dom().choose();
        assert(map.contains_key(key));
        assert forall|k: usize| #[trigger] map.remove(key).contains_key(k) implies low(
            map.remove(key)[k],
        ) <= high(map.remove(key)[k]) by {
            assert(map.contains_key(k));
        }
        lemma_tally_le(map.remove(key), low, high);
    }
}

/// The weight of the items of one class.
pub open spec fn weight_of_class<T, K>(
    class: spec_fn(T) -> K,
    weight: spec_fn(T) -> nat,
    k: K,
) -> spec_fn(T) -> nat {
    |item: T|
        if class(item) == k {
            weight(item)
        } else {
            0
        }
}

/// The sum, over the classes in `classes`, of what the items of each class weigh.
pub open spec fn total_by_class<T, K>(
    items: Seq<T>,
    class: spec_fn(T) -> K,
    weight: spec_fn(T) -> nat,
    classes: Seq<K>,
) -> nat {
    total(classes, |k: K| total(items, weight_of_class(class, weight, k)))
}

/// One item weighs its own weight in its class, and nothing in the others.
proof fn lemma_one_item<T, K>(
    item: T,
    class: spec_fn(T) -> K,
    weight: spec_fn(T) -> nat,
    classes: Seq<K>,
)
    requires
        classes.no_duplicates(),
    ensures
        total(classes, |k: K| weight_of_class(class, weight, k)(item)) == if classes.contains(
            class(item),
        ) {
            weight(item)
        } else {
            0
        },
    decreases classes.len(),
{
    if classes.len() > 0 {
        let rest = classes.drop_last();
        lemma_one_item(item, class, weight, rest);
        if classes.last() == class(item) {
            if rest.contains(class(item)) {
                let i = choose|i: int| 0 <= i < rest.len() && rest[i] == class(item);
                assert(classes[i] == classes[classes.len() - 1]);
            }
            assert(classes.contains(class(item)));
        } else if classes.contains(class(item)) {
            let i = choose|i: int| 0 <= i < classes.len() && classes[i] == class(item);
            assert(rest[i] == class(item));
        } else if rest.contains(class(item)) {
            let i = choose|i: int| 0 <= i < rest.len() && rest[i] == class(item);
            assert(classes[i] == class(item));
        }
    }
}

/// Sums add up term by term.
proof fn lemma_total_sum<K>(
    keys: Seq<K>,
    a: spec_fn(K) -> nat,
    b: spec_fn(K) -> nat,
    both: spec_fn(K) -> nat,
)
    requires
        forall|k: K| #[trigger] both(k) == a(k) + b(k),
    ensures
        total(keys, both) == total(keys, a) + total(keys, b),
    decreases keys.len(),
{
    if keys.len() > 0 {
        lemma_total_sum(keys.drop_last(), a, b, both);
    }
}

/// Classes share the items among them: together they weigh no more than all items, and just as
/// much if every item that weighs anything has its class in the list.
pub proof fn lemma_classes_share<T, K>(
    items: Seq<T>,
    class: spec_fn(T) -> K,
    weight: spec_fn(T) -> nat,
    classes: Seq<K>,
)
    requires
        classes.no_duplicates(),
    ensures
        total_by_class(items, class, weight, classes) <= total(items, weight),
        (forall|i: int|
            0 <= i < items.len() && weight(#[trigger] items[i]) > 0 ==> classes.contains(
                class(items[i]),
            )) ==> total_by_class(items, class, weight, classes) == total(items, weight),
    decreases items.len(),
{
    let whole = |k: K| total(items, weight_of_class(class, weight, k));
    if items.len() == 0 {
        let none = |k: K| 0nat;
        lemma_total_le(classes, whole, none);
        lemma_zero(classes);
    } else {
        let rest = items.drop_last();
        let item = items.last();
        lemma_classes_share(rest, class, weight, classes);
        lemma_one_item(item, class, weight, classes);
        let before = |k: K| total(rest, weight_of_class(class, weight, k));
        let one = |k: K| weight_of_class(class, weight, k)(item);
        lemma_total_sum(classes, before, one, whole);
        if forall|i: int|
            0 <= i < items.len() && weight(#[trigger] items[i]) > 0 ==> classes.contains(
                class(items[i]),
            ) {
            assert(items[items.len() - 1] == item);
            assert forall|i: int|
                0 <= i < rest.len() && weight(#[trigger] rest[i]) > 0 implies classes.contains(
                class(rest[i]),
            ) by {
                assert(rest[i] == items[i]);
            }
        }
    }
}

proof fn lemma_to_seq_is_distinct(set: Set<usize>)
    requires
        set.finite(),
    ensures
        set.to_seq().no_duplicates(),
        set.to_seq().to_set() == set,
    decreases set.len(),
{
    set.lemma_to_seq_to_set_id();
    if set.len() > 0 {
        let x = set.choose();
        let rest = set.remove(x);
        lemma_to_seq_is_distinct(rest);
        let list = rest.to_seq();
        assert(set.to_seq() == Seq::<usize>::empty().push(x) + list);
        assert forall|i: int, j: int|
            0 <= i < set.to_seq().len() && 0 <= j < set.to_seq().len() && i
                != j implies set.to_seq()[i] != set.to_seq()[j] by {
            assert forall|k: int| 0 <= k < list.len() implies #[trigger] list[k] != x by {
                assert(list.to_set().contains(list[k]));
            }
        }
    }
}

/// A finite map can be listed.
pub proof fn lemma_has_listing<T>(map: Map<usize, T>)
    requires
        map.dom().finite(),
    ensures
        lists(map.dom().to_seq(), map),
{
    lemma_to_seq_is_distinct(map.dom());
}

/// The sum, over the classes in `classes`, of what the values of each class weigh.
pub open spec fn tally_by_class<T, K>(
    map: Map<usize, T>,
    class: spec_fn(T) -> K,
    weight: spec_fn(T) -> nat,
    classes: Seq<K>,
) -> nat {
    total(classes, |k: K| tally(map, weight_of_class(class, weight, k)))
}

/// Classes share the values of a map among them: together they weigh no more than all values,
/// and just as much if every value that weighs anything has its class in the list.
pub proof fn lemma_tally_classes_share<T, K>(
    map: Map<usize, T>,
    class: spec_fn(T) -> K,
    weight: spec_fn(T) -> nat,
    classes: Seq<K>,
)
    requires
        map.dom().finite(),
        classes.no_duplicates(),
    ensures
        tally_by_class(map, class, weight, classes) <= tally(map, weight),
        (forall|key: usize| #[trigger]
            map.contains_key(key) && weight(map[key]) > 0 ==> classes.contains(class(map[key]))) ==> tally_by_class(map, class, weight, classes) == tally(map, weight),
{
    let keys = map.dom().to_seq();
    lemma_has_listing(map);
    let items = values_at(map, keys);
    lemma_tally_listing(map, keys, weight);
    lemma_classes_share(items, class, weight, classes);
    let by_map = |k: K| tally(map, weight_of_class(class, weight, k));
    let by_list = |k: K| total(items, weight_of_class(class, weight, k));
    assert forall|k: K| #[trigger] by_map(k) == by_list(k) by {
        lemma_tally_listing(map, keys, weight_of_class(class, weight, k));
    }
    lemma_total_le(classes, by_map, by_list);
    lemma_total_le(classes, by_list, by_map);
    if forall|key: usize| #[trigger]
        map.contains_key(key) && weight(map[key]) > 0 ==> classes.contains(class(map[key])) {
        assert forall|i: int|
            0 <= i < items.len() && weight(#[trigger] items[i]) > 0 implies classes.contains(
            class(items[i]),
        ) by {
            assert(keys.to_set().contains(keys[i]));
            assert(map.contains_key(keys[i]));
        }
    }
}

/// Where two weights agree on every value, so do the sums.
pub proof fn lemma_tally_same<T>(map: Map<usize, T>, a: spec_fn(T) -> nat, b: spec_fn(T) -> nat)
    requires
        forall|key: usize| #[trigger] map.contains_key(key) ==> a(map[key]) == b(map[key]),
    ensures
        tally(map, a) == tally(map, b),
{
    lemma_tally_le(map, a, b);
    lemma_tally_le(map, b, a);
}

/// With a weight of 1 for each value the sum is their number.
pub proof fn lemma_tally_counts<T>(map: Map<usize, T>)
    requires
        map.dom().finite(),
    ensures
        tally(map, |value: T| 1nat) == map.len(),
    decreases map.dom().len(),
{
    if map.dom().len() > 0 {
        let key = map.dom().choose();
        lemma_tally_counts(map.remove(key));
    }
}

/// Where nothing weighs anything, neither does all of it.
pub proof fn lemma_tally_nothing<T>(map: Map<usize, T>)
    ensures
        tally(map, |value: T| 0nat) == 0,
    decreases map.dom().len(),
{
    if map.dom().finite() && map.dom().len() > 0 {
        lemma_tally_nothing(map.remove(map.dom().choose()));
    }
}

proof fn lemma_zero<K>(keys: Seq<K>)
    ensures
        total(keys, |k: K| 0nat) == 0,
    decreases keys.len(),
{
    if keys.len() > 0 {
        lemma_zero(keys.drop_last());
    }
}

} // verus!
