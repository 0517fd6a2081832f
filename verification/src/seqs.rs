//! Small facts about lists that the loops of the library rest on.

use vstd::prelude::*;

verus! {

/// Whether an item is one of the first `n` of a list.
pub open spec fn among_first<T>(list: Seq<T>, n: int, item: T) -> bool
    decreases n,
{
    if n <= 0 {
        false
    } else {
        among_first(list, n - 1, item) || (n <= list.len() && list[n - 1] == item)
    }
}

/// An item is among the first `n` of a list exactly if it stands at a place before `n`.
pub proof fn lemma_among_first<T>(list: Seq<T>, n: int, item: T)
    requires
        0 <= n <= list.len(),
    ensures
        among_first(list, n, item) <==> exists|j: int| 0 <= j < n && list[j] == item,
        n == list.len() ==> (among_first(list, n, item) <==> list.contains(item)),
    decreases n,
{
    if n > 0 {
        lemma_among_first(list, n - 1, item);
        if among_first(list, n - 1, item) {
            let j = choose|j: int| 0 <= j < n - 1 && list[j] == item;
            assert(0 <= j < n && list[j] == item);
        }
        if list[n - 1] == item {
            assert(0 <= n - 1 < n && list[n - 1] == item);
        }
        if exists|j: int| 0 <= j < n && list[j] == item {
            let j = choose|j: int| 0 <= j < n && list[j] == item;
            if j < n - 1 {
                assert(0 <= j < n - 1 && list[j] == item);
            }
        }
    }
}

/// A list without repeats stays so when something that is not in it is added.
pub proof fn lemma_push_fresh<T>(list: Seq<T>, item: T)
    requires
        list.no_duplicates(),
        !list.contains(item),
    ensures
        list.push(item).no_duplicates(),
        list.push(item).len() == list.len() + 1,
{
}

/// What is in a list with one more item at its end.
pub proof fn lemma_push_contains<T>(list: Seq<T>, item: T, other: T)
    ensures
        list.push(item).contains(other) <==> list.contains(other) || other == item,
{
    if list.contains(other) {
        let j = choose|j: int| 0 <= j < list.len() && list[j] == other;
        assert(list.push(item)[j] == other);
    }
    if other == item {
        assert(list.push(item)[list.len() as int] == other);
    }
}

/// How often an item stands in a list.
pub open spec fn count_of<T>(list: Seq<T>, item: T) -> nat
    decreases list.len(),
{
    if list.len() == 0 {
        0
    } else {
        count_of(list.drop_last(), item) + if list.last() == item {
            1nat
        } else {
            0nat
        }
    }
}

/// What adding an item at the end of a list does to the counts.
pub proof fn lemma_count_of_push<T>(list: Seq<T>, added: T, item: T)
    ensures
        count_of(list.push(added), item) == count_of(list, item) + if added == item {
            1nat
        } else {
            0nat
        },
{
    assert(list.push(added).drop_last() =~= list);
}

/// An item with a count above zero is in the list, and the other way round.
pub proof fn lemma_count_of_contains<T>(list: Seq<T>, item: T)
    ensures
        count_of(list, item) > 0 <==> list.contains(item),
        count_of(list, item) <= list.len(),
    decreases list.len(),
{
    if list.len() > 0 {
        let shorter = list.drop_last();
        lemma_count_of_contains(shorter, item);
        assert(list =~= shorter.push(list.last()));
        lemma_push_contains(shorter, list.last(), item);
    }
}

/// How many of the first `n` items of a list meet a condition.
pub open spec fn count_where<T>(list: Seq<T>, n: int, meets: spec_fn(T) -> bool) -> nat
    decreases n,
{
    if n <= 0 || n > list.len() {
        0
    } else {
        count_where(list, n - 1, meets) + if meets(list[n - 1]) {
            1nat
        } else {
            0nat
        }
    }
}

/// In a list without repeats, as many of the first `n` items meet a condition
/// as the set of those items has members that meet it.
pub proof fn lemma_count_where<T>(list: Seq<T>, n: int, meets: spec_fn(T) -> bool)
    requires
        list.no_duplicates(),
        0 <= n <= list.len(),
    ensures
        list.take(n).to_set().filter(meets).finite(),
        count_where(list, n, meets) == list.take(n).to_set().filter(meets).len(),
        count_where(list, n, meets) <= n,
    decreases n,
{
    broadcast use vstd::seq_lib::seq_to_set_is_finite;

    if n == 0 {
        assert(list.take(0).to_set().filter(meets) =~= Set::<T>::empty());
    } else {
        lemma_count_where(list, n - 1, meets);
        let shorter = list.take(n - 1);
        let longer = list.take(n);
        let before = shorter.to_set();
        let item = list[n - 1];
        assert forall|other: T| longer.to_set().contains(other) <==> before.contains(other)
            || other == item by {
            if longer.to_set().contains(other) {
                let j = choose|j: int| 0 <= j < longer.len() && longer[j] == other;
                if j < n - 1 {
                    assert(shorter[j] == other);
                }
            }
            if before.contains(other) {
                let j = choose|j: int| 0 <= j < shorter.len() && shorter[j] == other;
                assert(longer[j] == other);
            }
            if other == item {
                assert(longer[n - 1] == other);
            }
        }
        assert(!before.contains(item)) by {
            if before.contains(item) {
                let j = choose|j: int| 0 <= j < shorter.len() && shorter[j] == item;
                assert(list[j] == list[n - 1]);
            }
        }
        if meets(item) {
            assert(longer.to_set().filter(meets) =~= before.filter(meets).insert(item));
        } else {
            assert(longer.to_set().filter(meets) =~= before.filter(meets));
        }
    }
}

/// In a list without repeats, as many items meet a condition as the set of
/// its items has members that meet it.
pub proof fn lemma_count_where_all<T>(list: Seq<T>, meets: spec_fn(T) -> bool)
    requires
        list.no_duplicates(),
    ensures
        list.to_set().filter(meets).finite(),
        count_where(list, list.len() as int, meets) == list.to_set().filter(meets).len(),
        count_where(list, list.len() as int, meets) <= list.len(),
{
    lemma_count_where(list, list.len() as int, meets);
    assert(list.take(list.len() as int) =~= list);
}

} // verus!
