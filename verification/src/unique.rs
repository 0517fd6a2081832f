//! Lists without repeats, as `itertools` makes them.

use crate::keys::Coordinate;
use crate::seqs::{lemma_push_contains, lemma_push_fresh};
use itertools::Itertools;
use vstd::prelude::*;

verus! {

/// A list with every item kept where it first stands and dropped where it stands again.
pub open spec fn first_occurrences<T>(list: Seq<T>) -> Seq<T>
    decreases list.len(),
{
    if list.len() == 0 {
        Seq::empty()
    } else {
        let before = first_occurrences(list.drop_last());
        if before.contains(list.last()) {
            before
        } else {
            before.push(list.last())
        }
    }
}

/// The first occurrences of a list hold what the list holds, each once.
pub proof fn lemma_first_occurrences<T>(list: Seq<T>)
    ensures
        first_occurrences(list).no_duplicates(),
        forall|item: T| first_occurrences(list).contains(item) <==> list.contains(item),
        first_occurrences(list).len() <= list.len(),
    decreases list.len(),
{
    if list.len() > 0 {
        let shorter = list.drop_last();
        let before = first_occurrences(shorter);
        lemma_first_occurrences(shorter);
        assert forall|item: T| first_occurrences(list).contains(item) <==> list.contains(item) by {
            lemma_push_contains(before, list.last(), item);
            assert(list =~= shorter.push(list.last()));
            lemma_push_contains(shorter, list.last(), item);
        }
        if !before.contains(list.last()) {
            lemma_push_fresh(before, list.last());
        }
    }
}

/// `Itertools::unique` on a list of places: the places in the order in which
/// they first occur, each once.
#[verifier::external_body]
pub(crate) fn unique_coordinates(list: Vec<Coordinate>) -> (distinct: Vec<Coordinate>)
    ensures
        distinct@ == first_occurrences(list@),
{
    list.into_iter().unique().collect()
}

} // verus!
