//! Removal of entries by their positions in a frozen snapshot of a list.
//!
//! Every position refers to the list as it was handed over. The marked
//! entries leave in one pass, so dropping one never renumbers another, and
//! a position that is marked twice counts once.

use vstd::prelude::*;
use crate::order::push_word;
use crate::seqs::{lemma_push_contains, occurrences};

verus! {

/// The entries of `list` whose positions are not in `marked`, in the
/// order in which they stood.
pub open spec fn retain_unmarked<T>(list: Seq<T>, marked: Set<int>) -> Seq<T>
    decreases list.len(),
{
    if list.len() == 0 {
        list
    } else if marked.contains(list.len() - 1) {
        retain_unmarked(list.drop_last(), marked)
    } else {
        retain_unmarked(list.drop_last(), marked).push(list.last())
    }
}

/// The set of the positions that `positions` lists.
pub open spec fn marked_set(positions: Seq<usize>) -> Set<int> {
    Set::new(|i: int| exists|k: int| 0 <= k < positions.len() && positions[k] == i)
}

/// How many of the marked positions of `list` hold `w`.
pub open spec fn marked_occurrences<T>(list: Seq<T>, marked: Set<int>, w: T) -> nat
    decreases list.len(),
{
    if list.len() == 0 {
        0
    } else if list.last() == w && marked.contains(list.len() - 1) {
        marked_occurrences(list.drop_last(), marked, w) + 1
    } else {
        marked_occurrences(list.drop_last(), marked, w)
    }
}

/// With no position of the list marked, the list stays as it is.
pub proof fn lemma_retain_all<T>(list: Seq<T>, marked: Set<int>)
    requires
        forall|i: int| 0 <= i < list.len() ==> !marked.contains(i),
    ensures
        retain_unmarked(list, marked) == list,
    decreases list.len(),
{
    if list.len() > 0 {
        lemma_retain_all(list.drop_last(), marked);
        assert(list.drop_last().push(list.last()) =~= list);
    }
}

/// What is left holds exactly the entries that stood at an unmarked
/// position, and is no longer than the list.
pub proof fn lemma_retain_entries<T>(list: Seq<T>, marked: Set<int>)
    ensures
        retain_unmarked(list, marked).len() <= list.len(),
        forall|w: T|
            retain_unmarked(list, marked).contains(w) <==> exists|i: int|
                0 <= i < list.len() && !marked.contains(i) && list[i] == w,
    decreases list.len(),
{
    let out = retain_unmarked(list, marked);
    if list.len() > 0 {
        let rest = list.drop_last();
        let kept = retain_unmarked(rest, marked);
        let n = list.len() - 1;
        lemma_retain_entries(rest, marked);
        assert forall|w: T|
            out.contains(w) <==> exists|i: int|
                0 <= i < list.len() && !marked.contains(i) && list[i] == w by {
            if kept.contains(w) {
                let i = choose|i: int| 0 <= i < rest.len() && !marked.contains(i) && rest[i] == w;
                assert(0 <= i < list.len() && !marked.contains(i) && list[i] == w);
            }
            if exists|i: int| 0 <= i < list.len() && !marked.contains(i) && list[i] == w {
                let i = choose|i: int| 0 <= i < list.len() && !marked.contains(i) && list[i] == w;
                if i < n {
                    assert(0 <= i < rest.len() && !marked.contains(i) && rest[i] == w);
                    assert(kept.contains(w));
                }
            }
            if !marked.contains(n) {
                lemma_push_contains(kept, list.last(), w);
                if w == list.last() {
                    assert(0 <= n < list.len() && !marked.contains(n) && list[n] == w);
                }
            }
        }
    }
}

/// Removal keeps the order: of two entries that are left, the earlier one
/// stood earlier in the list.
pub proof fn lemma_retain_order<T>(list: Seq<T>, marked: Set<int>, a: int, b: int)
    requires
        0 <= a < b < retain_unmarked(list, marked).len(),
    ensures
        exists|i: int, j: int|
            0 <= i < j < list.len() && !marked.contains(i) && !marked.contains(j) && list[i]
                == retain_unmarked(list, marked)[a] && list[j] == retain_unmarked(list, marked)[b],
    decreases list.len(),
{
    let out = retain_unmarked(list, marked);
    let rest = list.drop_last();
    let kept = retain_unmarked(rest, marked);
    let n = list.len() - 1;
    lemma_retain_entries(rest, marked);
    if marked.contains(n) || b < kept.len() {
        lemma_retain_order(rest, marked, a, b);
        let (i, j) = choose|i: int, j: int|
            0 <= i < j < rest.len() && !marked.contains(i) && !marked.contains(j) && rest[i]
                == kept[a] && rest[j] == kept[b];
        assert(0 <= i < j < list.len() && !marked.contains(i) && !marked.contains(j) && list[i]
            == out[a] && list[j] == out[b]);
    } else {
        assert(kept.contains(kept[a]));
        let i = choose|i: int| 0 <= i < rest.len() && !marked.contains(i) && rest[i] == kept[a];
        assert(0 <= i < n < list.len() && !marked.contains(i) && !marked.contains(n) && list[i]
            == out[a] && list[n] == out[b]);
    }
}

/// Each marked position that holds `w` takes one `w` away, and nothing else
/// does.
pub proof fn lemma_retain_occurrences<T>(list: Seq<T>, marked: Set<int>, w: T)
    ensures
        occurrences(retain_unmarked(list, marked), w) + marked_occurrences(list, marked, w)
            == occurrences(list, w),
    decreases list.len(),
{
    if list.len() > 0 {
        let rest = list.drop_last();
        lemma_retain_occurrences(rest, marked, w);
        if !marked.contains(list.len() - 1) {
            let kept = retain_unmarked(rest, marked);
            assert(kept.push(list.last()).drop_last() =~= kept);
        }
    }
}

/// Whether `positions` lists `i`.
pub fn holds_position(positions: &Vec<usize>, i: usize) -> (found: bool)
    ensures
        found == marked_set(positions@).contains(i as int),
{
    let mut k: usize = 0;
    while k < positions.len()
        invariant
            k <= positions.len(),
            forall|j: int| 0 <= j < k ==> positions@[j] != i,
        decreases positions.len() - k,
    {
        if positions[k] == i {
            return true;
        }
        k += 1;
    }
    false
}

/// The words of `list` whose positions `positions_to_remove` does not
/// list, in the order in which they stood. Positions beyond the list, and
/// positions listed more than once, are accepted.
pub fn remove_by_position(positions_to_remove: Vec<usize>, list: Vec<String>) -> (cleaned: Vec<
    String,
>)
    ensures
        cleaned.deep_view() == retain_unmarked(list.deep_view(), marked_set(positions_to_remove@)),
{
    let ghost marked = marked_set(positions_to_remove@);
    let ghost all = list.deep_view();
    let mut cleaned: Vec<String> = Vec::new();
    let mut i: usize = 0;
    while i < list.len()
        invariant
            i <= list.len(),
            all == list.deep_view(),
            marked == marked_set(positions_to_remove@),
            cleaned.deep_view() == retain_unmarked(all.take(i as int), marked),
        decreases list.len() - i,
    {
        assert(all.take(i + 1).drop_last() =~= all.take(i as int));
        if !holds_position(&positions_to_remove, i) {
            push_word(&mut cleaned, list[i].clone());
        }
        i += 1;
    }
    assert(all.take(list.len() as int) =~= all);
    cleaned
}

} // verus!
