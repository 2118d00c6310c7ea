//! Sequences: where an entry stands first, how often it stands, and how
//! both behave when a sequence is pushed to, cut, or walked.

use vstd::prelude::*;

verus! {

/// `i` is the position at which `x` stands first in `s`.
pub open spec fn is_first<T>(s: Seq<T>, x: T, i: int) -> bool {
    &&& 0 <= i < s.len()
    &&& s[i] == x
    &&& forall|j: int| 0 <= j < i ==> s[j] != x
}

/// The position at which `x` stands first in `s`, where it stands there.
pub open spec fn first_of<T>(s: Seq<T>, x: T) -> int {
    choose|i: int| is_first(s, x, i)
}

/// How often `x` stands in `s`.
pub open spec fn occurrences<T>(s: Seq<T>, x: T) -> nat
    decreases s.len(),
{
    if s.len() == 0 {
        0
    } else if s.last() == x {
        occurrences(s.drop_last(), x) + 1
    } else {
        occurrences(s.drop_last(), x)
    }
}

/// What a sequence holds after a push: what it held, and the new entry.
pub proof fn lemma_push_contains<T>(s: Seq<T>, v: T, x: T)
    ensures
        s.push(v).contains(x) <==> (s.contains(x) || x == v),
{
    let t = s.push(v);
    if s.contains(x) {
        let i = choose|i: int| 0 <= i < s.len() && s[i] == x;
        assert(t[i] == x);
    }
    if x == v {
        assert(t[s.len() as int] == x);
    }
    if t.contains(x) {
        let i = choose|i: int| 0 <= i < t.len() && t[i] == x;
        if i < s.len() {
            assert(s[i] == x);
        }
    }
}

/// The first position of an entry is unique.
pub proof fn lemma_first_of<T>(s: Seq<T>, x: T, i: int)
    requires
        is_first(s, x, i),
    ensures
        s.contains(x),
        first_of(s, x) == i,
{
    let k = first_of(s, x);
    assert(is_first(s, x, k));
    if k < i {
        assert(s[k] == x);
    } else if i < k {
        assert(s[i] == x);
    }
}

/// What stands at `k` has a first position, at `k` or before it.
pub proof fn lemma_first_exists<T>(s: Seq<T>, x: T, k: int)
    requires
        0 <= k < s.len(),
        s[k] == x,
    ensures
        is_first(s, x, first_of(s, x)),
        first_of(s, x) <= k,
    decreases k,
{
    if exists|j: int| 0 <= j < k && s[j] == x {
        let j = choose|j: int| 0 <= j < k && s[j] == x;
        lemma_first_exists(s, x, j);
    } else {
        assert(is_first(s, x, k));
    }
    let f = first_of(s, x);
    if k < f {
        assert(s[k] != x);
    }
}

/// A sequence holds an entry as often as its beginning and its rest hold
/// it together.
pub proof fn lemma_occurrences_split<T>(s: Seq<T>, x: T, k: int)
    requires
        0 <= k <= s.len(),
    ensures
        occurrences(s, x) == occurrences(s.take(k), x) + occurrences(s.skip(k), x),
    decreases s.len(),
{
    if k == s.len() {
        assert(s.take(k) =~= s);
        assert(s.skip(k).len() == 0);
    } else {
        lemma_occurrences_split(s.drop_last(), x, k);
        assert(s.drop_last().take(k) =~= s.take(k));
        assert(s.drop_last().skip(k) =~= s.skip(k).drop_last());
        assert(s.skip(k).last() == s.last());
    }
}

/// A sequence holds an entry at least once exactly where it holds it.
pub proof fn lemma_occurrences_contains<T>(s: Seq<T>, x: T)
    ensures
        occurrences(s, x) > 0 <==> s.contains(x),
    decreases s.len(),
{
    if s.len() > 0 {
        lemma_occurrences_contains(s.drop_last(), x);
        if s.drop_last().contains(x) {
            let i = choose|i: int| 0 <= i < s.drop_last().len() && s.drop_last()[i] == x;
            assert(s[i] == x);
        }
        if s.last() == x {
            assert(s[s.len() - 1] == x);
        }
        if s.contains(x) {
            let i = choose|i: int| 0 <= i < s.len() && s[i] == x;
            if i < s.len() - 1 {
                assert(s.drop_last()[i] == x);
            }
        }
    }
}

} // verus!
