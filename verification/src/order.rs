//! The order of words, and the canonical form of a list: its distinct
//! entries in strictly ascending order.

use vstd::prelude::*;
use vstd::std_specs::iter::IteratorSpec;
use vstd::string::*;
use crate::seqs::lemma_push_contains;
use crate::word::Word;

verus! {

/// Lexicographic order by code point: `a` comes strictly before `b`.
pub open spec fn word_lt(a: Word, b: Word) -> bool
    decreases a.len(),
{
    if b.len() == 0 {
        false
    } else if a.len() == 0 {
        true
    } else if a[0] != b[0] {
        a[0] < b[0]
    } else {
        word_lt(a.drop_first(), b.drop_first())
    }
}

/// Each entry comes strictly before every later one.
pub open spec fn strictly_ascending(s: Seq<Word>) -> bool {
    forall|i: int, j: int| 0 <= i < j < s.len() ==> word_lt(#[trigger] s[i], #[trigger] s[j])
}

/// `a` and `b` hold the same words, whatever their order and number.
pub open spec fn same_entries(a: Seq<Word>, b: Seq<Word>) -> bool {
    forall|w: Word| a.contains(w) <==> b.contains(w)
}

/// `s` is the canonical form of `list`: the words of `list`, each once, in
/// strictly ascending order.
pub open spec fn is_canonical_of(s: Seq<Word>, list: Seq<Word>) -> bool {
    strictly_ascending(s) && same_entries(s, list)
}

/// The canonical form of `list`.
pub open spec fn sort_dedup(list: Seq<Word>) -> Seq<Word> {
    choose|s: Seq<Word>| is_canonical_of(s, list)
}

/// No word comes before itself.
pub proof fn lemma_word_lt_irreflexive(a: Word)
    ensures
        !word_lt(a, a),
    decreases a.len(),
{
    if a.len() > 0 {
        lemma_word_lt_irreflexive(a.drop_first());
    }
}

/// The order is transitive.
pub proof fn lemma_word_lt_transitive(a: Word, b: Word, c: Word)
    requires
        word_lt(a, b),
        word_lt(b, c),
    ensures
        word_lt(a, c),
    decreases a.len(),
{
    if a.len() > 0 && a[0] == b[0] && b[0] == c[0] {
        lemma_word_lt_transitive(a.drop_first(), b.drop_first(), c.drop_first());
    }
}

/// Of two words one comes first, or they are the same word.
pub proof fn lemma_word_lt_total(a: Word, b: Word)
    ensures
        word_lt(a, b) || a == b || word_lt(b, a),
    decreases a.len(),
{
    if a.len() == 0 || b.len() == 0 {
        if a.len() == 0 && b.len() == 0 {
            assert(a =~= b);
        }
    } else if a[0] == b[0] {
        lemma_word_lt_total(a.drop_first(), b.drop_first());
        if a.drop_first() == b.drop_first() {
            assert(a =~= seq![a[0]] + a.drop_first());
            assert(b =~= seq![b[0]] + b.drop_first());
        }
    }
}

/// No two words come before each other.
pub proof fn lemma_word_lt_asymmetric(a: Word, b: Word)
    requires
        word_lt(a, b),
    ensures
        !word_lt(b, a),
        a != b,
{
    lemma_word_lt_irreflexive(a);
    if word_lt(b, a) {
        lemma_word_lt_transitive(a, b, a);
    }
}

/// An ascending list stays ascending when a word beyond its last is added.
pub proof fn lemma_push_ascending(s: Seq<Word>, w: Word)
    requires
        strictly_ascending(s),
        s.len() > 0 ==> word_lt(s.last(), w),
    ensures
        strictly_ascending(s.push(w)),
{
    let t = s.push(w);
    assert forall|i: int, j: int| 0 <= i < j < t.len() implies word_lt(
        #[trigger] t[i],
        #[trigger] t[j],
    ) by {
        if j == s.len() {
            if i < s.len() - 1 {
                assert(word_lt(s[i], s[s.len() - 1]));
                lemma_word_lt_transitive(s[i], s.last(), w);
            }
        } else {
            assert(word_lt(s[i], s[j]));
        }
    }
}

/// An ascending list holds no word twice.
pub proof fn lemma_ascending_no_duplicates(s: Seq<Word>)
    requires
        strictly_ascending(s),
    ensures
        s.no_duplicates(),
{
    assert forall|i: int, j: int| 0 <= i < s.len() && 0 <= j < s.len() && i != j implies s[i]
        != s[j] by {
        if i < j {
            lemma_word_lt_asymmetric(s[i], s[j]);
        } else {
            lemma_word_lt_asymmetric(s[j], s[i]);
        }
    }
}

/// Two ascending lists with the same words are the same list.
pub proof fn lemma_canonical_unique(s: Seq<Word>, t: Seq<Word>)
    requires
        strictly_ascending(s),
        strictly_ascending(t),
        same_entries(s, t),
    ensures
        s == t,
    decreases s.len(),
{
    if s.len() == 0 {
        if t.len() > 0 {
            assert(t.contains(t[0]));
            assert(s.contains(t[0]));
        }
        assert(s =~= t);
    } else {
        assert(s.contains(s.last()));
        assert(t.contains(s.last()));
        let p = choose|p: int| 0 <= p < t.len() && t[p] == s.last();
        assert(t.contains(t.last()));
        assert(s.contains(t.last()));
        let q = choose|q: int| 0 <= q < s.len() && s[q] == t.last();
        if p < t.len() - 1 {
            assert(word_lt(t[p], t[t.len() - 1]));
            if q < s.len() - 1 {
                assert(word_lt(s[q], s[s.len() - 1]));
                lemma_word_lt_asymmetric(s.last(), t.last());
            }
        }
        assert(s.last() == t.last());
        let s0 = s.drop_last();
        let t0 = t.drop_last();
        assert forall|w: Word| s0.contains(w) <==> t0.contains(w) by {
            if s0.contains(w) {
                let i = choose|i: int| 0 <= i < s0.len() && s0[i] == w;
                assert(word_lt(s[i], s[s.len() - 1]));
                lemma_word_lt_asymmetric(w, s.last());
                assert(s.contains(s[i]));
                assert(t.contains(w));
                let j = choose|j: int| 0 <= j < t.len() && t[j] == w;
                assert(t0[j] == w);
            }
            if t0.contains(w) {
                let i = choose|i: int| 0 <= i < t0.len() && t0[i] == w;
                assert(word_lt(t[i], t[t.len() - 1]));
                lemma_word_lt_asymmetric(w, t.last());
                assert(t.contains(t[i]));
                assert(s.contains(w));
                let j = choose|j: int| 0 <= j < s.len() && s[j] == w;
                assert(s0[j] == w);
            }
        }
        assert(strictly_ascending(s0)) by {
            assert forall|i: int, j: int| 0 <= i < j < s0.len() implies word_lt(
                #[trigger] s0[i],
                #[trigger] s0[j],
            ) by {
                assert(word_lt(s[i], s[j]));
            }
        }
        assert(strictly_ascending(t0)) by {
            assert forall|i: int, j: int| 0 <= i < j < t0.len() implies word_lt(
                #[trigger] t0[i],
                #[trigger] t0[j],
            ) by {
                assert(word_lt(t[i], t[j]));
            }
        }
        lemma_canonical_unique(s0, t0);
        assert(s =~= s0.push(s.last()));
        assert(t =~= t0.push(t.last()));
    }
}

/// An ascending list with one more word: the result is ascending again and
/// holds the old words and the new one.
pub proof fn lemma_insert_word(s: Seq<Word>, w: Word) -> (r: Seq<Word>)
    requires
        strictly_ascending(s),
    ensures
        strictly_ascending(r),
        forall|x: Word| r.contains(x) <==> (s.contains(x) || x == w),
    decreases s.len(),
{
    broadcast use vstd::seq_lib::lemma_seq_contains_after_push;

    if s.len() == 0 {
        let r = s.push(w);
        lemma_push_ascending(s, w);
        r
    } else {
        let l = s.last();
        lemma_word_lt_total(l, w);
        if word_lt(l, w) {
            lemma_push_ascending(s, w);
            s.push(w)
        } else if l == w {
            assert(s.contains(s[s.len() - 1]));
            s
        } else {
            let s0 = s.drop_last();
            assert(strictly_ascending(s0)) by {
                assert forall|i: int, j: int| 0 <= i < j < s0.len() implies word_lt(
                    #[trigger] s0[i],
                    #[trigger] s0[j],
                ) by {
                    assert(word_lt(s[i], s[j]));
                }
            }
            let r0 = lemma_insert_word(s0, w);
            assert(s =~= s0.push(l));
            if r0.len() > 0 {
                assert(r0.contains(r0.last()));
                if r0.last() != w {
                    let i = choose|i: int| 0 <= i < s0.len() && s0[i] == r0.last();
                    assert(word_lt(s[i], s[s.len() - 1]));
                }
            }
            lemma_push_ascending(r0, l);
            r0.push(l)
        }
    }
}

/// Every list has a canonical form.
pub proof fn lemma_canonical_exists(list: Seq<Word>) -> (s: Seq<Word>)
    ensures
        is_canonical_of(s, list),
    decreases list.len(),
{
    broadcast use vstd::seq_lib::lemma_seq_contains_after_push;

    if list.len() == 0 {
        let s = Seq::<Word>::empty();
        assert(list =~= s);
        s
    } else {
        let s0 = lemma_canonical_exists(list.drop_last());
        let s = lemma_insert_word(s0, list.last());
        assert(list =~= list.drop_last().push(list.last()));
        s
    }
}

/// The canonical form of a list is ascending and holds exactly its words.
pub proof fn lemma_sort_dedup(list: Seq<Word>)
    ensures
        is_canonical_of(sort_dedup(list), list),
{
    let s = lemma_canonical_exists(list);
}

/// Whatever is ascending and holds exactly the words of `list` is its
/// canonical form.
pub proof fn lemma_sort_dedup_unique(list: Seq<Word>, s: Seq<Word>)
    requires
        is_canonical_of(s, list),
    ensures
        s == sort_dedup(list),
{
    lemma_sort_dedup(list);
    lemma_canonical_unique(s, sort_dedup(list));
}

/// Where two words stand to each other.
#[derive(Clone, Copy, Debug, PartialEq, Eq, Structural)]
pub enum WordOrder {
    /// The first word comes before the second.
    Before,
    /// They are the same word.
    Same,
    /// The first word comes after the second.
    After,
}

/// What `compare_words` answers for `a` and `b`.
pub open spec fn word_order(a: Word, b: Word) -> WordOrder {
    if word_lt(a, b) {
        WordOrder::Before
    } else if a == b {
        WordOrder::Same
    } else {
        WordOrder::After
    }
}

/// Skipping a common beginning does not change how two words compare.
pub proof fn lemma_word_lt_skip(a: Word, b: Word, k: int)
    requires
        0 <= k <= a.len(),
        k <= b.len(),
        forall|j: int| 0 <= j < k ==> a[j] == b[j],
    ensures
        word_lt(a, b) == word_lt(a.skip(k), b.skip(k)),
    decreases k,
{
    if k == 0 {
        assert(a.skip(0) =~= a);
        assert(b.skip(0) =~= b);
    } else {
        assert(a[0] == b[0]);
        let a1 = a.drop_first();
        let b1 = b.drop_first();
        assert forall|j: int| 0 <= j < k - 1 implies a1[j] == b1[j] by {
            assert(a[j + 1] == b[j + 1]);
        }
        lemma_word_lt_skip(a1, b1, k - 1);
        assert(a1.skip(k - 1) =~= a.skip(k));
        assert(b1.skip(k - 1) =~= b.skip(k));
    }
}

/// `a` and `b` agree before position `k` and part there in favour of `a`:
/// `a` ends at `k` while `b` goes on, or `a` has the smaller character
/// at `k`.
pub open spec fn parts_at(a: Word, b: Word, k: int) -> bool {
    &&& 0 <= k <= a.len()
    &&& k < b.len()
    &&& forall|j: int| 0 <= j < k ==> a[j] == b[j]
    &&& k < a.len() ==> a[k] < b[k]
}

/// The order is the lexicographic one: `a` comes before `b` exactly where
/// the two part in favour of `a`.
pub proof fn lemma_word_lt_lexicographic(a: Word, b: Word)
    ensures
        word_lt(a, b) <==> exists|k: int| parts_at(a, b, k),
    decreases a.len(),
{
    if exists|k: int| parts_at(a, b, k) {
        let k = choose|k: int| parts_at(a, b, k);
        lemma_word_lt_skip(a, b, k);
        if k < a.len() {
            assert(a.skip(k)[0] == a[k]);
        }
        assert(b.skip(k)[0] == b[k]);
    }
    if word_lt(a, b) {
        if a.len() == 0 || a[0] != b[0] {
            assert(parts_at(a, b, 0));
        } else {
            let a1 = a.drop_first();
            let b1 = b.drop_first();
            lemma_word_lt_lexicographic(a1, b1);
            let k = choose|k: int| parts_at(a1, b1, k);
            assert forall|j: int| 0 <= j < k + 1 implies a[j] == b[j] by {
                if j > 0 {
                    assert(a1[j - 1] == b1[j - 1]);
                }
            }
            if k < a1.len() {
                assert(a1[k] == a[k + 1]);
            }
            assert(b1[k] == b[k + 1]);
            assert(parts_at(a, b, k + 1));
        }
    }
}

/// Compares two words by code point, character by character.
pub fn compare_words(a: &str, b: &str) -> (r: WordOrder)
    ensures
        r == word_order(a@, b@),
{
    broadcast use group_string_axioms;

    let mut ia = a.chars();
    let mut ib = b.chars();
    let ghost mut k: int = 0;
    loop
        invariant
            ia.obeys_prophetic_iter_laws(),
            ib.obeys_prophetic_iter_laws(),
            0 <= k <= a@.len(),
            k <= b@.len(),
            ia.remaining() == a@.skip(k),
            ib.remaining() == b@.skip(k),
            forall|j: int| 0 <= j < k ==> a@[j] == b@[j],
        decreases a@.len() - k,
    {
        proof {
            lemma_word_lt_skip(a@, b@, k);
            lemma_word_lt_skip(b@, a@, k);
        }
        match ia.next() {
            None => {
                match ib.next() {
                    None => {
                        proof {
                            assert(a@ =~= b@);
                            lemma_word_lt_irreflexive(a@);
                        }
                        return WordOrder::Same;
                    },
                    Some(_) => {
                        return WordOrder::Before;
                    },
                }
            },
            Some(c) => {
                match ib.next() {
                    None => {
                        return WordOrder::After;
                    },
                    Some(d) => {
                        if c < d {
                            return WordOrder::Before;
                        }
                        if d < c {
                            proof {
                                lemma_word_lt_asymmetric(b@, a@);
                            }
                            return WordOrder::After;
                        }
                        proof {
                            k = k + 1;
                        }
                    },
                }
            },
        }
    }
}

/// The words of `list` before position `n` include `w`.
pub open spec fn holds_before(list: Seq<Word>, n: int, w: Word) -> bool {
    exists|p: int| 0 <= p < n && p < list.len() && list[p] == w
}

/// Appends `s` to `out`.
pub fn push_word(out: &mut Vec<String>, s: String)
    ensures
        final(out).deep_view() == old(out).deep_view().push(s@),
{
    out.push(s);
    assert(out.deep_view() =~= old(out).deep_view().push(s@));
}

/// A copy of `list`, word for word.
pub fn clone_words(list: &[String]) -> (out: Vec<String>)
    ensures
        out.deep_view() == list.deep_view(),
{
    let mut out: Vec<String> = Vec::new();
    let mut i: usize = 0;
    while i < list.len()
        invariant
            i <= list.len(),
            out.deep_view() == list.deep_view().take(i as int),
        decreases list.len() - i,
    {
        push_word(&mut out, list[i].clone());
        assert(list.deep_view().take(i as int).push(list[i as int]@) =~= list.deep_view().take(
            i + 1,
        ));
        i += 1;
    }
    assert(list.deep_view().take(list.len() as int) =~= list.deep_view());
    out
}

/// Merges two ascending lists into the ascending list of their words; a
/// word that stands in both comes out once.
pub fn merge_ascending(a: &Vec<String>, b: &Vec<String>) -> (out: Vec<String>)
    requires
        strictly_ascending(a.deep_view()),
        strictly_ascending(b.deep_view()),
    ensures
        strictly_ascending(out.deep_view()),
        forall|w: Word|
            out.deep_view().contains(w) <==> (a.deep_view().contains(w) || b.deep_view().contains(
                w,
            )),
{
    let ghost av = a.deep_view();
    let ghost bv = b.deep_view();
    let mut out: Vec<String> = Vec::new();
    let mut i: usize = 0;
    let mut j: usize = 0;
    while i < a.len() || j < b.len()
        invariant
            i <= a.len(),
            j <= b.len(),
            av == a.deep_view(),
            bv == b.deep_view(),
            strictly_ascending(av),
            strictly_ascending(bv),
            strictly_ascending(out.deep_view()),
            out.deep_view().len() > 0 && i < av.len() ==> word_lt(out.deep_view().last(), av[i as int]),
            out.deep_view().len() > 0 && j < bv.len() ==> word_lt(out.deep_view().last(), bv[j as int]),
            forall|w: Word|
                out.deep_view().contains(w) <==> (holds_before(av, i as int, w) || holds_before(
                    bv,
                    j as int,
                    w,
                )),
        decreases (a.len() - i) + (b.len() - j),
    {
        let ghost before = out.deep_view();
        let ghost i0 = i as int;
        let ghost j0 = j as int;
        let take_a: bool;
        let take_b: bool;
        if j >= b.len() {
            take_a = true;
            take_b = false;
        } else if i >= a.len() {
            take_a = false;
            take_b = true;
        } else {
            match compare_words(a[i].as_str(), b[j].as_str()) {
                WordOrder::Before => {
                    take_a = true;
                    take_b = false;
                },
                WordOrder::Same => {
                    take_a = true;
                    take_b = true;
                },
                WordOrder::After => {
                    proof {
                        lemma_word_lt_total(av[i0], bv[j0]);
                    }
                    take_a = false;
                    take_b = true;
                },
            }
        }
        let ghost picked: Word = if take_a { av[i0] } else { bv[j0] };
        if take_a {
            push_word(&mut out, a[i].clone());
        } else {
            push_word(&mut out, b[j].clone());
        }
        proof {
            lemma_push_ascending(before, picked);
        }
        if take_a {
            i += 1;
        }
        if take_b {
            j += 1;
        }
        proof {
            let now = out.deep_view();
            assert(now.last() == picked);
            if i < av.len() && take_a {
                assert(word_lt(av[i0], av[i as int]));
            }
            if j < bv.len() && take_b {
                assert(word_lt(bv[j0], bv[j as int]));
            }
            assert(now == before.push(picked));
            if take_a && take_b {
                assert(av[i0] == bv[j0]);
            }
            assert forall|w: Word|
                now.contains(w) <==> (holds_before(av, i as int, w) || holds_before(
                    bv,
                    j as int,
                    w,
                )) by {
                lemma_push_contains(before, picked, w);
                if holds_before(av, i as int, w) {
                    let p = choose|p: int| 0 <= p < i && p < av.len() && av[p] == w;
                    if p < i0 {
                        assert(holds_before(av, i0, w));
                    } else {
                        assert(w == picked);
                    }
                    assert(now.contains(w));
                }
                if holds_before(bv, j as int, w) {
                    let p = choose|p: int| 0 <= p < j && p < bv.len() && bv[p] == w;
                    if p < j0 {
                        assert(holds_before(bv, j0, w));
                    } else {
                        assert(w == picked);
                    }
                    assert(now.contains(w));
                }
                if now.contains(w) {
                    if w == picked {
                        if take_a {
                            assert(0 <= i0 < i && i0 < av.len() && av[i0] == w);
                            assert(holds_before(av, i as int, w));
                        } else {
                            assert(0 <= j0 < j && j0 < bv.len() && bv[j0] == w);
                            assert(holds_before(bv, j as int, w));
                        }
                    } else if holds_before(av, i0, w) {
                        let p = choose|p: int| 0 <= p < i0 && p < av.len() && av[p] == w;
                        assert(0 <= p < i && p < av.len() && av[p] == w);
                        assert(holds_before(av, i as int, w));
                    } else {
                        assert(holds_before(bv, j0, w));
                        let p = choose|p: int| 0 <= p < j0 && p < bv.len() && bv[p] == w;
                        assert(0 <= p < j && p < bv.len() && bv[p] == w);
                        assert(holds_before(bv, j as int, w));
                    }
                }
            }
        }
    }
    proof {
        assert forall|w: Word|
            out.deep_view().contains(w) <==> (av.contains(w) || bv.contains(w)) by {
            if av.contains(w) {
                let p = choose|p: int| 0 <= p < av.len() && av[p] == w;
                assert(holds_before(av, i as int, w));
            }
            if bv.contains(w) {
                let p = choose|p: int| 0 <= p < bv.len() && bv[p] == w;
                assert(holds_before(bv, j as int, w));
            }
        }
    }
    out
}

/// The canonical form of the stretch `list[lo..hi]`, by merging the
/// canonical forms of its two halves.
pub fn sort_range(list: &[String], lo: usize, hi: usize) -> (out: Vec<String>)
    requires
        lo <= hi <= list.len(),
    ensures
        is_canonical_of(out.deep_view(), list.deep_view().subrange(lo as int, hi as int)),
    decreases hi - lo,
{
    let ghost all = list.deep_view();
    let ghost part = all.subrange(lo as int, hi as int);
    if hi - lo == 0 {
        let out: Vec<String> = Vec::new();
        assert(out.deep_view() =~= part);
        out
    } else if hi - lo == 1 {
        let mut out: Vec<String> = Vec::new();
        push_word(&mut out, list[lo].clone());
        assert(out.deep_view() =~= part);
        out
    } else {
        let mid: usize = lo + (hi - lo) / 2;
        let left = sort_range(list, lo, mid);
        let right = sort_range(list, mid, hi);
        let out = merge_ascending(&left, &right);
        proof {
            let lp = all.subrange(lo as int, mid as int);
            let rp = all.subrange(mid as int, hi as int);
            assert(part =~= lp + rp);
            assert forall|w: Word| out.deep_view().contains(w) <==> part.contains(w) by {
                if lp.contains(w) {
                    let p = choose|p: int| 0 <= p < lp.len() && lp[p] == w;
                    assert(part[p] == w);
                }
                if rp.contains(w) {
                    let p = choose|p: int| 0 <= p < rp.len() && rp[p] == w;
                    assert(part[p + lp.len()] == w);
                }
                if part.contains(w) {
                    let p = choose|p: int| 0 <= p < part.len() && part[p] == w;
                    if p < lp.len() {
                        assert(lp[p] == w);
                    } else {
                        assert(rp[p - lp.len()] == w);
                    }
                }
            }
        }
        out
    }
}

/// Brings `list` into canonical form: its distinct words, strictly
/// ascending by code point. The list is rewritten in place, and a copy of
/// it is returned.
pub fn sort_and_dedup(list: &mut Vec<String>) -> (out: Vec<String>)
    ensures
        final(list).deep_view() == sort_dedup(old(list).deep_view()),
        out.deep_view() == final(list).deep_view(),
{
    let sorted = sort_range(list.as_slice(), 0, list.len());
    proof {
        assert(list.deep_view().subrange(0, list.len() as int) =~= list.deep_view());
        lemma_sort_dedup_unique(list.deep_view(), sorted.deep_view());
    }
    *list = sorted;
    clone_words(list.as_slice())
}

} // verus!
