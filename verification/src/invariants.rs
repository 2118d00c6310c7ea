//! What holds of every run of the pipeline.

use vstd::prelude::*;
use crate::chars::{is_number, is_white_space, lemma_ascii_lower_classes};
use crate::order::{
    lemma_ascending_no_duplicates, lemma_sort_dedup, lemma_sort_dedup_unique, sort_dedup,
    strictly_ascending, word_lt,
};
use crate::pipeline::{
    blank_positions, cleaned, drop_blank, filtered, folded, is_prefix_word, prefix_positions,
    pruned, reject_positions, remove_prefixes, remove_rejects, strip_numeric_all, strip_tabs_all,
    tidy_spec, trim_all, TidyOptions,
};
use crate::removal::{
    lemma_retain_all, lemma_retain_entries, lemma_retain_occurrences, marked_occurrences,
};
use crate::seqs::{
    first_of, is_first, lemma_first_exists, lemma_first_of, lemma_occurrences_contains,
    lemma_occurrences_split, occurrences,
};
use crate::word::{
    is_proper_prefix, is_trimmed, lemma_strip_numeric, lemma_trim, lowercase, numeric_free,
    strip_numeric, strip_through_first_tab, trim, Word,
};

verus! {

/// What every word of an output is: trimmed and not empty, free of numeric
/// characters where those are removed, and in lower case where words are
/// folded.
pub open spec fn is_clean(w: Word, o: TidyOptions) -> bool {
    &&& is_trimmed(w)
    &&& o.should_remove_integers ==> numeric_free(w)
    &&& o.to_lowercase ==> lowercase(w) == w
}

/// No entry of `s` is a proper prefix of another.
pub open spec fn prefix_free(s: Seq<Word>) -> bool {
    forall|i: int, j: int|
        0 <= i < s.len() && 0 <= j < s.len() ==> !is_proper_prefix(#[trigger] s[i], #[trigger] s[j])
}

/// Folding keeps a word's length, keeps it trimmed and free of numeric
/// characters, and changes nothing when done again.
pub proof fn lemma_lowercase(w: Word)
    ensures
        lowercase(w).len() == w.len(),
        is_trimmed(w) ==> is_trimmed(lowercase(w)),
        numeric_free(w) ==> numeric_free(lowercase(w)),
        lowercase(lowercase(w)) == lowercase(w),
{
    let l = lowercase(w);
    assert forall|i: int| 0 <= i < w.len() implies is_white_space(l[i]) == is_white_space(w[i])
        && is_number(#[trigger] l[i]) == is_number(w[i]) && lowercase(l)[i] == l[i] by {
        lemma_ascii_lower_classes(w[i]);
    }
    assert(lowercase(l) =~= l);
    if is_trimmed(w) {
        assert(is_white_space(l[0]) == is_white_space(w[0]));
        assert(is_white_space(l[l.len() - 1]) == is_white_space(w[w.len() - 1]));
    }
    if numeric_free(w) {
        assert forall|i: int| 0 <= i < l.len() implies !is_number(#[trigger] l[i]) by {
            assert(!is_number(w[i]));
        }
    }
}

/// After the stages that edit single lines, every entry is trimmed and not
/// empty, and free of numeric characters where those are removed.
pub proof fn lemma_cleaned_entries(list: Seq<Word>, o: TidyOptions)
    ensures
        forall|w: Word| #[trigger]
            cleaned(list, o).contains(w) ==> is_trimmed(w) && (o.should_remove_integers
                ==> numeric_free(w)),
{
    let untabbed = if o.should_remove_through_first_tab {
        strip_tabs_all(list)
    } else {
        list
    };
    let undigited = if o.should_remove_integers {
        strip_numeric_all(untabbed)
    } else {
        untabbed
    };
    let t = trim_all(undigited);
    lemma_retain_entries(t, blank_positions(t));
    assert forall|w: Word| #[trigger] cleaned(list, o).contains(w) implies is_trimmed(w) && (
    o.should_remove_integers ==> numeric_free(w)) by {
        let i = choose|i: int| 0 <= i < t.len() && !blank_positions(t).contains(i) && t[i] == w;
        let u = undigited[i];
        lemma_trim(u);
        if o.should_remove_integers {
            lemma_strip_numeric(untabbed[i]);
            let (a, b) = choose|a: int, b: int|
                0 <= a <= b <= u.len() && trim(u) == #[trigger] u.subrange(a, b);
            assert forall|k: int| 0 <= k < w.len() implies !is_number(#[trigger] w[k]) by {
                assert(w[k] == u[a + k]);
            }
        }
    }
}

/// Before reject filtering every entry of the working list is clean.
pub proof fn lemma_folded_entries(list: Seq<Word>, o: TidyOptions)
    ensures
        forall|w: Word| #[trigger] folded(list, o).contains(w) ==> is_clean(w, o),
{
    let c = cleaned(list, o);
    let canonical = sort_dedup(c);
    lemma_cleaned_entries(list, o);
    lemma_sort_dedup(c);
    assert forall|w: Word| #[trigger] folded(list, o).contains(w) implies is_clean(w, o) by {
        let i = choose|i: int| 0 <= i < folded(list, o).len() && folded(list, o)[i] == w;
        assert(canonical.contains(canonical[i]));
        assert(c.contains(canonical[i]));
        if o.to_lowercase {
            lemma_lowercase(canonical[i]);
        }
    }
}

/// Every word of an output stood in the working list before and after
/// reject filtering.
pub proof fn lemma_tidy_entries(list: Seq<Word>, o: TidyOptions)
    ensures
        forall|w: Word| #[trigger] tidy_spec(list, o).contains(w) ==> filtered(list, o).contains(w),
        forall|w: Word| #[trigger] tidy_spec(list, o).contains(w) ==> folded(list, o).contains(w),
{
    let fo = folded(list, o);
    let fi = filtered(list, o);
    let pr = pruned(list, o);
    match o.reject_list {
        Some(rejects) => {
            lemma_retain_entries(fo, reject_positions(fo, rejects));
        },
        None => {},
    }
    assert forall|w: Word| fi.contains(w) implies fo.contains(w) by {
        if o.reject_list is Some {
            let i = choose|i: int| 0 <= i < fo.len() && fo[i] == w;
        }
    }
    if o.should_remove_prefix_words {
        let s = sort_dedup(fi);
        lemma_sort_dedup(fi);
        lemma_retain_entries(s, prefix_positions(s));
        assert forall|w: Word| pr.contains(w) implies fi.contains(w) by {
            let i = choose|i: int| 0 <= i < s.len() && s[i] == w;
            assert(s.contains(w));
        }
    }
    lemma_sort_dedup(pr);
}

/// Removing prefix words leaves no entry that is a proper prefix of
/// another.
pub proof fn lemma_remove_prefixes(s: Seq<Word>)
    ensures
        prefix_free(remove_prefixes(s)),
        forall|w: Word| #[trigger] remove_prefixes(s).contains(w) ==> s.contains(w),
{
    let r = remove_prefixes(s);
    lemma_retain_entries(s, prefix_positions(s));
    assert forall|w: Word| #[trigger] r.contains(w) implies s.contains(w) by {
        let i = choose|i: int| 0 <= i < s.len() && !prefix_positions(s).contains(i) && s[i] == w;
    }
    assert forall|a: int, b: int| 0 <= a < r.len() && 0 <= b < r.len() implies !is_proper_prefix(
        #[trigger] r[a],
        #[trigger] r[b],
    ) by {
        assert(r.contains(r[a]));
        assert(r.contains(r[b]));
        let i = choose|i: int|
            0 <= i < s.len() && !prefix_positions(s).contains(i) && s[i] == r[a];
        let j = choose|j: int| 0 <= j < s.len() && s[j] == r[b];
        assert(!is_prefix_word(s, i));
        if is_proper_prefix(s[i], s[j]) {
            assert(is_prefix_word(s, i));
        }
    }
}

/// Every output is strictly ascending, so it holds no word twice; none of
/// its words is empty, each is clean; and where prefix words are removed,
/// none is a proper prefix of another.
pub proof fn lemma_tidy_output(list: Seq<Word>, o: TidyOptions)
    ensures
        strictly_ascending(tidy_spec(list, o)),
        tidy_spec(list, o).no_duplicates(),
        forall|i: int|
            0 <= i < tidy_spec(list, o).len() ==> (#[trigger] tidy_spec(list, o)[i]).len() > 0,
        forall|i: int|
            0 <= i < tidy_spec(list, o).len() ==> is_clean(#[trigger] tidy_spec(list, o)[i], o),
        o.should_remove_prefix_words ==> prefix_free(tidy_spec(list, o)),
{
    let out = tidy_spec(list, o);
    let pr = pruned(list, o);
    lemma_sort_dedup(pr);
    lemma_ascending_no_duplicates(out);
    lemma_tidy_entries(list, o);
    lemma_folded_entries(list, o);
    assert forall|i: int| 0 <= i < out.len() implies is_clean(#[trigger] out[i], o) by {
        assert(out.contains(out[i]));
    }
    if o.should_remove_prefix_words {
        lemma_remove_prefixes(sort_dedup(filtered(list, o)));
        assert forall|a: int, b: int|
            0 <= a < out.len() && 0 <= b < out.len() implies !is_proper_prefix(
            #[trigger] out[a],
            #[trigger] out[b],
        ) by {
            assert(out.contains(out[a]));
            assert(out.contains(out[b]));
            let i = choose|i: int| 0 <= i < pr.len() && pr[i] == out[a];
            let j = choose|j: int| 0 <= j < pr.len() && pr[j] == out[b];
        }
    }
}

/// The same list under the same options gives the same output.
pub proof fn lemma_tidy_deterministic(
    first: Seq<Word>,
    second: Seq<Word>,
    o: TidyOptions,
    p: TidyOptions,
)
    requires
        first == second,
        o == p,
    ensures
        tidy_spec(first, o) == tidy_spec(second, p),
{
}

/// A list on which the pipeline has nothing left to do: strictly
/// ascending, every word clean, none holding a tab where tabs are stripped
/// through, none a reject word, and none a proper prefix of another where
/// prefix words are removed.
pub open spec fn is_settled(list: Seq<Word>, o: TidyOptions) -> bool {
    &&& strictly_ascending(list)
    &&& forall|i: int| 0 <= i < list.len() ==> is_clean(#[trigger] list[i], o)
    &&& o.should_remove_through_first_tab ==> forall|i: int|
        0 <= i < list.len() ==> !(#[trigger] list[i]).contains('\t')
    &&& o.reject_list matches Some(rejects) ==> forall|i: int|
        0 <= i < list.len() ==> !rejects.contains(#[trigger] list[i])
    &&& o.should_remove_prefix_words ==> prefix_free(list)
}

/// On an ascending list of clean words, none of which holds a tab where
/// tabs are stripped through, the stages before reject filtering change
/// nothing.
pub proof fn lemma_folded_settled(out: Seq<Word>, o: TidyOptions)
    requires
        strictly_ascending(out),
        forall|i: int| 0 <= i < out.len() ==> is_clean(#[trigger] out[i], o),
        o.should_remove_through_first_tab ==> forall|i: int|
            0 <= i < out.len() ==> !(#[trigger] out[i]).contains('\t'),
    ensures
        folded(out, o) == out,
{
    let untabbed = if o.should_remove_through_first_tab {
        strip_tabs_all(out)
    } else {
        out
    };
    assert(untabbed =~= out);
    let undigited = if o.should_remove_integers {
        strip_numeric_all(untabbed)
    } else {
        untabbed
    };
    assert(undigited =~= out) by {
        if o.should_remove_integers {
            assert forall|i: int| 0 <= i < out.len() implies strip_numeric(out[i]) == out[i] by {
                assert(is_clean(out[i], o));
                lemma_strip_numeric(out[i]);
            }
        }
    }
    let trimmed = trim_all(undigited);
    assert(trimmed =~= out) by {
        assert forall|i: int| 0 <= i < out.len() implies trim(out[i]) == out[i] by {
            assert(is_clean(out[i], o));
            lemma_trim(out[i]);
        }
    }
    assert(drop_blank(trimmed) == out) by {
        assert forall|i: int| 0 <= i < out.len() implies !blank_positions(out).contains(i) by {
            assert(is_clean(out[i], o));
        }
        lemma_retain_all(out, blank_positions(out));
    }
    assert(cleaned(out, o) == out);
    lemma_sort_dedup_unique(out, out);
    assert(folded(out, o) =~= out) by {
        if o.to_lowercase {
            assert forall|i: int| 0 <= i < out.len() implies lowercase(out[i]) == out[i] by {
                assert(is_clean(out[i], o));
            }
        }
    }
}

/// The pipeline gives a settled list back as it is.
pub proof fn lemma_tidy_settled(out: Seq<Word>, o: TidyOptions)
    requires
        is_settled(out, o),
    ensures
        tidy_spec(out, o) == out,
{
    lemma_folded_settled(out, o);
    lemma_sort_dedup_unique(out, out);
    let fi = filtered(out, o);
    assert(fi == out) by {
        match o.reject_list {
            Some(rejects) => {
                lemma_retain_all(out, reject_positions(out, rejects));
            },
            None => {},
        }
    }
    let pr = pruned(out, o);
    assert(pr == out) by {
        if o.should_remove_prefix_words {
            assert forall|i: int| 0 <= i < out.len() implies !prefix_positions(out).contains(
                i,
            ) by {
                if is_prefix_word(out, i) {
                    let j = choose|j: int|
                        0 <= j < out.len() && is_proper_prefix(out[i], #[trigger] out[j]);
                    assert(!is_proper_prefix(out[i], out[j]));
                }
            }
            lemma_retain_all(out, prefix_positions(out));
        }
    }
}

/// The beginning of a settled list is settled.
pub proof fn lemma_settled_take(list: Seq<Word>, o: TidyOptions, n: int)
    requires
        is_settled(list, o),
        0 <= n <= list.len(),
    ensures
        is_settled(list.take(n), o),
{
    let part = list.take(n);
    assert forall|i: int, j: int| 0 <= i < j < part.len() implies word_lt(
        #[trigger] part[i],
        #[trigger] part[j],
    ) by {
        assert(word_lt(list[i], list[j]));
    }
    assert forall|i: int| 0 <= i < part.len() implies is_clean(#[trigger] part[i], o) by {
        assert(is_clean(list[i], o));
    }
    if o.should_remove_through_first_tab {
        assert forall|i: int| 0 <= i < part.len() implies !(#[trigger] part[i]).contains('\t') by {
            assert(!list[i].contains('\t'));
        }
    }
    match o.reject_list {
        Some(rejects) => {
            assert forall|i: int| 0 <= i < part.len() implies !rejects.contains(
                #[trigger] part[i],
            ) by {
                assert(!rejects.contains(list[i]));
            }
        },
        None => {},
    }
    if o.should_remove_prefix_words {
        assert forall|i: int, j: int| 0 <= i < part.len() && 0 <= j < part.len()
            implies !is_proper_prefix(#[trigger] part[i], #[trigger] part[j]) by {
            assert(!is_proper_prefix(list[i], list[j]));
        }
    }
}

/// An output is a fixed point of the pipeline: a second run under the same
/// options gives it back. This holds where the first run has left nothing
/// for the two stages that are not idempotent by themselves: where tabs
/// are stripped through, no word of the output holds a tab any more, and
/// where words are rejected, no word of the output is a reject word.
pub proof fn lemma_tidy_idempotent(list: Seq<Word>, o: TidyOptions)
    requires
        o.should_remove_through_first_tab ==> forall|i: int|
            0 <= i < tidy_spec(list, o).len() ==> !(#[trigger] tidy_spec(list, o)[i]).contains(
                '\t',
            ),
        o.reject_list matches Some(rejects) ==> forall|i: int|
            0 <= i < tidy_spec(list, o).len() ==> !rejects.contains(
                #[trigger] tidy_spec(list, o)[i],
            ),
    ensures
        tidy_spec(tidy_spec(list, o), o) == tidy_spec(list, o),
{
    lemma_tidy_output(list, o);
    lemma_tidy_settled(tidy_spec(list, o), o);
}

/// What the stages that edit single lines, and folding, make of one line.
pub open spec fn edited(w: Word, o: TidyOptions) -> Word {
    let untabbed = if o.should_remove_through_first_tab {
        strip_through_first_tab(w)
    } else {
        w
    };
    let undigited = if o.should_remove_integers {
        strip_numeric(untabbed)
    } else {
        untabbed
    };
    if o.to_lowercase {
        lowercase(trim(undigited))
    } else {
        trim(undigited)
    }
}

/// The pipeline invents no word: every word of an output is what the edits
/// make of some line of the input.
pub proof fn lemma_tidy_origin(list: Seq<Word>, o: TidyOptions)
    ensures
        forall|w: Word| #[trigger]
            tidy_spec(list, o).contains(w) ==> exists|i: int|
                0 <= i < list.len() && w == edited(#[trigger] list[i], o),
{
    let untabbed = if o.should_remove_through_first_tab {
        strip_tabs_all(list)
    } else {
        list
    };
    let undigited = if o.should_remove_integers {
        strip_numeric_all(untabbed)
    } else {
        untabbed
    };
    let t = trim_all(undigited);
    let c = cleaned(list, o);
    let canonical = sort_dedup(c);
    let fo = folded(list, o);
    lemma_retain_entries(t, blank_positions(t));
    lemma_sort_dedup(c);
    lemma_tidy_entries(list, o);
    assert forall|w: Word| #[trigger] tidy_spec(list, o).contains(w) implies exists|i: int|
        0 <= i < list.len() && w == edited(#[trigger] list[i], o) by {
        assert(fo.contains(w));
        let k = choose|k: int| 0 <= k < fo.len() && fo[k] == w;
        assert(canonical.contains(canonical[k]));
        assert(c.contains(canonical[k]));
        let i = choose|i: int|
            0 <= i < t.len() && !blank_positions(t).contains(i) && t[i] == canonical[k];
        assert(w == edited(list[i], o));
    }
}

/// How many tabs a word holds.
pub open spec fn tab_count(w: Word) -> nat {
    occurrences(w, '\t')
}

/// Removing numeric characters adds no tab.
proof fn lemma_strip_numeric_tabs(w: Word)
    ensures
        tab_count(strip_numeric(w)) <= tab_count(w),
    decreases w.len(),
{
    if w.len() > 0 {
        lemma_strip_numeric_tabs(w.drop_last());
        if !is_number(w.last()) {
            let kept = strip_numeric(w.drop_last());
            assert(kept.push(w.last()).drop_last() =~= kept);
        }
    }
}

/// Folding neither adds nor takes a tab.
proof fn lemma_lowercase_tabs(w: Word)
    ensures
        tab_count(lowercase(w)) == tab_count(w),
    decreases w.len(),
{
    if w.len() > 0 {
        lemma_lowercase_tabs(w.drop_last());
        assert(lowercase(w).drop_last() =~= lowercase(w.drop_last()));
        lemma_ascii_lower_classes(w.last());
    }
}

/// Where tabs are stripped through, the edits take at least one tab from
/// every line that holds one, and add none to any.
pub proof fn lemma_edited_tabs(w: Word, o: TidyOptions)
    requires
        o.should_remove_through_first_tab,
    ensures
        tab_count(w) > 0 ==> tab_count(edited(w, o)) < tab_count(w),
        tab_count(w) == 0 ==> tab_count(edited(w, o)) == 0,
{
    lemma_occurrences_contains(w, '\t');
    let untabbed = strip_through_first_tab(w);
    if w.contains('\t') {
        let f = first_of(w, '\t');
        let k = choose|k: int| 0 <= k < w.len() && w[k] == '\t';
        lemma_first_exists(w, '\t', k);
        lemma_occurrences_split(w, '\t', f + 1);
        let head = w.take(f + 1);
        assert(head.last() == '\t');
        lemma_occurrences_contains(head.drop_last(), '\t');
        if head.drop_last().contains('\t') {
            let j = choose|j: int| 0 <= j < head.drop_last().len() && head.drop_last()[j] == '\t';
            assert(w[j] == '\t');
        }
        assert(tab_count(head) == 1);
    }
    let undigited = if o.should_remove_integers {
        strip_numeric(untabbed)
    } else {
        untabbed
    };
    if o.should_remove_integers {
        lemma_strip_numeric_tabs(untabbed);
    }
    lemma_trim(undigited);
    let (a, b) = choose|a: int, b: int|
        0 <= a <= b <= undigited.len() && trim(undigited) == #[trigger] undigited.subrange(a, b);
    lemma_occurrences_split(undigited, '\t', b);
    lemma_occurrences_split(undigited.take(b), '\t', a);
    assert(undigited.take(b).skip(a) =~= undigited.subrange(a, b));
    if o.to_lowercase {
        lemma_lowercase_tabs(trim(undigited));
    }
}

/// A list that is not empty has an entry with the most tabs.
proof fn lemma_most_tabs(s: Seq<Word>) -> (m: int)
    requires
        s.len() > 0,
    ensures
        0 <= m < s.len(),
        forall|i: int| 0 <= i < s.len() ==> tab_count(#[trigger] s[i]) <= tab_count(s[m]),
    decreases s.len(),
{
    if s.len() == 1 {
        0
    } else {
        let m0 = lemma_most_tabs(s.drop_last());
        let m = if tab_count(s.last()) > tab_count(s[m0]) {
            s.len() - 1
        } else {
            m0
        };
        assert forall|i: int| 0 <= i < s.len() implies tab_count(#[trigger] s[i]) <= tab_count(
            s[m],
        ) by {
            if i < s.len() - 1 {
                assert(tab_count(s.drop_last()[i]) <= tab_count(s.drop_last()[m0]));
            }
        }
        m
    }
}

/// The condition of `lemma_tidy_idempotent` leaves out no input for which
/// the second run gives the first output back: where it does, no word of
/// the output holds a tab that would be stripped through, and none is a
/// reject word.
pub proof fn lemma_tidy_idempotent_converse(list: Seq<Word>, o: TidyOptions)
    requires
        tidy_spec(tidy_spec(list, o), o) == tidy_spec(list, o),
    ensures
        o.should_remove_through_first_tab ==> forall|i: int|
            0 <= i < tidy_spec(list, o).len() ==> !(#[trigger] tidy_spec(list, o)[i]).contains(
                '\t',
            ),
        o.reject_list matches Some(rejects) ==> forall|i: int|
            0 <= i < tidy_spec(list, o).len() ==> !rejects.contains(
                #[trigger] tidy_spec(list, o)[i],
            ),
{
    let out = tidy_spec(list, o);
    lemma_tidy_output(list, o);
    if o.should_remove_through_first_tab {
        assert forall|i: int| 0 <= i < out.len() implies !(#[trigger] out[i]).contains('\t') by {
            if out[i].contains('\t') {
                let m = lemma_most_tabs(out);
                lemma_occurrences_contains(out[i], '\t');
                assert(tab_count(out[i]) <= tab_count(out[m]));
                lemma_tidy_origin(out, o);
                assert(out.contains(out[m]));
                let j = choose|j: int| 0 <= j < out.len() && out[m] == edited(#[trigger] out[j], o);
                lemma_edited_tabs(out[j], o);
                assert(tab_count(out[j]) <= tab_count(out[m]));
            }
        }
    }
    match o.reject_list {
        Some(rejects) => {
            assert forall|i: int| 0 <= i < out.len() implies !rejects.contains(
                #[trigger] out[i],
            ) by {
                if rejects.contains(out[i]) {
                    lemma_folded_settled(out, o);
                    let marks = reject_positions(out, rejects);
                    assert(is_first(out, out[i], i));
                    assert(marks.contains(i));
                    lemma_retain_entries(out, marks);
                    lemma_tidy_entries(out, o);
                    assert(out.contains(out[i]));
                    assert(filtered(out, o).contains(out[i]));
                    let j = choose|j: int|
                        0 <= j < out.len() && !marks.contains(j) && out[j] == out[i];
                    assert(j == i);
                }
            }
        },
        None => {},
    }
}

/// How many marked positions before `k` hold `w`, when the marks are those
/// of the reject list: one once the first position of a reject word `w`
/// lies before `k`, none otherwise.
proof fn lemma_reject_marks(list: Seq<Word>, rejects: Seq<Word>, w: Word, k: int)
    requires
        0 <= k <= list.len(),
    ensures
        marked_occurrences(list.take(k), reject_positions(list, rejects), w) == (if rejects.contains(
            w,
        ) && list.take(k).contains(w) {
            1nat
        } else {
            0nat
        }),
    decreases k,
{
    let marked = reject_positions(list, rejects);
    if k > 0 {
        let here = list.take(k);
        let before = list.take(k - 1);
        assert(here.drop_last() =~= before);
        assert(here.last() == list[k - 1]);
        lemma_reject_marks(list, rejects, w, k - 1);
        if before.contains(w) {
            let j = choose|j: int| 0 <= j < before.len() && before[j] == w;
            assert(here[j] == w);
            assert(list[j] == w);
            if list[k - 1] == w {
                assert(!is_first(list, w, k - 1));
            }
        } else if list[k - 1] == w {
            assert(here[k - 1] == w);
            assert forall|j: int| 0 <= j < k - 1 implies #[trigger] list[j] != w by {
                if list[j] == w {
                    assert(before[j] == w);
                }
            }
            assert(is_first(list, w, k - 1));
        } else if here.contains(w) {
            let j = choose|j: int| 0 <= j < here.len() && here[j] == w;
            assert(before[j] == w);
        }
    }
}

/// Reject filtering takes away exactly one occurrence of each reject word
/// that the working list holds, the one at its first position; every
/// other occurrence, and every other word, stays.
pub proof fn lemma_reject_exactness(list: Seq<Word>, rejects: Seq<Word>, w: Word)
    ensures
        rejects.contains(w) && list.contains(w) ==> {
            &&& occurrences(remove_rejects(list, rejects), w) + 1 == occurrences(list, w)
            &&& reject_positions(list, rejects).contains(first_of(list, w))
            &&& forall|i: int|
                0 <= i < list.len() && list[i] == w && i != first_of(list, w)
                    ==> !reject_positions(list, rejects).contains(i)
        },
        !(rejects.contains(w) && list.contains(w)) ==> occurrences(
            remove_rejects(list, rejects),
            w,
        ) == occurrences(list, w),
{
    let marked = reject_positions(list, rejects);
    lemma_reject_marks(list, rejects, w, list.len() as int);
    assert(list.take(list.len() as int) =~= list);
    lemma_retain_occurrences(list, marked, w);
    if rejects.contains(w) && list.contains(w) {
        let k = choose|k: int| 0 <= k < list.len() && list[k] == w;
        lemma_first_exists(list, w, k);
        let f = first_of(list, w);
        assert forall|i: int| 0 <= i < list.len() && list[i] == w && i != f implies !marked.contains(
            i,
        ) by {
            if is_first(list, w, i) {
                lemma_first_of(list, w, i);
            }
        }
    }
}

} // verus!
