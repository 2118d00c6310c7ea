//! The cleaning pipeline: from a raw list of lines to its canonical form
//! under a set of options.
//!
//! The stages run in a fixed order. Lines lose their metadata up to the
//! first tab and their numeric characters where that is asked for, are
//! trimmed, and blank ones leave. The list is brought into canonical form,
//! folded to lower case where asked, loses the first match of each reject
//! word, loses every word that is a proper prefix of another where asked,
//! and is brought into canonical form once more.

use vstd::prelude::*;
use crate::invariants::{lemma_tidy_output, prefix_free};
use crate::order::{clone_words, push_word, sort_and_dedup, sort_dedup, strictly_ascending};
use crate::removal::{marked_set, remove_by_position, retain_unmarked};
use crate::seqs::{first_of, is_first, lemma_first_exists, lemma_first_of, lemma_push_contains};
use crate::word::{
    is_proper_prefix, lowercase, lowercase_word, proper_prefix, remove_integers,
    remove_through_first_tab, strip_numeric, strip_through_first_tab, trim, trim_word, Word,
};

verus! {

/// The options of one run, as the contracts see them.
pub struct TidyOptions {
    /// Fold every word to ASCII lower case.
    pub to_lowercase: bool,
    /// Remove every word that is a proper prefix of another.
    pub should_remove_prefix_words: bool,
    /// Remove the numeric characters from every word.
    pub should_remove_integers: bool,
    /// Drop from every line what stands before its first tab, and the tab.
    pub should_remove_through_first_tab: bool,
    /// The words to reject, where there are any.
    pub reject_list: Option<Seq<Word>>,
}

/// The options of one run. A value is made once and not changed while a
/// run, or a search over runs, uses it.
pub struct TidyConfig {
    /// Fold every word to ASCII lower case.
    pub to_lowercase: bool,
    /// Remove every word that is a proper prefix of another.
    pub should_remove_prefix_words: bool,
    /// Remove the numeric characters from every word.
    pub should_remove_integers: bool,
    /// Drop from every line what stands before its first tab, and the tab.
    pub should_remove_through_first_tab: bool,
    /// The words to reject, where there are any.
    pub reject_list: Option<Vec<String>>,
}

impl View for TidyConfig {
    type V = TidyOptions;

    open spec fn view(&self) -> TidyOptions {
        TidyOptions {
            to_lowercase: self.to_lowercase,
            should_remove_prefix_words: self.should_remove_prefix_words,
            should_remove_integers: self.should_remove_integers,
            should_remove_through_first_tab: self.should_remove_through_first_tab,
            reject_list: self.reject_list.deep_view(),
        }
    }
}

/// Every line without what stands before its first tab, and the tab.
pub open spec fn strip_tabs_all(list: Seq<Word>) -> Seq<Word> {
    Seq::new(list.len(), |i: int| strip_through_first_tab(list[i]))
}

/// Every word without its numeric characters.
pub open spec fn strip_numeric_all(list: Seq<Word>) -> Seq<Word> {
    Seq::new(list.len(), |i: int| strip_numeric(list[i]))
}

/// Every word trimmed.
pub open spec fn trim_all(list: Seq<Word>) -> Seq<Word> {
    Seq::new(list.len(), |i: int| trim(list[i]))
}

/// Every word folded to lower case.
pub open spec fn lowercase_all(list: Seq<Word>) -> Seq<Word> {
    Seq::new(list.len(), |i: int| lowercase(list[i]))
}

/// The positions of the empty entries of `list`.
pub open spec fn blank_positions(list: Seq<Word>) -> Set<int> {
    Set::new(|i: int| 0 <= i < list.len() && list[i].len() == 0)
}

/// `list` without its empty entries.
pub open spec fn drop_blank(list: Seq<Word>) -> Seq<Word> {
    retain_unmarked(list, blank_positions(list))
}

/// The positions that the reject list marks: for each reject word the
/// first position that holds it, and no other.
pub open spec fn reject_positions(list: Seq<Word>, rejects: Seq<Word>) -> Set<int> {
    Set::new(
        |i: int| 0 <= i < list.len() && is_first(list, list[i], i) && rejects.contains(list[i]),
    )
}

/// The first matches of the reject words, in the order of the reject list;
/// a reject word that the list does not hold adds nothing.
pub open spec fn first_matches(list: Seq<Word>, rejects: Seq<Word>) -> Seq<int>
    decreases rejects.len(),
{
    if rejects.len() == 0 {
        Seq::empty()
    } else if list.contains(rejects.last()) {
        first_matches(list, rejects.drop_last()).push(first_of(list, rejects.last()))
    } else {
        first_matches(list, rejects.drop_last())
    }
}

/// `list` without the first match of each reject word.
pub open spec fn remove_rejects(list: Seq<Word>, rejects: Seq<Word>) -> Seq<Word> {
    retain_unmarked(list, reject_positions(list, rejects))
}

/// `list[i]` is a proper prefix of some entry of `list`.
pub open spec fn is_prefix_word(list: Seq<Word>, i: int) -> bool {
    0 <= i < list.len() && exists|j: int|
        0 <= j < list.len() && is_proper_prefix(list[i], #[trigger] list[j])
}

/// The positions of the entries that are a proper prefix of another entry.
pub open spec fn prefix_positions(list: Seq<Word>) -> Set<int> {
    Set::new(|i: int| is_prefix_word(list, i))
}

/// `list` without the entries that are a proper prefix of another entry.
/// Each entry is tested against the list as it is given, so the departure
/// of one entry does not save another.
pub open spec fn remove_prefixes(list: Seq<Word>) -> Seq<Word> {
    retain_unmarked(list, prefix_positions(list))
}

/// The list after the stages that edit single lines and drop the blank
/// ones.
pub open spec fn cleaned(list: Seq<Word>, o: TidyOptions) -> Seq<Word> {
    let untabbed = if o.should_remove_through_first_tab {
        strip_tabs_all(list)
    } else {
        list
    };
    let undigited = if o.should_remove_integers {
        strip_numeric_all(untabbed)
    } else {
        untabbed
    };
    drop_blank(trim_all(undigited))
}

/// The working list before reject filtering: canonical, then folded where
/// that is asked for.
pub open spec fn folded(list: Seq<Word>, o: TidyOptions) -> Seq<Word> {
    let canonical = sort_dedup(cleaned(list, o));
    if o.to_lowercase {
        lowercase_all(canonical)
    } else {
        canonical
    }
}

/// The working list after reject filtering.
pub open spec fn filtered(list: Seq<Word>, o: TidyOptions) -> Seq<Word> {
    match o.reject_list {
        Some(rejects) => remove_rejects(folded(list, o), rejects),
        None => folded(list, o),
    }
}

/// The working list after prefix-word removal.
pub open spec fn pruned(list: Seq<Word>, o: TidyOptions) -> Seq<Word> {
    if o.should_remove_prefix_words {
        remove_prefixes(sort_dedup(filtered(list, o)))
    } else {
        filtered(list, o)
    }
}

/// What the pipeline makes of `list` under the options `o`.
pub open spec fn tidy_spec(list: Seq<Word>, o: TidyOptions) -> Seq<Word> {
    sort_dedup(pruned(list, o))
}

/// Every line of `list` without what stands before its first tab, and the
/// tab.
pub fn strip_tabs(list: &[String]) -> (out: Vec<String>)
    ensures
        out.deep_view() == strip_tabs_all(list.deep_view()),
{
    let mut out: Vec<String> = Vec::new();
    let mut i: usize = 0;
    while i < list.len()
        invariant
            i <= list.len(),
            out.deep_view() == strip_tabs_all(list.deep_view()).take(i as int),
        decreases list.len() - i,
    {
        push_word(&mut out, remove_through_first_tab(list[i].clone()));
        assert(out.deep_view() =~= strip_tabs_all(list.deep_view()).take(i + 1));
        i += 1;
    }
    assert(out.deep_view() =~= strip_tabs_all(list.deep_view()));
    out
}

/// Every word of `list` without its numeric characters.
pub fn strip_integers(list: &[String]) -> (out: Vec<String>)
    ensures
        out.deep_view() == strip_numeric_all(list.deep_view()),
{
    let mut out: Vec<String> = Vec::new();
    let mut i: usize = 0;
    while i < list.len()
        invariant
            i <= list.len(),
            out.deep_view() == strip_numeric_all(list.deep_view()).take(i as int),
        decreases list.len() - i,
    {
        push_word(&mut out, remove_integers(list[i].clone()));
        assert(out.deep_view() =~= strip_numeric_all(list.deep_view()).take(i + 1));
        i += 1;
    }
    assert(out.deep_view() =~= strip_numeric_all(list.deep_view()));
    out
}

/// Every word of `list` without leading and trailing whitespace.
pub fn trim_whitespace(list: &[String]) -> (out: Vec<String>)
    ensures
        out.deep_view() == trim_all(list.deep_view()),
{
    let mut out: Vec<String> = Vec::new();
    let mut i: usize = 0;
    while i < list.len()
        invariant
            i <= list.len(),
            out.deep_view() == trim_all(list.deep_view()).take(i as int),
        decreases list.len() - i,
    {
        push_word(&mut out, trim_word(list[i].as_str()));
        assert(out.deep_view() =~= trim_all(list.deep_view()).take(i + 1));
        i += 1;
    }
    assert(out.deep_view() =~= trim_all(list.deep_view()));
    out
}

/// Every word of `list` folded to ASCII lower case.
pub fn lowercase_words(list: &[String]) -> (out: Vec<String>)
    ensures
        out.deep_view() == lowercase_all(list.deep_view()),
{
    let mut out: Vec<String> = Vec::new();
    let mut i: usize = 0;
    while i < list.len()
        invariant
            i <= list.len(),
            out.deep_view() == lowercase_all(list.deep_view()).take(i as int),
        decreases list.len() - i,
    {
        push_word(&mut out, lowercase_word(list[i].as_str()));
        assert(out.deep_view() =~= lowercase_all(list.deep_view()).take(i + 1));
        i += 1;
    }
    assert(out.deep_view() =~= lowercase_all(list.deep_view()));
    out
}

/// `list` without its empty entries.
pub fn remove_blank_lines(list: &[String]) -> (out: Vec<String>)
    ensures
        out.deep_view() == drop_blank(list.deep_view()),
{
    let ghost all = list.deep_view();
    let ghost marked = blank_positions(all);
    let mut out: Vec<String> = Vec::new();
    let mut i: usize = 0;
    while i < list.len()
        invariant
            i <= list.len(),
            all == list.deep_view(),
            marked == blank_positions(all),
            out.deep_view() == retain_unmarked(all.take(i as int), marked),
        decreases list.len() - i,
    {
        assert(all.take(i + 1).drop_last() =~= all.take(i as int));
        if !list[i].as_str().is_empty() {
            push_word(&mut out, list[i].clone());
        }
        i += 1;
    }
    assert(all.take(list.len() as int) =~= all);
    out
}

/// The position at which `w` stands first in `list`, if it stands there.
pub fn find_first(list: &[String], w: &String) -> (found: Option<usize>)
    ensures
        match found {
            Some(i) => is_first(list.deep_view(), w@, i as int) && i as int == first_of(
                list.deep_view(),
                w@,
            ),
            None => !list.deep_view().contains(w@),
        },
{
    let ghost all = list.deep_view();
    let mut i: usize = 0;
    while i < list.len()
        invariant
            i <= list.len(),
            all == list.deep_view(),
            forall|j: int| 0 <= j < i ==> all[j] != w@,
        decreases list.len() - i,
    {
        if list[i] == *w {
            proof {
                lemma_first_of(all, w@, i as int);
            }
            return Some(i);
        }
        i += 1;
    }
    None
}

/// The first position marked for each reject word belongs to the marked
/// set, and the marked set holds nothing else.
pub proof fn lemma_first_matches(list: Seq<Word>, rejects: Seq<Word>)
    ensures
        forall|i: int|
            first_matches(list, rejects).contains(i) <==> reject_positions(list, rejects).contains(
                i,
            ),
    decreases rejects.len(),
{
    let fm = first_matches(list, rejects);
    if rejects.len() == 0 {
        assert forall|i: int| fm.contains(i) <==> reject_positions(list, rejects).contains(i) by {
            if reject_positions(list, rejects).contains(i) {
                let k = choose|k: int| 0 <= k < rejects.len() && rejects[k] == list[i];
            }
        }
    } else {
        let rest = rejects.drop_last();
        let w = rejects.last();
        lemma_first_matches(list, rest);
        let fr = first_matches(list, rest);
        assert forall|i: int| fm.contains(i) <==> reject_positions(list, rejects).contains(i) by {
            if list.contains(w) {
                let k = choose|k: int| 0 <= k < list.len() && list[k] == w;
                lemma_first_exists(list, w, k);
                let f = first_of(list, w);
                lemma_push_contains(fr, f, i);
                if i == f {
                    assert(rejects[rejects.len() - 1] == list[i]);
                }
            }
            if fr.contains(i) {
                assert(reject_positions(list, rest).contains(i));
                let k = choose|k: int| 0 <= k < rest.len() && rest[k] == list[i];
                assert(rejects[k] == list[i]);
            }
            if reject_positions(list, rejects).contains(i) {
                let k = choose|k: int| 0 <= k < rejects.len() && rejects[k] == list[i];
                if k < rest.len() {
                    assert(rest[k] == list[i]);
                    assert(reject_positions(list, rest).contains(i));
                } else {
                    assert(list[i] == w);
                    lemma_first_of(list, w, i);
                }
            }
        }
    }
}

/// For each reject word, in the order of the reject list, the first
/// position of `list` that holds it; a reject word that `list` does not
/// hold adds nothing.
pub fn find_reject_words_to_remove(list: &[String], reject_list: &[String]) -> (rejects_to_remove:
    Vec<usize>)
    ensures
        rejects_to_remove@.len() == first_matches(list.deep_view(), reject_list.deep_view()).len(),
        forall|k: int|
            0 <= k < rejects_to_remove@.len() ==> rejects_to_remove@[k] as int == first_matches(
                list.deep_view(),
                reject_list.deep_view(),
            )[k],
        marked_set(rejects_to_remove@) == reject_positions(
            list.deep_view(),
            reject_list.deep_view(),
        ),
{
    let ghost all = list.deep_view();
    let ghost rejects = reject_list.deep_view();
    let mut rejects_to_remove: Vec<usize> = Vec::new();
    let mut r: usize = 0;
    while r < reject_list.len()
        invariant
            r <= reject_list.len(),
            all == list.deep_view(),
            rejects == reject_list.deep_view(),
            rejects_to_remove@.len() == first_matches(all, rejects.take(r as int)).len(),
            forall|k: int|
                0 <= k < rejects_to_remove@.len() ==> rejects_to_remove@[k] as int
                    == first_matches(all, rejects.take(r as int))[k],
        decreases reject_list.len() - r,
    {
        assert(rejects.take(r + 1).drop_last() =~= rejects.take(r as int));
        match find_first(list, &reject_list[r]) {
            Some(pos) => {
                rejects_to_remove.push(pos);
            },
            None => {},
        }
        r += 1;
    }
    proof {
        assert(rejects.take(reject_list.len() as int) =~= rejects);
        lemma_first_matches(all, rejects);
        let fm = first_matches(all, rejects);
        assert forall|i: int|
            marked_set(rejects_to_remove@).contains(i) <==> reject_positions(all, rejects).contains(
                i,
            ) by {
            if marked_set(rejects_to_remove@).contains(i) {
                let k = choose|k: int|
                    0 <= k < rejects_to_remove@.len() && rejects_to_remove@[k] == i;
                assert(fm[k] == i);
                assert(fm.contains(i));
            }
            if fm.contains(i) {
                let k = choose|k: int| 0 <= k < fm.len() && fm[k] == i;
                assert(rejects_to_remove@[k] == i);
            }
        }
        assert(marked_set(rejects_to_remove@) =~= reject_positions(all, rejects));
    }
    rejects_to_remove
}

/// `list` without the first match of each word of `reject_list`. A reject
/// word that `list` does not hold is passed over.
pub fn remove_reject_words(list: Vec<String>, reject_list: Vec<String>) -> (out: Vec<String>)
    ensures
        out.deep_view() == remove_rejects(list.deep_view(), reject_list.deep_view()),
{
    remove_by_position(
        find_reject_words_to_remove(list.as_slice(), reject_list.as_slice()),
        list,
    )
}

/// Whether `list[i]` is a proper prefix of some entry of `list`.
pub fn is_prefix_of_another(list: &[String], i: usize) -> (b: bool)
    requires
        i < list.len(),
    ensures
        b == is_prefix_word(list.deep_view(), i as int),
{
    let ghost all = list.deep_view();
    let mut j: usize = 0;
    while j < list.len()
        invariant
            j <= list.len(),
            i < list.len(),
            all == list.deep_view(),
            forall|k: int| 0 <= k < j ==> !is_proper_prefix(all[i as int], #[trigger] all[k]),
        decreases list.len() - j,
    {
        if proper_prefix(list[i].as_str(), list[j].as_str()) {
            assert(is_proper_prefix(all[i as int], all[j as int]));
            return true;
        }
        j += 1;
    }
    false
}

/// The positions, in ascending order and each once, of the entries of
/// `list` that are a proper prefix of another entry. Every entry is tested
/// against every entry of `list` as it is given.
pub fn find_prefix_words_to_remove(list: &[String]) -> (prefixes_to_remove: Vec<usize>)
    ensures
        forall|a: int, b: int|
            0 <= a < b < prefixes_to_remove@.len() ==> prefixes_to_remove@[a]
                < prefixes_to_remove@[b],
        marked_set(prefixes_to_remove@) == prefix_positions(list.deep_view()),
{
    let ghost all = list.deep_view();
    let mut prefixes_to_remove: Vec<usize> = Vec::new();
    let mut i: usize = 0;
    while i < list.len()
        invariant
            i <= list.len(),
            all == list.deep_view(),
            forall|a: int, b: int|
                0 <= a < b < prefixes_to_remove@.len() ==> prefixes_to_remove@[a]
                    < prefixes_to_remove@[b],
            forall|a: int| 0 <= a < prefixes_to_remove@.len() ==> prefixes_to_remove@[a] < i,
            forall|p: int|
                marked_set(prefixes_to_remove@).contains(p) <==> (p < i && is_prefix_word(all, p)),
        decreases list.len() - i,
    {
        let ghost before = prefixes_to_remove@;
        let marks = is_prefix_of_another(list, i);
        if marks {
            prefixes_to_remove.push(i);
        }
        proof {
            let now = prefixes_to_remove@;
            assert forall|p: int|
                marked_set(now).contains(p) <==> (p < i + 1 && is_prefix_word(all, p)) by {
                if marked_set(now).contains(p) {
                    let k = choose|k: int| 0 <= k < now.len() && now[k] == p;
                    if k < before.len() {
                        assert(before[k] == p);
                        assert(marked_set(before).contains(p));
                    }
                }
                if p < i && is_prefix_word(all, p) {
                    assert(marked_set(before).contains(p));
                    let k = choose|k: int| 0 <= k < before.len() && before[k] == p;
                    assert(now[k] == p);
                }
                if p == i && marks {
                    assert(now[now.len() - 1] == p);
                }
            }
        }
        i += 1;
    }
    assert(marked_set(prefixes_to_remove@) =~= prefix_positions(all));
    prefixes_to_remove
}

/// `list` without the entries that are a proper prefix of another entry.
pub fn remove_prefix_words(list: Vec<String>) -> (out: Vec<String>)
    ensures
        out.deep_view() == remove_prefixes(list.deep_view()),
{
    remove_by_position(find_prefix_words_to_remove(list.as_slice()), list)
}

/// Runs the pipeline on `list` under `config`. The list is read, not
/// changed.
pub fn tidy_with(list: &[String], config: &TidyConfig) -> (tidied: Vec<String>)
    ensures
        tidied.deep_view() == tidy_spec(list.deep_view(), config@),
        strictly_ascending(tidied.deep_view()),
        forall|i: int| 0 <= i < tidied.len() ==> (#[trigger] tidied.deep_view()[i]).len() > 0,
        config.should_remove_prefix_words ==> prefix_free(tidied.deep_view()),
{
    proof {
        lemma_tidy_output(list.deep_view(), config@);
    }
    let mut tidied_list = if config.should_remove_through_first_tab {
        strip_tabs(list)
    } else {
        clone_words(list)
    };
    if config.should_remove_integers {
        tidied_list = strip_integers(tidied_list.as_slice());
    }
    tidied_list = trim_whitespace(tidied_list.as_slice());
    tidied_list = remove_blank_lines(tidied_list.as_slice());
    assert(tidied_list.deep_view() == cleaned(list.deep_view(), config@));
    tidied_list = sort_and_dedup(&mut tidied_list);
    if config.to_lowercase {
        tidied_list = lowercase_words(tidied_list.as_slice());
    }
    assert(tidied_list.deep_view() == folded(list.deep_view(), config@));
    match &config.reject_list {
        Some(reject_list) => {
            tidied_list = remove_reject_words(tidied_list, clone_words(reject_list.as_slice()));
        },
        None => {},
    }
    assert(tidied_list.deep_view() == filtered(list.deep_view(), config@));
    if config.should_remove_prefix_words {
        tidied_list = remove_prefix_words(sort_and_dedup(&mut tidied_list));
    }
    assert(tidied_list.deep_view() == pruned(list.deep_view(), config@));
    sort_and_dedup(&mut tidied_list)
}

/// Runs the pipeline on `list`: the list's canonical form under the given
/// options.
pub fn tidy_list(
    list: Vec<String>,
    to_lowercase: bool,
    should_remove_prefix_words: bool,
    should_remove_integers: bool,
    should_remove_through_first_tab: bool,
    reject_list: Option<Vec<String>>,
) -> (tidied: Vec<String>)
    ensures
        tidied.deep_view() == tidy_spec(
            list.deep_view(),
            (TidyOptions {
                to_lowercase,
                should_remove_prefix_words,
                should_remove_integers,
                should_remove_through_first_tab,
                reject_list: reject_list.deep_view(),
            }),
        ),
        strictly_ascending(tidied.deep_view()),
        forall|i: int| 0 <= i < tidied.len() ==> (#[trigger] tidied.deep_view()[i]).len() > 0,
        should_remove_prefix_words ==> prefix_free(tidied.deep_view()),
{
    let config = TidyConfig {
        to_lowercase,
        should_remove_prefix_words,
        should_remove_integers,
        should_remove_through_first_tab,
        reject_list,
    };
    tidy_with(list.as_slice(), &config)
}

} // verus!
