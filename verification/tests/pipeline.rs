use tidy::pipeline::{
    find_prefix_words_to_remove, find_reject_words_to_remove, lowercase_words, remove_blank_lines,
    remove_prefix_words, remove_reject_words, strip_integers, strip_tabs, tidy_with,
    trim_whitespace, TidyConfig,
};
use tidy::tidy_list;

fn words(items: &[&str]) -> Vec<String> {
    items.iter().map(|w| w.to_string()).collect()
}

fn plain() -> TidyConfig {
    TidyConfig {
        to_lowercase: false,
        should_remove_prefix_words: false,
        should_remove_integers: false,
        should_remove_through_first_tab: false,
        reject_list: None,
    }
}

#[test]
fn lowercase_merges_case_variants_and_drops_blanks() {
    let list = words(&["Apple", "apple", "Banana", "", "  banana  "]);
    let tidied = tidy_list(list, true, false, false, false, None);
    assert_eq!(tidied, words(&["apple", "banana"]));
}

#[test]
fn prefix_words_are_removed() {
    let list = words(&["cat", "cats", "dog"]);
    let tidied = tidy_list(list, false, true, false, false, None);
    assert_eq!(tidied, words(&["cats", "dog"]));
}

#[test]
fn reject_list_removes_its_words() {
    let list = words(&["a", "b", "c", "d", "e"]);
    let tidied = tidy_list(list, false, false, false, false, Some(words(&["b"])));
    assert_eq!(tidied, words(&["a", "c", "d", "e"]));
}

#[test]
fn empty_input_gives_empty_output() {
    let tidied = tidy_list(Vec::new(), true, true, true, true, Some(words(&["x"])));
    assert_eq!(tidied, Vec::<String>::new());
}

#[test]
fn only_blank_lines_give_empty_output() {
    let tidied = tidy_list(words(&["", "   ", "\t", " \u{a0} "]), false, false, false, false, None);
    assert_eq!(tidied, Vec::<String>::new());
}

#[test]
fn absent_reject_words_are_passed_over() {
    let list = words(&["pear", "apple"]);
    let tidied = tidy_list(list, false, false, false, false, Some(words(&["plum", "fig"])));
    assert_eq!(tidied, words(&["apple", "pear"]));
}

#[test]
fn output_is_sorted_by_code_point_and_unique() {
    let list = words(&["b", "a", "B", "\u{e9}", "z", "a", "Z", "10", "9"]);
    let tidied = tidy_list(list, false, false, false, false, None);
    assert_eq!(tidied, words(&["10", "9", "B", "Z", "a", "b", "z", "\u{e9}"]));
}

#[test]
fn all_stages_together() {
    let list = words(&[
        "17\tHouse1",
        "3\thouse",
        "9\t  Houses ",
        "1\tBoat",
        "2\t42",
        "5\tboat",
        "no tab",
        "8\tcar",
    ]);
    let tidied = tidy_list(list, true, true, true, true, Some(words(&["car", "absent"])));
    assert_eq!(tidied, words(&["boat", "houses", "no tab"]));
}

#[test]
fn reject_removes_one_occurrence_only() {
    // Folding makes "Apple" and "apple" the same word after the list was
    // deduplicated, so the working list holds it twice and loses it once.
    let list = words(&["Apple", "apple", "pear"]);
    let tidied = tidy_list(list, true, false, false, false, Some(words(&["apple"])));
    assert_eq!(tidied, words(&["apple", "pear"]));
}

#[test]
fn prefix_removal_uses_a_snapshot() {
    // "a" leaves because of "ab", and "ab" still leaves because of "abc".
    let list = words(&["a", "ab", "abc", "b"]);
    let tidied = tidy_list(list, false, true, false, false, None);
    assert_eq!(tidied, words(&["abc", "b"]));
}

#[test]
fn prefix_is_literal_not_a_common_root() {
    let list = words(&["care", "cart", "car"]);
    let tidied = tidy_list(list, false, true, false, false, None);
    assert_eq!(tidied, words(&["care", "cart"]));
}

#[test]
fn a_second_run_changes_nothing() {
    let list = words(&["Delta", "alpha ", "alpha", "alphabet", " Beta7", "", "gamma", "beta"]);
    let rejects = words(&["gamma"]);
    let once = tidy_list(list, true, true, true, false, Some(rejects.clone()));
    assert_eq!(once, words(&["alphabet", "beta", "delta"]));
    let twice = tidy_list(once.clone(), true, true, true, false, Some(rejects));
    assert_eq!(twice, once);
}

#[test]
fn equal_input_gives_equal_output() {
    let list = words(&["one", "two", "three", "Two", "  one"]);
    let first = tidy_list(list.clone(), true, true, false, false, None);
    let second = tidy_list(list, true, true, false, false, None);
    assert_eq!(first, second);
}

#[test]
fn output_has_no_duplicates_and_no_blanks() {
    let list = words(&["x", " x", "x ", "", "y", "Y", "  "]);
    let tidied = tidy_list(list, true, false, false, false, None);
    assert_eq!(tidied, words(&["x", "y"]));
    assert!(tidied.iter().all(|w| !w.is_empty()));
    assert!(tidied.windows(2).all(|p| p[0] < p[1]));
}

#[test]
fn no_output_word_is_a_prefix_of_another() {
    let list = words(&["in", "inn", "inner", "out", "outer", "up"]);
    let tidied = tidy_list(list, false, true, false, false, None);
    assert_eq!(tidied, words(&["inner", "outer", "up"]));
    for a in &tidied {
        for b in &tidied {
            assert!(a == b || !b.starts_with(a.as_str()));
        }
    }
}

#[test]
fn tidy_with_reads_the_list_and_agrees_with_tidy_list() {
    let list = words(&["b", "a", "c"]);
    let config = TidyConfig { reject_list: Some(words(&["c"])), ..plain() };
    assert_eq!(tidy_with(&list, &config), words(&["a", "b"]));
    assert_eq!(list, words(&["b", "a", "c"]));
}

#[test]
fn strip_tabs_drops_through_the_first_tab_only() {
    let list = words(&["12\tword", "plain", "a\tb\tc", "\tlead", "trail\t"]);
    assert_eq!(strip_tabs(&list), words(&["word", "plain", "b\tc", "lead", ""]));
}

#[test]
fn strip_integers_keeps_the_entries() {
    let list = words(&["a1b2", "123", "none", "\u{663}x\u{be}"]);
    assert_eq!(strip_integers(&list), words(&["ab", "", "none", "x"]));
}

#[test]
fn trim_whitespace_trims_both_ends() {
    let list = words(&["  a b  ", "\tc\n", "\u{2003}d\u{a0}", "e", "   "]);
    assert_eq!(trim_whitespace(&list), words(&["a b", "c", "d", "e", ""]));
}

#[test]
fn lowercase_words_folds_ascii_only() {
    let list = words(&["ABC", "MiXed", "\u{c9}COLE", "already"]);
    assert_eq!(lowercase_words(&list), words(&["abc", "mixed", "\u{c9}cole", "already"]));
}

#[test]
fn remove_blank_lines_keeps_order() {
    let list = words(&["", "b", "", "a", " ", ""]);
    assert_eq!(remove_blank_lines(&list), words(&["b", "a", " "]));
}

#[test]
fn reject_positions_are_first_matches_in_reject_order() {
    let list = words(&["x", "y", "x", "z", "y"]);
    let rejects = words(&["y", "q", "x", "y"]);
    assert_eq!(find_reject_words_to_remove(&list, &rejects), vec![1, 0, 1]);
    assert_eq!(remove_reject_words(list, rejects), words(&["x", "z", "y"]));
}

#[test]
fn prefix_positions_are_ascending_and_single() {
    let list = words(&["ab", "a", "abc", "b", "a"]);
    assert_eq!(find_prefix_words_to_remove(&list), vec![0, 1, 4]);
    assert_eq!(remove_prefix_words(list), words(&["abc", "b"]));
}

#[test]
fn a_tab_left_in_the_output_is_stripped_by_a_second_run() {
    let once = tidy_list(words(&["1\tb\tc", "2\td"]), false, false, false, true, None);
    assert_eq!(once, words(&["b\tc", "d"]));
    let twice = tidy_list(once, false, false, false, true, None);
    assert_eq!(twice, words(&["c", "d"]));
}

#[test]
fn a_reject_word_left_in_the_output_is_rejected_by_a_second_run() {
    let rejects = words(&["apple"]);
    let once = tidy_list(words(&["Apple", "apple"]), true, false, false, false, Some(rejects.clone()));
    assert_eq!(once, words(&["apple"]));
    let twice = tidy_list(once, true, false, false, false, Some(rejects));
    assert_eq!(twice, Vec::<String>::new());
}
