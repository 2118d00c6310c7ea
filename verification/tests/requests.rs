use tidy::options::{resolve_ignored_metadata, ConfigConflict, EditingOptions};
use tidy::target::{parse_count, parse_whittle_target, WhittleTarget};
use tidy::word::to_chars;

fn no_editing() -> EditingOptions {
    EditingOptions {
        to_lowercase: false,
        should_straighten_quotes: false,
        should_remove_prefix_words: false,
        should_remove_suffix_words: false,
        should_schlinkert_prune: false,
        should_delete_nonalphanumeric: false,
        should_delete_integers: false,
        should_delete_before_first_delimiter: false,
        should_delete_after_first_delimiter: false,
        minimum_edit_distance: false,
        maximum_shared_prefix_length: false,
        homophones_list: false,
        dice_sides: false,
        print_dice_sides_as_their_base: false,
    }
}

#[test]
fn a_bare_number_is_a_target() {
    assert_eq!(
        parse_whittle_target("7776"),
        Some(WhittleTarget { length: 7776, starting_point: None })
    );
    assert_eq!(parse_whittle_target("0"), Some(WhittleTarget { length: 0, starting_point: None }));
    assert_eq!(
        parse_whittle_target("007"),
        Some(WhittleTarget { length: 7, starting_point: None })
    );
}

#[test]
fn a_number_after_a_comma_is_the_first_guess() {
    assert_eq!(
        parse_whittle_target("7776,15000"),
        Some(WhittleTarget { length: 7776, starting_point: Some(15000) })
    );
}

#[test]
fn an_unreadable_first_guess_is_passed_over() {
    let bare = Some(WhittleTarget { length: 10, starting_point: None });
    assert_eq!(parse_whittle_target("10,abc"), bare);
    assert_eq!(parse_whittle_target("10,"), bare);
    assert_eq!(parse_whittle_target("10,5,3"), bare);
    assert_eq!(parse_whittle_target("10, 5"), bare);
    assert_eq!(parse_whittle_target("10,99999999999999999999999999"), bare);
}

#[test]
fn an_unreadable_target_is_refused() {
    assert_eq!(parse_whittle_target(""), None);
    assert_eq!(parse_whittle_target("abc"), None);
    assert_eq!(parse_whittle_target("12a"), None);
    assert_eq!(parse_whittle_target(",5"), None);
    assert_eq!(parse_whittle_target(" 12"), None);
    assert_eq!(parse_whittle_target("-3"), None);
    assert_eq!(parse_whittle_target("\u{663}"), None);
    assert_eq!(parse_whittle_target("99999999999999999999999999"), None);
}

#[test]
fn counts_up_to_the_largest() {
    let largest = usize::MAX.to_string();
    let v = to_chars(&largest);
    assert_eq!(parse_count(&v, 0, v.len()), Some(usize::MAX));
    let mut beyond = largest.clone();
    beyond.pop();
    beyond.push('9');
    let w = to_chars(&beyond);
    if beyond != largest {
        assert_eq!(parse_count(&w, 0, w.len()), None);
    }
    let x = to_chars("ab123cd");
    assert_eq!(parse_count(&x, 2, 5), Some(123));
    assert_eq!(parse_count(&x, 2, 2), None);
    assert_eq!(parse_count(&x, 1, 5), None);
}

#[test]
fn nothing_ignored_is_always_fine() {
    let mut editing = no_editing();
    editing.to_lowercase = true;
    assert_eq!(resolve_ignored_metadata(None, None, &editing), Ok((None, None)));
    assert_eq!(resolve_ignored_metadata(None, None, &no_editing()), Ok((None, None)));
}

#[test]
fn one_side_without_editing_is_fine() {
    assert_eq!(
        resolve_ignored_metadata(Some(','), None, &no_editing()),
        Ok((Some(','), None))
    );
    assert_eq!(
        resolve_ignored_metadata(None, Some('\t'), &no_editing()),
        Ok((None, Some('\t')))
    );
}

#[test]
fn both_sides_conflict() {
    assert_eq!(
        resolve_ignored_metadata(Some(','), Some(';'), &no_editing()),
        Err(ConfigConflict::IgnoreOnBothSides)
    );
    let mut editing = no_editing();
    editing.dice_sides = true;
    assert_eq!(
        resolve_ignored_metadata(Some(','), Some(';'), &editing),
        Err(ConfigConflict::IgnoreOnBothSides)
    );
}

#[test]
fn each_editing_option_conflicts_with_ignoring() {
    let setters: Vec<fn(&mut EditingOptions)> = vec![
        |e| e.to_lowercase = true,
        |e| e.should_straighten_quotes = true,
        |e| e.should_remove_prefix_words = true,
        |e| e.should_remove_suffix_words = true,
        |e| e.should_schlinkert_prune = true,
        |e| e.should_delete_nonalphanumeric = true,
        |e| e.should_delete_integers = true,
        |e| e.should_delete_before_first_delimiter = true,
        |e| e.should_delete_after_first_delimiter = true,
        |e| e.minimum_edit_distance = true,
        |e| e.maximum_shared_prefix_length = true,
        |e| e.homophones_list = true,
        |e| e.dice_sides = true,
        |e| e.print_dice_sides_as_their_base = true,
    ];
    for set in setters {
        let mut editing = no_editing();
        set(&mut editing);
        assert!(editing.is_any());
        assert_eq!(
            resolve_ignored_metadata(Some(','), None, &editing),
            Err(ConfigConflict::IgnoreAfterWithEditing)
        );
        assert_eq!(
            resolve_ignored_metadata(None, Some(','), &editing),
            Err(ConfigConflict::IgnoreBeforeWithEditing)
        );
    }
    assert!(!no_editing().is_any());
}
