use tidy::pipeline::TidyConfig;
use tidy::whittle::{first_guess, next_starting_point, whittle, WhittleError, WhittleState};

fn words(items: &[&str]) -> Vec<String> {
    items.iter().map(|w| w.to_string()).collect()
}

fn plain() -> TidyConfig {
    TidyConfig {
        to_lowercase: false,
        should_remove_prefix_words: false,
        should_remove_integers: false,
        should_remove_through_first_tab: false,
        reject_list: None,
    }
}

fn ten() -> Vec<String> {
    words(&["a", "b", "c", "d", "e", "f", "g", "h", "i", "j"])
}

#[test]
fn sorted_unique_words_converge_after_one_adjustment() {
    // The first run takes 4 lines and gives 4 words; the second takes 3.
    let result = whittle(&ten(), &plain(), 3, None, 2);
    assert_eq!(result, Ok(words(&["a", "b", "c"])));
}

#[test]
fn one_run_is_not_enough_for_the_default_guess() {
    let result = whittle(&ten(), &plain(), 3, None, 1);
    assert_eq!(result, Err(WhittleError::NonConvergence { attempts: 1 }));
}

#[test]
fn a_target_beyond_the_input_fails_before_any_run() {
    let result = whittle(&ten(), &plain(), 11, None, 100);
    assert_eq!(result, Err(WhittleError::TargetUnreachable { available: 10 }));
    // Not even one run is needed to see it.
    let result = whittle(&ten(), &plain(), 11, Some(3), 0);
    assert_eq!(result, Err(WhittleError::TargetUnreachable { available: 10 }));
}

#[test]
fn a_target_beyond_the_distinct_words_is_not_reached() {
    let list = words(&["a", "a", "b", "b", "a"]);
    let result = whittle(&list, &plain(), 3, None, 50);
    assert_eq!(result, Err(WhittleError::NonConvergence { attempts: 50 }));
}

#[test]
fn no_attempts_means_no_list() {
    let result = whittle(&ten(), &plain(), 3, Some(3), 0);
    assert_eq!(result, Err(WhittleError::NonConvergence { attempts: 0 }));
}

#[test]
fn an_exact_first_guess_needs_one_run() {
    let result = whittle(&ten(), &plain(), 5, Some(5), 1);
    assert_eq!(result, Ok(words(&["a", "b", "c", "d", "e"])));
}

#[test]
fn the_whole_input_can_be_the_target() {
    let result = whittle(&ten(), &plain(), 10, None, 1);
    assert_eq!(result, Ok(ten()));
}

#[test]
fn target_zero_gives_the_empty_list() {
    assert_eq!(whittle(&ten(), &plain(), 0, None, 1), Ok(Vec::new()));
    assert_eq!(whittle(&Vec::new(), &plain(), 0, None, 1), Ok(Vec::new()));
}

#[test]
fn prefix_removal_needs_more_lines_than_words() {
    // Input ordered by preference; prefix words go, so more than 4 lines
    // are needed for 4 words. The first run takes 5 lines and gives
    // "a", "off", "then"; the second takes 5 * 4 / 3 = 6 lines.
    let list = words(&["the", "of", "then", "off", "a", "to", "an", "in", "top", "it"]);
    let config = TidyConfig { should_remove_prefix_words: true, ..plain() };
    assert_eq!(
        whittle(&list, &config, 4, None, 1),
        Err(WhittleError::NonConvergence { attempts: 1 })
    );
    let out = whittle(&list, &config, 4, None, 2).unwrap();
    assert_eq!(out.len(), 4);
    assert_eq!(out, words(&["a", "off", "then", "to"]));
}

#[test]
fn a_cycle_of_guesses_ends_with_the_attempts() {
    // 4 lines give 2 words and 6 lines give 4; the guesses swing between
    // the two and never try 5.
    let list = words(&["a", "a", "a", "b", "c", "d"]);
    let result = whittle(&list, &plain(), 3, None, 1000);
    assert_eq!(result, Err(WhittleError::NonConvergence { attempts: 1000 }));
    assert_eq!(whittle(&list, &plain(), 3, Some(5), 1), Ok(words(&["a", "b", "c"])));
}

#[test]
fn default_first_guess_is_seven_fifths_of_the_target() {
    assert_eq!(first_guess(3, None, 100), 4);
    assert_eq!(first_guess(5, None, 100), 7);
    assert_eq!(first_guess(10, None, 100), 14);
    assert_eq!(first_guess(7776, None, 100_000), 10886);
    assert_eq!(first_guess(0, None, 100), 0);
    assert_eq!(first_guess(1, None, 100), 1);
}

#[test]
fn first_guess_never_exceeds_the_input() {
    assert_eq!(first_guess(10, None, 12), 12);
    assert_eq!(first_guess(10, Some(50), 12), 12);
    assert_eq!(first_guess(10, Some(11), 12), 11);
    assert_eq!(first_guess(10, Some(0), 12), 0);
    assert_eq!(first_guess(usize::MAX, None, usize::MAX), usize::MAX);
}

#[test]
fn next_guess_scales_by_the_yield() {
    let next = |guess, produced, target, available| {
        next_starting_point(&WhittleState { target, guess, produced }, available)
    };
    // 4 * 3 / 4
    assert_eq!(next(4, 4, 3, 10), 3);
    // 14 * 10 / 7
    assert_eq!(next(14, 7, 10, 100), 20);
    // 14 * 10 / 12 = 11.66
    assert_eq!(next(14, 12, 10, 100), 11);
    // Nothing came out: the guess doubles.
    assert_eq!(next(6, 0, 10, 100), 12);
    assert_eq!(next(0, 0, 10, 100), 1);
    // Scaling does not move the guess: one step towards the target.
    assert_eq!(next(3, 10, 11, 100), 4);
    assert_eq!(next(3, 11, 10, 100), 2);
    // Brought into the range from 1 to the number of lines.
    assert_eq!(next(80, 40, 100, 120), 120);
    assert_eq!(next(1, 5, 1, 10), 1);
    assert_eq!(next(2, 9, 1, 10), 1);
    assert_eq!(next(usize::MAX, 1, usize::MAX, usize::MAX), usize::MAX);
}
