//! Whittling: the search for a beginning of the input whose output has an
//! exact size.
//!
//! The pipeline runs on the first `guess` lines. Where the output has the
//! target size, the search ends with it. Where not, the guess is scaled by
//! the ratio of the target to the size that came out, and the pipeline
//! runs again. Nothing guarantees that the guesses ever meet the target,
//! so the number of runs is bounded by the caller.

use vstd::prelude::*;
use crate::invariants::{is_settled, lemma_settled_take, lemma_tidy_settled};
use crate::pipeline::{tidy_spec, tidy_with, TidyConfig, TidyOptions};
use crate::word::Word;

verus! {

/// A number of runs that is enough for any search that converges in
/// practice.
pub const DEFAULT_MAX_ATTEMPTS: usize = 1000;

/// Why a search ended without a list.
#[derive(Clone, Copy, Debug, PartialEq, Eq, Structural)]
pub enum WhittleError {
    /// More words were asked for than the input has lines; `available` is
    /// the number of lines.
    TargetUnreachable { available: usize },
    /// The runs that were allowed are used up, and none gave the target
    /// size; `attempts` is their number.
    NonConvergence { attempts: usize },
}

/// The record of a search between two runs.
#[derive(Clone, Copy, Debug, PartialEq, Eq, Structural)]
pub struct WhittleState {
    /// The size that the output shall have.
    pub target: usize,
    /// The number of lines that the last run took from the input.
    pub guess: usize,
    /// The size of the output of the last run.
    pub produced: usize,
}

/// The first guess where the caller gives none: the target and two fifths
/// of it, rounded down.
pub open spec fn default_starting_point(target: nat) -> nat {
    target * 7 / 5
}

/// The first guess: the caller's or the default one, and no more than the
/// input has lines.
pub open spec fn starting_point(target: nat, explicit: Option<usize>, available: nat) -> nat {
    let wanted = match explicit {
        Some(p) => p as nat,
        None => default_starting_point(target),
    };
    if wanted > available {
        available
    } else {
        wanted
    }
}

/// The last guess scaled by the ratio of the target to the size that came
/// out; doubled where nothing came out.
pub open spec fn scaled_guess(guess: nat, produced: nat, target: nat) -> nat {
    if produced == 0 {
        2 * guess
    } else {
        guess * target / produced
    }
}

/// The next guess: the scaled one, or the neighbour of the last guess
/// towards the target where scaling does not move it; then brought into
/// the range from 1 to the number of lines.
pub open spec fn next_guess(guess: nat, produced: nat, target: nat, available: nat) -> nat {
    let scaled = scaled_guess(guess, produced, target);
    let moved = if scaled != guess {
        scaled
    } else if produced < target {
        guess + 1
    } else if guess > 0 {
        (guess - 1) as nat
    } else {
        0
    };
    if moved >= available {
        available
    } else if moved < 1 {
        1
    } else {
        moved
    }
}

/// The outcome of a search that starts with `guess` and may run the
/// pipeline `attempts` times: the first output of the target size, or
/// nothing where no run gives one.
pub open spec fn whittle_spec(
    list: Seq<Word>,
    o: TidyOptions,
    target: nat,
    guess: nat,
    attempts: nat,
) -> Option<Seq<Word>>
    decreases attempts,
{
    if attempts == 0 {
        None
    } else {
        let out = tidy_spec(list.take(guess as int), o);
        if out.len() == target {
            Some(out)
        } else {
            whittle_spec(
                list,
                o,
                target,
                next_guess(guess, out.len(), target, list.len()),
                (attempts - 1) as nat,
            )
        }
    }
}

/// What a search answers: it fails at once where the target exceeds the
/// number of lines, ends with the first output of the target size that
/// its runs give, and fails where they give none.
pub open spec fn whittle_outcome(
    list: Seq<Word>,
    o: TidyOptions,
    target: usize,
    start: Option<usize>,
    max_attempts: usize,
) -> Result<Seq<Word>, WhittleError> {
    if target > list.len() {
        Err(WhittleError::TargetUnreachable { available: list.len() as usize })
    } else {
        match whittle_spec(
            list,
            o,
            target as nat,
            starting_point(target as nat, start, list.len()),
            max_attempts as nat,
        ) {
            Some(out) => Ok(out),
            None => Err(WhittleError::NonConvergence { attempts: max_attempts }),
        }
    }
}

/// A next guess never exceeds the number of lines and, where there is a
/// line at all, is at least 1. It lies beyond the last guess where too
/// little came out and lines are left, and before it where too much came
/// out.
pub proof fn lemma_next_guess(guess: nat, produced: nat, target: nat, available: nat)
    requires
        guess <= available,
    ensures
        next_guess(guess, produced, target, available) <= available,
        available >= 1 ==> next_guess(guess, produced, target, available) >= 1,
        produced < target && guess < available ==> next_guess(guess, produced, target, available)
            > guess,
        produced > target && guess > 1 ==> next_guess(guess, produced, target, available) < guess,
{
    if produced > 0 {
        let scaled = guess * target / produced;
        if produced < target {
            assert(guess * target / produced >= guess) by (nonlinear_arith)
                requires
                    0 < produced < target,
            ;
        }
        if produced > target {
            assert(guess * target / produced <= guess) by (nonlinear_arith)
                requires
                    0 <= target < produced,
            ;
        }
    }
}

/// Whatever list the runs from `guess` on end with has the target size
/// and is the output of the pipeline on a beginning of the input.
pub proof fn lemma_whittle_spec_exact(
    list: Seq<Word>,
    o: TidyOptions,
    target: nat,
    guess: nat,
    attempts: nat,
)
    requires
        guess <= list.len(),
    ensures
        whittle_spec(list, o, target, guess, attempts) matches Some(out) ==> out.len() == target
            && exists|p: int| 0 <= p <= list.len() && out == tidy_spec(#[trigger] list.take(p), o),
    decreases attempts,
{
    if attempts > 0 {
        let out = tidy_spec(list.take(guess as int), o);
        if out.len() != target {
            let next = next_guess(guess, out.len(), target, list.len());
            lemma_next_guess(guess, out.len(), target, list.len());
            lemma_whittle_spec_exact(list, o, target, next, (attempts - 1) as nat);
        }
    }
}

/// Whatever list a search ends with has exactly the target size and is the
/// output of the pipeline on a beginning of the input; and a search refuses
/// a target as unreachable exactly where it exceeds the number of lines.
pub proof fn lemma_whittle_exact(
    list: Seq<Word>,
    o: TidyOptions,
    target: usize,
    start: Option<usize>,
    max_attempts: usize,
)
    ensures
        whittle_outcome(list, o, target, start, max_attempts) matches Ok(out) ==> out.len()
            == target && exists|p: int|
            0 <= p <= list.len() && out == tidy_spec(#[trigger] list.take(p), o),
        whittle_outcome(list, o, target, start, max_attempts) matches Err(
            WhittleError::TargetUnreachable { .. },
        ) <==> target > list.len(),
{
    if target <= list.len() {
        lemma_whittle_spec_exact(
            list,
            o,
            target as nat,
            starting_point(target as nat, start, list.len()),
            max_attempts as nat,
        );
    }
}

/// On a settled list, on which every beginning comes out of the pipeline
/// as it went in, a search from the default first guess ends within two
/// runs, with the first `target` lines.
pub proof fn lemma_whittle_settled(
    list: Seq<Word>,
    o: TidyOptions,
    target: usize,
    max_attempts: usize,
)
    requires
        is_settled(list, o),
        target <= list.len(),
        max_attempts >= 2,
    ensures
        whittle_outcome(list, o, target, None, max_attempts) == Ok::<Seq<Word>, WhittleError>(
            list.take(target as int),
        ),
{
    let n = list.len();
    let target = target as nat;
    let first = starting_point(target, None, n);
    assert(target <= target * 7 / 5);
    assert(target <= first <= n);
    lemma_settled_take(list, o, first as int);
    lemma_tidy_settled(list.take(first as int), o);
    lemma_settled_take(list, o, target as int);
    lemma_tidy_settled(list.take(target as int), o);
    if first != target {
        assert(first * target / first == target) by (nonlinear_arith)
            requires
                first > 0,
        ;
        assert(next_guess(first, first, target, n) == target);
        assert(whittle_spec(list, o, target, target, (max_attempts - 1) as nat) == Some(
            list.take(target as int),
        ));
    }
}

/// The first guess of a search.
pub fn first_guess(target: usize, explicit: Option<usize>, available: usize) -> (guess: usize)
    ensures
        guess == starting_point(target as nat, explicit, available as nat),
{
    match explicit {
        Some(p) => {
            if p > available {
                available
            } else {
                p
            }
        },
        None => {
            let wanted: u128 = (target as u128) * 7 / 5;
            if wanted > available as u128 {
                available
            } else {
                wanted as usize
            }
        },
    }
}

/// The guess that follows `state`, for an input of `available` lines.
pub fn next_starting_point(state: &WhittleState, available: usize) -> (next: usize)
    ensures
        next == next_guess(
            state.guess as nat,
            state.produced as nat,
            state.target as nat,
            available as nat,
        ),
{
    let guess: u128 = state.guess as u128;
    let scaled: u128 = if state.produced == 0 {
        2 * guess
    } else {
        assert(state.guess * state.target <= 0xffff_ffff_ffff_ffff * 0xffff_ffff_ffff_ffff)
            by (nonlinear_arith)
            requires
                state.guess <= 0xffff_ffff_ffff_ffff,
                state.target <= 0xffff_ffff_ffff_ffff,
        ;
        guess * (state.target as u128) / (state.produced as u128)
    };
    let moved: u128 = if scaled != guess {
        scaled
    } else if state.produced < state.target {
        guess + 1
    } else if guess > 0 {
        guess - 1
    } else {
        0
    };
    if moved >= available as u128 {
        available
    } else if moved < 1 {
        1
    } else {
        moved as usize
    }
}

/// Searches for a beginning of `list` that the pipeline turns into exactly
/// `target` words, and returns those words.
///
/// The first run takes `start` lines, or the default number where `start`
/// is `None`, and never more than `list` has. The search ends with the
/// first output that has `target` words. It fails at once, before any
/// run, where `target` exceeds the number of lines, and after
/// `max_attempts` runs where none of them gave `target` words.
pub fn whittle(
    list: &[String],
    config: &TidyConfig,
    target: usize,
    start: Option<usize>,
    max_attempts: usize,
) -> (result: Result<Vec<String>, WhittleError>)
    ensures
        match result {
            Ok(out) => whittle_outcome(list.deep_view(), config@, target, start, max_attempts)
                == Ok::<Seq<Word>, WhittleError>(out.deep_view()),
            Err(e) => whittle_outcome(list.deep_view(), config@, target, start, max_attempts)
                == Err::<Seq<Word>, WhittleError>(e),
        },
        result matches Ok(out) ==> out.len() == target,
{
    if target > list.len() {
        return Err(WhittleError::TargetUnreachable { available: list.len() });
    }
    let ghost all = list.deep_view();
    let ghost first = starting_point(target as nat, start, list.len() as nat);
    let mut guess: usize = first_guess(target, start, list.len());
    let mut left: usize = max_attempts;
    while left > 0
        invariant
            all == list.deep_view(),
            first == starting_point(target as nat, start, list.len() as nat),
            guess <= list.len(),
            target <= list.len(),
            whittle_spec(all, config@, target as nat, first, max_attempts as nat) == whittle_spec(
                all,
                config@,
                target as nat,
                guess as nat,
                left as nat,
            ),
        decreases left,
    {
        let part = &list[0..guess];
        assert(part.deep_view() =~= all.take(guess as int));
        let out = tidy_with(part, config);
        assert(out.deep_view() == tidy_spec(all.take(guess as nat as int), config@));
        assert(out.deep_view().len() == out.len());
        if out.len() == target {
            return Ok(out);
        }
        let state = WhittleState { target, guess, produced: out.len() };
        guess = next_starting_point(&state, list.len());
        left -= 1;
    }
    Err(WhittleError::NonConvergence { attempts: max_attempts })
}

} // verus!
