//! Options that cannot stand together, found before any list is touched.

use vstd::prelude::*;

verus! {

/// The options of a request that change, remove by content, or annotate
/// words, and so cannot go with ignored metadata.
#[derive(Clone, Copy, Debug, PartialEq, Eq, Structural)]
pub struct EditingOptions {
    /// Words are folded to lower case.
    pub to_lowercase: bool,
    /// Typographic quotes are straightened.
    pub should_straighten_quotes: bool,
    /// Prefix words are removed.
    pub should_remove_prefix_words: bool,
    /// Suffix words are removed.
    pub should_remove_suffix_words: bool,
    /// The list is pruned until it is uniquely decodable.
    pub should_schlinkert_prune: bool,
    /// Characters that are neither letters nor digits are deleted.
    pub should_delete_nonalphanumeric: bool,
    /// Digits are deleted.
    pub should_delete_integers: bool,
    /// What stands before a delimiter is deleted.
    pub should_delete_before_first_delimiter: bool,
    /// What stands after a delimiter is deleted.
    pub should_delete_after_first_delimiter: bool,
    /// A minimum edit distance is set.
    pub minimum_edit_distance: bool,
    /// A maximum shared prefix length is set.
    pub maximum_shared_prefix_length: bool,
    /// A list of homophones is given.
    pub homophones_list: bool,
    /// Dice rolls are printed before the words.
    pub dice_sides: bool,
    /// Dice rolls are printed in the base of the dice.
    pub print_dice_sides_as_their_base: bool,
}

/// Options that were selected together and exclude each other.
#[derive(Clone, Copy, Debug, PartialEq, Eq, Structural)]
pub enum ConfigConflict {
    /// Metadata was to be ignored both after one delimiter and before
    /// another.
    IgnoreOnBothSides,
    /// Metadata after a delimiter was to be ignored together with an
    /// option that edits words.
    IgnoreAfterWithEditing,
    /// Metadata before a delimiter was to be ignored together with an
    /// option that edits words.
    IgnoreBeforeWithEditing,
}

impl EditingOptions {
    /// At least one of the options is selected.
    pub open spec fn any(self) -> bool {
        ||| self.to_lowercase
        ||| self.should_straighten_quotes
        ||| self.should_remove_prefix_words
        ||| self.should_remove_suffix_words
        ||| self.should_schlinkert_prune
        ||| self.should_delete_nonalphanumeric
        ||| self.should_delete_integers
        ||| self.should_delete_before_first_delimiter
        ||| self.should_delete_after_first_delimiter
        ||| self.minimum_edit_distance
        ||| self.maximum_shared_prefix_length
        ||| self.homophones_list
        ||| self.dice_sides
        ||| self.print_dice_sides_as_their_base
    }

    /// Whether at least one of the options is selected.
    pub fn is_any(&self) -> (b: bool)
        ensures
            b == self.any(),
    {
        self.to_lowercase || self.should_straighten_quotes || self.should_remove_prefix_words
            || self.should_remove_suffix_words || self.should_schlinkert_prune
            || self.should_delete_nonalphanumeric || self.should_delete_integers
            || self.should_delete_before_first_delimiter
            || self.should_delete_after_first_delimiter || self.minimum_edit_distance
            || self.maximum_shared_prefix_length || self.homophones_list || self.dice_sides
            || self.print_dice_sides_as_their_base
    }
}

/// What `resolve_ignored_metadata` answers.
pub open spec fn ignored_metadata(
    ignore_after: Option<char>,
    ignore_before: Option<char>,
    editing: EditingOptions,
) -> Result<(Option<char>, Option<char>), ConfigConflict> {
    match (ignore_after, ignore_before) {
        (Some(_), Some(_)) => Err(ConfigConflict::IgnoreOnBothSides),
        (None, None) => Ok((None, None)),
        (Some(after), None) => if editing.any() {
            Err(ConfigConflict::IgnoreAfterWithEditing)
        } else {
            Ok((Some(after), None))
        },
        (None, Some(before)) => if editing.any() {
            Err(ConfigConflict::IgnoreBeforeWithEditing)
        } else {
            Ok((None, Some(before)))
        },
    }
}

/// Settles on which side of which delimiter metadata is ignored. Metadata
/// can be ignored on one side only, and only where no option edits words;
/// a request that asks for more is refused.
pub fn resolve_ignored_metadata(
    ignore_after: Option<char>,
    ignore_before: Option<char>,
    editing: &EditingOptions,
) -> (resolved: Result<(Option<char>, Option<char>), ConfigConflict>)
    ensures
        resolved == ignored_metadata(ignore_after, ignore_before, *editing),
{
    match (ignore_after, ignore_before) {
        (Some(_), Some(_)) => Err(ConfigConflict::IgnoreOnBothSides),
        (None, None) => Ok((None, None)),
        (Some(after), None) => {
            if editing.is_any() {
                Err(ConfigConflict::IgnoreAfterWithEditing)
            } else {
                Ok((Some(after), None))
            }
        },
        (None, Some(before)) => {
            if editing.is_any() {
                Err(ConfigConflict::IgnoreBeforeWithEditing)
            } else {
                Ok((None, Some(before)))
            }
        },
    }
}

} // verus!
