//! The text that asks for a whittled list: a target size, or a target size
//! and a first guess after a comma.

use vstd::prelude::*;
use crate::seqs::first_of;
use crate::word::{find_char, to_chars, Word};

verus! {

/// What a whittle request asks for.
#[derive(Clone, Copy, Debug, PartialEq, Eq, Structural)]
pub struct WhittleTarget {
    /// The size that the list shall have.
    pub length: usize,
    /// The number of lines that the first run shall take, where the
    /// request names one.
    pub starting_point: Option<usize>,
}

/// `s` is a decimal numeral: one or more ASCII digits.
pub open spec fn is_decimal(s: Word) -> bool {
    s.len() > 0 && forall|i: int| 0 <= i < s.len() ==> '0' <= #[trigger] s[i] <= '9'
}

/// The number that the digits of `s` write.
pub open spec fn decimal_value(s: Word) -> nat
    decreases s.len(),
{
    if s.len() == 0 {
        0
    } else {
        decimal_value(s.drop_last()) * 10 + (s.last() as nat - '0' as nat) as nat
    }
}

/// The count that `s` writes: `s` is a decimal numeral of a number that a
/// `usize` holds.
pub open spec fn count_of(s: Word) -> Option<usize> {
    if is_decimal(s) && decimal_value(s) <= usize::MAX {
        Some(decimal_value(s) as usize)
    } else {
        None
    }
}

/// What a request text asks for. Without a comma the text is the target
/// size. With one, the target size stands before the first comma; what
/// follows is the first guess where it is a count, and is passed over
/// where it is not, or holds a further comma.
pub open spec fn whittle_target_of(s: Word) -> Option<WhittleTarget> {
    let (head, tail) = if s.contains(',') {
        (s.take(first_of(s, ',')), Some(s.skip(first_of(s, ',') + 1)))
    } else {
        (s, None)
    };
    match count_of(head) {
        None => None,
        Some(length) => Some(
            WhittleTarget {
                length,
                starting_point: match tail {
                    Some(t) => if t.contains(',') {
                        None
                    } else {
                        count_of(t)
                    },
                    None => None,
                },
            },
        ),
    }
}

/// More digits never write a smaller number.
pub proof fn lemma_decimal_value_grows(s: Word, k: int)
    requires
        0 <= k <= s.len(),
    ensures
        decimal_value(s.take(k)) <= decimal_value(s),
    decreases s.len() - k,
{
    if k == s.len() {
        assert(s.take(k) =~= s);
    } else {
        lemma_decimal_value_grows(s.drop_last(), k);
        assert(s.drop_last().take(k) =~= s.take(k));
    }
}

/// The count that the characters `v[from..to]` write.
pub fn parse_count(v: &Vec<char>, from: usize, to: usize) -> (count: Option<usize>)
    requires
        from <= to <= v@.len(),
    ensures
        count == count_of(v@.subrange(from as int, to as int)),
{
    let ghost s = v@.subrange(from as int, to as int);
    if from == to {
        return None;
    }
    let mut value: usize = 0;
    let mut i: usize = from;
    while i < to
        invariant
            from <= i <= to <= v@.len(),
            s == v@.subrange(from as int, to as int),
            forall|j: int| 0 <= j < i - from ==> '0' <= #[trigger] s[j] <= '9',
            value == decimal_value(s.take(i - from)),
        decreases to - i,
    {
        let c = v[i];
        assert(s[i - from] == c);
        if c < '0' || c > '9' {
            return None;
        }
        let digit: usize = (c as u32 - '0' as u32) as usize;
        proof {
            assert(s.take(i - from + 1).drop_last() =~= s.take(i - from));
            lemma_decimal_value_grows(s, i - from + 1);
        }
        if value > (usize::MAX - digit) / 10 {
            return None;
        }
        value = value * 10 + digit;
        i += 1;
    }
    assert(s.take(to - from) =~= s);
    Some(value)
}

/// Reads a whittle request: `"T"` for a target size, `"T,P"` for a target
/// size and a first guess. The answer is `None` where the target size is
/// no count.
pub fn parse_whittle_target(text: &str) -> (parsed: Option<WhittleTarget>)
    ensures
        parsed == whittle_target_of(text@),
{
    let v = to_chars(text);
    let n = v.len();
    match find_char(&v, ',') {
        None => {
            assert(v@.subrange(0, n as int) =~= v@);
            match parse_count(&v, 0, n) {
                Some(length) => Some(WhittleTarget { length, starting_point: None }),
                None => None,
            }
        },
        Some(comma) => {
            assert(comma < n);
            assert(v@.subrange(0, comma as int) =~= v@.take(comma as int));
            let ghost tail = v@.skip(comma + 1);
            assert(v@.subrange(comma + 1, n as int) =~= tail);
            match parse_count(&v, 0, comma) {
                None => None,
                Some(length) => {
                    let mut single = true;
                    let mut i: usize = comma + 1;
                    while i < n
                        invariant
                            comma + 1 <= i <= n == v@.len(),
                            tail == v@.skip(comma + 1),
                            single <==> forall|j: int| 0 <= j < i - comma - 1 ==> tail[j] != ',',
                        decreases n - i,
                    {
                        if v[i] == ',' {
                            assert(tail[i - comma - 1] == ',');
                            single = false;
                        }
                        i += 1;
                    }
                    let starting_point = if single {
                        parse_count(&v, comma + 1, n)
                    } else {
                        None
                    };
                    Some(WhittleTarget { length, starting_point })
                },
            }
        },
    }
}

} // verus!
