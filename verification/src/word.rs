//! Single words: their characters, and the edits that the cleaning stages
//! apply to them.

use vstd::prelude::*;
use vstd::std_specs::iter::IteratorSpec;
use vstd::string::*;
use crate::chars::{ascii_lower, is_number, is_white_space, to_ascii_lower};
use crate::seqs::{first_of, is_first, lemma_first_of};

verus! {

/// A word as the contracts see it: its characters in order.
pub type Word = Seq<char>;

/// `w` without everything up to and including its first tab; `w` itself
/// where it holds no tab.
pub open spec fn strip_through_first_tab(w: Word) -> Word {
    if w.contains('\t') {
        w.skip(first_of(w, '\t') + 1)
    } else {
        w
    }
}

/// `w` without its numeric characters, the others in their order.
pub open spec fn strip_numeric(w: Word) -> Word
    decreases w.len(),
{
    if w.len() == 0 {
        w
    } else if is_number(w.last()) {
        strip_numeric(w.drop_last())
    } else {
        strip_numeric(w.drop_last()).push(w.last())
    }
}

/// `w` without its leading whitespace.
pub open spec fn trim_start(w: Word) -> Word
    decreases w.len(),
{
    if w.len() > 0 && is_white_space(w[0]) {
        trim_start(w.drop_first())
    } else {
        w
    }
}

/// `w` without its trailing whitespace.
pub open spec fn trim_end(w: Word) -> Word
    decreases w.len(),
{
    if w.len() > 0 && is_white_space(w.last()) {
        trim_end(w.drop_last())
    } else {
        w
    }
}

/// `w` without leading and trailing whitespace.
pub open spec fn trim(w: Word) -> Word {
    trim_end(trim_start(w))
}

/// `w` with every character folded to ASCII lower case.
pub open spec fn lowercase(w: Word) -> Word {
    Seq::new(w.len(), |i: int| ascii_lower(w[i]))
}

/// `p` is a literal prefix of `w` and is not `w` itself.
pub open spec fn is_proper_prefix(p: Word, w: Word) -> bool {
    p.len() < w.len() && w.take(p.len() as int) == p
}

/// No character of `w` is numeric.
pub open spec fn numeric_free(w: Word) -> bool {
    forall|i: int| 0 <= i < w.len() ==> !is_number(#[trigger] w[i])
}

/// `w` is not empty and neither begins nor ends with whitespace.
pub open spec fn is_trimmed(w: Word) -> bool {
    w.len() > 0 && !is_white_space(w[0]) && !is_white_space(w.last())
}

/// What stripping leaves holds no numeric character and is no longer than
/// the word; a word without numeric characters stays as it is.
pub proof fn lemma_strip_numeric(w: Word)
    ensures
        numeric_free(strip_numeric(w)),
        strip_numeric(w).len() <= w.len(),
        numeric_free(w) ==> strip_numeric(w) == w,
    decreases w.len(),
{
    if w.len() > 0 {
        lemma_strip_numeric(w.drop_last());
        if numeric_free(w) {
            assert(!is_number(w[w.len() - 1]));
            assert forall|i: int| 0 <= i < w.drop_last().len() implies !is_number(
                #[trigger] w.drop_last()[i],
            ) by {
                assert(w.drop_last()[i] == w[i]);
            }
            assert(w.drop_last().push(w.last()) =~= w);
        }
    }
}

/// Leading whitespace ends at `a`: trimming the start drops exactly `a`
/// characters.
pub proof fn lemma_trim_start(w: Word, a: int)
    requires
        0 <= a <= w.len(),
        forall|j: int| 0 <= j < a ==> is_white_space(#[trigger] w[j]),
        a < w.len() ==> !is_white_space(w[a]),
    ensures
        trim_start(w) == w.skip(a),
    decreases a,
{
    if a == 0 {
        assert(w.skip(0) =~= w);
    } else {
        assert(is_white_space(w[0]));
        let rest = w.drop_first();
        assert forall|j: int| 0 <= j < a - 1 implies is_white_space(#[trigger] rest[j]) by {
            assert(rest[j] == w[j + 1]);
        }
        lemma_trim_start(rest, a - 1);
        assert(rest.skip(a - 1) =~= w.skip(a));
    }
}

/// Trailing whitespace begins at `b`: trimming the end keeps exactly the
/// first `b` characters.
pub proof fn lemma_trim_end(w: Word, b: int)
    requires
        0 <= b <= w.len(),
        forall|j: int| b <= j < w.len() ==> is_white_space(#[trigger] w[j]),
        b > 0 ==> !is_white_space(w[b - 1]),
    ensures
        trim_end(w) == w.take(b),
    decreases w.len() - b,
{
    if b == w.len() {
        assert(w.take(b) =~= w);
    } else {
        assert(is_white_space(w[w.len() - 1]));
        let rest = w.drop_last();
        assert forall|j: int| b <= j < rest.len() implies is_white_space(#[trigger] rest[j]) by {
            assert(rest[j] == w[j]);
        }
        lemma_trim_end(rest, b);
        assert(rest.take(b) =~= w.take(b));
    }
}

/// A trimmed word is a stretch of the word it came from; where it is not
/// empty it neither begins nor ends with whitespace; and trimming leaves a
/// word alone that is already so.
pub proof fn lemma_trim(w: Word)
    ensures
        exists|a: int, b: int| 0 <= a <= b <= w.len() && trim(w) == #[trigger] w.subrange(a, b),
        trim(w).len() > 0 ==> is_trimmed(trim(w)),
        is_trimmed(w) ==> trim(w) == w,
{
    lemma_trim_start_shape(w);
    let s = trim_start(w);
    let a = w.len() - s.len();
    lemma_trim_end_shape(s);
    let e = trim_end(s);
    let b = a + e.len();
    assert(e =~= w.subrange(a, b));
    if e.len() > 0 {
        assert(e[0] == s[0]);
    }
}

/// Trimming the start keeps a tail of the word, which is empty or begins
/// with something other than whitespace.
pub proof fn lemma_trim_start_shape(w: Word)
    ensures
        trim_start(w).len() <= w.len(),
        trim_start(w) == w.skip(w.len() - trim_start(w).len()),
        trim_start(w).len() > 0 ==> !is_white_space(trim_start(w)[0]),
    decreases w.len(),
{
    if w.len() > 0 && is_white_space(w[0]) {
        let rest = w.drop_first();
        lemma_trim_start_shape(rest);
        let t = trim_start(rest);
        assert(rest.skip(rest.len() - t.len()) =~= w.skip(w.len() - t.len()));
    } else {
        assert(w.skip(0) =~= w);
    }
}

/// Trimming the end keeps a head of the word, which is empty or ends with
/// something other than whitespace.
pub proof fn lemma_trim_end_shape(w: Word)
    ensures
        trim_end(w).len() <= w.len(),
        trim_end(w) == w.take(trim_end(w).len() as int),
        trim_end(w).len() > 0 ==> !is_white_space(trim_end(w).last()),
    decreases w.len(),
{
    if w.len() > 0 && is_white_space(w.last()) {
        let rest = w.drop_last();
        lemma_trim_end_shape(rest);
        let t = trim_end(rest);
        assert(rest.take(t.len() as int) =~= w.take(t.len() as int));
    } else {
        assert(w.take(w.len() as int) =~= w);
    }
}

/// The characters of `s`, in order.
pub fn to_chars(s: &str) -> (v: Vec<char>)
    ensures
        v@ == s@,
{
    broadcast use group_string_axioms;

    let mut v: Vec<char> = Vec::new();
    let mut it = s.chars();
    loop
        invariant
            it.obeys_prophetic_iter_laws(),
            it.decrease() is Some,
            v@.len() <= s@.len(),
            v@ == s@.take(v@.len() as int),
            it.remaining() == s@.skip(v@.len() as int),
        ensures
            v@ == s@,
        decreases s@.len() - v@.len(),
    {
        match it.next() {
            Some(c) => {
                v.push(c);
            },
            None => {
                break;
            },
        }
    }
    v
}

/// The string made of the characters `v[from..to]`.
pub fn from_chars(v: &Vec<char>, from: usize, to: usize) -> (s: String)
    requires
        from <= to <= v@.len(),
    ensures
        s@ == v@.subrange(from as int, to as int),
{
    let mut s = String::new();
    let mut i: usize = from;
    while i < to
        invariant
            from <= i <= to <= v@.len(),
            s@ == v@.subrange(from as int, i as int),
        decreases to - i,
    {
        s.push(v[i]);
        i += 1;
    }
    s
}

/// The position at which `c` stands first in `v`, if it stands there.
pub fn find_char(v: &Vec<char>, c: char) -> (found: Option<usize>)
    ensures
        match found {
            Some(i) => is_first(v@, c, i as int) && first_of(v@, c) == i,
            None => !v@.contains(c),
        },
{
    let mut i: usize = 0;
    while i < v.len()
        invariant
            i <= v.len(),
            forall|j: int| 0 <= j < i ==> v@[j] != c,
        decreases v.len() - i,
    {
        if v[i] == c {
            proof {
                lemma_first_of(v@, c, i as int);
            }
            return Some(i);
        }
        i += 1;
    }
    None
}

/// Drops everything up to and including the first tab of `l`; a line
/// without a tab comes back as it is.
pub fn remove_through_first_tab(l: String) -> (r: String)
    ensures
        r@ == strip_through_first_tab(l@),
{
    let v = to_chars(l.as_str());
    let n = v.len();
    match find_char(&v, '\t') {
        Some(i) => {
            assert(i < n);
            from_chars(&v, i + 1, n)
        },
        None => l,
    }
}

/// Removes the numeric characters from `w`; the others keep their order.
pub fn remove_integers(w: String) -> (r: String)
    ensures
        r@ == strip_numeric(w@),
{
    let v = to_chars(w.as_str());
    let mut r = String::new();
    let mut i: usize = 0;
    while i < v.len()
        invariant
            i <= v.len(),
            v@ == w@,
            r@ == strip_numeric(v@.take(i as int)),
        decreases v.len() - i,
    {
        assert(v@.take(i + 1).drop_last() =~= v@.take(i as int));
        let c = v[i];
        if !c.is_numeric() {
            r.push(c);
        }
        i += 1;
    }
    assert(v@.take(v.len() as int) =~= v@);
    r
}

/// `w` without leading and trailing whitespace.
pub fn trim_word(w: &str) -> (r: String)
    ensures
        r@ == trim(w@),
{
    let v = to_chars(w);
    let n = v.len();
    let mut a: usize = 0;
    while a < n && v[a].is_whitespace()
        invariant
            a <= n == v.len(),
            forall|j: int| 0 <= j < a ==> is_white_space(#[trigger] v@[j]),
        decreases n - a,
    {
        a += 1;
    }
    let mut b: usize = n;
    while b > a && v[b - 1].is_whitespace()
        invariant
            a <= b <= n == v.len(),
            forall|j: int| b <= j < n ==> is_white_space(#[trigger] v@[j]),
        decreases b,
    {
        b -= 1;
    }
    proof {
        lemma_trim_start(v@, a as int);
        let s = v@.skip(a as int);
        assert forall|j: int| b - a <= j < s.len() implies is_white_space(#[trigger] s[j]) by {
            assert(s[j] == v@[j + a]);
        }
        if b > a {
            assert(s[b - a - 1] == v@[b - 1]);
        }
        lemma_trim_end(s, b - a);
        assert(s.take(b - a) =~= v@.subrange(a as int, b as int));
    }
    from_chars(&v, a, b)
}

/// `w` with every character folded to ASCII lower case.
pub fn lowercase_word(w: &str) -> (r: String)
    ensures
        r@ == lowercase(w@),
{
    let v = to_chars(w);
    let mut r = String::new();
    let mut i: usize = 0;
    while i < v.len()
        invariant
            i <= v.len(),
            v@ == w@,
            r@ == lowercase(v@.take(i as int)),
        decreases v.len() - i,
    {
        r.push(to_ascii_lower(v[i]));
        assert(r@ =~= lowercase(v@.take(i + 1)));
        i += 1;
    }
    assert(v@.take(v.len() as int) =~= v@);
    r
}

/// Whether `p` is a literal prefix of `w` other than `w` itself.
pub fn proper_prefix(p: &str, w: &str) -> (b: bool)
    ensures
        b == is_proper_prefix(p@, w@),
{
    broadcast use group_string_axioms;

    let mut ip = p.chars();
    let mut iw = w.chars();
    let ghost mut k: int = 0;
    loop
        invariant
            ip.obeys_prophetic_iter_laws(),
            iw.obeys_prophetic_iter_laws(),
            0 <= k <= p@.len(),
            k <= w@.len(),
            ip.remaining() == p@.skip(k),
            iw.remaining() == w@.skip(k),
            forall|j: int| 0 <= j < k ==> p@[j] == w@[j],
        decreases p@.len() - k,
    {
        match ip.next() {
            None => {
                let longer = iw.next().is_some();
                proof {
                    assert(w@.take(p@.len() as int) =~= p@);
                }
                return longer;
            },
            Some(c) => {
                match iw.next() {
                    None => {
                        return false;
                    },
                    Some(d) => {
                        if c != d {
                            proof {
                                if is_proper_prefix(p@, w@) {
                                    assert(w@.take(p@.len() as int)[k] == p@[k]);
                                }
                            }
                            return false;
                        }
                        proof {
                            k = k + 1;
                        }
                    },
                }
            },
        }
    }
}

} // verus!
