//! ASCII letter case, on single characters and on whole words.

use vstd::prelude::*;
use crate::text::push_char;

verus! {

/// How the letters of each word are written.
#[derive(Clone, Copy, Debug, PartialEq, Eq, Structural)]
pub enum WordCase {
    /// Every ASCII letter in lower case.
    Lowercase,
    /// The first character in upper case, the others as they are.
    Capitalized,
    /// Every ASCII letter in upper case.
    Uppercase,
    /// The word as it stands in the list.
    Unchanged,
}

/// One of the letters `A` to `Z`.
pub open spec fn is_upper(c: char) -> bool {
    0x41 <= c as u32 <= 0x5a
}

/// One of the letters `a` to `z`.
pub open spec fn is_lower(c: char) -> bool {
    0x61 <= c as u32 <= 0x7a
}

/// `c` with `a`..`z` replaced by `A`..`Z`; every other character is kept.
pub open spec fn upper_of(c: char) -> char {
    if is_lower(c) {
        ((c as u32 - 0x20) as u8) as char
    } else {
        c
    }
}

/// `c` with `A`..`Z` replaced by `a`..`z`; every other character is kept.
pub open spec fn lower_of(c: char) -> char {
    if is_upper(c) {
        ((c as u32 + 0x20) as u8) as char
    } else {
        c
    }
}

/// The character that stands at position `i` of a word written in `case`,
/// where the word as listed has `c` there.
pub open spec fn cased_char(c: char, case: WordCase, i: int) -> char {
    match case {
        WordCase::Lowercase => lower_of(c),
        WordCase::Capitalized => if i == 0 {
            upper_of(c)
        } else {
            c
        },
        WordCase::Uppercase => upper_of(c),
        WordCase::Unchanged => c,
    }
}

/// The word `w` written in `case`.
pub open spec fn cased_word(w: Seq<char>, case: WordCase) -> Seq<char> {
    Seq::new(w.len(), |i: int| cased_char(w[i], case, i))
}

/// Upper-case form of one character.
pub fn to_upper(c: char) -> (out: char)
    ensures
        out == upper_of(c),
{
    let n: u32 = c as u32;
    if 0x61 <= n && n <= 0x7a {
        let b: u8 = (n - 0x20) as u8;
        b as char
    } else {
        c
    }
}

/// Lower-case form of one character.
pub fn to_lower(c: char) -> (out: char)
    ensures
        out == lower_of(c),
{
    let n: u32 = c as u32;
    if 0x41 <= n && n <= 0x5a {
        let b: u8 = (n + 0x20) as u8;
        b as char
    } else {
        c
    }
}

impl WordCase {
    /// The case that a number selects: 0, 1 and 2 select lower case,
    /// capitalized and upper case; no other number selects any.
    pub fn from_code(code: usize) -> (out: Option<WordCase>)
        ensures
            out == (if code == 0 {
                Some(WordCase::Lowercase)
            } else if code == 1 {
                Some(WordCase::Capitalized)
            } else if code == 2 {
                Some(WordCase::Uppercase)
            } else {
                None::<WordCase>
            }),
    {
        if code == 0 {
            Some(WordCase::Lowercase)
        } else if code == 1 {
            Some(WordCase::Capitalized)
        } else if code == 2 {
            Some(WordCase::Uppercase)
        } else {
            None
        }
    }
}

/// Writes `word` in `case`.
pub fn apply_case(word: &str, case: WordCase) -> (out: String)
    ensures
        out@ == cased_word(word@, case),
{
    let mut out = String::new();
    for c in it: word.chars()
        invariant
            it.seq() == word@,
            out@ == cased_word(word@, case).take(it.index() as int),
    {
        let ghost i = it.index() as int;
        let first = out.as_str().is_empty();
        let d = match case {
            WordCase::Lowercase => to_lower(c),
            WordCase::Capitalized => if first {
                to_upper(c)
            } else {
                c
            },
            WordCase::Uppercase => to_upper(c),
            WordCase::Unchanged => c,
        };
        push_char(&mut out, d);
        proof {
            assert(first <==> i == 0);
            assert(out@ =~= cased_word(word@, case).take(i + 1));
        }
    }
    proof {
        assert(out@ =~= cased_word(word@, case));
    }
    out
}

/// In upper case no word holds a lower-case letter, in lower case none holds
/// an upper-case letter, and both keep every character that is not an ASCII
/// letter.
pub proof fn uniform_case_is_uniform(w: Seq<char>, i: int)
    requires
        0 <= i < w.len(),
    ensures
        cased_word(w, WordCase::Uppercase).len() == w.len(),
        cased_word(w, WordCase::Lowercase).len() == w.len(),
        !is_lower(cased_word(w, WordCase::Uppercase)[i]),
        !is_upper(cased_word(w, WordCase::Lowercase)[i]),
        is_lower(w[i]) || is_upper(w[i]) ==> is_upper(cased_word(w, WordCase::Uppercase)[i])
            && is_lower(cased_word(w, WordCase::Lowercase)[i]),
        !is_lower(w[i]) && !is_upper(w[i]) ==> cased_word(w, WordCase::Uppercase)[i] == w[i]
            && cased_word(w, WordCase::Lowercase)[i] == w[i],
{
}

/// A capitalized word of lower-case letters has its first letter in upper
/// case and every other letter in lower case.
pub proof fn capitalized_has_one_capital(w: Seq<char>, i: int)
    requires
        0 <= i < w.len(),
        forall|k: int| 0 <= k < w.len() ==> is_lower(#[trigger] w[k]),
    ensures
        cased_word(w, WordCase::Capitalized).len() == w.len(),
        i == 0 ==> is_upper(cased_word(w, WordCase::Capitalized)[i]),
        i > 0 ==> is_lower(cased_word(w, WordCase::Capitalized)[i]),
{
}

/// A word left unchanged is the word as listed.
pub proof fn unchanged_is_identity(w: Seq<char>)
    ensures
        cased_word(w, WordCase::Unchanged) == w,
{
    assert(cased_word(w, WordCase::Unchanged) =~= w);
}

} // verus!
