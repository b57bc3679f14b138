//! Reading a word list out of raw text: one candidate word on each line.

use vstd::prelude::*;
use crate::casing::{cased_word, is_upper, lower_of, to_lower, WordCase};
use crate::error::PassphraseError;
use crate::phrase::word_seq;
use crate::text::{chars_of, push_char};

verus! {

/// Whether a character is alphabetic in the sense of Unicode.
pub uninterp spec fn alphabetic(c: char) -> bool;

/// Tells whether a character is alphabetic.
///
/// Trusted: stands for `char::is_alphabetic`, whose answer depends on the
/// character alone and is given the name `alphabetic`.
#[verifier::external_body]
pub(crate) fn is_alphabetic(c: char) -> (r: bool)
    ensures
        r == alphabetic(c),
{
    c.is_alphabetic()
}

/// Where the line that starts at `from` ends: at the next line feed, or at
/// the end of the text.
pub open spec fn line_end(s: Seq<char>, from: int) -> int
    decreases s.len() - from,
{
    if from < 0 || from >= s.len() || s[from] == '\n' {
        from
    } else {
        line_end(s, from + 1)
    }
}

/// The place of the first alphabetic character in `from..to`, or `to` where
/// there is none.
pub open spec fn first_letter(s: Seq<char>, from: int, to: int) -> int
    decreases to - from,
{
    if from >= to || alphabetic(s[from]) {
        from
    } else {
        first_letter(s, from + 1, to)
    }
}

/// The place after the last alphabetic character in `from..to`, or `from`
/// where there is none.
pub open spec fn after_last_letter(s: Seq<char>, from: int, to: int) -> int
    decreases to - from,
{
    if from >= to || alphabetic(s[to - 1]) {
        to
    } else {
        after_last_letter(s, from, to - 1)
    }
}

/// The word on the line `from..to`: what is left of the line when the
/// characters before its first and after its last alphabetic character are
/// taken away, in lower case.
pub open spec fn word_on(s: Seq<char>, from: int, to: int) -> Seq<char> {
    let a = first_letter(s, from, to);
    let b = after_last_letter(s, a, to);
    cased_word(s.subrange(a, b), WordCase::Lowercase)
}

/// A word that the list takes: one of more than one character.
pub open spec fn is_kept(w: Seq<char>) -> bool {
    w.len() > 1
}

/// The words of the lines that start at `from` or later, in the order of
/// the lines, without the words that the list does not take.
pub open spec fn cleaned_from(s: Seq<char>, from: int) -> Seq<Seq<char>>
    decreases s.len() - from,
{
    if from < 0 || from >= s.len() {
        Seq::empty()
    } else {
        let end = line_end(s, from);
        let w = word_on(s, from, end);
        let here = if is_kept(w) {
            seq![w]
        } else {
            Seq::empty()
        };
        if from <= end < s.len() {
            here + cleaned_from(s, end + 1)
        } else {
            here
        }
    }
}

/// The word list that a text holds.
pub open spec fn cleaned(s: Seq<char>) -> Seq<Seq<char>> {
    cleaned_from(s, 0)
}

/// A line ends inside the text, not before it starts.
pub proof fn line_end_bounds(s: Seq<char>, from: int)
    requires
        0 <= from <= s.len(),
    ensures
        from <= line_end(s, from) <= s.len(),
        line_end(s, from) < s.len() ==> s[line_end(s, from)] == '\n',
        forall|k: int| from <= k < line_end(s, from) ==> s[k] != '\n',
    decreases s.len() - from,
{
    if from < s.len() && s[from] != '\n' {
        line_end_bounds(s, from + 1);
    }
}

/// The trimmed word lies inside its line, and where it is not empty it
/// begins and ends with an alphabetic character.
pub proof fn letter_bounds(s: Seq<char>, from: int, to: int)
    requires
        from <= to,
    ensures
        from <= first_letter(s, from, to) <= to,
        from <= after_last_letter(s, from, to) <= to,
        first_letter(s, from, to) < to ==> alphabetic(s[first_letter(s, from, to)]),
        from < after_last_letter(s, from, to) ==> alphabetic(s[after_last_letter(s, from, to) - 1]),
    decreases to - from,
{
    if from < to {
        if !alphabetic(s[from]) {
            letter_bounds(s, from + 1, to);
        }
        if !alphabetic(s[to - 1]) {
            letter_bounds(s, from, to - 1);
        }
    }
}

/// Every word of a cleaned list has more than one character, begins and
/// ends with an alphabetic character put in lower case, and holds neither an
/// upper-case ASCII letter nor a line feed.
pub proof fn cleaned_words_are_clean(s: Seq<char>, from: int, i: int)
    requires
        0 <= from <= s.len(),
        0 <= i < cleaned_from(s, from).len(),
    ensures
        cleaned_from(s, from)[i].len() > 1,
        exists|c: char| alphabetic(c) && cleaned_from(s, from)[i].first() == #[trigger] lower_of(c),
        exists|c: char| alphabetic(c) && cleaned_from(s, from)[i].last() == #[trigger] lower_of(c),
        forall|k: int|
            0 <= k < cleaned_from(s, from)[i].len() ==> !is_upper(
                #[trigger] cleaned_from(s, from)[i][k],
            ) && cleaned_from(s, from)[i][k] != '\n',
    decreases s.len() - from,
{
    if from < s.len() {
        line_end_bounds(s, from);
        let end = line_end(s, from);
        let w = word_on(s, from, end);
        let shift: int = if is_kept(w) {
            1
        } else {
            0
        };
        if i >= shift {
            assert(end < s.len());
            cleaned_words_are_clean(s, end + 1, i - shift);
            assert(cleaned_from(s, from)[i] == cleaned_from(s, end + 1)[i - shift]);
        } else {
            assert(cleaned_from(s, from)[0] == w);
            let a = first_letter(s, from, end);
            letter_bounds(s, from, end);
            let b = after_last_letter(s, a, end);
            letter_bounds(s, a, end);
            let inner = s.subrange(a, b);
            assert(w.first() == lower_of(s[a]));
            assert(w.last() == lower_of(s[b - 1]));
            assert forall|k: int| 0 <= k < w.len() implies !is_upper(#[trigger] w[k]) && w[k]
                != '\n' by {
                assert(inner[k] == s[a + k]);
                assert(w[k] == lower_of(inner[k]));
            }
        }
    }
}

/// The word list that a text holds: for each line, the line without what
/// stands before its first and after its last alphabetic character, in
/// lower case; words of one character or none are left out.
pub fn clean_words(raw: &str) -> (list: Vec<String>)
    ensures
        word_seq(&list) == cleaned(raw@),
{
    let chars = chars_of(raw);
    let n: usize = chars.len();
    let ghost s = chars@;
    let mut list: Vec<String> = Vec::new();
    let mut from: usize = 0;
    let mut done = false;
    proof {
        assert(word_seq(&list) + cleaned_from(s, 0) =~= cleaned(s));
    }
    while !done
        invariant
            s == chars@,
            n == s.len(),
            from <= n,
            !done ==> cleaned(s) == word_seq(&list) + cleaned_from(s, from as int),
            done ==> cleaned(s) == word_seq(&list),
        decreases n - from + (if done { 0int } else { 1int }),
    {
        if from >= n {
            proof {
                assert(word_seq(&list) + Seq::<Seq<char>>::empty() =~= word_seq(&list));
            }
            done = true;
        } else {
            let mut end: usize = from;
            while end < n && chars[end] != '\n'
                invariant
                    s == chars@,
                    n == s.len(),
                    from <= end <= n,
                    line_end(s, from as int) == line_end(s, end as int),
                decreases n - end,
            {
                end += 1;
            }
            let mut a: usize = from;
            while a < end && !is_alphabetic(chars[a])
                invariant
                    s == chars@,
                    from <= a <= end <= n,
                    n == s.len(),
                    first_letter(s, from as int, end as int) == first_letter(s, a as int, end as int),
                decreases end - a,
            {
                a += 1;
            }
            let mut b: usize = end;
            while b > a && !is_alphabetic(chars[b - 1])
                invariant
                    s == chars@,
                    a <= b <= end <= n,
                    n == s.len(),
                    after_last_letter(s, a as int, end as int) == after_last_letter(
                        s,
                        a as int,
                        b as int,
                    ),
                decreases b - a,
            {
                b -= 1;
            }
            let ghost w = word_on(s, from as int, end as int);
            proof {
                assert(line_end(s, from as int) == end);
                assert(first_letter(s, from as int, end as int) == a);
                assert(after_last_letter(s, a as int, end as int) == b);
                assert(w == cased_word(s.subrange(a as int, b as int), WordCase::Lowercase));
            }
            if b - a > 1 {
                let mut word = String::new();
                let mut k: usize = a;
                while k < b
                    invariant
                        s == chars@,
                        a <= k <= b <= n,
                        n == s.len(),
                        w == cased_word(s.subrange(a as int, b as int), WordCase::Lowercase),
                        word@ == w.take(k - a),
                    decreases b - k,
                {
                    push_char(&mut word, to_lower(chars[k]));
                    proof {
                        assert(word@ =~= w.take(k - a + 1));
                    }
                    k += 1;
                }
                let ghost before = word_seq(&list);
                list.push(word);
                proof {
                    assert(w.take(b - a) =~= w);
                    assert(word_seq(&list) =~= before + seq![w]);
                    if end < n {
                        assert(before + (seq![w] + cleaned_from(s, end + 1)) =~= word_seq(&list)
                            + cleaned_from(s, end + 1));
                    }
                }
            } else {
                proof {
                    assert(Seq::<Seq<char>>::empty() + cleaned_from(s, end + 1) =~= cleaned_from(
                        s,
                        end + 1,
                    ));
                    assert(word_seq(&list) + Seq::<Seq<char>>::empty() =~= word_seq(&list));
                }
            }
            if end == n {
                proof {
                    assert(cleaned(s) == word_seq(&list));
                }
                done = true;
            } else {
                proof {
                    assert(cleaned(s) == word_seq(&list) + cleaned_from(s, end + 1));
                }
                from = end + 1;
            }
        }
    }
    list
}

/// The sentence that tells that a text holds no word.
pub open spec fn no_words() -> Seq<char> {
    "the word list holds no word"@
}

/// The word list that a text holds, or a failure where it holds no word.
pub fn get_list(raw: &str) -> (r: Result<Vec<String>, PassphraseError>)
    ensures
        r is Ok <==> cleaned(raw@).len() > 0,
        r matches Ok(list) ==> word_seq(&list) == cleaned(raw@),
        r matches Err(e) ==> e matches PassphraseError::InitializationError(m) && m@ == no_words(),
{
    let list = clean_words(raw);
    if list.len() == 0 {
        Err(PassphraseError::InitializationError(String::from_str("the word list holds no word")))
    } else {
        Ok(list)
    }
}

} // verus!
