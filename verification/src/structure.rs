//! What holds of every passphrase, whatever was drawn.

use vstd::prelude::*;
use crate::casing::cased_word;
use crate::phrase::{
    choices_fit, joined, part, parts, phrase_of, salt_of, valid_request, Choices, PassphraseConfig,
};

verus! {

/// How often `d` occurs in `s`.
pub open spec fn occurrences(s: Seq<char>, d: char) -> nat
    decreases s.len(),
{
    if s.len() == 0 {
        0
    } else {
        occurrences(s.drop_last(), d) + if s.last() == d {
            1nat
        } else {
            0nat
        }
    }
}

/// The characters of all pieces together.
pub open spec fn total_len(pieces: Seq<Seq<char>>) -> nat
    decreases pieces.len(),
{
    if pieces.len() == 0 {
        0
    } else {
        total_len(pieces.drop_last()) + pieces.last().len()
    }
}

/// Occurrences in a concatenation are those of its two halves.
pub proof fn occurrences_add(a: Seq<char>, b: Seq<char>, d: char)
    ensures
        occurrences(a + b, d) == occurrences(a, d) + occurrences(b, d),
    decreases b.len(),
{
    if b.len() == 0 {
        assert(a + b =~= a);
    } else {
        assert((a + b).drop_last() =~= a + b.drop_last());
        assert((a + b).last() == b.last());
        occurrences_add(a, b.drop_last(), d);
    }
}

/// A character that a sequence does not hold occurs in it zero times.
pub proof fn occurrences_of_absent(s: Seq<char>, d: char)
    requires
        forall|i: int| 0 <= i < s.len() ==> s[i] != d,
    ensures
        occurrences(s, d) == 0,
    decreases s.len(),
{
    if s.len() > 0 {
        occurrences_of_absent(s.drop_last(), d);
    }
}

/// Pieces that do not hold `d`, joined, hold it as often as the separators
/// between them do.
pub proof fn occurrences_in_joined(pieces: Seq<Seq<char>>, separator: Seq<char>, d: char)
    requires
        pieces.len() >= 1,
        forall|i: int| 0 <= i < pieces.len() ==> occurrences(#[trigger] pieces[i], d) == 0,
    ensures
        occurrences(joined(pieces, separator), d) == (pieces.len() - 1) * occurrences(separator, d),
    decreases pieces.len(),
{
    if pieces.len() > 1 {
        let front = pieces.drop_last();
        assert forall|i: int| 0 <= i < front.len() implies occurrences(#[trigger] front[i], d)
            == 0 by {
            assert(front[i] == pieces[i]);
        }
        occurrences_in_joined(front, separator, d);
        assert(occurrences(pieces[pieces.len() - 1], d) == 0);
        occurrences_add(joined(front, separator) + separator, pieces.last(), d);
        occurrences_add(joined(front, separator), separator, d);
        assert((pieces.len() - 1) * occurrences(separator, d) == (front.len() - 1) * occurrences(
            separator,
            d,
        ) + occurrences(separator, d)) by (nonlinear_arith)
            requires
                front.len() == pieces.len() - 1,
        ;
    } else {
        assert(occurrences(pieces[0], d) == 0);
    }
}

/// Joined pieces are as long as the pieces and the separators between them.
pub proof fn len_of_joined(pieces: Seq<Seq<char>>, separator: Seq<char>)
    requires
        pieces.len() >= 1,
    ensures
        joined(pieces, separator).len() == total_len(pieces) + (pieces.len() - 1) * separator.len(),
    decreases pieces.len(),
{
    if pieces.len() > 1 {
        let front = pieces.drop_last();
        len_of_joined(front, separator);
        assert((pieces.len() - 1) * separator.len() == (front.len() - 1) * separator.len()
            + separator.len()) by (nonlinear_arith)
            requires
                front.len() == pieces.len() - 1,
        ;
    } else {
        assert(pieces.drop_last().len() == 0);
        assert(total_len(pieces.drop_last()) == 0);
    }
}

/// A passphrase has one piece for each word asked for. Each piece is a
/// listed word in the case asked for; the piece at the salt position, and no
/// other, is followed by the salt, which has the length asked for and holds
/// salt characters only. The whole is as long as its pieces and the
/// separators between them.
pub proof fn phrase_shape(words: Seq<Seq<char>>, config: &PassphraseConfig, c: &Choices)
    requires
        valid_request(words, config),
        choices_fit(c, words.len(), config),
    ensures
        phrase_of(words, config, c) == joined(parts(words, config, c), config.separator@),
        parts(words, config, c).len() == config.length,
        salt_of(config.salt_chars@, c.salt_indices@).len() == config.salt_length,
        forall|k: int|
            0 <= k < config.salt_length ==> config.salt_chars@.contains(
                #[trigger] salt_of(config.salt_chars@, c.salt_indices@)[k],
            ),
        forall|i: int|
            0 <= i < config.length ==> 0 <= c.word_indices@[i] < words.len() && #[trigger] parts(
                words,
                config,
                c,
            )[i] == cased_word(words[c.word_indices@[i] as int], config.case) + (if i
                == c.salt_position {
                salt_of(config.salt_chars@, c.salt_indices@)
            } else {
                Seq::<char>::empty()
            }),
        phrase_of(words, config, c).len() == total_len(parts(words, config, c)) + (config.length
            - 1) * config.separator@.len(),
{
    let pieces = parts(words, config, c);
    let salt = salt_of(config.salt_chars@, c.salt_indices@);
    assert forall|k: int| 0 <= k < config.salt_length implies config.salt_chars@.contains(
        #[trigger] salt[k],
    ) by {
        assert(c.salt_indices@[k] < config.salt_chars@.len());
        assert(config.salt_chars@[c.salt_indices@[k] as int] == salt[k]);
    }
    assert forall|i: int| 0 <= i < config.length implies 0 <= c.word_indices@[i] < words.len()
        && #[trigger] pieces[i] == cased_word(words[c.word_indices@[i] as int], config.case) + (
    if i == c.salt_position {
        salt
    } else {
        Seq::<char>::empty()
    }) by {
        assert(pieces[i] == part(words, config, c, i));
        if i != c.salt_position {
            assert(pieces[i] + Seq::<char>::empty() =~= pieces[i]);
        }
    }
    len_of_joined(pieces, config.separator@);
}

/// Two passphrases made for one request have the same number of pieces and
/// the same length of salt, whatever was drawn for each.
pub proof fn shape_is_the_same_for_all_choices(
    words: Seq<Seq<char>>,
    config: &PassphraseConfig,
    c1: &Choices,
    c2: &Choices,
)
    requires
        valid_request(words, config),
        choices_fit(c1, words.len(), config),
        choices_fit(c2, words.len(), config),
    ensures
        parts(words, config, c1).len() == parts(words, config, c2).len() == config.length,
        salt_of(config.salt_chars@, c1.salt_indices@).len() == salt_of(
            config.salt_chars@,
            c2.salt_indices@,
        ).len() == config.salt_length,
{
}

/// A character that occurs in no listed word as written in the case asked
/// for, and not among the salt characters, occurs in a passphrase only in its
/// separators: as often as in one separator, times the number of words less
/// one. Splitting at a separator of that one character gives as many
/// segments as words were asked for.
pub proof fn separators_are_counted(
    words: Seq<Seq<char>>,
    config: &PassphraseConfig,
    c: &Choices,
    d: char,
)
    requires
        valid_request(words, config),
        choices_fit(c, words.len(), config),
        forall|i: int| 0 <= i < words.len() ==> !cased_word(#[trigger] words[i], config.case).contains(d),
        !config.salt_chars@.contains(d),
    ensures
        occurrences(phrase_of(words, config, c), d) == (config.length - 1) * occurrences(
            config.separator@,
            d,
        ),
{
    let pieces = parts(words, config, c);
    let salt = salt_of(config.salt_chars@, c.salt_indices@);
    assert forall|k: int| 0 <= k < salt.len() implies salt[k] != d by {
        assert(c.salt_indices@[k] < config.salt_chars@.len());
        assert(config.salt_chars@.contains(config.salt_chars@[c.salt_indices@[k] as int]));
    }
    occurrences_of_absent(salt, d);
    assert forall|i: int| 0 <= i < pieces.len() implies occurrences(#[trigger] pieces[i], d)
        == 0 by {
        let listed = words[c.word_indices@[i] as int];
        let word = cased_word(listed, config.case);
        assert(c.word_indices@[i] < words.len());
        assert(!word.contains(d));
        assert forall|k: int| 0 <= k < word.len() implies word[k] != d by {
            assert(word.contains(word[k]));
        }
        occurrences_of_absent(word, d);
        assert(pieces[i] == part(words, config, c, i));
        if i == c.salt_position {
            occurrences_add(word, salt, d);
        }
    }
    occurrences_in_joined(pieces, config.separator@, d);
}

/// The segments of `s` between the occurrences of `d`: one more than `d`
/// occurs.
pub open spec fn split_at(s: Seq<char>, d: char) -> Seq<Seq<char>>
    decreases s.len(),
{
    if s.len() == 0 {
        seq![Seq::<char>::empty()]
    } else {
        let before = split_at(s.drop_last(), d);
        if s.last() == d {
            before.push(Seq::<char>::empty())
        } else {
            before.drop_last().push(before.last().push(s.last()))
        }
    }
}

/// Splitting gives at least one segment.
pub proof fn split_at_is_not_empty(s: Seq<char>, d: char)
    ensures
        split_at(s, d).len() >= 1,
    decreases s.len(),
{
    if s.len() > 0 {
        split_at_is_not_empty(s.drop_last(), d);
    }
}

/// Text without `d`, put behind `a`, lengthens the last segment of `a`.
pub proof fn split_at_grows_last(a: Seq<char>, b: Seq<char>, d: char)
    requires
        forall|i: int| 0 <= i < b.len() ==> b[i] != d,
    ensures
        split_at(a + b, d) == split_at(a, d).drop_last().push(split_at(a, d).last() + b),
    decreases b.len(),
{
    split_at_is_not_empty(a, d);
    let segments = split_at(a, d);
    if b.len() == 0 {
        assert(a + b =~= a);
        assert(segments.last() + b =~= segments.last());
        assert(segments.drop_last().push(segments.last()) =~= segments);
    } else {
        let front = b.drop_last();
        split_at_grows_last(a, front, d);
        assert((a + b).drop_last() =~= a + front);
        assert((a + b).last() == b.last());
        let grown = segments.drop_last().push(segments.last() + front);
        assert(grown.drop_last() =~= segments.drop_last());
        assert((segments.last() + front).push(b.last()) =~= segments.last() + b);
    }
}

/// Pieces that do not hold `d`, joined by `d` alone and split at `d` again,
/// are the pieces.
pub proof fn split_at_undoes_joined(pieces: Seq<Seq<char>>, d: char)
    requires
        pieces.len() >= 1,
        forall|i: int, k: int|
            0 <= i < pieces.len() && 0 <= k < pieces[i].len() ==> (#[trigger] pieces[i][k]) != d,
    ensures
        split_at(joined(pieces, seq![d]), d) == pieces,
    decreases pieces.len(),
{
    let none = Seq::<char>::empty();
    let last = pieces.last();
    assert forall|k: int| 0 <= k < last.len() implies last[k] != d by {
        assert(pieces[pieces.len() - 1][k] != d);
    }
    if pieces.len() == 1 {
        split_at_grows_last(none, last, d);
        assert(none + last =~= last);
        assert(split_at(none, d) =~= seq![none]);
        assert(seq![none].drop_last().push(none + last) =~= pieces);
    } else {
        let front = pieces.drop_last();
        assert forall|i: int, k: int| 0 <= i < front.len() && 0 <= k < front[i].len() implies (
        #[trigger] front[i][k]) != d by {
            assert(pieces[i][k] != d);
        }
        split_at_undoes_joined(front, d);
        let head = joined(front, seq![d]) + seq![d];
        assert(head.drop_last() =~= joined(front, seq![d]));
        assert(head.last() == d);
        assert(split_at(head, d) == front.push(none));
        split_at_grows_last(head, last, d);
        assert(front.push(none).drop_last().push(front.push(none).last() + last) =~= pieces);
    }
}

/// Where the separator is one character that occurs in no listed word as
/// written in the case asked for, and not among the salt characters, a
/// passphrase split at that character gives its pieces: as many segments as
/// words were asked for, each a word, one of them followed by the salt.
pub proof fn split_gives_the_pieces(
    words: Seq<Seq<char>>,
    config: &PassphraseConfig,
    c: &Choices,
    d: char,
)
    requires
        valid_request(words, config),
        choices_fit(c, words.len(), config),
        config.separator@ == seq![d],
        forall|i: int| 0 <= i < words.len() ==> !cased_word(#[trigger] words[i], config.case).contains(d),
        !config.salt_chars@.contains(d),
    ensures
        split_at(phrase_of(words, config, c), d) == parts(words, config, c),
        split_at(phrase_of(words, config, c), d).len() == config.length,
{
    let pieces = parts(words, config, c);
    let salt = salt_of(config.salt_chars@, c.salt_indices@);
    assert forall|i: int, k: int| 0 <= i < pieces.len() && 0 <= k < pieces[i].len() implies (
    #[trigger] pieces[i][k]) != d by {
        let word = cased_word(words[c.word_indices@[i] as int], config.case);
        assert(c.word_indices@[i] < words.len());
        assert(!word.contains(d));
        assert(pieces[i] == part(words, config, c, i));
        if k < word.len() {
            assert(word.contains(word[k]));
        } else {
            let j = k - word.len();
            assert(pieces[i][k] == salt[j]);
            assert(c.salt_indices@[j] < config.salt_chars@.len());
            assert(config.salt_chars@.contains(config.salt_chars@[c.salt_indices@[j] as int]));
        }
    }
    split_at_undoes_joined(pieces, d);
}

/// A passphrase of one word is that word followed by the salt: nothing
/// stands before the word, and the salt has no other place to go.
pub proof fn single_word_phrase(words: Seq<Seq<char>>, config: &PassphraseConfig, c: &Choices)
    requires
        valid_request(words, config),
        choices_fit(c, words.len(), config),
        config.length == 1,
    ensures
        c.salt_position == 0,
        phrase_of(words, config, c) == cased_word(words[c.word_indices@[0] as int], config.case)
            + salt_of(config.salt_chars@, c.salt_indices@),
{
    let pieces = parts(words, config, c);
    assert(pieces[0] == part(words, config, c, 0));
}

} // verus!
