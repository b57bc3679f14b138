//! Building a passphrase: words drawn from a list, written in one case,
//! joined by a separator, with a run of salt characters after one of them.

use vstd::prelude::*;
use crate::casing::{apply_case, cased_word, WordCase};
use crate::error::PassphraseError;
use crate::random::{draw_below, thread_source};
use crate::text::{chars_of, push_char};

verus! {

/// What a passphrase is to look like.
#[derive(Clone, Debug)]
pub struct PassphraseConfig {
    /// Number of words.
    pub length: usize,
    /// Text between two words.
    pub separator: String,
    /// Number of salt characters.
    pub salt_length: usize,
    /// The characters that salt is drawn from; one that occurs twice is
    /// twice as likely.
    pub salt_chars: String,
    /// How the words are written.
    pub case: WordCase,
}

/// Every random decision behind one passphrase.
#[derive(Clone, Debug)]
pub struct Choices {
    /// The word that the salt follows, counted from 0.
    pub salt_position: usize,
    /// For each word of the phrase, its place in the word list.
    pub word_indices: Vec<usize>,
    /// For each salt character, its place in the salt characters.
    pub salt_indices: Vec<usize>,
}

/// The words of a list as sequences of characters.
pub open spec fn word_seq(list: &Vec<String>) -> Seq<Seq<char>> {
    Seq::new(list@.len(), |i: int| list@[i]@)
}

/// A request that some passphrase meets: there is a word to draw, no word is
/// empty, the phrase has a word, and salt, if asked for, has a character to
/// draw.
pub open spec fn valid_request(words: Seq<Seq<char>>, config: &PassphraseConfig) -> bool {
    &&& words.len() > 0
    &&& forall|i: int| 0 <= i < words.len() ==> (#[trigger] words[i]).len() > 0
    &&& config.length >= 1
    &&& config.salt_length > 0 ==> config.salt_chars@.len() > 0
}

/// The sentence that tells why a request is refused.
pub open spec fn refusal(words: Seq<Seq<char>>, config: &PassphraseConfig) -> Seq<char> {
    if words.len() == 0 {
        "the word list is empty"@
    } else if exists|i: int| 0 <= i < words.len() && (#[trigger] words[i]).len() == 0 {
        "the word list holds an empty word"@
    } else if config.length == 0 {
        "the phrase length is zero"@
    } else {
        "there are no salt characters to draw from"@
    }
}

/// The sentence that tells that choices do not belong to a request.
pub open spec fn misfit() -> Seq<char> {
    "the choices do not fit the request"@
}

/// Choices that belong to a request: a salt position inside the phrase, one
/// listed word for each word of the phrase, one salt character for each
/// character of salt.
pub open spec fn choices_fit(c: &Choices, word_count: nat, config: &PassphraseConfig) -> bool {
    &&& c.salt_position < config.length
    &&& c.word_indices@.len() == config.length
    &&& forall|i: int| 0 <= i < c.word_indices@.len() ==> (#[trigger] c.word_indices@[i]) < word_count
    &&& c.salt_indices@.len() == config.salt_length
    &&& forall|k: int|
        0 <= k < c.salt_indices@.len() ==> (#[trigger] c.salt_indices@[k]) < config.salt_chars@.len()
}

/// The salt that the picks select from `chars`.
pub open spec fn salt_of(chars: Seq<char>, picks: Seq<usize>) -> Seq<char> {
    Seq::new(picks.len(), |k: int| chars[picks[k] as int])
}

/// The `i`-th piece of the phrase: the chosen word in the chosen case, and
/// after it the salt where `i` is the salt position.
pub open spec fn part(words: Seq<Seq<char>>, config: &PassphraseConfig, c: &Choices, i: int) -> Seq<
    char,
> {
    let word = cased_word(words[c.word_indices@[i] as int], config.case);
    if i == c.salt_position {
        word + salt_of(config.salt_chars@, c.salt_indices@)
    } else {
        word
    }
}

/// The pieces of the phrase, one for each word.
pub open spec fn parts(words: Seq<Seq<char>>, config: &PassphraseConfig, c: &Choices) -> Seq<
    Seq<char>,
> {
    Seq::new(config.length as nat, |i: int| part(words, config, c, i))
}

/// The pieces in order, with the separator between each two neighbours.
pub open spec fn joined(pieces: Seq<Seq<char>>, separator: Seq<char>) -> Seq<char>
    decreases pieces.len(),
{
    if pieces.len() == 0 {
        Seq::empty()
    } else if pieces.len() == 1 {
        pieces[0]
    } else {
        joined(pieces.drop_last(), separator) + separator + pieces.last()
    }
}

/// The passphrase that the choices select.
pub open spec fn phrase_of(words: Seq<Seq<char>>, config: &PassphraseConfig, c: &Choices) -> Seq<
    char,
> {
    joined(parts(words, config, c), config.separator@)
}

/// Tells whether a request can be met, and why not where it cannot.
pub fn check_request(list: &Vec<String>, config: &PassphraseConfig) -> (r: Result<
    (),
    PassphraseError,
>)
    ensures
        r is Ok <==> valid_request(word_seq(list), config),
        r matches Err(e) ==> e matches PassphraseError::GenerationError(m) && m@ == refusal(
            word_seq(list),
            config,
        ),
{
    let ghost words = word_seq(list);
    if list.len() == 0 {
        return Err(PassphraseError::GenerationError(String::from_str("the word list is empty")));
    }
    let mut i: usize = 0;
    while i < list.len()
        invariant
            i <= list.len(),
            words == word_seq(list),
            forall|j: int| 0 <= j < i ==> (#[trigger] words[j]).len() > 0,
        decreases list.len() - i,
    {
        if list[i].as_str().is_empty() {
            proof {
                assert(words[i as int].len() == 0);
            }
            return Err(
                PassphraseError::GenerationError(
                    String::from_str("the word list holds an empty word"),
                ),
            );
        }
        i += 1;
    }
    if config.length == 0 {
        return Err(PassphraseError::GenerationError(String::from_str("the phrase length is zero")));
    }
    if config.salt_length > 0 && config.salt_chars.as_str().is_empty() {
        return Err(
            PassphraseError::GenerationError(
                String::from_str("there are no salt characters to draw from"),
            ),
        );
    }
    Ok(())
}

/// Tells whether choices belong to a request.
pub fn check_choices(choices: &Choices, word_count: usize, config: &PassphraseConfig) -> (fit: bool)
    ensures
        fit == choices_fit(choices, word_count as nat, config),
{
    let salt_count: usize = config.salt_chars.as_str().unicode_len();
    if choices.salt_position >= config.length || choices.word_indices.len() != config.length
        || choices.salt_indices.len() != config.salt_length {
        return false;
    }
    let mut i: usize = 0;
    while i < choices.word_indices.len()
        invariant
            i <= choices.word_indices@.len(),
            forall|j: int| 0 <= j < i ==> (#[trigger] choices.word_indices@[j]) < word_count,
        decreases choices.word_indices@.len() - i,
    {
        if choices.word_indices[i] >= word_count {
            return false;
        }
        i += 1;
    }
    let mut k: usize = 0;
    while k < choices.salt_indices.len()
        invariant
            k <= choices.salt_indices@.len(),
            salt_count == config.salt_chars@.len(),
            forall|j: int| 0 <= j < k ==> (#[trigger] choices.salt_indices@[j]) < salt_count,
        decreases choices.salt_indices@.len() - k,
    {
        if choices.salt_indices[k] >= salt_count {
            return false;
        }
        k += 1;
    }
    true
}

/// The passphrase that the given choices select from the list.
///
/// Nothing here is random: the same list, request and choices give the same
/// passphrase.
pub fn assemble(list: &Vec<String>, config: &PassphraseConfig, choices: &Choices) -> (r: Result<
    String,
    PassphraseError,
>)
    ensures
        r is Ok <==> valid_request(word_seq(list), config) && choices_fit(
            choices,
            list@.len(),
            config,
        ),
        r matches Ok(phrase) ==> phrase@ == phrase_of(word_seq(list), config, choices),
        r matches Err(e) ==> e matches PassphraseError::GenerationError(m) && m@ == (
        if valid_request(word_seq(list), config) {
            misfit()
        } else {
            refusal(word_seq(list), config)
        }),
{
    match check_request(list, config) {
        Err(e) => {
            return Err(e);
        },
        Ok(_) => {},
    }
    let salt_chars = chars_of(config.salt_chars.as_str());
    if !check_choices(choices, list.len(), config) {
        return Err(
            PassphraseError::GenerationError(String::from_str("the choices do not fit the request")),
        );
    }
    let ghost words = word_seq(list);
    let ghost pieces = parts(words, config, choices);
    let mut phrase = String::new();
    let mut i: usize = 0;
    while i < config.length
        invariant
            i <= config.length,
            words == word_seq(list),
            pieces == parts(words, config, choices),
            choices_fit(choices, list@.len(), config),
            salt_chars@ == config.salt_chars@,
            phrase@ == joined(pieces.take(i as int), config.separator@),
        decreases config.length - i,
    {
        let ghost before = phrase@;
        if i > 0 {
            phrase.append(config.separator.as_str());
        }
        let word = apply_case(list[choices.word_indices[i]].as_str(), config.case);
        phrase.append(word.as_str());
        if i == choices.salt_position {
            let ghost unsalted = phrase@;
            let ghost salt = salt_of(config.salt_chars@, choices.salt_indices@);
            let mut k: usize = 0;
            while k < choices.salt_indices.len()
                invariant
                    k <= choices.salt_indices@.len(),
                    choices_fit(choices, list@.len(), config),
                    salt_chars@ == config.salt_chars@,
                    salt == salt_of(config.salt_chars@, choices.salt_indices@),
                    phrase@ == unsalted + salt.take(k as int),
                decreases choices.salt_indices@.len() - k,
            {
                push_char(&mut phrase, salt_chars[choices.salt_indices[k]]);
                proof {
                    assert(salt.take(k + 1) =~= salt.take(k as int).push(salt[k as int]));
                    assert(phrase@ =~= unsalted + salt.take(k + 1));
                }
                k += 1;
            }
            proof {
                assert(salt.take(k as int) =~= salt);
            }
        }
        proof {
            let grown = pieces.take(i + 1);
            assert(grown.drop_last() =~= pieces.take(i as int));
            assert(grown.last() == part(words, config, choices, i as int));
            assert(words[choices.word_indices@[i as int] as int] == list@[choices.word_indices@[i as int] as int]@);
            if i == 0 {
                assert(before =~= Seq::<char>::empty());
                assert(phrase@ =~= grown[0]);
            } else {
                assert(phrase@ =~= before + config.separator@ + grown.last());
            }
        }
        i += 1;
    }
    proof {
        assert(pieces.take(i as int) =~= pieces);
    }
    Ok(phrase)
}

/// Draws every choice that one passphrase needs: first the salt position,
/// then word by word the word, and after the word at the salt position the
/// salt.
fn draw_choices(
    source: &mut rand::rngs::ThreadRng,
    word_count: usize,
    salt_count: usize,
    config: &PassphraseConfig,
) -> (choices: Choices)
    requires
        word_count > 0,
        config.length >= 1,
        config.salt_length > 0 ==> salt_count > 0,
        salt_count == config.salt_chars@.len(),
    ensures
        choices_fit(&choices, word_count as nat, config),
{
    let salt_position: usize = draw_below(source, config.length);
    let mut word_indices: Vec<usize> = Vec::new();
    let mut salt_indices: Vec<usize> = Vec::new();
    let mut i: usize = 0;
    while i < config.length
        invariant
            i <= config.length,
            word_count > 0,
            salt_position < config.length,
            config.salt_length > 0 ==> salt_count > 0,
            word_indices@.len() == i,
            forall|j: int| 0 <= j < i ==> (#[trigger] word_indices@[j]) < word_count,
            salt_indices@.len() == (if i > salt_position {
                config.salt_length
            } else {
                0
            }),
            forall|j: int| 0 <= j < salt_indices@.len() ==> (#[trigger] salt_indices@[j]) < salt_count,
        decreases config.length - i,
    {
        let w: usize = draw_below(source, word_count);
        word_indices.push(w);
        if i == salt_position {
            let mut k: usize = 0;
            while k < config.salt_length
                invariant
                    k <= config.salt_length,
                    config.salt_length > 0 ==> salt_count > 0,
                    salt_indices@.len() == k,
                    forall|j: int|
                        0 <= j < salt_indices@.len() ==> (#[trigger] salt_indices@[j]) < salt_count,
                decreases config.salt_length - k,
            {
                let s: usize = draw_below(source, salt_count);
                salt_indices.push(s);
                k += 1;
            }
        }
        i += 1;
    }
    Choices { salt_position, word_indices, salt_indices }
}

/// A fresh random passphrase.
///
/// A request that no passphrase meets is refused. Otherwise the result is the
/// passphrase that some fitting choices select; which choices is decided by
/// the calling thread's random source and differs from call to call.
pub fn build_passphrase(list: &Vec<String>, config: &PassphraseConfig) -> (r: Result<
    String,
    PassphraseError,
>)
    ensures
        r is Ok <==> valid_request(word_seq(list), config),
        r matches Ok(phrase) ==> exists|c: Choices| #[trigger]
            choices_fit(&c, list@.len(), config) && phrase@ == phrase_of(word_seq(list), config, &c),
        r matches Err(e) ==> e matches PassphraseError::GenerationError(m) && m@ == refusal(
            word_seq(list),
            config,
        ),
{
    match check_request(list, config) {
        Err(e) => {
            return Err(e);
        },
        Ok(_) => {},
    }
    let salt_count: usize = config.salt_chars.as_str().unicode_len();
    let mut source = thread_source();
    let choices = draw_choices(&mut source, list.len(), salt_count, config);
    let r = assemble(list, config, &choices);
    proof {
        if r is Ok {
            assert(choices_fit(&choices, list@.len(), config) && r->Ok_0@ == phrase_of(
                word_seq(list),
                config,
                &choices,
            ));
        }
    }
    r
}

} // verus!
