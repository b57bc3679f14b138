use passgen::casing::WordCase;
use passgen::error::PassphraseError;
use passgen::phrase::{assemble, build_passphrase, check_choices, check_request, Choices, PassphraseConfig};

fn words(items: &[&str]) -> Vec<String> {
    items.iter().map(|w| w.to_string()).collect()
}

fn config(length: usize, separator: &str, salt_length: usize, salt_chars: &str, case: WordCase) -> PassphraseConfig {
    PassphraseConfig {
        length,
        separator: separator.to_string(),
        salt_length,
        salt_chars: salt_chars.to_string(),
        case,
    }
}

fn generation_detail(r: Result<String, PassphraseError>) -> String {
    match r {
        Err(PassphraseError::GenerationError(m)) => m,
        other => panic!("expected a generation error, got {:?}", other),
    }
}

#[test]
fn assemble_places_words_separators_and_salt() {
    let list = words(&["alpha", "bravo", "charlie"]);
    let cfg = config(3, "-", 2, "0123456789", WordCase::Capitalized);
    let choices = Choices { salt_position: 1, word_indices: vec![2, 0, 1], salt_indices: vec![4, 2] };
    assert_eq!(assemble(&list, &cfg, &choices).unwrap(), "Charlie-Alpha42-Bravo");
}

#[test]
fn assemble_salt_after_first_and_last_word() {
    let list = words(&["alpha", "bravo"]);
    let cfg = config(2, " ", 1, "xyz", WordCase::Uppercase);
    let first = Choices { salt_position: 0, word_indices: vec![0, 1], salt_indices: vec![2] };
    assert_eq!(assemble(&list, &cfg, &first).unwrap(), "ALPHAz BRAVO");
    let last = Choices { salt_position: 1, word_indices: vec![1, 1], salt_indices: vec![0] };
    assert_eq!(assemble(&list, &cfg, &last).unwrap(), "BRAVO BRAVOx");
}

#[test]
fn assemble_single_word_has_no_separator_and_salt_at_position_zero() {
    let list = words(&["alpha", "bravo"]);
    let cfg = config(1, "--", 3, "01", WordCase::Lowercase);
    let choices = Choices { salt_position: 0, word_indices: vec![1], salt_indices: vec![1, 0, 1] };
    assert_eq!(assemble(&list, &cfg, &choices).unwrap(), "bravo101");
    let elsewhere = Choices { salt_position: 1, word_indices: vec![1], salt_indices: vec![1, 0, 1] };
    assert_eq!(generation_detail(assemble(&list, &cfg, &elsewhere)), "the choices do not fit the request");
}

#[test]
fn assemble_without_salt_and_with_empty_separator() {
    let list = words(&["ab", "cd"]);
    let cfg = config(3, "", 0, "", WordCase::Unchanged);
    let choices = Choices { salt_position: 2, word_indices: vec![0, 1, 0], salt_indices: vec![] };
    assert_eq!(assemble(&list, &cfg, &choices).unwrap(), "abcdab");
}

#[test]
fn assemble_leaves_salt_characters_in_their_case() {
    let list = words(&["ab", "cd"]);
    let cfg = config(2, "_", 2, "qQ", WordCase::Uppercase);
    let choices = Choices { salt_position: 0, word_indices: vec![0, 1], salt_indices: vec![0, 1] };
    assert_eq!(assemble(&list, &cfg, &choices).unwrap(), "ABqQ_CD");
}

#[test]
fn assemble_counts_salt_characters_not_bytes() {
    let list = words(&["ab"]);
    let cfg = config(1, " ", 2, "é€", WordCase::Unchanged);
    let choices = Choices { salt_position: 0, word_indices: vec![0], salt_indices: vec![1, 0] };
    assert_eq!(assemble(&list, &cfg, &choices).unwrap(), "ab€é");
    let beyond = Choices { salt_position: 0, word_indices: vec![0], salt_indices: vec![2, 0] };
    assert!(assemble(&list, &cfg, &beyond).is_err());
}

#[test]
fn assemble_refuses_choices_that_do_not_fit() {
    let list = words(&["alpha", "bravo"]);
    let cfg = config(2, " ", 1, "01", WordCase::Lowercase);
    let cases = vec![
        Choices { salt_position: 2, word_indices: vec![0, 1], salt_indices: vec![0] },
        Choices { salt_position: 0, word_indices: vec![0], salt_indices: vec![0] },
        Choices { salt_position: 0, word_indices: vec![0, 2], salt_indices: vec![0] },
        Choices { salt_position: 0, word_indices: vec![0, 1], salt_indices: vec![] },
        Choices { salt_position: 0, word_indices: vec![0, 1], salt_indices: vec![2] },
    ];
    for choices in cases.iter() {
        assert!(!check_choices(choices, list.len(), &cfg));
        assert_eq!(generation_detail(assemble(&list, &cfg, choices)), "the choices do not fit the request");
    }
    let good = Choices { salt_position: 1, word_indices: vec![1, 0], salt_indices: vec![1] };
    assert!(check_choices(&good, list.len(), &cfg));
}

#[test]
fn empty_word_list_is_refused() {
    let list: Vec<String> = Vec::new();
    let cfg = config(3, " ", 1, "0123456789", WordCase::Capitalized);
    assert_eq!(generation_detail(build_passphrase(&list, &cfg)), "the word list is empty");
    assert!(check_request(&list, &cfg).is_err());
}

#[test]
fn empty_word_is_refused() {
    let list = words(&["alpha", "", "bravo"]);
    let cfg = config(3, " ", 1, "0123456789", WordCase::Capitalized);
    assert_eq!(generation_detail(build_passphrase(&list, &cfg)), "the word list holds an empty word");
}

#[test]
fn zero_phrase_length_is_refused() {
    let list = words(&["alpha", "bravo"]);
    let cfg = config(0, " ", 1, "0123456789", WordCase::Capitalized);
    assert_eq!(generation_detail(build_passphrase(&list, &cfg)), "the phrase length is zero");
}

#[test]
fn salt_without_salt_characters_is_refused() {
    let list = words(&["alpha", "bravo"]);
    let cfg = config(2, " ", 1, "", WordCase::Capitalized);
    assert_eq!(
        generation_detail(build_passphrase(&list, &cfg)),
        "there are no salt characters to draw from"
    );
    let no_salt = config(2, " ", 0, "", WordCase::Capitalized);
    assert!(build_passphrase(&list, &no_salt).is_ok());
    assert!(check_request(&list, &no_salt).is_ok());
}

#[test]
fn refused_request_reads_as_generation_error() {
    let list: Vec<String> = Vec::new();
    let cfg = config(3, " ", 1, "0123456789", WordCase::Capitalized);
    let e = build_passphrase(&list, &cfg).unwrap_err();
    assert_eq!(e.message(), "Generation error: the word list is empty");
}

fn split_salt(segment: &str, salt_chars: &str) -> (String, String) {
    let word: String = segment.chars().filter(|c| !salt_chars.contains(*c)).collect();
    let salt: String = segment.chars().filter(|c| salt_chars.contains(*c)).collect();
    (word, salt)
}

#[test]
fn built_phrase_has_one_segment_per_word() {
    let list = words(&["alpha", "bravo", "charlie", "delta"]);
    let cfg = config(5, "-", 3, "0123456789", WordCase::Lowercase);
    for _ in 0..200 {
        let phrase = build_passphrase(&list, &cfg).unwrap();
        let segments: Vec<&str> = phrase.split('-').collect();
        assert_eq!(segments.len(), 5);
        let mut salted = 0;
        for segment in segments.iter() {
            let (word, salt) = split_salt(segment, "0123456789");
            assert!(list.contains(&word));
            assert!(segment.starts_with(word.as_str()));
            if !salt.is_empty() {
                assert_eq!(salt.len(), 3);
                assert!(segment.ends_with(salt.as_str()));
                salted += 1;
            }
        }
        assert_eq!(salted, 1);
    }
}

#[test]
fn repeated_builds_keep_word_count_and_salt_length() {
    let list = words(&["alpha", "bravo", "charlie", "delta", "echo"]);
    let cfg = config(4, " ", 2, "!?", WordCase::Capitalized);
    let mut seen = std::collections::HashSet::new();
    for _ in 0..300 {
        let phrase = build_passphrase(&list, &cfg).unwrap();
        assert_eq!(phrase.split(' ').count(), 4);
        assert_eq!(phrase.chars().filter(|c| *c == '!' || *c == '?').count(), 2);
        assert_eq!(phrase.chars().filter(|c| *c == ' ').count(), 3);
        seen.insert(phrase);
    }
    assert!(seen.len() > 1);
}

#[test]
fn built_phrase_follows_the_case() {
    let list = words(&["alpha", "bravo", "charlie"]);
    for _ in 0..50 {
        let upper = build_passphrase(&list, &config(3, " ", 1, "0123456789", WordCase::Uppercase)).unwrap();
        assert!(upper.chars().filter(|c| c.is_alphabetic()).all(|c| c.is_ascii_uppercase()));
        let mixed = words(&["ALpha", "bRAVO"]);
        let lower = build_passphrase(&mixed, &config(3, " ", 1, "0123456789", WordCase::Lowercase)).unwrap();
        assert!(lower.chars().filter(|c| c.is_alphabetic()).all(|c| c.is_ascii_lowercase()));
        let cap = build_passphrase(&list, &config(3, " ", 1, "0123456789", WordCase::Capitalized)).unwrap();
        for segment in cap.split(' ') {
            let (word, _) = split_salt(segment, "0123456789");
            let mut letters = word.chars();
            assert!(letters.next().unwrap().is_ascii_uppercase());
            assert!(letters.all(|c| c.is_ascii_lowercase()));
        }
        let same = build_passphrase(&mixed, &config(2, " ", 0, "", WordCase::Unchanged)).unwrap();
        for segment in same.split(' ') {
            assert!(mixed.contains(&segment.to_string()));
        }
    }
}

#[test]
fn built_single_word_phrase_is_word_then_salt() {
    let list = words(&["alpha", "bravo"]);
    let cfg = config(1, "-", 2, "0123456789", WordCase::Lowercase);
    for _ in 0..100 {
        let phrase = build_passphrase(&list, &cfg).unwrap();
        assert!(!phrase.contains('-'));
        let (word, salt) = split_salt(&phrase, "0123456789");
        assert!(list.contains(&word));
        assert_eq!(salt.len(), 2);
        assert_eq!(phrase, format!("{}{}", word, salt));
    }
}

#[test]
fn built_phrase_draws_every_word_and_salt_position() {
    let list = words(&["alpha", "bravo", "charlie"]);
    let cfg = config(2, " ", 1, "01", WordCase::Lowercase);
    let mut seen = std::collections::HashSet::new();
    for _ in 0..2000 {
        seen.insert(build_passphrase(&list, &cfg).unwrap());
    }
    assert_eq!(seen.len(), 3 * 3 * 2 * 2);
}
