use passgen::error::PassphraseError;
use passgen::wordlist::{clean_words, get_list};

#[test]
fn lines_are_trimmed_lowercased_and_filtered() {
    let raw = "  Apple\nb\n123banana!!\r\n\nCherry";
    assert_eq!(clean_words(raw), vec!["apple", "banana", "cherry"]);
}

#[test]
fn numbered_lines_keep_the_word() {
    let raw = "11111\tabacus\n11112\tabdomen\n11113\tabdominal\n";
    assert_eq!(clean_words(raw), vec!["abacus", "abdomen", "abdominal"]);
}

#[test]
fn characters_inside_a_word_stay() {
    assert_eq!(clean_words("-drop-down-\nt-shirt 2\n"), vec!["drop-down", "t-shirt"]);
}

#[test]
fn letters_beyond_ascii_are_alphabetic_and_keep_their_case() {
    assert_eq!(clean_words("1Éa2\né\n"), vec!["Éa"]);
}

#[test]
fn lines_without_letters_give_no_word() {
    assert_eq!(clean_words("123\n\n   \n!?\n"), Vec::<String>::new());
    assert_eq!(clean_words(""), Vec::<String>::new());
    assert_eq!(clean_words("\n"), Vec::<String>::new());
}

#[test]
fn last_line_needs_no_line_feed() {
    assert_eq!(clean_words("ab\ncd"), vec!["ab", "cd"]);
    assert_eq!(clean_words("ab\ncd\n"), vec!["ab", "cd"]);
}

#[test]
fn get_list_gives_the_cleaned_words() {
    assert_eq!(get_list("One\nTwo\n").unwrap(), vec!["one", "two"]);
}

#[test]
fn get_list_refuses_a_text_without_words() {
    match get_list("1\n2\nx\n") {
        Err(PassphraseError::InitializationError(m)) => {
            assert_eq!(m, "the word list holds no word");
        }
        other => panic!("expected an initialization error, got {:?}", other),
    }
}
