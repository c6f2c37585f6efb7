use cryptogram::error::CipherError;
use cryptogram::parsing::{list_words, to_upper_word, translate_word_to_signature};

#[test]
fn it_finds_a_valid_signature() {
    assert_eq!(
        translate_word_to_signature("WQELQXNKW"),
        translate_word_to_signature("YESTERDAY")
    );
    assert_eq!(
        translate_word_to_signature("ABACDECFCGG"),
        translate_word_to_signature("NONETHELESS")
    );
    assert_eq!(
        translate_word_to_signature("ABCDAE"),
        translate_word_to_signature("EITHER")
    );
}

#[test]
fn signature_has_the_documented_value() {
    // EITHER -> 0 1 2 3 0 4 behind a leading 1, read in base 26
    assert_eq!(translate_word_to_signature("EITHER"), Ok(309409936));
    assert_eq!(translate_word_to_signature("NONETHELESS"), Ok(3675791029563282));
    assert_eq!(translate_word_to_signature("A"), Ok(26));
    assert_eq!(translate_word_to_signature("AB"), Ok(677));
    assert_eq!(translate_word_to_signature("AA"), Ok(676));
}

#[test]
fn signature_ignores_case() {
    assert_eq!(
        translate_word_to_signature("either"),
        translate_word_to_signature("EITHER")
    );
    assert_eq!(translate_word_to_signature("EiThEr"), Ok(309409936));
}

#[test]
fn signature_is_kept_by_a_relabelling() {
    // shift every letter by three places
    let word: &str = "MISSISSIPPI";
    let shifted: String = word
        .chars()
        .map(|c| (((c as u8 - 65 + 3) % 26) + 65) as char)
        .collect();
    assert_ne!(shifted.as_str(), word);
    assert!(translate_word_to_signature(word).is_ok());
    assert_eq!(
        translate_word_to_signature(word),
        translate_word_to_signature(shifted.as_str())
    );
}

#[test]
fn signature_differs_for_different_shapes() {
    assert_eq!(translate_word_to_signature("ABA"), Ok(17602));
    assert_eq!(translate_word_to_signature("ABB"), Ok(17603));
    assert_ne!(
        translate_word_to_signature("LEVEL"),
        translate_word_to_signature("HELLO")
    );
}

#[test]
fn signature_differs_for_different_lengths() {
    assert_ne!(
        translate_word_to_signature("AA"),
        translate_word_to_signature("AAA")
    );
    assert_ne!(
        translate_word_to_signature("A"),
        translate_word_to_signature("AA")
    );
}

#[test]
fn signature_rejects_empty_input() {
    assert_eq!(
        translate_word_to_signature(""),
        Err(CipherError::UnsupportedInput)
    );
}

#[test]
fn signature_rejects_what_is_no_letter() {
    assert_eq!(
        translate_word_to_signature("DON'T"),
        Err(CipherError::UnsupportedInput)
    );
    assert_eq!(
        translate_word_to_signature("AB1"),
        Err(CipherError::UnsupportedInput)
    );
    assert_eq!(
        translate_word_to_signature("A B"),
        Err(CipherError::UnsupportedInput)
    );
    assert_eq!(
        translate_word_to_signature("ÄB"),
        Err(CipherError::UnsupportedInput)
    );
}

#[test]
fn signature_takes_words_of_up_to_27_letters() {
    let longest: String = "Z".repeat(27);
    assert_eq!(
        translate_word_to_signature(longest.as_str()),
        Ok(160059109085386090080713531498405298176)
    );
    assert_eq!(
        translate_word_to_signature("ABCDEFGHIJKLMNOPQRSTUVWXYZA"),
        Ok(160315203659922707824842673148802746626)
    );
    let too_long: String = "Z".repeat(28);
    assert_eq!(
        translate_word_to_signature(too_long.as_str()),
        Err(CipherError::UnsupportedInput)
    );
}

#[test]
fn words_are_split_at_everything_but_letters() {
    assert_eq!(
        list_words("THEY'RE GOOD."),
        vec!["THEY".to_string(), "RE".to_string(), "GOOD".to_string()]
    );
}

#[test]
fn words_come_out_in_upper_case() {
    assert_eq!(
        list_words("  they're  good "),
        vec!["THEY".to_string(), "RE".to_string(), "GOOD".to_string()]
    );
    assert_eq!(list_words("a1b22c"), vec!["A".to_string(), "B".to_string(), "C".to_string()]);
}

#[test]
fn text_without_letters_has_no_words() {
    assert_eq!(list_words(""), Vec::<String>::new());
    assert_eq!(list_words(" ,.;' 123"), Vec::<String>::new());
}

#[test]
fn a_single_word_is_one_word() {
    assert_eq!(list_words("word"), vec!["WORD".to_string()]);
    assert_eq!(list_words("é"), Vec::<String>::new());
    assert_eq!(list_words("caféteria"), vec!["CAF".to_string(), "TERIA".to_string()]);
}

#[test]
fn upper_casing_touches_ascii_letters_only() {
    assert_eq!(to_upper_word("don't Stop é"), "DON'T STOP é".to_string());
    assert_eq!(to_upper_word(""), String::new());
}
