use cryptogram::dictionary::{Dictionary, ALLOWED_WORD_MINPOPULARITY};
use cryptogram::error::CipherError;
use cryptogram::key::PotentialKey;
use cryptogram::solver::construct_key;
use cryptogram::wordlist::parse_word_list;

fn entries(words: &[(&str, usize)]) -> Vec<(String, usize)> {
    words.iter().map(|(w, c)| (w.to_string(), *c)).collect()
}

#[test]
fn a_line_gives_a_word_and_its_count() {
    assert_eq!(
        parse_word_list("the 1 1000\nof 2 900\n"),
        Ok(entries(&[("the", 1000), ("of", 900)]))
    );
}

#[test]
fn the_last_line_needs_no_line_feed() {
    assert_eq!(
        parse_word_list("the 1 1000\nof 2 900"),
        Ok(entries(&[("the", 1000), ("of", 900)]))
    );
    assert_eq!(parse_word_list("the 1 1000"), Ok(entries(&[("the", 1000)])));
}

#[test]
fn an_empty_text_is_an_empty_list() {
    assert_eq!(parse_word_list(""), Ok(Vec::new()));
}

#[test]
fn fields_are_separated_by_any_white_space() {
    assert_eq!(
        parse_word_list("  the\t1   1000  \r\nof\u{a0}2\u{3000}900\r\n"),
        Ok(entries(&[("the", 1000), ("of", 900)]))
    );
}

#[test]
fn what_follows_the_count_is_not_looked_at() {
    assert_eq!(
        parse_word_list("the 1 1000 more fields -7\n"),
        Ok(entries(&[("the", 1000)]))
    );
}

#[test]
fn words_are_kept_as_they_are_written() {
    assert_eq!(
        parse_word_list("Don't 12 34\nÉté 5 6\n123 4 5\n"),
        Ok(entries(&[("Don't", 34), ("Été", 6), ("123", 5)]))
    );
}

#[test]
fn numbers_may_have_a_plus_and_leading_zeros() {
    assert_eq!(
        parse_word_list("the +1 +1000\nof 002 0900\nzero 0 0\n"),
        Ok(entries(&[("the", 1000), ("of", 900), ("zero", 0)]))
    );
}

#[test]
fn the_largest_count_is_read() {
    let text: String = format!("the 1 {}\n", usize::MAX);
    assert_eq!(parse_word_list(text.as_str()), Ok(entries(&[("the", usize::MAX)])));
}

#[test]
fn a_count_too_large_is_refused() {
    assert_eq!(
        parse_word_list("the 1 340282366920938463463374607431768211456\n"),
        Err(CipherError::UnsupportedInput)
    );
    let text: String = format!("the 1 {}0\n", usize::MAX);
    assert_eq!(parse_word_list(text.as_str()), Err(CipherError::UnsupportedInput));
    assert_eq!(
        parse_word_list("the 340282366920938463463374607431768211456 1\n"),
        Err(CipherError::UnsupportedInput)
    );
}

#[test]
fn a_line_with_too_few_fields_is_refused() {
    assert_eq!(parse_word_list("the 1\n"), Err(CipherError::UnsupportedInput));
    assert_eq!(parse_word_list("the\n"), Err(CipherError::UnsupportedInput));
    assert_eq!(
        parse_word_list("the 1 1000\nof 2\n"),
        Err(CipherError::UnsupportedInput)
    );
}

#[test]
fn an_empty_line_is_refused() {
    assert_eq!(parse_word_list("\n"), Err(CipherError::UnsupportedInput));
    assert_eq!(
        parse_word_list("the 1 1000\n\nof 2 900\n"),
        Err(CipherError::UnsupportedInput)
    );
    assert_eq!(
        parse_word_list("the 1 1000\n\n"),
        Err(CipherError::UnsupportedInput)
    );
    assert_eq!(parse_word_list("   \n"), Err(CipherError::UnsupportedInput));
}

#[test]
fn what_is_no_number_is_refused() {
    assert_eq!(parse_word_list("the one 1000\n"), Err(CipherError::UnsupportedInput));
    assert_eq!(parse_word_list("the 1 1000x\n"), Err(CipherError::UnsupportedInput));
    assert_eq!(parse_word_list("the 1 -1000\n"), Err(CipherError::UnsupportedInput));
    assert_eq!(parse_word_list("the 1 +\n"), Err(CipherError::UnsupportedInput));
    assert_eq!(parse_word_list("the 1 1.5\n"), Err(CipherError::UnsupportedInput));
    assert_eq!(parse_word_list("the 1 ++5\n"), Err(CipherError::UnsupportedInput));
    assert_eq!(parse_word_list("the 1 ٣\n"), Err(CipherError::UnsupportedInput));
}

#[test]
fn a_word_list_read_from_text_solves_a_puzzle() {
    let text = "is 1 900000\nit 2 800000\nnun 3 700000\non 4 600000\nzyzzyva 5 99999\n";
    let list = parse_word_list(text).unwrap();
    let dict = Dictionary::build(&list, ALLOWED_WORD_MINPOPULARITY).unwrap();
    assert_eq!(
        dict.get_possible_words("AB", &PotentialKey::full()),
        vec!["IS".to_string(), "IT".to_string(), "ON".to_string()]
    );
    assert_eq!(dict.get_possible_words("ABAABCD", &PotentialKey::full()), Vec::<String>::new());
    let key = construct_key(&dict, "bxb ab");
    assert_eq!(key.translate("bxb ab"), Ok("NUN ON".to_string()));
}

#[test]
fn the_usual_threshold_is_one_hundred_thousand() {
    assert_eq!(ALLOWED_WORD_MINPOPULARITY, 100000);
}
