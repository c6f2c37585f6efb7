use cryptogram::error::CipherError;
use cryptogram::key::PotentialKey;

const PUZZLE: &str = "WQELQXNKW FE AFELUXW, LUIUXXUM FE K IWELQXW, LUNKW FE ZUN'E ZFCL, LAKL'E MAW MQ BKOO FL LAQ VXQEQDL.";

fn strings(words: &[&str]) -> Vec<String> {
    words.iter().map(|w| w.to_string()).collect()
}

/// The letters that the key allows for a ciphertext letter.
fn candidates(key: &PotentialKey, cipher: char) -> String {
    ('A'..='Z')
        .filter(|p| key.matches(p.to_string().as_str(), cipher.to_string().as_str()))
        .collect()
}

#[test]
fn it_translates_correctly() {
    let puzzle = String::from("WQELQXNKW FE AFELUXW, LUIUXXUM FE K IWELQXW, LUNKW FE ZUN'E ZFCL, LAKL'E MAW MQ BKOO FL LAQ VXQEQDL.");
    let key = PotentialKey::try_from("KJBNQCZAFYSOIDUVRXELHPMGWT").unwrap();
    assert_eq!(key.translate(puzzle.as_str()), Ok("YESTERDAY IS HISTORY, TOMORROW IS A MYSTERY, TODAY IS GOD'S GIFT, THAT'S WHY WE CALL IT THE PRESENT.".to_string()));
}

#[test]
fn fixed_key_lists_the_cipher_letter_of_each_plain_letter() {
    let key = PotentialKey::try_from("KJBNQCZAFYSOIDUVRXELHPMGWT").unwrap();
    // plaintext A is written as K, plaintext B as J, plaintext Z as T
    assert_eq!(candidates(&key, 'K'), "A");
    assert_eq!(candidates(&key, 'J'), "B");
    assert_eq!(candidates(&key, 'T'), "Z");
    assert_eq!(candidates(&key, 'W'), "Y");
}

#[test]
fn fixed_key_is_read_without_regard_to_case() {
    let upper = PotentialKey::try_from("KJBNQCZAFYSOIDUVRXELHPMGWT").unwrap();
    let lower = PotentialKey::try_from("kjbnqczafysoiduvrxelhpmgwt").unwrap();
    assert_eq!(upper, lower);
}

#[test]
fn fixed_key_of_wrong_length_is_refused() {
    assert_eq!(
        PotentialKey::try_from("KJBNQCZAFYSOIDUVRXELHPMGW").err(),
        Some(CipherError::InvalidKey)
    );
    assert_eq!(
        PotentialKey::try_from("KJBNQCZAFYSOIDUVRXELHPMGWTA").err(),
        Some(CipherError::InvalidKey)
    );
    assert_eq!(PotentialKey::try_from("").err(), Some(CipherError::InvalidKey));
}

#[test]
fn fixed_key_with_another_character_is_refused() {
    assert_eq!(
        PotentialKey::try_from("KJBNQCZAFYSOIDUVRXELHPMGW1").err(),
        Some(CipherError::InvalidKey)
    );
    assert_eq!(
        PotentialKey::try_from("KJBNQCZAFYSOI UVRXELHPMGWT").err(),
        Some(CipherError::InvalidKey)
    );
}

#[test]
fn fixed_key_with_a_repeated_letter_gives_that_letter_two_candidates() {
    let key = PotentialKey::try_from("AACDEFGHIJKLMNOPQRSTUVWXYZ").unwrap();
    assert_eq!(candidates(&key, 'A'), "AB");
    assert_eq!(candidates(&key, 'B'), "");
    assert_eq!(key.translate("A"), Ok("*".to_string()));
    assert_eq!(key.translate("B"), Err(CipherError::NoSolution));
}

#[test]
fn full_key_maps_each_letter_to_the_25_others() {
    let key = PotentialKey::full();
    assert_eq!(candidates(&key, 'A'), "BCDEFGHIJKLMNOPQRSTUVWXYZ");
    assert_eq!(candidates(&key, 'M'), "ABCDEFGHIJKLNOPQRSTUVWXYZ");
    assert_eq!(candidates(&key, 'Z'), "ABCDEFGHIJKLMNOPQRSTUVWXY");
    for c in 'A'..='Z' {
        assert_eq!(candidates(&key, c).len(), 25);
        assert!(!key.matches(c.to_string().as_str(), c.to_string().as_str()));
    }
}

#[test]
fn default_key_has_no_candidates() {
    let key = PotentialKey::default();
    for c in 'A'..='Z' {
        assert_eq!(candidates(&key, c), "");
    }
    assert_ne!(key, PotentialKey::full());
}

#[test]
fn key_is_printed_line_by_line() {
    let text = PotentialKey::full().to_string();
    let lines: Vec<&str> = text.split('\n').collect();
    assert_eq!(lines.len(), 27);
    assert_eq!(lines[0], "A => [B,C,D,E,F,G,H,I,J,K,L,M,N,O,P,Q,R,S,T,U,V,W,X,Y,Z,] ");
    assert_eq!(lines[25], "Z => [A,B,C,D,E,F,G,H,I,J,K,L,M,N,O,P,Q,R,S,T,U,V,W,X,Y,] ");
    assert_eq!(lines[26], "");
}

#[test]
fn empty_key_is_printed_with_empty_brackets() {
    let text = PotentialKey::default().to_string();
    let mut expected = String::new();
    for c in 'A'..='Z' {
        expected.push(c);
        expected.push_str(" => [] \n");
    }
    assert_eq!(text, expected);
}

#[test]
fn possibilities_fill_the_slots_of_the_cipherword() {
    let key = PotentialKey::from_possibilities("XDYY", &strings(&["CALL", "TODD", "FALL"]));
    assert_eq!(candidates(&key, 'X'), "CFT");
    assert_eq!(candidates(&key, 'D'), "AO");
    assert_eq!(candidates(&key, 'Y'), "DL");
    // nothing is known about the other letters
    assert_eq!(candidates(&key, 'A'), "BCDEFGHIJKLMNOPQRSTUVWXYZ");
    assert_eq!(candidates(&key, 'Z'), "ABCDEFGHIJKLMNOPQRSTUVWXY");
}

#[test]
fn possibilities_of_the_documented_example() {
    let key = PotentialKey::from_possibilities("XYZZ", &strings(&["CALL", "TREE"]));
    assert_eq!(candidates(&key, 'X'), "CT");
    assert_eq!(candidates(&key, 'Y'), "AR");
    assert_eq!(candidates(&key, 'Z'), "EL");
}

#[test]
fn no_possibilities_give_the_full_key() {
    let key = PotentialKey::from_possibilities("XDYY", &[]);
    assert_eq!(key, PotentialKey::full());
    let key = PotentialKey::from_possibilities("", &strings(&["CALL"]));
    assert_eq!(key, PotentialKey::full());
}

#[test]
fn a_short_possibility_says_nothing_about_later_positions() {
    let key = PotentialKey::from_possibilities("XYZ", &strings(&["AB"]));
    assert_eq!(candidates(&key, 'X'), "A");
    assert_eq!(candidates(&key, 'Y'), "B");
    assert_eq!(candidates(&key, 'Z'), "ABCDEFGHIJKLMNOPQRSTUVWXY");
}

#[test]
fn possibilities_take_upper_case_letters_only() {
    let key = PotentialKey::from_possibilities("X-y", &strings(&["a-B", "C-D"]));
    assert_eq!(candidates(&key, 'X'), "C");
    assert_eq!(candidates(&key, 'Y'), "ABCDEFGHIJKLMNOPQRSTUVWXZ");
}

#[test]
fn merge_intersects_slot_by_slot() {
    let a = PotentialKey::from_possibilities("E", &strings(&["A", "B", "C", "D"]));
    let b = PotentialKey::from_possibilities("E", &strings(&["C", "D", "F", "G"]));
    let merged = a.merge(&b);
    assert_eq!(candidates(&merged, 'E'), "CD");
    assert_eq!(candidates(&merged, 'A'), "BCDEFGHIJKLMNOPQRSTUVWXYZ");
}

#[test]
fn merge_of_disjoint_slots_is_empty() {
    let a = PotentialKey::from_possibilities("E", &strings(&["A"]));
    let b = PotentialKey::from_possibilities("E", &strings(&["B"]));
    let merged = a.merge(&b);
    assert_eq!(candidates(&merged, 'E'), "");
    assert_eq!(merged.translate("E"), Err(CipherError::NoSolution));
}

#[test]
fn merge_is_commutative_associative_and_idempotent() {
    let a = PotentialKey::from_possibilities("XDYY", &strings(&["CALL", "TODD", "FALL"]));
    let b = PotentialKey::from_possibilities("XYQ", &strings(&["CAT", "FLY", "TOE"]));
    let c = PotentialKey::from_possibilities("DX", &strings(&["AT", "OF", "IS"]));
    assert_eq!(a.merge(&b), b.merge(&a));
    assert_eq!(a.merge(&b).merge(&c), a.merge(&b.merge(&c)));
    assert_eq!(a.merge(&a), a);
    assert_eq!(PotentialKey::full().merge(&PotentialKey::full()), PotentialKey::full());
}

#[test]
fn merge_never_adds_a_candidate() {
    let a = PotentialKey::from_possibilities("XDYY", &strings(&["CALL", "TODD", "FALL"]));
    let b = PotentialKey::from_possibilities("XYQ", &strings(&["CAT", "FLY", "TOE"]));
    let merged = a.merge(&b);
    for c in 'A'..='Z' {
        for p in candidates(&merged, c).chars() {
            assert!(candidates(&a, c).contains(p));
            assert!(candidates(&b, c).contains(p));
        }
    }
    assert_eq!(candidates(&merged, 'X'), "CFT");
    assert_eq!(candidates(&merged, 'Y'), "L");
}

#[test]
fn merge_with_the_empty_key_is_empty() {
    let a = PotentialKey::full();
    assert_eq!(a.merge(&PotentialKey::default()), PotentialKey::default());
}

#[test]
fn fixed_characters_leave_the_other_mappings() {
    let mut key = PotentialKey::from_possibilities("AB", &strings(&["XY"]));
    key.remove_fixed_characters_from_other_mappings();
    assert_eq!(candidates(&key, 'A'), "X");
    assert_eq!(candidates(&key, 'B'), "Y");
    assert_eq!(candidates(&key, 'C'), "ABDEFGHIJKLMNOPQRSTUVWZ");
    assert_eq!(candidates(&key, 'X'), "ABCDEFGHIJKLMNOPQRSTUVWZ");
    for c in 'C'..='Z' {
        assert!(!key.matches("X", c.to_string().as_str()));
        assert!(!key.matches("Y", c.to_string().as_str()));
    }
}

#[test]
fn a_letter_fixed_twice_leaves_every_mapping() {
    let mut key = PotentialKey::from_possibilities("AB", &strings(&["XX"]));
    assert_eq!(candidates(&key, 'A'), "X");
    assert_eq!(candidates(&key, 'B'), "X");
    key.remove_fixed_characters_from_other_mappings();
    for c in 'A'..='Z' {
        assert!(!key.matches("X", c.to_string().as_str()));
    }
    assert_eq!(key.translate("A"), Err(CipherError::NoSolution));
}

#[test]
fn what_is_fixed_is_decided_before_anything_is_removed() {
    // C is open between P and X, D between Q and X, and M holds X alone
    let open = PotentialKey::from_possibilities("CDM", &strings(&["PQX", "XXX"]));
    let mut key = open;
    key.remove_fixed_characters_from_other_mappings();
    assert_eq!(candidates(&key, 'C'), "P");
    assert_eq!(candidates(&key, 'D'), "Q");
    assert_eq!(candidates(&key, 'M'), "X");
    // P and Q became fixed only now: they are still candidates elsewhere
    assert!(key.matches("P", "A"));
    assert!(key.matches("Q", "A"));
    key.remove_fixed_characters_from_other_mappings();
    assert!(!key.matches("P", "A"));
    assert!(!key.matches("Q", "A"));
}

#[test]
fn one_propagation_can_leave_two_letters_with_the_same_sole_candidate() {
    // A and B are open between C and X, and M holds X alone
    let mut key = PotentialKey::from_possibilities("ABM", &strings(&["CCX", "XXX"]));
    assert_eq!(candidates(&key, 'A'), "CX");
    assert_eq!(candidates(&key, 'B'), "CX");
    key.remove_fixed_characters_from_other_mappings();
    assert_eq!(candidates(&key, 'A'), "C");
    assert_eq!(candidates(&key, 'B'), "C");
    // the next one takes C from both
    key.remove_fixed_characters_from_other_mappings();
    assert_eq!(candidates(&key, 'A'), "");
    assert_eq!(candidates(&key, 'B'), "");
    assert_eq!(candidates(&key, 'M'), "X");
}

#[test]
fn propagation_changes_nothing_where_nothing_is_fixed() {
    let mut key = PotentialKey::full();
    key.remove_fixed_characters_from_other_mappings();
    assert_eq!(key, PotentialKey::full());
    let mut key = PotentialKey::default();
    key.remove_fixed_characters_from_other_mappings();
    assert_eq!(key, PotentialKey::default());
}

#[test]
fn matches_is_false_for_words_of_different_length() {
    let key = PotentialKey::full();
    assert!(key.matches("BC", "AB"));
    assert!(!key.matches("BCD", "AB"));
    assert!(!key.matches("B", "AB"));
    assert!(!key.matches("", "AB"));
    assert!(!key.matches("BC", ""));
    assert!(key.matches("", ""));
}

#[test]
fn matches_looks_at_every_position() {
    let key = PotentialKey::from_possibilities("XDYY", &strings(&["CALL", "TODD", "FALL"]));
    assert!(key.matches("CALL", "XDYY"));
    assert!(key.matches("TOLD", "XDYY"));
    assert!(!key.matches("CELL", "XDYY"));
    assert!(!key.matches("CALM", "XDYY"));
}

#[test]
fn matches_wants_upper_case_letters() {
    let key = PotentialKey::full();
    assert!(!key.matches("bc", "AB"));
    assert!(!key.matches("BC", "ab"));
    assert!(!key.matches("B-", "A-"));
}

#[test]
fn try_matches_reports_a_length_mismatch() {
    let key = PotentialKey::full();
    assert_eq!(key.try_matches("BCD", "AB"), Err(CipherError::LengthMismatch));
    assert_eq!(key.try_matches("", "A"), Err(CipherError::LengthMismatch));
    assert_eq!(key.try_matches("BC", "AB"), Ok(true));
    assert_eq!(key.try_matches("AC", "AB"), Ok(false));
}

#[test]
fn translate_marks_open_letters_with_a_star() {
    let key = PotentialKey::from_possibilities("XDYY", &strings(&["CALL", "TODD", "FALL"]));
    assert_eq!(key.translate("XDYY"), Ok("****".to_string()));
    let key = PotentialKey::from_possibilities("XDYY", &strings(&["CALL", "FALL"]));
    assert_eq!(key.translate("XDYY, yd!"), Ok("*ALL, LA!".to_string()));
}

#[test]
fn translate_copies_what_is_no_letter() {
    let key = PotentialKey::default();
    assert_eq!(key.translate(""), Ok(String::new()));
    assert_eq!(key.translate(" 12,.'é\n"), Ok(" 12,.'é\n".to_string()));
}

#[test]
fn translate_fails_on_a_letter_without_candidates() {
    let key = PotentialKey::default();
    assert_eq!(key.translate("A"), Err(CipherError::NoSolution));
    assert_eq!(key.translate("...z"), Err(CipherError::NoSolution));
}

#[test]
fn translate_reads_lower_case_as_upper_case() {
    let key = PotentialKey::try_from("KJBNQCZAFYSOIDUVRXELHPMGWT").unwrap();
    assert_eq!(
        key.translate(PUZZLE.to_lowercase().as_str()),
        key.translate(PUZZLE)
    );
    assert_eq!(key.translate("wqelqxnkw"), Ok("YESTERDAY".to_string()));
}

#[test]
fn errors_say_what_went_wrong() {
    assert_eq!(
        CipherError::NoSolution.message(),
        "Key contains no solutions for this character."
    );
    assert_eq!(CipherError::InvalidKey.message(), "A key is written as exactly 26 letters.");
    assert_eq!(
        CipherError::UnsupportedInput.message(),
        "The input is not of the form that this operation takes."
    );
    assert_eq!(CipherError::LengthMismatch.message(), "The two words differ in length.");
}
