use cryptogram::dictionary::Dictionary;
use cryptogram::error::CipherError;
use cryptogram::key::PotentialKey;
use cryptogram::solver::construct_key;

const PUZZLE: &str = "WQELQXNKW FE AFELUXW, LUIUXXUM FE K IWELQXW, LUNKW FE ZUN'E ZFCL, LAKL'E MAW MQ BKOO FL LAQ VXQEQDL.";
const PLAIN: &str = "YESTERDAY IS HISTORY, TOMORROW IS A MYSTERY, TODAY IS GOD'S GIFT, THAT'S WHY WE CALL IT THE PRESENT.";

/// A small list of common English words with made-up counts.
fn common_words() -> Vec<(String, usize)> {
    let words: Vec<(&str, usize)> = vec![
        ("the", 1000), ("and", 990), ("of", 980), ("to", 970), ("a", 960), ("in", 950),
        ("is", 940), ("that", 930), ("it", 920), ("was", 910), ("for", 900), ("with", 890),
        ("as", 880), ("be", 870), ("on", 860), ("not", 850), ("he", 840), ("by", 830),
        ("this", 820), ("at", 810), ("are", 800), ("or", 790), ("his", 780), ("from", 770),
        ("but", 760), ("which", 750), ("have", 740), ("we", 730), ("they", 720), ("you", 710),
        ("all", 700), ("one", 690), ("had", 680), ("were", 670), ("their", 660), ("been", 650),
        ("there", 640), ("has", 630), ("who", 620), ("will", 610), ("more", 600), ("if", 590),
        ("no", 580), ("when", 570), ("an", 560), ("what", 550), ("other", 540), ("would", 530),
        ("so", 520), ("can", 510), ("them", 500), ("its", 490), ("up", 480), ("only", 470),
        ("do", 460), ("time", 450), ("into", 440), ("some", 430), ("could", 420),
        ("than", 410), ("may", 400), ("then", 390), ("these", 380), ("two", 370), ("any", 360),
        ("such", 350), ("our", 340), ("out", 330), ("first", 320), ("new", 310), ("made", 300),
        ("most", 290), ("my", 280), ("me", 270), ("us", 265), ("god", 260), ("gift", 250),
        ("call", 240), ("why", 230), ("today", 220), ("present", 210), ("history", 200),
        ("mystery", 190), ("tomorrow", 180), ("yesterday", 170), ("between", 160),
        ("children", 150), ("something", 140), ("different", 130), ("important", 120),
        ("president", 110), ("s", 105), ("i", 104), ("t", 103), ("general", 100),
        ("against", 95), ("another", 90), ("because", 85), ("through", 80), ("without", 75),
        ("however", 70), ("himself", 65), ("country", 60), ("nothing", 55), ("several", 50),
        ("whether", 45), ("problem", 40), ("pattern", 35), ("million", 30), ("morning", 25),
        ("brought", 20), ("certain", 15), ("present", 5),
    ];
    words.into_iter().map(|(w, c)| (w.to_string(), c)).collect()
}

fn entries(words: &[(&str, usize)]) -> Vec<(String, usize)> {
    words.iter().map(|(w, c)| (w.to_string(), *c)).collect()
}

fn candidates(key: &PotentialKey, cipher: char) -> String {
    ('A'..='Z')
        .filter(|p| key.matches(p.to_string().as_str(), cipher.to_string().as_str()))
        .collect()
}

#[test]
fn puzzle1() {
    let dict = Dictionary::build(&common_words(), 10).unwrap();
    let puzzle = String::from("WQELQXNKW FE AFELUXW, LUIUXXUM FE K IWELQXW, LUNKW FE ZUN'E ZFCL, LAKL'E MAW MQ BKOO FL LAQ VXQEQDL.");
    let key = construct_key(&dict, puzzle.as_str());
    assert_eq!(key.translate(puzzle.as_str()), Ok("YESTERDAY IS HISTORY, TOMORROW IS A MYSTERY, TODAY IS GOD'S GIFT, THAT'S WHY WE CALL IT THE PRESENT.".to_string()));
}

#[test]
fn solved_key_decides_the_letters_of_the_puzzle() {
    let dict = Dictionary::build(&common_words(), 10).unwrap();
    let key = construct_key(&dict, PUZZLE);
    assert_eq!(candidates(&key, 'W'), "Y");
    assert_eq!(candidates(&key, 'Q'), "E");
    assert_eq!(candidates(&key, 'K'), "A");
    assert_eq!(candidates(&key, 'V'), "P");
    // a letter that the puzzle does not use stays open, without the decided ones
    assert_eq!(candidates(&key, 'G'), "BJKQUVXZ");
    assert_eq!(candidates(&key, 'J'), "BKQUVXZ");
}

#[test]
fn solved_key_agrees_with_the_known_key() {
    let dict = Dictionary::build(&common_words(), 10).unwrap();
    let key = construct_key(&dict, PUZZLE);
    let known = PotentialKey::try_from("KJBNQCZAFYSOIDUVRXELHPMGWT").unwrap();
    assert_eq!(known.translate(PUZZLE), Ok(PLAIN.to_string()));
    // whatever the known key decides, the solved key still allows
    assert_eq!(key.merge(&known).translate(PUZZLE), Ok(PLAIN.to_string()));
    for c in PUZZLE.chars().filter(|c| c.is_ascii_alphabetic()) {
        assert_eq!(candidates(&key, c), candidates(&known, c));
    }
}

#[test]
fn solving_twice_gives_the_same_key() {
    let dict = Dictionary::build(&common_words(), 10).unwrap();
    let first = construct_key(&dict, PUZZLE);
    let second = construct_key(&dict, PUZZLE);
    assert_eq!(first, second);
    let again = Dictionary::build(&common_words(), 10).unwrap();
    assert_eq!(construct_key(&again, PUZZLE), first);
}

#[test]
fn puzzle_is_read_without_regard_to_case() {
    let dict = Dictionary::build(&common_words(), 10).unwrap();
    let lower = PUZZLE.to_lowercase();
    assert_eq!(construct_key(&dict, lower.as_str()), construct_key(&dict, PUZZLE));
}

#[test]
fn solved_key_does_not_depend_on_the_counts() {
    let dict = Dictionary::build(&common_words(), 10).unwrap();
    let mut reversed: Vec<(String, usize)> = common_words();
    for entry in reversed.iter_mut() {
        entry.1 = 2000 - entry.1;
    }
    let other = Dictionary::build(&reversed, 10).unwrap();
    assert_ne!(
        dict.get_possible_words("FE", &PotentialKey::full()),
        other.get_possible_words("FE", &PotentialKey::full())
    );
    assert_eq!(construct_key(&dict, PUZZLE), construct_key(&other, PUZZLE));
}

#[test]
fn a_word_unknown_to_the_dictionary_leaves_its_letters_open() {
    let dict = Dictionary::build(&entries(&[("is", 100), ("it", 90)]), 10).unwrap();
    // no word of the shape of QXQXQ is listed
    let key = construct_key(&dict, "FE QXQXQ");
    assert_eq!(candidates(&key, 'F'), "I");
    assert_eq!(candidates(&key, 'E'), "ST");
    assert_eq!(candidates(&key, 'Q'), "ABCDEFGHJKLMNOPRSTUVWXYZ");
    assert_eq!(candidates(&key, 'X'), "ABCDEFGHJKLMNOPQRSTUVWYZ");
    assert_eq!(key.translate("FE QXQXQ"), Ok("I* *****".to_string()));
}

#[test]
fn an_empty_dictionary_leaves_the_full_key() {
    let dict = Dictionary::build(&[], 0).unwrap();
    assert_eq!(construct_key(&dict, PUZZLE), PotentialKey::full());
    assert_eq!(
        construct_key(&dict, "AB").translate("AB, c."),
        Ok("**, *.".to_string())
    );
}

#[test]
fn a_puzzle_without_words_leaves_the_full_key() {
    let dict = Dictionary::build(&common_words(), 10).unwrap();
    assert_eq!(construct_key(&dict, ""), PotentialKey::full());
    assert_eq!(construct_key(&dict, "12, 34!"), PotentialKey::full());
}

#[test]
fn a_word_too_long_for_a_signature_leaves_the_full_key() {
    let dict = Dictionary::build(&common_words(), 10).unwrap();
    let long: String = "AB".repeat(14);
    assert_eq!(construct_key(&dict, long.as_str()), PotentialKey::full());
}

#[test]
fn later_words_narrow_earlier_ones() {
    let dict = Dictionary::build(
        &entries(&[("on", 100), ("no", 90), ("in", 80), ("nun", 70)]),
        10,
    )
    .unwrap();
    // AB alone may be ON, NO or IN; BXB can only be NUN
    let alone = construct_key(&dict, "AB");
    assert_eq!(candidates(&alone, 'A'), "INO");
    let key = construct_key(&dict, "AB BXB");
    assert_eq!(candidates(&key, 'B'), "N");
    assert_eq!(candidates(&key, 'X'), "U");
    assert_eq!(candidates(&key, 'A'), "IO");
    assert_eq!(key.translate("AB BXB"), Ok("*N NUN".to_string()));
}

#[test]
fn contradictory_words_leave_a_letter_without_candidates() {
    let dict = Dictionary::build(&entries(&[("a", 100)]), 10).unwrap();
    // X and Y can both only be A, and no two letters stand for the same one
    let key = construct_key(&dict, "X Y");
    assert_eq!(candidates(&key, 'X'), "");
    assert_eq!(candidates(&key, 'Y'), "");
    assert_eq!(candidates(&key, 'B'), "CDEFGHIJKLMNOPQRSTUVWXYZ");
    assert_eq!(key.translate("X Y"), Err(CipherError::NoSolution));
    assert_eq!(key.translate("B"), Ok("*".to_string()));
}

#[test]
fn no_two_letters_are_solved_alike() {
    let dict = Dictionary::build(&common_words(), 10).unwrap();
    let key = construct_key(&dict, PUZZLE);
    for a in 'A'..='Z' {
        for b in 'A'..='Z' {
            let ca = candidates(&key, a);
            if a != b && ca.len() == 1 {
                assert_ne!(ca, candidates(&key, b));
            }
        }
    }
    let mut again = key;
    again.remove_fixed_characters_from_other_mappings();
    assert_eq!(again, key);
}
