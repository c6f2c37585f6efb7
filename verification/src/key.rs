//! The potential key: what each ciphertext letter may still stand for.

use vstd::prelude::*;
use crate::alphabet::{
    index_of_letter, is_ascii_letter, is_letter, is_upper, letter_at, letter_index,
    letter_of_index, to_upper, upper,
};
use crate::error::CipherError;
use crate::text::{chars_of, word_views};

verus! {

/// A potential key maps each of the 26 ciphertext letters to the set of
/// plaintext letters that it may still stand for.
///
/// So `E => [A, B, C]` means that an `E` in the ciphertext might be
/// decrypted to an `A`, a `B` or a `C`.
#[derive(Clone, Copy, Debug)]
pub struct PotentialKey {
    /// `table[c][p]` tells whether ciphertext letter `c` may stand for
    /// plaintext letter `p`, both given by their alphabet positions.
    table: [[bool; 26]; 26],
}

impl View for PotentialKey {
    type V = Seq<Set<char>>;

    /// The candidate set of each ciphertext letter, `A` first.
    closed spec fn view(&self) -> Seq<Set<char>> {
        Seq::new(26, |i: int| Set::new(|c: char| is_upper(c) && self.table[i][letter_index(c)]))
    }
}

/// `k` is what a key can look like: 26 sets of upper-case letters.
pub open spec fn is_key(k: Seq<Set<char>>) -> bool {
    &&& k.len() == 26
    &&& forall|i: int, c: char| 0 <= i < 26 && #[trigger] k[i].contains(c) ==> is_upper(c)
}

/// The set has no element.
pub open spec fn is_vacant(s: Set<char>) -> bool {
    forall|c: char| !s.contains(c)
}

/// `c` is the one element of the set.
pub open spec fn is_sole(s: Set<char>, c: char) -> bool {
    s.contains(c) && forall|d: char| s.contains(d) ==> d == c
}

/// Every letter but the one at position `i`: a substitution cipher maps
/// no letter to itself.
pub open spec fn full_slot(i: int) -> Set<char> {
    Set::new(|c: char| is_upper(c) && c != letter_at(i))
}

/// The key in which nothing is decided yet.
pub open spec fn full_key() -> Seq<Set<char>> {
    Seq::new(26, |i: int| full_slot(i))
}

/// The key in which no letter has a candidate.
pub open spec fn empty_key() -> Seq<Set<char>> {
    Seq::new(26, |i: int| Set::<char>::empty())
}

/// Slot by slot, the candidates that both keys allow.
pub open spec fn merge_keys(a: Seq<Set<char>>, b: Seq<Set<char>>) -> Seq<Set<char>> {
    Seq::new(26, |i: int| a[i].intersect(b[i]))
}

/// Every slot of `a` lies within the same slot of `b`.
pub open spec fn key_within(a: Seq<Set<char>>, b: Seq<Set<char>>) -> bool {
    forall|i: int, c: char| 0 <= i < 26 && #[trigger] a[i].contains(c) ==> b[i].contains(c)
}

/// The cipherword can decode to the plainword under the key: the two are
/// equally long and each cipher letter's slot holds the plain letter at
/// its position.
pub open spec fn key_matches(k: Seq<Set<char>>, plain: Seq<char>, cipher: Seq<char>) -> bool {
    &&& plain.len() == cipher.len()
    &&& forall|p: int|
        0 <= p < cipher.len() ==> is_upper(#[trigger] cipher[p]) && k[letter_index(
            cipher[p],
        )].contains(plain[p])
}

/// Some letter is the one element of the set.
pub open spec fn is_solved(s: Set<char>) -> bool {
    exists|c: char| is_sole(s, c)
}

/// What a character of a text is translated to: a character that is no
/// letter stays; a letter becomes the one candidate of its slot, or `*`
/// where the slot holds several.
pub open spec fn decode(k: Seq<Set<char>>, c: char) -> char {
    if !is_letter(c) {
        c
    } else {
        let s = k[letter_index(upper(c))];
        if is_solved(s) {
            choose|d: char| is_sole(s, d)
        } else {
            '*'
        }
    }
}

/// Every letter of the text has at least one candidate left.
pub open spec fn translatable(k: Seq<Set<char>>, text: Seq<char>) -> bool {
    forall|i: int|
        0 <= i < text.len() && is_letter(#[trigger] text[i]) ==> !is_vacant(
            k[letter_index(upper(text[i]))],
        )
}

/// The text with each character decoded under the key.
pub open spec fn translation(k: Seq<Set<char>>, text: Seq<char>) -> Seq<char> {
    Seq::new(text.len(), |i: int| decode(k, text[i]))
}

/// Some candidate word shows the letter `c` at a position where the
/// cipherword shows the letter of slot `i`.
pub open spec fn observed(cipher: Seq<char>, words: Seq<Seq<char>>, i: int, c: char) -> bool {
    exists|k: int, p: int|
        0 <= k < words.len() && 0 <= p < cipher.len() && p < words[k].len() && cipher[p]
            == letter_at(i) && #[trigger] words[k][p] == c
}

/// The upper-case letters that the candidate words show for slot `i`.
pub open spec fn observed_slot(cipher: Seq<char>, words: Seq<Seq<char>>, i: int) -> Set<char> {
    Set::new(|c: char| is_upper(c) && observed(cipher, words, i, c))
}

/// The key that a cipherword and its candidate words give: each slot
/// holds the letters observed for it, and a slot for which none was
/// observed is full.
pub open spec fn key_from_candidates(cipher: Seq<char>, words: Seq<Seq<char>>) -> Seq<
    Set<char>,
> {
    Seq::new(
        26,
        |i: int|
            if is_vacant(observed_slot(cipher, words, i)) {
                full_slot(i)
            } else {
                observed_slot(cipher, words, i)
            },
    )
}

/// As `observed`, looking only at the candidate words before the one at
/// `nk`, and at that one before position `np`.
spec fn observed_before(
    cipher: Seq<char>,
    words: Seq<Seq<char>>,
    i: int,
    c: char,
    nk: int,
    np: int,
) -> bool {
    exists|k: int, p: int|
        0 <= k < words.len() && 0 <= p < cipher.len() && p < words[k].len() && (k < nk || (k
            == nk && p < np)) && cipher[p] == letter_at(i) && #[trigger] words[k][p] == c
}

/// Some slot other than `i` holds `c` as its one candidate.
pub open spec fn fixed_elsewhere(k: Seq<Set<char>>, i: int, c: char) -> bool {
    exists|j: int| 0 <= j < 26 && j != i && is_sole(#[trigger] k[j], c)
}

/// The key after exclusivity propagation: each slot loses the letters
/// that are the one candidate of some other slot.
pub open spec fn propagate(k: Seq<Set<char>>) -> Seq<Set<char>> {
    Seq::new(26, |i: int| Set::new(|c: char| k[i].contains(c) && !fixed_elsewhere(k, i, c)))
}

/// The text is a fixed key: exactly 26 ASCII letters.
pub open spec fn is_key_notation(v: Seq<char>) -> bool {
    v.len() == 26 && forall|i: int| 0 <= i < 26 ==> is_letter(#[trigger] v[i])
}

/// The key that a fixed-key text stands for. The text lists, for the
/// plaintext letters `A` to `Z` in turn, the ciphertext letter that each
/// is encrypted to; so the slot of a ciphertext letter holds the
/// plaintext letters at whose positions the text shows it.
pub open spec fn key_of_notation(v: Seq<char>) -> Seq<Set<char>> {
    Seq::new(
        26,
        |i: int| Set::new(|c: char| is_upper(c) && upper(v[letter_index(c)]) == letter_at(i)),
    )
}

/// The candidates of a slot among the first `n` letters of the alphabet,
/// each followed by a comma.
pub open spec fn slot_text(s: Set<char>, n: nat) -> Seq<char>
    decreases n,
{
    if n == 0 {
        Seq::empty()
    } else if s.contains(letter_at(n - 1)) {
        slot_text(s, (n - 1) as nat) + seq![letter_at(n - 1), ',']
    } else {
        slot_text(s, (n - 1) as nat)
    }
}

/// One line of a printed key, such as `E => [A,B,C,] ` and a line feed.
pub open spec fn row_text(k: Seq<Set<char>>, i: int) -> Seq<char> {
    seq![letter_at(i), ' ', '=', '>', ' ', '['] + slot_text(k[i], 26) + seq![']', ' ', '\n']
}

/// The lines of the first `n` slots of a printed key.
pub open spec fn key_text(k: Seq<Set<char>>, n: nat) -> Seq<char>
    decreases n,
{
    if n == 0 {
        Seq::empty()
    } else {
        key_text(k, (n - 1) as nat) + row_text(k, n - 1)
    }
}

/// What a slot says about its ciphertext letter.
enum Reading {
    /// No candidate is left.
    Vacant,
    /// One candidate is left: the letter at this alphabet position.
    Sole(usize),
    /// Several candidates are left.
    Open,
}

impl PotentialKey {
    /// Whether plaintext letter `p` is a candidate of ciphertext letter `c`.
    pub closed spec fn allows(&self, c: int, p: int) -> bool {
        self.table[c][p]
    }

    /// How the view reads the table.
    pub proof fn lemma_view(&self)
        ensures
            is_key(self@),
            forall|i: int, p: int|
                0 <= i < 26 && 0 <= p < 26 ==> (#[trigger] self@[i].contains(letter_at(p))
                    <==> self.allows(i, p)),
            forall|i: int, c: char|
                0 <= i < 26 ==> (#[trigger] self@[i].contains(c) <==> is_upper(c) && self.allows(
                    i,
                    letter_index(c),
                )),
    {
        assert forall|i: int, p: int| 0 <= i < 26 && 0 <= p < 26 implies (
        #[trigger] self@[i].contains(letter_at(p)) <==> self.allows(i, p)) by {
            assert(letter_index(letter_at(p)) == p);
        }
    }

    /// Keys with the same view are the same key.
    pub proof fn lemma_view_injective(&self, other: &PotentialKey)
        requires
            self@ == other@,
        ensures
            *self == *other,
    {
        self.lemma_view();
        other.lemma_view();
        assert forall|i: int| 0 <= i < 26 implies self.table[i] == other.table[i] by {
            assert forall|p: int| 0 <= p < 26 implies self.table[i][p] == other.table[i][p] by {
                assert(self@[i].contains(letter_at(p)) <==> self.allows(i, p));
                assert(other@[i].contains(letter_at(p)) <==> other.allows(i, p));
            }
            assert(self.table[i] =~= other.table[i]);
        }
        assert(self.table =~= other.table);
    }

    /// Returns a "full" key, a key where no character is decided yet: each
    /// ciphertext character maps to the 25 other characters.
    pub fn full() -> (r: PotentialKey)
        ensures
            r@ == full_key(),
    {
        let mut table: [[bool; 26]; 26] = [[true; 26]; 26];
        let mut i: usize = 0;
        while i < 26
            invariant
                0 <= i <= 26,
                forall|a: int, p: int|
                    0 <= a < 26 && 0 <= p < 26 ==> (#[trigger] table[a][p] <==> (a >= i || a
                        != p)),
            decreases 26 - i,
        {
            let mut row = table[i];
            row[i] = false;
            table[i] = row;
            i = i + 1;
        }
        let r = PotentialKey { table };
        proof {
            r.lemma_view();
            assert forall|a: int| 0 <= a < 26 implies r@[a] =~= full_slot(a) by {
                assert forall|c: char| r@[a].contains(c) <==> full_slot(a).contains(c) by {
                    if is_upper(c) {
                        assert(letter_at(letter_index(c)) == c);
                    }
                }
            }
            assert(r@ =~= full_key());
        }
        r
    }

    /// Merge two potential keys: slot by slot, the letters that both allow.
    ///
    /// If one word of a puzzle tells us `E => [A, B, C, D]` and another
    /// `E => [C, D, F, G]`, then both together tell us `E => [C, D]`.
    pub fn merge(&self, other: &Self) -> (r: Self)
        ensures
            r@ == merge_keys(self@, other@),
    {
        let mut table: [[bool; 26]; 26] = [[false; 26]; 26];
        let mut i: usize = 0;
        while i < 26
            invariant
                0 <= i <= 26,
                forall|a: int, p: int|
                    0 <= a < i && 0 <= p < 26 ==> (#[trigger] table[a][p] <==> (self.table[a][p]
                        && other.table[a][p])),
            decreases 26 - i,
        {
            let mut row: [bool; 26] = [false; 26];
            let mut j: usize = 0;
            while j < 26
                invariant
                    0 <= i < 26,
                    0 <= j <= 26,
                    forall|p: int|
                        0 <= p < j ==> (#[trigger] row[p] <==> (self.table[i as int][p]
                            && other.table[i as int][p])),
                decreases 26 - j,
            {
                row[j] = self.table[i][j] && other.table[i][j];
                j = j + 1;
            }
            table[i] = row;
            i = i + 1;
        }
        let r = PotentialKey { table };
        proof {
            r.lemma_view();
            self.lemma_view();
            other.lemma_view();
            assert forall|a: int| 0 <= a < 26 implies r@[a] =~= self@[a].intersect(
                other@[a],
            ) by {}
            assert(r@ =~= merge_keys(self@, other@));
        }
        r
    }

    /// Check if a given cipherword can decode to a given plaintext word
    /// under the current key. Words of different lengths never match, and
    /// a cipherword matches nothing unless it is written in upper-case
    /// letters.
    pub fn matches(&self, plainword: &str, cipherword: &str) -> (r: bool)
        ensures
            r == key_matches(self@, plainword@, cipherword@),
            plainword@.len() != cipherword@.len() ==> !r,
    {
        let n = cipherword.unicode_len();
        if plainword.unicode_len() != n {
            return false;
        }
        proof {
            self.lemma_view();
        }
        let mut p: usize = 0;
        while p < n
            invariant
                0 <= p <= n,
                n == cipherword@.len(),
                n == plainword@.len(),
                forall|q: int|
                    0 <= q < p ==> is_upper(#[trigger] cipherword@[q]) && self@[letter_index(
                        cipherword@[q],
                    )].contains(plainword@[q]),
                forall|i: int, c: char|
                    0 <= i < 26 ==> (#[trigger] self@[i].contains(c) <==> is_upper(c)
                        && self.allows(i, letter_index(c))),
            decreases n - p,
        {
            let c = cipherword.get_char(p);
            let d = plainword.get_char(p);
            if !(c >= 'A' && c <= 'Z') || !(d >= 'A' && d <= 'Z') {
                return false;
            }
            if !self.table[index_of_letter(c)][index_of_letter(d)] {
                return false;
            }
            p = p + 1;
        }
        true
    }
}

impl PotentialKey {
    /// Reads the slot of the ciphertext letter at position `i`.
    fn survey(&self, i: usize) -> (r: Reading)
        requires
            i < 26,
        ensures
            match r {
                Reading::Vacant => is_vacant(self@[i as int]),
                Reading::Sole(p) => p < 26 && is_sole(self@[i as int], letter_at(p as int)),
                Reading::Open => !is_vacant(self@[i as int]) && !is_solved(self@[i as int]),
            },
    {
        let mut count: u8 = 0;
        let mut first: usize = 0;
        let ghost mut second: int = 0;
        let mut p: usize = 0;
        while p < 26
            invariant
                0 <= p <= 26,
                i < 26,
                count <= 2,
                count == 0 ==> forall|q: int| 0 <= q < p ==> !self.table[i as int][q],
                count >= 1 ==> first < p && self.table[i as int][first as int],
                count == 1 ==> forall|q: int|
                    0 <= q < p && self.table[i as int][q] ==> q == first,
                count == 2 ==> 0 <= second < p && second != first && self.table[i as int][second],
            decreases 26 - p,
        {
            if self.table[i][p] {
                if count == 0 {
                    first = p;
                    count = 1;
                } else if count == 1 {
                    proof {
                        second = p as int;
                    }
                    count = 2;
                }
            }
            p = p + 1;
        }
        proof {
            self.lemma_view();
        }
        if count == 0 {
            Reading::Vacant
        } else if count == 1 {
            proof {
                assert forall|d: char| self@[i as int].contains(d) implies d == letter_at(
                    first as int,
                ) by {
                    assert(letter_at(letter_index(d)) == d);
                }
            }
            Reading::Sole(first)
        } else {
            proof {
                let s = self@[i as int];
                assert(s.contains(letter_at(first as int)));
                assert(s.contains(letter_at(second)));
                assert(letter_at(first as int) != letter_at(second));
            }
            Reading::Open
        }
    }

    /// Decrypt the input string with the current key.
    ///
    /// Letters are read without regard to case; every other character is
    /// copied as it is. A letter whose slot still holds several candidates
    /// is written as `*`. Where the slot of a letter of the input is empty,
    /// there is no translation.
    pub fn translate(&self, input: &str) -> (r: Result<String, CipherError>)
        ensures
            match r {
                Ok(t) => translatable(self@, input@) && t@ == translation(self@, input@),
                Err(e) => !translatable(self@, input@) && e == CipherError::NoSolution,
            },
    {
        let chars = chars_of(input);
        let n = chars.len();
        let mut result = String::new();
        let mut i: usize = 0;
        while i < n
            invariant
                0 <= i <= n,
                n == chars.len(),
                chars@ == input@,
                translatable(self@, input@.take(i as int)),
                result@ == translation(self@, input@.take(i as int)),
            decreases n - i,
        {
            let ch = chars[i];
            let out = if !is_ascii_letter(ch) {
                ch
            } else {
                let k = index_of_letter(to_upper(ch));
                match self.survey(k) {
                    Reading::Vacant => {
                        return Err(CipherError::NoSolution);
                    },
                    Reading::Sole(p) => letter_of_index(p),
                    Reading::Open => '*',
                }
            };
            result.push(out);
            proof {
                assert(out == decode(self@, ch));
                let before = input@.take(i as int);
                let after = input@.take(i + 1);
                assert(after =~= before.push(ch));
                assert forall|j: int| 0 <= j < after.len() && is_letter(
                    #[trigger] after[j],
                ) implies !is_vacant(self@[letter_index(upper(after[j]))]) by {
                    if j < i {
                        assert(after[j] == before[j]);
                    }
                }
                assert(result@ =~= translation(self@, after));
            }
            i = i + 1;
        }
        proof {
            assert(input@.take(n as int) =~= input@);
        }
        Ok(result)
    }
}

impl PotentialKey {
    /// Construct a potential key from a list of possible words for a
    /// cipherword.
    ///
    /// Each letter of a possible word is added to the slot of the cipher
    /// letter at the same position. A slot that receives nothing gets the
    /// full mapping, since nothing can be said about it. Only upper-case
    /// letters are taken into account, in the cipherword and in the
    /// possible words, and a possible word is read no further than the
    /// cipherword reaches.
    ///
    /// | Cipherword | Possible word 1 | Possible word 2 | Resulting mapping |
    /// |------------|-----------------|-----------------|-------------------|
    /// | X          | C               | T               | X => [C,T]        |
    /// | Y          | A               | R               | Y => [A,R]        |
    /// | Z          | L               | E               | Z => [L,E]        |
    /// | Z          | L               | E               | Z => [L,E]        |
    pub fn from_possibilities(cipherword: &str, possible_words: &[String]) -> (r: PotentialKey)
        ensures
            r@ == key_from_candidates(cipherword@, word_views(possible_words@)),
    {
        let ghost cipher = cipherword@;
        let ghost words = word_views(possible_words@);
        let n = cipherword.unicode_len();
        let count = possible_words.len();
        let mut table: [[bool; 26]; 26] = [[false; 26]; 26];
        let mut k: usize = 0;
        while k < count
            invariant
                0 <= k <= count,
                count == possible_words@.len(),
                n == cipher.len(),
                cipher == cipherword@,
                words == word_views(possible_words@),
                forall|i: int, j: int|
                    0 <= i < 26 && 0 <= j < 26 ==> (#[trigger] table[i][j] <==> observed_before(
                        cipher,
                        words,
                        i,
                        letter_at(j),
                        k as int,
                        0,
                    )),
            decreases count - k,
        {
            let word = possible_words[k].as_str();
            let m = word.unicode_len();
            let reach = if m < n {
                m
            } else {
                n
            };
            assert(words[k as int] == word@);
            let mut p: usize = 0;
            while p < reach
                invariant
                    0 <= p <= reach,
                    reach <= n,
                    reach <= word@.len(),
                    0 <= k < count,
                    count == possible_words@.len(),
                    n == cipher.len(),
                    cipher == cipherword@,
                    words == word_views(possible_words@),
                    words[k as int] == word@,
                    forall|i: int, j: int|
                        0 <= i < 26 && 0 <= j < 26 ==> (#[trigger] table[i][j]
                            <==> observed_before(
                            cipher,
                            words,
                            i,
                            letter_at(j),
                            k as int,
                            p as int,
                        )),
                decreases reach - p,
            {
                let c = cipherword.get_char(p);
                let d = word.get_char(p);
                let ghost before = table;
                if c >= 'A' && c <= 'Z' && d >= 'A' && d <= 'Z' {
                    let ci = index_of_letter(c);
                    let di = index_of_letter(d);
                    let mut row = table[ci];
                    row[di] = true;
                    table[ci] = row;
                }
                proof {
                    assert forall|i: int, j: int| 0 <= i < 26 && 0 <= j < 26 implies (
                    #[trigger] table[i][j] <==> observed_before(
                        cipher,
                        words,
                        i,
                        letter_at(j),
                        k as int,
                        p + 1,
                    )) by {
                        let x = letter_at(j);
                        let hit = c == letter_at(i) && d == x;
                        assert(table[i][j] <==> (before[i][j] || hit)) by {
                            assert(letter_at(letter_index(c)) == c || !is_upper(c));
                            assert(letter_at(letter_index(d)) == d || !is_upper(d));
                        }
                        if hit {
                            assert(words[k as int][p as int] == x);
                        }
                        if observed_before(cipher, words, i, x, k as int, p as int) {
                            let (a, b) = choose|a: int, b: int|
                                0 <= a < words.len() && 0 <= b < cipher.len() && b
                                    < words[a].len() && (a < k || (a == k && b < p)) && cipher[b]
                                    == letter_at(i) && #[trigger] words[a][b] == x;
                            assert(words[a][b] == x);
                        }
                        if observed_before(cipher, words, i, x, k as int, p + 1) {
                            let (a, b) = choose|a: int, b: int|
                                0 <= a < words.len() && 0 <= b < cipher.len() && b
                                    < words[a].len() && (a < k || (a == k && b < p + 1))
                                    && cipher[b] == letter_at(i) && #[trigger] words[a][b] == x;
                            if a == k && b == p {
                                assert(hit);
                            } else {
                                assert(words[a][b] == x);
                                assert(observed_before(cipher, words, i, x, k as int, p as int));
                            }
                        }
                    }
                }
                p = p + 1;
            }
            proof {
                assert forall|i: int, j: int| 0 <= i < 26 && 0 <= j < 26 implies (
                #[trigger] table[i][j] <==> observed_before(
                    cipher,
                    words,
                    i,
                    letter_at(j),
                    k + 1,
                    0,
                )) by {
                    let x = letter_at(j);
                    if observed_before(cipher, words, i, x, k as int, reach as int) {
                        let (a, b) = choose|a: int, b: int|
                            0 <= a < words.len() && 0 <= b < cipher.len() && b < words[a].len()
                                && (a < k || (a == k && b < reach)) && cipher[b] == letter_at(i)
                                && #[trigger] words[a][b] == x;
                        assert(words[a][b] == x);
                    }
                    if observed_before(cipher, words, i, x, k + 1, 0) {
                        let (a, b) = choose|a: int, b: int|
                            0 <= a < words.len() && 0 <= b < cipher.len() && b < words[a].len()
                                && (a < k + 1 || (a == k + 1 && b < 0)) && cipher[b] == letter_at(
                                i,
                            ) && #[trigger] words[a][b] == x;
                        assert(words[a][b] == x);
                        assert(observed_before(cipher, words, i, x, k as int, reach as int));
                    }
                }
            }
            k = k + 1;
        }
        proof {
            assert forall|i: int, j: int| 0 <= i < 26 && 0 <= j < 26 implies (
            #[trigger] table[i][j] <==> observed(cipher, words, i, letter_at(j))) by {
                let x = letter_at(j);
                if observed_before(cipher, words, i, x, count as int, 0) {
                    let (a, b) = choose|a: int, b: int|
                        0 <= a < words.len() && 0 <= b < cipher.len() && b < words[a].len() && (a
                            < count || (a == count && b < 0)) && cipher[b] == letter_at(i)
                            && #[trigger] words[a][b] == x;
                    assert(words[a][b] == x);
                }
                if observed(cipher, words, i, x) {
                    let (a, b) = choose|a: int, b: int|
                        0 <= a < words.len() && 0 <= b < cipher.len() && b < words[a].len()
                            && cipher[b] == letter_at(i) && #[trigger] words[a][b] == x;
                    assert(words[a][b] == x);
                    assert(observed_before(cipher, words, i, x, count as int, 0));
                }
            }
        }
        let ghost seen = table;
        let mut i: usize = 0;
        while i < 26
            invariant
                0 <= i <= 26,
                forall|a: int, j: int|
                    0 <= a < 26 && 0 <= j < 26 ==> (#[trigger] table[a][j] <==> if a < i && (
                    forall|q: int| 0 <= q < 26 ==> !seen[a][q]) {
                        a != j
                    } else {
                        seen[a][j]
                    }),
            decreases 26 - i,
        {
            let mut any = false;
            let mut j: usize = 0;
            while j < 26
                invariant
                    0 <= j <= 26,
                    0 <= i < 26,
                    any <==> exists|q: int| 0 <= q < j && #[trigger] table[i as int][q],
                decreases 26 - j,
            {
                if table[i][j] {
                    any = true;
                }
                j = j + 1;
            }
            proof {
                if any {
                    let q = choose|q: int| 0 <= q < 26 && #[trigger] table[i as int][q];
                    assert(seen[i as int][q]);
                } else {
                    assert forall|q: int| 0 <= q < 26 implies !seen[i as int][q] by {
                        assert(!table[i as int][q]);
                    }
                }
            }
            if !any {
                let mut row: [bool; 26] = [true; 26];
                row[i] = false;
                table[i] = row;
            }
            i = i + 1;
        }
        let r = PotentialKey { table };
        proof {
            r.lemma_view();
            assert forall|a: int| 0 <= a < 26 implies r@[a] =~= key_from_candidates(
                cipher,
                words,
            )[a] by {
                let slot = observed_slot(cipher, words, a);
                assert forall|c: char| is_upper(c) implies (slot.contains(c)
                    <==> seen[a][letter_index(c)]) by {
                    assert(letter_at(letter_index(c)) == c);
                }
                if forall|q: int| 0 <= q < 26 ==> !seen[a][q] {
                    assert(is_vacant(slot));
                    assert forall|c: char| r@[a].contains(c) <==> full_slot(a).contains(c) by {
                        if is_upper(c) {
                            assert(letter_at(letter_index(c)) == c);
                        }
                    }
                } else {
                    let q = choose|q: int| 0 <= q < 26 && seen[a][q];
                    assert(slot.contains(letter_at(q)));
                    assert(!is_vacant(slot));
                }
            }
            assert(r@ =~= key_from_candidates(cipher, words));
        }
        r
    }
}

impl PotentialKey {
    /// Remove characters that we already decoded from the other mappings
    /// in the key.
    ///
    /// If a mapping holds only one character, for example `A => [B]`, then
    /// no other character can map to `B` anymore, and `B` leaves the
    /// mappings of all other characters. Which mappings hold one character
    /// is decided before anything is removed.
    pub fn remove_fixed_characters_from_other_mappings(&mut self)
        ensures
            final(self)@ == propagate(old(self)@),
    {
        let before = *self;
        let mut fixed: Vec<(usize, usize)> = Vec::new();
        let mut idx: usize = 0;
        while idx < 26
            invariant
                0 <= idx <= 26,
                *self == before,
                forall|e: int|
                    0 <= e < fixed.len() ==> (#[trigger] fixed[e]).0 < 26 && fixed[e].1 < 26
                        && is_sole(before@[fixed[e].0 as int], letter_at(fixed[e].1 as int)),
                forall|j: int, c: char|
                    0 <= j < idx && #[trigger] is_sole(before@[j], c) ==> exists|e: int|
                        0 <= e < fixed.len() && (#[trigger] fixed[e]).0 == j && letter_at(
                            fixed[e].1 as int,
                        ) == c,
            decreases 26 - idx,
        {
            match self.survey(idx) {
                Reading::Sole(p) => {
                    let ghost earlier = fixed@;
                    fixed.push((idx, p));
                    proof {
                        let last = earlier.len() as int;
                        assert(fixed[last] == (idx, p));
                        assert forall|j: int, c: char|
                            0 <= j < idx + 1 && #[trigger] is_sole(before@[j], c) implies exists|
                            e: int,
                        |
                            0 <= e < fixed.len() && (#[trigger] fixed[e]).0 == j && letter_at(
                                fixed[e].1 as int,
                            ) == c by {
                            if j < idx {
                                let e = choose|e: int|
                                    0 <= e < earlier.len() && (#[trigger] earlier[e]).0 == j
                                        && letter_at(earlier[e].1 as int) == c;
                                assert(fixed[e] == earlier[e]);
                            } else {
                                assert(fixed[last].0 == j);
                            }
                        }
                    }
                },
                _ => {},
            }
            idx = idx + 1;
        }
        let mut m: usize = 0;
        while m < fixed.len()
            invariant
                0 <= m <= fixed.len(),
                forall|e: int|
                    0 <= e < fixed.len() ==> (#[trigger] fixed[e]).0 < 26 && fixed[e].1 < 26,
                forall|i: int, j: int|
                    0 <= i < 26 && 0 <= j < 26 ==> (#[trigger] self.table[i][j]
                        <==> before.table[i][j] && !exists|e: int|
                        0 <= e < m && (#[trigger] fixed[e]).0 != i && fixed[e].1 == j),
            decreases fixed.len() - m,
        {
            let (owner, letter) = fixed[m];
            let ghost start = self.table;
            let mut kidx: usize = 0;
            while kidx < 26
                invariant
                    0 <= kidx <= 26,
                    owner < 26,
                    letter < 26,
                    forall|i: int, j: int|
                        0 <= i < 26 && 0 <= j < 26 ==> (#[trigger] self.table[i][j]
                            <==> start[i][j] && !(i < kidx && i != owner && j == letter)),
                decreases 26 - kidx,
            {
                if kidx != owner {
                    let mut row = self.table[kidx];
                    row[letter] = false;
                    self.table[kidx] = row;
                }
                kidx = kidx + 1;
            }
            proof {
                assert forall|i: int, j: int| 0 <= i < 26 && 0 <= j < 26 implies (
                #[trigger] self.table[i][j] <==> before.table[i][j] && !exists|e: int|
                    0 <= e < m + 1 && (#[trigger] fixed[e]).0 != i && fixed[e].1 == j) by {
                    let hit = owner != i && letter == j;
                    if hit {
                        assert(fixed[m as int].0 != i && fixed[m as int].1 == j);
                    }
                    if exists|e: int|
                        0 <= e < m + 1 && (#[trigger] fixed[e]).0 != i && fixed[e].1 == j {
                        let e = choose|e: int|
                            0 <= e < m + 1 && (#[trigger] fixed[e]).0 != i && fixed[e].1 == j;
                        if e < m {
                            assert(exists|e: int|
                                0 <= e < m && (#[trigger] fixed[e]).0 != i && fixed[e].1 == j);
                        }
                    }
                }
            }
            m = m + 1;
        }
        proof {
            self.lemma_view();
            before.lemma_view();
            let k = before@;
            assert forall|i: int| 0 <= i < 26 implies self@[i] =~= propagate(k)[i] by {
                assert forall|c: char| self@[i].contains(c) <==> propagate(k)[i].contains(c) by {
                    if is_upper(c) {
                        let j = letter_index(c);
                        assert(letter_at(j) == c);
                        if fixed_elsewhere(k, i, c) {
                            let o = choose|o: int|
                                0 <= o < 26 && o != i && is_sole(#[trigger] k[o], c);
                            let e = choose|e: int|
                                0 <= e < fixed.len() && (#[trigger] fixed[e]).0 == o && letter_at(
                                    fixed[e].1 as int,
                                ) == c;
                            assert(fixed[e].0 != i && fixed[e].1 == j);
                        }
                        if exists|e: int|
                            0 <= e < fixed.len() && (#[trigger] fixed[e]).0 != i && fixed[e].1
                                == j {
                            let e = choose|e: int|
                                0 <= e < fixed.len() && (#[trigger] fixed[e]).0 != i && fixed[e].1
                                    == j;
                            assert(is_sole(k[fixed[e].0 as int], c));
                        }
                    }
                }
            }
            assert(self@ =~= propagate(k));
        }
    }

    /// A printable representation of the key: one line for each ciphertext
    /// letter, with its candidates in alphabetical order, such as
    /// `E => [A,B,C,] `.
    pub fn to_string(&self) -> (r: String)
        ensures
            r@ == key_text(self@, 26),
    {
        let mut out = String::new();
        let mut i: usize = 0;
        proof {
            self.lemma_view();
        }
        while i < 26
            invariant
                0 <= i <= 26,
                out@ == key_text(self@, i as nat),
                forall|a: int, p: int|
                    0 <= a < 26 && 0 <= p < 26 ==> (#[trigger] self@[a].contains(letter_at(p))
                        <==> self.allows(a, p)),
            decreases 26 - i,
        {
            let ghost head = out@;
            out.push(letter_of_index(i));
            out.push(' ');
            out.push('=');
            out.push('>');
            out.push(' ');
            out.push('[');
            let ghost opened = out@;
            let mut p: usize = 0;
            while p < 26
                invariant
                    0 <= p <= 26,
                    0 <= i < 26,
                    out@ == opened + slot_text(self@[i as int], p as nat),
                    forall|a: int, p: int|
                        0 <= a < 26 && 0 <= p < 26 ==> (#[trigger] self@[a].contains(
                            letter_at(p),
                        ) <==> self.allows(a, p)),
                decreases 26 - p,
            {
                if self.table[i][p] {
                    out.push(letter_of_index(p));
                    out.push(',');
                    assert(out@ =~= opened + slot_text(self@[i as int], (p + 1) as nat));
                }
                p = p + 1;
            }
            out.push(']');
            out.push(' ');
            out.push('\n');
            assert(out@ =~= head + row_text(self@, i as int));
            i = i + 1;
        }
        out
    }
}

impl<'a> TryFrom<&'a str> for PotentialKey {
    type Error = CipherError;

    /// Reads a fixed key: 26 letters that give, for the plaintext letters
    /// `A` to `Z` in turn, the ciphertext letter that each is encrypted
    /// to. Case is not looked at. Any other text is no key.
    fn try_from(value: &'a str) -> (r: Result<Self, CipherError>)
        ensures
            match r {
                Ok(k) => is_key_notation(value@) && k@ == key_of_notation(value@),
                Err(e) => !is_key_notation(value@) && e == CipherError::InvalidKey,
            },
    {
        if value.unicode_len() != 26 {
            return Err(CipherError::InvalidKey);
        }
        let mut table: [[bool; 26]; 26] = [[false; 26]; 26];
        let mut idx: usize = 0;
        while idx < 26
            invariant
                0 <= idx <= 26,
                value@.len() == 26,
                forall|q: int| 0 <= q < idx ==> is_letter(#[trigger] value@[q]),
                forall|i: int, j: int|
                    0 <= i < 26 && 0 <= j < 26 ==> (#[trigger] table[i][j] <==> j < idx && upper(
                        value@[j],
                    ) == letter_at(i)),
            decreases 26 - idx,
        {
            let character = value.get_char(idx);
            if !is_ascii_letter(character) {
                return Err(CipherError::InvalidKey);
            }
            let code = index_of_letter(to_upper(character));
            let mut row = table[code];
            row[idx] = true;
            table[code] = row;
            proof {
                assert(letter_at(code as int) == upper(character));
            }
            idx = idx + 1;
        }
        let key = PotentialKey { table };
        proof {
            key.lemma_view();
            assert forall|i: int| 0 <= i < 26 implies key@[i] =~= key_of_notation(value@)[i] by {}
            assert(key@ =~= key_of_notation(value@));
            let chosen = choose|k: PotentialKey| k@ == key_of_notation(value@);
            key.lemma_view_injective(&chosen);
        }
        Ok(key)
    }
}

impl<'a> vstd::std_specs::convert::TryFromSpecImpl<&'a str> for PotentialKey {
    open spec fn obeys_try_from_spec() -> bool {
        true
    }

    open spec fn try_from_spec(v: &'a str) -> Result<Self, CipherError> {
        if is_key_notation(v@) {
            Ok(choose|k: PotentialKey| k@ == key_of_notation(v@))
        } else {
            Err(CipherError::InvalidKey)
        }
    }
}

impl PartialEq for PotentialKey {
    /// Two keys are equal when every slot holds the same letters.
    fn eq(&self, other: &Self) -> (r: bool) {
        let mut i: usize = 0;
        while i < 26
            invariant
                0 <= i <= 26,
                forall|a: int, p: int|
                    0 <= a < i && 0 <= p < 26 ==> self.table[a][p] == other.table[a][p],
            decreases 26 - i,
        {
            let mut j: usize = 0;
            while j < 26
                invariant
                    0 <= i < 26,
                    0 <= j <= 26,
                    forall|p: int|
                        0 <= p < j ==> self.table[i as int][p] == other.table[i as int][p],
                decreases 26 - j,
            {
                if self.table[i][j] != other.table[i][j] {
                    proof {
                        self.lemma_view();
                        other.lemma_view();
                        assert(self.allows(i as int, j as int) != other.allows(
                            i as int,
                            j as int,
                        ));
                        let c = letter_at(j as int);
                        assert(self@[i as int].contains(c) != other@[i as int].contains(c));
                    }
                    return false;
                }
                j = j + 1;
            }
            i = i + 1;
        }
        proof {
            assert forall|a: int| 0 <= a < 26 implies self.table[a] == other.table[a] by {
                assert(self.table[a] =~= other.table[a]);
            }
            assert(self.table =~= other.table);
        }
        true
    }
}

impl vstd::std_specs::cmp::PartialEqSpecImpl for PotentialKey {
    open spec fn obeys_eq_spec() -> bool {
        true
    }

    open spec fn eq_spec(&self, other: &Self) -> bool {
        self@ == other@
    }
}

impl Eq for PotentialKey {

}

impl PotentialKey {
    /// As `matches`, but tells a word of the wrong length apart from one
    /// that does not fit the key: where the two words differ in length
    /// there is no answer.
    pub fn try_matches(&self, plainword: &str, cipherword: &str) -> (r: Result<bool, CipherError>)
        ensures
            match r {
                Ok(b) => plainword@.len() == cipherword@.len() && b == key_matches(
                    self@,
                    plainword@,
                    cipherword@,
                ),
                Err(e) => plainword@.len() != cipherword@.len() && e
                    == CipherError::LengthMismatch,
            },
    {
        if plainword.unicode_len() != cipherword.unicode_len() {
            Err(CipherError::LengthMismatch)
        } else {
            Ok(self.matches(plainword, cipherword))
        }
    }
}

impl Default for PotentialKey {
    /// Returns the key in which every mapping is empty.
    fn default() -> (r: Self)
        ensures
            r@ == empty_key(),
    {
        let r = PotentialKey { table: [[false; 26]; 26] };
        proof {
            r.lemma_view();
            assert forall|a: int| 0 <= a < 26 implies r@[a] =~= Set::<char>::empty() by {}
            assert(r@ =~= empty_key());
        }
        r
    }
}

} // verus!
