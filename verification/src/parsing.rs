//! Word signatures and the splitting of puzzle text into words.

use vstd::prelude::*;
use crate::alphabet::{
    index_of_letter, is_ascii_letter, is_letter, is_upper, letter_at, letter_index, to_upper,
    upper,
};
use crate::error::CipherError;
use crate::text::{chars_of, word_views};
use crate::sequences::{
    first_index, lemma_first_index, lemma_first_index_at, leading, lemma_leading,
    lemma_leading_bound,
};

verus! {

/// Longest word whose signature fits in 128 bits.
pub const MAX_WORD_LEN: usize = 27;

/// The word with every letter folded to upper case.
pub open spec fn upper_word(w: Seq<char>) -> Seq<char> {
    Seq::new(w.len(), |i: int| upper(w[i]))
}

/// Every character of `w` is an ASCII letter.
pub open spec fn is_word(w: Seq<char>) -> bool {
    forall|i: int| 0 <= i < w.len() ==> is_letter(#[trigger] w[i])
}

/// `w` is a word that a signature can be computed for.
pub open spec fn has_signature(w: Seq<char>) -> bool {
    0 < w.len() <= MAX_WORD_LEN && is_word(w)
}

/// How many of the first `n` letters of the alphabet occur in `s`.
pub open spec fn letters_below(s: Seq<char>, n: nat) -> nat
    decreases n,
{
    if n == 0 {
        0
    } else {
        letters_below(s, (n - 1) as nat) + if s.contains(letter_at(n - 1)) {
            1nat
        } else {
            0nat
        }
    }
}

/// How many distinct upper-case letters occur in `s`.
pub open spec fn distinct_letters(s: Seq<char>) -> nat {
    letters_below(s, 26)
}

/// The number given to the letter at position `i` of `w`: how many distinct
/// letters occur before the first occurrence of that letter.
pub open spec fn label(w: Seq<char>, i: int) -> nat {
    distinct_letters(w.take(first_index(w, w[i])))
}

/// The repeat pattern of `w`: the label of each position.
pub open spec fn pattern(w: Seq<char>) -> Seq<nat> {
    Seq::new(w.len(), |i: int| label(w, i))
}

/// The number written in base 26 as the digit 1 followed by the digits `d`.
pub open spec fn encode(d: Seq<nat>) -> nat
    decreases d.len(),
{
    if d.len() == 0 {
        1
    } else {
        26 * encode(d.drop_last()) + d.last()
    }
}

/// The signature of a word: its repeat pattern, taken without regard to
/// case, as one number.
pub open spec fn signature_of(w: Seq<char>) -> nat {
    encode(pattern(upper_word(w)))
}

/// Two words repeat their letters at the same positions.
pub open spec fn same_shape(a: Seq<char>, b: Seq<char>) -> bool {
    &&& a.len() == b.len()
    &&& forall|i: int, j: int|
        0 <= i < a.len() && 0 <= j < a.len() ==> ((a[i] == a[j]) <==> (b[i] == b[j]))
}

/// 26 to the power `n`.
pub open spec fn pow26(n: nat) -> nat
    decreases n,
{
    if n == 0 {
        1
    } else {
        26 * pow26((n - 1) as nat)
    }
}

/// Every character of `s` is an upper-case letter.
pub open spec fn is_upper_word(s: Seq<char>) -> bool {
    forall|i: int| 0 <= i < s.len() ==> is_upper(#[trigger] s[i])
}

proof fn lemma_letters_below_bound(s: Seq<char>, n: nat)
    ensures
        letters_below(s, n) <= n,
    decreases n,
{
    if n > 0 {
        lemma_letters_below_bound(s, (n - 1) as nat);
    }
}

proof fn lemma_letters_below_missing(s: Seq<char>, n: nat, k: nat)
    requires
        k < n,
        !s.contains(letter_at(k as int)),
    ensures
        letters_below(s, n) < n,
    decreases n,
{
    if k == n - 1 {
        lemma_letters_below_bound(s, (n - 1) as nat);
    } else {
        lemma_letters_below_missing(s, (n - 1) as nat, k);
    }
}

proof fn lemma_letters_below_push(s: Seq<char>, c: char, n: nat)
    requires
        is_upper(c),
        n <= 26,
    ensures
        letters_below(s.push(c), n) == letters_below(s, n) + if letter_index(c) < n
            && !s.contains(c) {
            1nat
        } else {
            0nat
        },
    decreases n,
{
    if n > 0 {
        lemma_letters_below_push(s, c, (n - 1) as nat);
        let x = letter_at(n - 1);
        let t = s.push(c);
        assert(t[s.len() as int] == c);
        if s.contains(x) {
            let k = choose|k: int| 0 <= k < s.len() && s[k] == x;
            assert(t[k] == x);
        }
        if t.contains(x) && x != c {
            let k = choose|k: int| 0 <= k < t.len() && t[k] == x;
            assert(s[k] == x);
        }
    }
}

/// A letter that `s` lacks raises the count of distinct letters by one;
/// one that it holds leaves the count unchanged.
pub proof fn lemma_distinct_letters_push(s: Seq<char>, c: char)
    requires
        is_upper(c),
    ensures
        distinct_letters(s.push(c)) == distinct_letters(s) + if s.contains(c) {
            0nat
        } else {
            1nat
        },
        distinct_letters(s) <= 26,
        !s.contains(c) ==> distinct_letters(s) <= 25,
{
    lemma_letters_below_push(s, c, 26);
    lemma_letters_below_bound(s, 26);
    if !s.contains(c) {
        assert(letter_at(letter_index(c)) == c);
        lemma_letters_below_missing(s, 26, letter_index(c) as nat);
    }
}

/// A longer prefix holds at least as many distinct letters.
pub proof fn lemma_distinct_letters_prefix(s: Seq<char>, i: int, j: int)
    requires
        is_upper_word(s),
        0 <= i <= j <= s.len(),
    ensures
        distinct_letters(s.take(i)) <= distinct_letters(s.take(j)),
    decreases j - i,
{
    if i < j {
        lemma_distinct_letters_prefix(s, i, j - 1);
        assert(s.take(j) =~= s.take(j - 1).push(s[j - 1]));
        lemma_distinct_letters_push(s.take(j - 1), s[j - 1]);
    }
}

/// Labels are digits of base 26.
pub proof fn lemma_label_bound(w: Seq<char>, i: int)
    requires
        0 <= i < w.len(),
        is_upper(w[i]),
    ensures
        label(w, i) <= 25,
{
    lemma_first_index_at(w, i);
    lemma_distinct_letters_push(w.take(first_index(w, w[i])), w[i]);
}

/// Every digit of `d` is below 26.
pub open spec fn is_digits(d: Seq<nat>) -> bool {
    forall|i: int| 0 <= i < d.len() ==> #[trigger] d[i] <= 25
}

/// An encoding of `n` digits lies between `26^n` and twice that.
pub proof fn lemma_encode_bound(d: Seq<nat>)
    requires
        is_digits(d),
    ensures
        pow26(d.len()) <= encode(d) < 2 * pow26(d.len()),
    decreases d.len(),
{
    if d.len() > 0 {
        lemma_encode_bound(d.drop_last());
    }
}

proof fn lemma_pow26_monotone(a: nat, b: nat)
    requires
        a <= b,
    ensures
        0 < pow26(a) <= pow26(b),
    decreases b,
{
    if b > 0 {
        if a < b {
            lemma_pow26_monotone(a, (b - 1) as nat);
        } else {
            lemma_pow26_monotone((a - 1) as nat, (b - 1) as nat);
        }
    }
}

proof fn lemma_pow26_limit()
    ensures
        pow26(27) == 160059109085386090080713531498405298176,
{
    assert(pow26(3) == 17576) by {
        reveal_with_fuel(pow26, 4);
    }
    assert(pow26(6) == 308915776) by {
        reveal_with_fuel(pow26, 4);
    }
    assert(pow26(9) == 5429503678976) by {
        reveal_with_fuel(pow26, 4);
    }
    assert(pow26(12) == 95428956661682176) by {
        reveal_with_fuel(pow26, 4);
    }
    assert(pow26(15) == 1677259342285725925376) by {
        reveal_with_fuel(pow26, 4);
    }
    assert(pow26(18) == 29479510200013918864408576) by {
        reveal_with_fuel(pow26, 4);
    }
    assert(pow26(21) == 518131871275444637960845131776) by {
        reveal_with_fuel(pow26, 4);
    }
    assert(pow26(24) == 9106685769537214956799814036094976) by {
        reveal_with_fuel(pow26, 4);
    }
    assert(pow26(27) == 160059109085386090080713531498405298176) by {
        reveal_with_fuel(pow26, 4);
    }
}

/// The signature of every word of at most 27 letters fits in 128 bits.
pub proof fn lemma_signature_fits(w: Seq<char>)
    requires
        is_word(w),
        w.len() <= MAX_WORD_LEN,
    ensures
        signature_of(w) <= u128::MAX,
{
    let u = upper_word(w);
    let p = pattern(u);
    assert forall|i: int| 0 <= i < p.len() implies #[trigger] p[i] <= 25 by {
        lemma_label_bound(u, i);
    }
    lemma_encode_bound(p);
    lemma_pow26_monotone(p.len(), 27);
    lemma_pow26_limit();
}

proof fn lemma_same_shape_distinct(a: Seq<char>, b: Seq<char>)
    requires
        is_upper_word(a),
        is_upper_word(b),
        same_shape(a, b),
    ensures
        distinct_letters(a) == distinct_letters(b),
    decreases a.len(),
{
    if a.len() == 0 {
        assert(a =~= b);
    } else {
        let a1 = a.drop_last();
        let b1 = b.drop_last();
        let n = a1.len() as int;
        assert(same_shape(a1, b1));
        lemma_same_shape_distinct(a1, b1);
        assert(a =~= a1.push(a[n]));
        assert(b =~= b1.push(b[n]));
        lemma_distinct_letters_push(a1, a[n]);
        lemma_distinct_letters_push(b1, b[n]);
        if a1.contains(a[n]) {
            let k = choose|k: int| 0 <= k < a1.len() && a1[k] == a[n];
            assert(a[k] == a[n]);
            assert(b1[k] == b[n]);
        }
        if b1.contains(b[n]) {
            let k = choose|k: int| 0 <= k < b1.len() && b1[k] == b[n];
            assert(b[k] == b[n]);
            assert(a1[k] == a[n]);
        }
    }
}

proof fn lemma_same_shape_pattern(a: Seq<char>, b: Seq<char>)
    requires
        is_upper_word(a),
        is_upper_word(b),
        same_shape(a, b),
    ensures
        pattern(a) == pattern(b),
{
    assert forall|i: int| 0 <= i < a.len() implies label(a, i) == label(b, i) by {
        lemma_first_index_at(a, i);
        lemma_first_index_at(b, i);
        lemma_first_index(a, a[i]);
        lemma_first_index(b, b[i]);
        let fa = first_index(a, a[i]);
        let fb = first_index(b, b[i]);
        assert(b[fa] == b[i]);
        assert(a[fb] == a[i]);
        assert(fa == fb);
        assert(same_shape(a.take(fa), b.take(fa)));
        lemma_same_shape_distinct(a.take(fa), b.take(fa));
    }
    assert(pattern(a) =~= pattern(b));
}

/// Two positions of a word carry the same label exactly when they carry
/// the same letter.
pub proof fn lemma_label_injective(w: Seq<char>, i: int, j: int)
    requires
        is_upper_word(w),
        0 <= i < w.len(),
        0 <= j < w.len(),
    ensures
        label(w, i) == label(w, j) <==> w[i] == w[j],
{
    if w[i] != w[j] {
        lemma_first_index_at(w, i);
        lemma_first_index_at(w, j);
        let fi = first_index(w, w[i]);
        let fj = first_index(w, w[j]);
        let (lo, hi) = if fi < fj {
            (fi, fj)
        } else {
            (fj, fi)
        };
        assert(lo < hi);
        assert(w.take(lo + 1) =~= w.take(lo).push(w[lo]));
        lemma_distinct_letters_push(w.take(lo), w[lo]);
        lemma_distinct_letters_prefix(w, lo + 1, hi);
    }
}

/// Different digit sequences have different encodings.
pub proof fn lemma_encode_injective(d1: Seq<nat>, d2: Seq<nat>)
    requires
        is_digits(d1),
        is_digits(d2),
        encode(d1) == encode(d2),
    ensures
        d1 == d2,
    decreases d1.len(),
{
    if d1.len() == 0 {
        if d2.len() > 0 {
            lemma_encode_bound(d2.drop_last());
        }
        assert(d1 =~= d2);
    } else if d2.len() == 0 {
        lemma_encode_bound(d1.drop_last());
    } else {
        lemma_encode_injective(d1.drop_last(), d2.drop_last());
        assert(d1 =~= d1.drop_last().push(d1.last()));
        assert(d2 =~= d2.drop_last().push(d2.last()));
    }
}

/// Two words have the same signature exactly when they have the same
/// shape: whenever two positions of one hold the same letter, so do the
/// same two positions of the other. Case is not looked at.
pub proof fn lemma_signature_shape(a: Seq<char>, b: Seq<char>)
    requires
        is_word(a),
        is_word(b),
    ensures
        signature_of(a) == signature_of(b) <==> same_shape(upper_word(a), upper_word(b)),
{
    let ua = upper_word(a);
    let ub = upper_word(b);
    assert(is_upper_word(ua));
    assert(is_upper_word(ub));
    if same_shape(ua, ub) {
        lemma_same_shape_pattern(ua, ub);
    }
    if signature_of(a) == signature_of(b) {
        let pa = pattern(ua);
        let pb = pattern(ub);
        assert forall|i: int| 0 <= i < pa.len() implies #[trigger] pa[i] <= 25 by {
            lemma_label_bound(ua, i);
        }
        assert forall|i: int| 0 <= i < pb.len() implies #[trigger] pb[i] <= 25 by {
            lemma_label_bound(ub, i);
        }
        lemma_encode_injective(pa, pb);
        assert(ua.len() == pa.len());
        assert(ub.len() == pb.len());
        assert forall|i: int, j: int| 0 <= i < ua.len() && 0 <= j < ua.len() implies ((ua[i]
            == ua[j]) <==> (ub[i] == ub[j])) by {
            lemma_label_injective(ua, i, j);
            lemma_label_injective(ub, i, j);
            assert(pa[i] == label(ua, i));
            assert(pa[j] == label(ua, j));
            assert(pb[i] == label(ub, i));
            assert(pb[j] == label(ub, j));
        }
    }
}

/// The word `w` with its letters folded to upper case and then replaced
/// through `p`.
pub open spec fn relabel(w: Seq<char>, p: spec_fn(char) -> char) -> Seq<char> {
    Seq::new(w.len(), |i: int| p(upper(w[i])))
}

/// `p` sends upper-case letters to upper-case letters, and no two of them
/// to the same one: it permutes the alphabet.
pub open spec fn is_letter_bijection(p: spec_fn(char) -> char) -> bool {
    &&& forall|c: char| is_upper(c) ==> is_upper(#[trigger] p(c))
    &&& forall|c: char, d: char|
        is_upper(c) && is_upper(d) && #[trigger] p(c) == #[trigger] p(d) ==> c == d
}

/// Replacing the letters of a word through a permutation of the alphabet
/// leaves its signature unchanged.
pub proof fn lemma_signature_relabel(w: Seq<char>, p: spec_fn(char) -> char)
    requires
        is_word(w),
        is_letter_bijection(p),
    ensures
        is_word(relabel(w, p)),
        signature_of(relabel(w, p)) == signature_of(w),
{
    let r = relabel(w, p);
    assert forall|i: int| 0 <= i < r.len() implies is_letter(#[trigger] r[i]) by {
        assert(is_letter(w[i]));
        assert(is_upper(p(upper(w[i]))));
    }
    let uw = upper_word(w);
    let ur = upper_word(r);
    assert forall|i: int, j: int| 0 <= i < uw.len() && 0 <= j < uw.len() implies ((uw[i]
        == uw[j]) <==> (ur[i] == ur[j])) by {
        assert(is_letter(w[i]));
        assert(is_letter(w[j]));
        assert(is_upper(p(upper(w[i]))));
        assert(is_upper(p(upper(w[j]))));
    }
    lemma_signature_shape(w, r);
}

/// Words of different lengths have different signatures.
pub proof fn lemma_signature_length(a: Seq<char>, b: Seq<char>)
    requires
        is_word(a),
        is_word(b),
        a.len() != b.len(),
    ensures
        signature_of(a) != signature_of(b),
{
    lemma_signature_shape(a, b);
}

/// Folding to upper case changes neither whether a word has a signature
/// nor which one, and folding twice is folding once.
pub proof fn lemma_upper_word(w: Seq<char>)
    ensures
        upper_word(upper_word(w)) == upper_word(w),
        is_word(upper_word(w)) == is_word(w),
        has_signature(upper_word(w)) == has_signature(w),
        signature_of(upper_word(w)) == signature_of(w),
{
    let u = upper_word(w);
    assert(upper_word(u) =~= u);
    if is_word(w) {
        assert forall|i: int| 0 <= i < u.len() implies is_letter(#[trigger] u[i]) by {
            assert(is_letter(w[i]));
        }
    }
    if is_word(u) {
        assert forall|i: int| 0 <= i < w.len() implies is_letter(#[trigger] w[i]) by {
            assert(is_letter(u[i]));
        }
    }
}

/// The word with every ASCII letter folded to upper case.
pub fn to_upper_word(word: &str) -> (r: String)
    ensures
        r@ == upper_word(word@),
{
    let chars = chars_of(word);
    let mut out = String::new();
    let mut i: usize = 0;
    while i < chars.len()
        invariant
            0 <= i <= chars.len(),
            chars@ == word@,
            out@ == upper_word(word@.take(i as int)),
        decreases chars.len() - i,
    {
        out.push(to_upper(chars[i]));
        assert(out@ =~= upper_word(word@.take(i + 1)));
        i = i + 1;
    }
    assert(word@.take(chars.len() as int) =~= word@);
    out
}

/// Marks a letter that has not been given a label yet.
const UNSEEN: u8 = 99;

/// Calculates the signature of a word.
///
/// Letters are numbered in the order of their first appearance, without
/// regard to case, and the numbers are read as the digits of a base-26
/// numeral behind a leading 1. Two words have the same signature exactly
/// when they repeat their letters at the same positions, so a word and
/// any encryption of it under a substitution cipher share one.
///
/// A word that is empty, holds anything but ASCII letters, or has more
/// than 27 letters has no signature.
pub fn translate_word_to_signature(word: &str) -> (r: Result<u128, CipherError>)
    ensures
        match r {
            Ok(s) => has_signature(word@) && s == signature_of(word@),
            Err(e) => !has_signature(word@) && e == CipherError::UnsupportedInput,
        },
{
    let n = word.unicode_len();
    if n == 0 || n > MAX_WORD_LEN {
        return Err(CipherError::UnsupportedInput);
    }
    let ghost w = upper_word(word@);
    let ghost p = pattern(w);
    let mut signature: u128 = 1;
    let mut labels: [u8; 26] = [UNSEEN; 26];
    let mut next: u8 = 0;
    let mut i: usize = 0;
    proof {
        assert(p.take(0) =~= Seq::<nat>::empty());
        assert(w.take(0) =~= Seq::<char>::empty());
        reveal_with_fuel(letters_below, 27);
    }
    while i < n
        invariant
            0 <= i <= n,
            n == word@.len(),
            n <= MAX_WORD_LEN,
            w == upper_word(word@),
            p == pattern(w),
            is_word(word@.take(i as int)),
            is_upper_word(w.take(i as int)),
            signature == encode(p.take(i as int)),
            next == distinct_letters(w.take(i as int)),
            forall|k: int|
                0 <= k < 26 ==> ((#[trigger] labels[k] == UNSEEN) <==> !w.take(i as int).contains(
                    letter_at(k),
                )),
            forall|k: int|
                0 <= k < 26 && #[trigger] labels[k] != UNSEEN ==> labels[k] == distinct_letters(
                    w.take(first_index(w, letter_at(k))),
                ),
        decreases n - i,
    {
        let ch = word.get_char(i);
        if !is_ascii_letter(ch) {
            return Err(CipherError::UnsupportedInput);
        }
        let c = to_upper(ch);
        let k = index_of_letter(c);
        proof {
            assert(w[i as int] == c);
            assert(letter_at(k as int) == c);
            lemma_first_index_at(w, i as int);
            lemma_distinct_letters_push(w.take(i as int), c);
            assert(w.take(i + 1) =~= w.take(i as int).push(c));
            assert(word@.take(i + 1) =~= word@.take(i as int).push(ch));
            assert forall|j: int| 0 <= j < 26 implies (w.take(i + 1).contains(letter_at(j))
                <==> (j == k || w.take(i as int).contains(letter_at(j)))) by {
                let x = letter_at(j);
                let t = w.take(i + 1);
                let s = w.take(i as int);
                assert(t[i as int] == c);
                if s.contains(x) {
                    let m = choose|m: int| 0 <= m < s.len() && s[m] == x;
                    assert(t[m] == x);
                }
                if t.contains(x) && x != c {
                    let m = choose|m: int| 0 <= m < t.len() && t[m] == x;
                    assert(s[m] == x);
                }
            }
        }
        if labels[k] == UNSEEN {
            labels[k] = next;
            next = next + 1;
        }
        let digit = labels[k];
        proof {
            assert(digit == label(w, i as int));
            assert(is_upper_word(w.take(i + 1)));
            lemma_label_bound(w, i as int);
            let q = p.take(i + 1);
            assert(q.drop_last() =~= p.take(i as int));
            assert(q.last() == label(w, i as int));
            assert forall|j: int| 0 <= j < q.len() implies #[trigger] q[j] <= 25 by {
                assert(is_upper(w.take(i + 1)[j]));
                lemma_label_bound(w, j);
            }
            lemma_encode_bound(q);
            lemma_pow26_monotone(q.len(), 27);
            lemma_pow26_limit();
        }
        signature = signature * 26 + digit as u128;
        i = i + 1;
    }
    proof {
        assert(p.take(n as int) =~= p);
        assert(word@.take(n as int) =~= word@);
    }
    Ok(signature)
}

/// The test that ASCII letters pass.
pub open spec fn letters() -> spec_fn(char) -> bool {
    |c: char| is_letter(c)
}

/// The words of a text: its longest runs of letters, in upper case and in
/// the order in which they stand. Whatever is no letter separates words
/// and belongs to none.
pub open spec fn words_in(s: Seq<char>) -> Seq<Seq<char>>
    decreases s.len(),
{
    if s.len() == 0 {
        Seq::empty()
    } else if !is_letter(s[0]) {
        words_in(s.drop_first())
    } else {
        let n = leading(s, letters()) as int;
        proof {
            lemma_leading_bound(s, letters());
        }
        seq![upper_word(s.take(n))] + words_in(s.skip(n))
    }
}

/// Every word of a text has at least one letter, and its letters are in
/// upper case.
pub proof fn lemma_words_in(s: Seq<char>)
    ensures
        forall|k: int|
            0 <= k < words_in(s).len() ==> (#[trigger] words_in(s)[k]).len() > 0 && is_upper_word(
                words_in(s)[k],
            ),
    decreases s.len(),
{
    if s.len() == 0 {
        assert(words_in(s).len() == 0);
    } else if !is_letter(s[0]) {
        lemma_words_in(s.drop_first());
        assert(words_in(s) == words_in(s.drop_first()));
    } else {
        let n = leading(s, letters()) as int;
        lemma_leading_bound(s, letters());
        lemma_leading_letters(s);
        lemma_words_in(s.skip(n));
        let first = upper_word(s.take(n));
        let rest = words_in(s.skip(n));
        assert forall|i: int| 0 <= i < first.len() implies is_upper(#[trigger] first[i]) by {
            assert(is_letter(s[i]));
        }
        assert(words_in(s) == seq![first] + rest);
        assert forall|k: int| 0 <= k < words_in(s).len() implies (#[trigger] words_in(s)[k]).len()
            > 0 && is_upper_word(words_in(s)[k]) by {
            if k > 0 {
                assert(words_in(s)[k] == rest[k - 1]);
            } else {
                assert(words_in(s)[0] == first);
            }
        }
    }
}

/// The letters that a text begins with are letters.
proof fn lemma_leading_letters(s: Seq<char>)
    ensures
        forall|i: int| 0 <= i < leading(s, letters()) ==> is_letter(#[trigger] s[i]),
    decreases s.len(),
{
    if s.len() > 0 && is_letter(s[0]) {
        let t = s.drop_first();
        lemma_leading_letters(t);
        lemma_leading_bound(t, letters());
        assert forall|i: int| 0 <= i < leading(s, letters()) implies is_letter(
            #[trigger] s[i],
        ) by {
            if i > 0 {
                assert(t[i - 1] == s[i]);
            }
        }
    }
}

/// Divides the puzzle text into its words. We remove and split at every
/// character that is no ASCII letter, so `THEY'RE GOOD.` gets split into
/// `THEY`, `RE` and `GOOD`. The words come out in upper case.
pub fn list_words(puzzle: &str) -> (r: Vec<String>)
    ensures
        word_views(r@) == words_in(puzzle@),
{
    let chars = chars_of(puzzle);
    let ghost s = puzzle@;
    let n = chars.len();
    let mut words: Vec<String> = Vec::new();
    let mut i: usize = 0;
    proof {
        assert(s.skip(0) =~= s);
        assert(word_views(words@) =~= Seq::<Seq<char>>::empty());
    }
    while i < n
        invariant
            0 <= i <= n,
            n == chars.len(),
            chars@ == s,
            s == puzzle@,
            word_views(words@) + words_in(s.skip(i as int)) == words_in(s),
        decreases n - i,
    {
        let ghost rest = s.skip(i as int);
        if !is_ascii_letter(chars[i]) {
            proof {
                assert(rest[0] == s[i as int]);
                assert(rest.drop_first() =~= s.skip(i + 1));
            }
            i = i + 1;
        } else {
            let start = i;
            let mut word = String::new();
            while i < n && is_ascii_letter(chars[i])
                invariant
                    start <= i <= n,
                    n == chars.len(),
                    chars@ == s,
                    forall|j: int| start <= j < i ==> is_letter(#[trigger] s[j]),
                    word@ == upper_word(s.subrange(start as int, i as int)),
                decreases n - i,
            {
                word.push(to_upper(chars[i]));
                assert(word@ =~= upper_word(s.subrange(start as int, i + 1)));
                i = i + 1;
            }
            let ghost before = word_views(words@);
            words.push(word);
            proof {
                let len = i - start;
                assert forall|j: int| 0 <= j < len implies is_letter(#[trigger] rest[j]) by {
                    assert(rest[j] == s[start + j]);
                }
                if len < rest.len() {
                    assert(rest[len] == s[i as int]);
                }
                lemma_leading(rest, letters(), len);
                assert(rest.take(len) =~= s.subrange(start as int, i as int));
                assert(rest.skip(len) =~= s.skip(i as int));
                assert(rest[0] == s[start as int]);
                assert(word_views(words@) =~= before + seq![upper_word(rest.take(len))]);
                assert(words_in(rest) == seq![upper_word(rest.take(len))] + words_in(
                    rest.skip(len),
                ));
                assert(word_views(words@) + words_in(s.skip(i as int)) =~= before + words_in(
                    rest,
                ));
            }
        }
    }
    proof {
        assert(s.skip(n as int) =~= Seq::<char>::empty());
        assert(word_views(words@) + words_in(s.skip(n as int)) =~= word_views(words@));
    }
    words
}

} // verus!
