//! What holds of keys as they are narrowed: the laws of merging and of
//! exclusivity propagation, and the measure by which narrowing ends.

use vstd::prelude::*;
use crate::alphabet::{is_upper, letter_at, letter_index};
use crate::key::{
    is_key, is_sole, key_within, merge_keys, propagate, fixed_elsewhere, key_from_candidates,
    observed, observed_slot,
};

verus! {

/// How many of the first `n` letters of the alphabet the set holds.
pub open spec fn slot_count(s: Set<char>, n: nat) -> nat
    decreases n,
{
    if n == 0 {
        0
    } else {
        slot_count(s, (n - 1) as nat) + if s.contains(letter_at(n - 1)) {
            1nat
        } else {
            0nat
        }
    }
}

/// How many candidates the first `n` slots of a key hold together.
pub open spec fn weight_below(k: Seq<Set<char>>, n: nat) -> nat
    decreases n,
{
    if n == 0 {
        0
    } else {
        weight_below(k, (n - 1) as nat) + slot_count(k[n - 1], 26)
    }
}

/// How many candidates a key holds in all.
pub open spec fn weight(k: Seq<Set<char>>) -> nat {
    weight_below(k, 26)
}

proof fn lemma_slot_count_within(a: Set<char>, b: Set<char>, n: nat)
    requires
        n <= 26,
        forall|c: char| a.contains(c) ==> b.contains(c),
    ensures
        slot_count(a, n) <= slot_count(b, n),
        forall|p: int|
            0 <= p < n && b.contains(letter_at(p)) && !a.contains(letter_at(p)) ==> slot_count(a, n)
                < slot_count(b, n),
    decreases n,
{
    if n > 0 {
        lemma_slot_count_within(a, b, (n - 1) as nat);
    }
}

proof fn lemma_weight_within(a: Seq<Set<char>>, b: Seq<Set<char>>, n: nat)
    requires
        n <= 26,
        a.len() == 26,
        b.len() == 26,
        key_within(a, b),
    ensures
        weight_below(a, n) <= weight_below(b, n),
        forall|i: int, p: int|
            0 <= i < n && 0 <= p < 26 && b[i].contains(letter_at(p)) && !a[i].contains(
                letter_at(p),
            ) ==> weight_below(a, n) < weight_below(b, n),
    decreases n,
{
    if n > 0 {
        lemma_weight_within(a, b, (n - 1) as nat);
        let sa = a[n - 1];
        let sb = b[n - 1];
        assert forall|c: char| #[trigger] sa.contains(c) implies sb.contains(c) by {
            assert(a[n - 1].contains(c));
        }
        lemma_slot_count_within(a[n - 1], b[n - 1], 26);
    }
}

/// A key that lies within another and differs from it holds fewer
/// candidates.
pub proof fn lemma_narrower_weighs_less(a: Seq<Set<char>>, b: Seq<Set<char>>)
    requires
        is_key(a),
        is_key(b),
        key_within(a, b),
    ensures
        weight(a) <= weight(b),
        a != b ==> weight(a) < weight(b),
{
    lemma_weight_within(a, b, 26);
    if a != b {
        if forall|i: int, c: char| 0 <= i < 26 && b[i].contains(c) ==> a[i].contains(c) {
            assert forall|i: int| 0 <= i < 26 implies a[i] =~= b[i] by {}
            assert(a =~= b);
        }
        let (i, c) = choose|i: int, c: char|
            0 <= i < 26 && b[i].contains(c) && !a[i].contains(c);
        assert(is_upper(c));
        assert(letter_at(letter_index(c)) == c);
    }
}

/// Merging does not look at the order of the two keys.
pub proof fn lemma_merge_commutative(a: Seq<Set<char>>, b: Seq<Set<char>>)
    ensures
        merge_keys(a, b) == merge_keys(b, a),
{
    assert forall|i: int| 0 <= i < 26 implies merge_keys(a, b)[i] =~= merge_keys(b, a)[i] by {}
    assert(merge_keys(a, b) =~= merge_keys(b, a));
}

/// Merging three keys gives the same key however they are grouped.
pub proof fn lemma_merge_associative(a: Seq<Set<char>>, b: Seq<Set<char>>, c: Seq<Set<char>>)
    ensures
        merge_keys(merge_keys(a, b), c) == merge_keys(a, merge_keys(b, c)),
{
    let left = merge_keys(merge_keys(a, b), c);
    let right = merge_keys(a, merge_keys(b, c));
    assert forall|i: int| 0 <= i < 26 implies left[i] =~= right[i] by {}
    assert(left =~= right);
}

/// Merging a key with itself gives that key.
pub proof fn lemma_merge_idempotent(a: Seq<Set<char>>)
    requires
        is_key(a),
    ensures
        merge_keys(a, a) == a,
{
    assert forall|i: int| 0 <= i < 26 implies merge_keys(a, a)[i] =~= a[i] by {}
    assert(merge_keys(a, a) =~= a);
}

/// Merging never adds a candidate: every slot of the merged key lies
/// within the same slot of either key, and the merged key is a key.
pub proof fn lemma_merge_narrows(a: Seq<Set<char>>, b: Seq<Set<char>>)
    requires
        is_key(a),
    ensures
        key_within(merge_keys(a, b), a),
        key_within(merge_keys(a, b), b),
        is_key(merge_keys(a, b)),
        weight(merge_keys(a, b)) <= weight(a),
{
    lemma_narrower_weighs_less(merge_keys(a, b), a);
}

/// Propagation never adds a candidate.
pub proof fn lemma_propagate_narrows(k: Seq<Set<char>>)
    requires
        is_key(k),
    ensures
        key_within(propagate(k), k),
        is_key(propagate(k)),
        weight(propagate(k)) <= weight(k),
{
    lemma_narrower_weighs_less(propagate(k), k);
}

/// After propagation, a letter that was the one candidate of a slot is a
/// candidate of no other slot.
pub proof fn lemma_propagate_excludes(k: Seq<Set<char>>, i: int, j: int, c: char)
    requires
        is_key(k),
        0 <= i < 26,
        0 <= j < 26,
        i != j,
        is_sole(k[j], c),
    ensures
        !propagate(k)[i].contains(c),
{
    assert(fixed_elsewhere(k, i, c));
}

/// Propagation leaves slot `i` with `c` alone: the slot holds `c`, no
/// other slot holds `c` alone, and whatever else the slot holds is held
/// alone by another slot.
pub open spec fn narrows_to(k: Seq<Set<char>>, i: int, c: char) -> bool {
    &&& k[i].contains(c)
    &&& !fixed_elsewhere(k, i, c)
    &&& forall|d: char| k[i].contains(d) && d != c ==> #[trigger] fixed_elsewhere(k, i, d)
}

/// Exactly when propagation leaves two distinct slots with the same one
/// candidate: when it narrows both to that letter. Neither of the two
/// held the letter alone before.
pub proof fn lemma_propagate_alike(k: Seq<Set<char>>, i: int, j: int, c: char)
    requires
        is_key(k),
        0 <= i < 26,
        0 <= j < 26,
        i != j,
    ensures
        (is_sole(propagate(k)[i], c) && is_sole(propagate(k)[j], c)) <==> (narrows_to(k, i, c)
            && narrows_to(k, j, c)),
        narrows_to(k, i, c) && narrows_to(k, j, c) ==> !is_sole(k[i], c) && !is_sole(k[j], c),
{
    let after = propagate(k);
    if narrows_to(k, i, c) && narrows_to(k, j, c) {
        assert(after[i].contains(c));
        assert(after[j].contains(c));
        if is_sole(k[i], c) {
            assert(fixed_elsewhere(k, j, c));
        }
        if is_sole(k[j], c) {
            assert(fixed_elsewhere(k, i, c));
        }
    }
    if is_sole(after[i], c) && is_sole(after[j], c) {
        assert forall|d: char| k[i].contains(d) && d != c implies #[trigger] fixed_elsewhere(
            k,
            i,
            d,
        ) by {
            assert(!after[i].contains(d));
        }
        assert forall|d: char| k[j].contains(d) && d != c implies #[trigger] fixed_elsewhere(
            k,
            j,
            d,
        ) by {
            assert(!after[j].contains(d));
        }
    }
}

/// After propagation no two distinct slots hold the same letter as their
/// one candidate, unless propagation narrowed both of them to it.
pub proof fn lemma_propagate_separates(k: Seq<Set<char>>, i: int, j: int, c: char)
    requires
        is_key(k),
        0 <= i < 26,
        0 <= j < 26,
        i != j,
        !(narrows_to(k, i, c) && narrows_to(k, j, c)),
    ensures
        !(is_sole(propagate(k)[i], c) && is_sole(propagate(k)[j], c)),
{
    lemma_propagate_alike(k, i, j, c);
}

/// In a key that propagation leaves as it is, no two distinct slots hold
/// the same letter as their one candidate.
pub proof fn lemma_stable_key_is_exclusive(k: Seq<Set<char>>, i: int, j: int, c: char)
    requires
        is_key(k),
        propagate(k) == k,
        0 <= i < 26,
        0 <= j < 26,
        i != j,
    ensures
        !(is_sole(k[i], c) && is_sole(k[j], c)),
{
    if is_sole(k[i], c) && is_sole(k[j], c) {
        lemma_propagate_excludes(k, i, j, c);
    }
}

/// The key that candidate words give does not depend on their order,
/// nor on how often a word stands among them.
pub proof fn lemma_candidates_in_any_order(
    cipher: Seq<char>,
    a: Seq<Seq<char>>,
    b: Seq<Seq<char>>,
)
    requires
        forall|w: Seq<char>| a.contains(w) <==> b.contains(w),
    ensures
        key_from_candidates(cipher, a) == key_from_candidates(cipher, b),
{
    assert forall|i: int, c: char| observed(cipher, a, i, c) == observed(cipher, b, i, c) by {
        if observed(cipher, a, i, c) {
            lemma_observed_within(cipher, a, b, i, c);
        }
        if observed(cipher, b, i, c) {
            lemma_observed_within(cipher, b, a, i, c);
        }
    }
    assert forall|i: int| 0 <= i < 26 implies observed_slot(cipher, a, i) =~= observed_slot(
        cipher,
        b,
        i,
    ) by {}
    assert(key_from_candidates(cipher, a) =~= key_from_candidates(cipher, b));
}

proof fn lemma_observed_within(
    cipher: Seq<char>,
    a: Seq<Seq<char>>,
    b: Seq<Seq<char>>,
    i: int,
    c: char,
)
    requires
        forall|w: Seq<char>| a.contains(w) ==> b.contains(w),
        observed(cipher, a, i, c),
    ensures
        observed(cipher, b, i, c),
{
    let (k, p) = choose|k: int, p: int|
        0 <= k < a.len() && 0 <= p < cipher.len() && p < a[k].len() && cipher[p] == letter_at(i)
            && #[trigger] a[k][p] == c;
    assert(a.contains(a[k]));
    let m = choose|m: int| 0 <= m < b.len() && b[m] == a[k];
    assert(b[m][p] == c);
}

} // verus!
