//! The solver: narrowing a key over the words of a puzzle until nothing
//! changes any more.

use vstd::prelude::*;
use crate::dictionary::{Dictionary, candidates};
use crate::key::{
    PotentialKey, full_key, full_slot, is_key, is_sole, is_vacant, key_from_candidates,
    key_within, merge_keys, observed_slot, propagate,
};
use crate::narrowing::{
    weight, lemma_merge_narrows, lemma_narrower_weighs_less, lemma_propagate_narrows,
    lemma_stable_key_is_exclusive,
};
use crate::parsing::{list_words, signature_of, words_in};
use crate::text::word_views;

verus! {

/// What one word of the puzzle makes of a key: the key merged with the
/// key that the word's candidates give.
pub open spec fn refine(
    index: Map<nat, Seq<Seq<char>>>,
    key: Seq<Set<char>>,
    word: Seq<char>,
) -> Seq<Set<char>> {
    merge_keys(key, key_from_candidates(word, candidates(index, word, key)))
}

/// What the words make of a key, taken one after the other from the
/// left, each under the key that the words before it left.
pub open spec fn refine_all(
    index: Map<nat, Seq<Seq<char>>>,
    key: Seq<Set<char>>,
    words: Seq<Seq<char>>,
) -> Seq<Set<char>>
    decreases words.len(),
{
    if words.len() == 0 {
        key
    } else {
        refine(index, refine_all(index, key, words.drop_last()), words.last())
    }
}

/// One pass: every word in turn, then exclusivity propagation once.
pub open spec fn pass(
    index: Map<nat, Seq<Seq<char>>>,
    key: Seq<Set<char>>,
    words: Seq<Seq<char>>,
) -> Seq<Set<char>> {
    propagate(refine_all(index, key, words))
}

/// The key that repeated passes arrive at: the first one that a pass
/// leaves unchanged.
pub open spec fn converge(
    index: Map<nat, Seq<Seq<char>>>,
    key: Seq<Set<char>>,
    words: Seq<Seq<char>>,
) -> Seq<Set<char>>
    decreases weight(key),
    when is_key(key)
    via converge_ends
{
    let next = pass(index, key, words);
    if next == key {
        key
    } else {
        converge(index, next, words)
    }
}

/// The key that the solver finds for a puzzle.
pub open spec fn solution(index: Map<nat, Seq<Seq<char>>>, puzzle: Seq<char>) -> Seq<Set<char>> {
    converge(index, full_key(), words_in(puzzle))
}

/// The words of a puzzle never add a candidate to a key.
pub proof fn lemma_refine_all_narrows(
    index: Map<nat, Seq<Seq<char>>>,
    key: Seq<Set<char>>,
    words: Seq<Seq<char>>,
)
    requires
        is_key(key),
    ensures
        is_key(refine_all(index, key, words)),
        key_within(refine_all(index, key, words), key),
    decreases words.len(),
{
    if words.len() > 0 {
        let before = refine_all(index, key, words.drop_last());
        lemma_refine_all_narrows(index, key, words.drop_last());
        lemma_merge_narrows(
            before,
            key_from_candidates(words.last(), candidates(index, words.last(), before)),
        );
    }
}

/// A pass never adds a candidate, and a pass that changes the key takes
/// at least one candidate away.
pub proof fn lemma_pass_narrows(
    index: Map<nat, Seq<Seq<char>>>,
    key: Seq<Set<char>>,
    words: Seq<Seq<char>>,
)
    requires
        is_key(key),
    ensures
        is_key(pass(index, key, words)),
        key_within(pass(index, key, words), key),
        weight(pass(index, key, words)) <= weight(key),
        pass(index, key, words) != key ==> weight(pass(index, key, words)) < weight(key),
{
    lemma_refine_all_narrows(index, key, words);
    lemma_propagate_narrows(refine_all(index, key, words));
    lemma_narrower_weighs_less(pass(index, key, words), key);
}

#[via_fn]
proof fn converge_ends(
    index: Map<nat, Seq<Seq<char>>>,
    key: Seq<Set<char>>,
    words: Seq<Seq<char>>,
) {
    lemma_pass_narrows(index, key, words);
}

/// The key that passes arrive at lies within the key they set out from,
/// and neither another pass nor propagation alone changes it.
pub proof fn lemma_converge(
    index: Map<nat, Seq<Seq<char>>>,
    key: Seq<Set<char>>,
    words: Seq<Seq<char>>,
)
    requires
        is_key(key),
    ensures
        is_key(converge(index, key, words)),
        key_within(converge(index, key, words), key),
        pass(index, converge(index, key, words), words) == converge(index, key, words),
        propagate(converge(index, key, words)) == converge(index, key, words),
    decreases weight(key),
{
    let next = pass(index, key, words);
    lemma_pass_narrows(index, key, words);
    if next == key {
        let mid = refine_all(index, key, words);
        lemma_refine_all_narrows(index, key, words);
        lemma_propagate_narrows(mid);
        assert forall|i: int| 0 <= i < 26 implies mid[i] =~= key[i] by {}
        assert(mid =~= key);
    } else {
        lemma_converge(index, next, words);
    }
}

/// In the key that the solver finds, no two distinct slots hold the same
/// letter as their one candidate.
pub proof fn lemma_solution_is_exclusive(
    index: Map<nat, Seq<Seq<char>>>,
    puzzle: Seq<char>,
    i: int,
    j: int,
    c: char,
)
    requires
        0 <= i < 26,
        0 <= j < 26,
        i != j,
    ensures
        !(is_sole(solution(index, puzzle)[i], c) && is_sole(solution(index, puzzle)[j], c)),
{
    assert(is_key(full_key()));
    lemma_converge(index, full_key(), words_in(puzzle));
    lemma_stable_key_is_exclusive(solution(index, puzzle), i, j, c);
}

/// A word under whose signature the index lists nothing has no
/// candidates, and leaves a key that maps no letter to itself as it is.
pub proof fn lemma_unlisted_word_changes_nothing(
    index: Map<nat, Seq<Seq<char>>>,
    key: Seq<Set<char>>,
    word: Seq<char>,
)
    requires
        is_key(key),
        key_within(key, full_key()),
        !index.contains_key(signature_of(word)),
    ensures
        candidates(index, word, key) == Seq::<Seq<char>>::empty(),
        refine(index, key, word) == key,
{
    reveal(Seq::filter);
    let none = candidates(index, word, key);
    assert(none =~= Seq::<Seq<char>>::empty());
    let given = key_from_candidates(word, none);
    assert forall|i: int| 0 <= i < 26 implies given[i] == full_slot(i) by {
        assert(is_vacant(observed_slot(word, none, i)));
    }
    assert forall|i: int| 0 <= i < 26 implies refine(index, key, word)[i] =~= key[i] by {
        assert forall|c: char| key[i].contains(c) implies full_slot(i).contains(c) by {
            assert(full_key()[i].contains(c));
        }
    }
    assert(refine(index, key, word) =~= key);
}

/// With a given dictionary and puzzle string, construct a key that maps
/// the characters of the ciphertext to possible characters of the
/// plaintext.
///
/// We start from the full key, go over each word of the ciphertext, pull
/// its possible words from the dictionary and restrict the key to the
/// characters of those words; then characters that are decided leave the
/// other mappings. We repeat this as long as it changes the key, since
/// later words can contain hints for earlier words in the puzzle string.
/// A word for which the dictionary has nothing leaves the key as it is.
pub fn construct_key(dict: &Dictionary, puzzle: &str) -> (r: PotentialKey)
    ensures
        r@ == solution(dict@, puzzle@),
{
    let words = list_words(puzzle);
    let ghost ws = words_in(puzzle@);
    let mut potential_key = PotentialKey::full();
    loop
        invariant_except_break
            converge(dict@, potential_key@, ws) == solution(dict@, puzzle@),
        invariant
            word_views(words@) == ws,
            ws == words_in(puzzle@),
        ensures
            potential_key@ == solution(dict@, puzzle@),
        decreases weight(potential_key@),
    {
        let previous_key = potential_key;
        let mut i: usize = 0;
        proof {
            previous_key.lemma_view();
            assert(ws.take(0) =~= Seq::<Seq<char>>::empty());
        }
        while i < words.len()
            invariant
                0 <= i <= words.len(),
                word_views(words@) == ws,
                potential_key@ == refine_all(dict@, previous_key@, ws.take(i as int)),
            decreases words.len() - i,
        {
            let word = words[i].as_str();
            let possible_words = dict.get_possible_words(word, &potential_key);
            let key = PotentialKey::from_possibilities(word, possible_words.as_slice());
            potential_key = potential_key.merge(&key);
            proof {
                assert(ws.take(i + 1).drop_last() =~= ws.take(i as int));
                assert(ws.take(i + 1).last() == word@);
            }
            i = i + 1;
        }
        proof {
            assert(ws.take(words.len() as int) =~= ws);
        }
        potential_key.remove_fixed_characters_from_other_mappings();
        proof {
            assert(potential_key@ == pass(dict@, previous_key@, ws));
            lemma_pass_narrows(dict@, previous_key@, ws);
        }
        if potential_key == previous_key {
            break ;
        }
    }
    potential_key
}

} // verus!
