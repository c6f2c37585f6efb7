//! The dictionary index: the words of a word list, grouped by signature.

use std::collections::HashMap;
use vstd::prelude::*;
use vstd::seq_lib::to_multiset_contains;
use crate::error::CipherError;
use crate::key::{PotentialKey, key_matches};
use crate::text::word_views;
use crate::parsing::{
    has_signature, signature_of, upper_word, lemma_upper_word, translate_word_to_signature,
    to_upper_word,
};
use crate::ranking::{
    entry_views, is_ranked, lemma_word_le_antisymmetric, outranks, rank, word_le,
};
use crate::sequences::{first_index, lemma_first_index, lemma_first_index_at};

verus! {

broadcast use vstd::std_specs::hash::group_hash_axioms;

/// How often a word must be mentioned in the body of text that a word
/// list was counted in, if nothing else is asked for. This leaves out
/// some of the really weird words.
pub const ALLOWED_WORD_MINPOPULARITY: usize = 100000;

/// Our dictionary maps word signatures to the list of words with that
/// signature, the most frequent word first.
pub struct Dictionary {
    buckets: HashMap<u128, Vec<String>>,
}

/// The words listed under a signature; none where the index has no entry
/// for it.
pub open spec fn bucket_of(index: Map<nat, Seq<Seq<char>>>, sig: nat) -> Seq<Seq<char>> {
    if index.contains_key(sig) {
        index[sig]
    } else {
        Seq::empty()
    }
}

/// The entry at position `i` of a word list is frequent enough and holds
/// the word `w`, case aside.
pub open spec fn lists_at(entries: Seq<(Seq<char>, nat)>, min: nat, w: Seq<char>, i: int) -> bool {
    0 <= i < entries.len() && entries[i].1 >= min && upper_word(entries[i].0) == w
}

/// Some entry of the word list that is frequent enough holds the word
/// `w`, case aside.
pub open spec fn is_listed(entries: Seq<(Seq<char>, nat)>, min: nat, w: Seq<char>) -> bool {
    exists|i: int| #[trigger] lists_at(entries, min, w, i)
}

/// The highest count with which the word list holds `w`, looking only at
/// entries that are frequent enough; 0 if there is none.
pub open spec fn frequency(entries: Seq<(Seq<char>, nat)>, min: nat, w: Seq<char>) -> nat
    decreases entries.len(),
{
    if entries.len() == 0 {
        0
    } else {
        let rest = frequency(entries.drop_last(), min, w);
        let e = entries.last();
        if e.1 >= min && upper_word(e.0) == w && e.1 > rest {
            e.1
        } else {
            rest
        }
    }
}

/// The word `a` stands before the word `b` in a bucket: it is more
/// frequent, or equally frequent and later in alphabetical order.
pub open spec fn ranks_above(
    entries: Seq<(Seq<char>, nat)>,
    min: nat,
    a: Seq<char>,
    b: Seq<char>,
) -> bool {
    let fa = frequency(entries, min, a);
    let fb = frequency(entries, min, b);
    fa > fb || (fa == fb && a != b && word_le(b, a))
}

/// Every entry of the word list that is frequent enough holds a word
/// that has a signature.
pub open spec fn indexable(entries: Seq<(Seq<char>, nat)>, min: nat) -> bool {
    forall|i: int|
        0 <= i < entries.len() && (#[trigger] entries[i]).1 >= min ==> has_signature(entries[i].0)
}

/// `index` is the index of the word list: under each signature stand the
/// listed words of that signature, in upper case, each once and in
/// ranking order; a signature that no listed word has, has no entry.
pub open spec fn is_index_of(
    index: Map<nat, Seq<Seq<char>>>,
    entries: Seq<(Seq<char>, nat)>,
    min: nat,
) -> bool {
    &&& forall|sig: nat| #[trigger] index.contains_key(sig) ==> index[sig].len() > 0
    &&& forall|sig: nat, w: Seq<char>| #[trigger]
        bucket_of(index, sig).contains(w) <==> is_listed(entries, min, w) && signature_of(w)
            == sig
    &&& forall|sig: nat| #[trigger] bucket_of(index, sig).no_duplicates()
    &&& forall|sig: nat, i: int, j: int|
        0 <= i < j < bucket_of(index, sig).len() ==> ranks_above(
            entries,
            min,
            #[trigger] bucket_of(index, sig)[i],
            #[trigger] bucket_of(index, sig)[j],
        )
}

/// The test that a candidate word passes when the cipherword can decode
/// to it under the key.
pub open spec fn matcher(key: Seq<Set<char>>, cipher: Seq<char>) -> spec_fn(Seq<char>) -> bool {
    |w: Seq<char>| key_matches(key, w, cipher)
}

/// The words of the index that a cipherword can decode to under a key:
/// those listed under its signature that match, in their listed order.
pub open spec fn candidates(
    index: Map<nat, Seq<Seq<char>>>,
    cipher: Seq<char>,
    key: Seq<Set<char>>,
) -> Seq<Seq<char>> {
    bucket_of(index, signature_of(cipher)).filter(matcher(key, cipher))
}

/// What a map from signatures to word lists holds.
spec fn index_view(m: Map<u128, Vec<String>>) -> Map<nat, Seq<Seq<char>>> {
    Map::new(
        |s: nat| s <= u128::MAX && m.contains_key(s as u128),
        |s: nat| word_views(m[s as u128]@),
    )
}

impl View for Dictionary {
    type V = Map<nat, Seq<Seq<char>>>;

    /// The words listed under each signature.
    closed spec fn view(&self) -> Map<nat, Seq<Seq<char>>> {
        index_view(self.buckets@)
    }
}

/// Filtering leaves nothing where no element passes.
proof fn lemma_filter_none<A>(s: Seq<A>, pred: spec_fn(A) -> bool)
    requires
        forall|i: int| 0 <= i < s.len() ==> !pred(#[trigger] s[i]),
    ensures
        s.filter(pred) == Seq::<A>::empty(),
    decreases s.len(),
{
    reveal(Seq::filter);
    if s.len() > 0 {
        let t = s.drop_last();
        assert forall|i: int| 0 <= i < t.len() implies !pred(#[trigger] t[i]) by {
            assert(t[i] == s[i]);
        }
        lemma_filter_none(t, pred);
        assert(!pred(s[s.len() - 1]));
    } else {
        assert(s =~= Seq::<A>::empty());
    }
}

/// The words of a list of entries.
spec fn entry_words(r: Seq<(Seq<char>, nat)>) -> Seq<Seq<char>> {
    Seq::new(r.len(), |i: int| r[i].0)
}

/// Some entry of the word list before position `n` is frequent enough
/// and is `e`, case aside.
spec fn selected_before(
    entries: Seq<(Seq<char>, nat)>,
    min: nat,
    e: (Seq<char>, nat),
    n: int,
) -> bool {
    exists|i: int| i < n && #[trigger] lists_at(entries, min, e.0, i) && entries[i].1 == e.1
}

/// `kept` holds the entries of the word list that are frequent enough,
/// their words in upper case.
spec fn is_selection(
    kept: Seq<(Seq<char>, nat)>,
    entries: Seq<(Seq<char>, nat)>,
    min: nat,
) -> bool {
    forall|e: (Seq<char>, nat)|
        kept.contains(e) <==> selected_before(entries, min, e, entries.len() as int)
}

/// What holds of the index when the first `t` of the ranked words `rw`
/// have been entered.
spec fn entered(index: Map<nat, Seq<Seq<char>>>, rw: Seq<Seq<char>>, t: int) -> bool {
    &&& forall|sig: nat| #[trigger] index.contains_key(sig) ==> index[sig].len() > 0
    &&& forall|sig: nat, x: int|
        index.contains_key(sig) && 0 <= x < index[sig].len() ==> has_signature(
            #[trigger] index[sig][x],
        ) && signature_of(index[sig][x]) == sig && first_index(rw, index[sig][x]) < t
    &&& forall|q: int|
        0 <= q < t ==> has_signature(#[trigger] rw[q]) && index.contains_key(signature_of(rw[q]))
            && index[signature_of(rw[q])].contains(rw[q])
    &&& forall|sig: nat, x: int, y: int|
        index.contains_key(sig) && 0 <= x < y < index[sig].len() ==> first_index(
            rw,
            #[trigger] index[sig][x],
        ) < first_index(rw, #[trigger] index[sig][y])
}

/// Entering the next ranked word keeps the index in order: a word that
/// its bucket holds already changes nothing, a new one goes to the end
/// of its bucket.
proof fn lemma_enter(index: Map<nat, Seq<Seq<char>>>, rw: Seq<Seq<char>>, t: int)
    requires
        0 <= t < rw.len(),
        entered(index, rw, t),
        has_signature(rw[t]),
    ensures
        bucket_of(index, signature_of(rw[t])).contains(rw[t]) ==> entered(index, rw, t + 1),
        !bucket_of(index, signature_of(rw[t])).contains(rw[t]) ==> entered(
            index.insert(signature_of(rw[t]), bucket_of(index, signature_of(rw[t])).push(rw[t])),
            rw,
            t + 1,
        ),
{
    let w = rw[t];
    let sig = signature_of(w);
    let b = bucket_of(index, sig);
    if b.contains(w) {
        assert(index.contains_key(sig));
    } else {
        let grown = b.push(w);
        let next = index.insert(sig, grown);
        assert(!rw.take(t).contains(w)) by {
            if rw.take(t).contains(w) {
                let q = choose|q: int| 0 <= q < t && rw.take(t)[q] == w;
                assert(rw[q] == w);
            }
        }
        lemma_first_index_at(rw, t);
        assert(first_index(rw, w) == t);
        assert(grown[b.len() as int] == w);
        assert forall|x: int| 0 <= x < b.len() implies grown[x] == b[x] by {}
        assert forall|sig2: nat, x: int|
            next.contains_key(sig2) && 0 <= x < next[sig2].len() implies has_signature(
            #[trigger] next[sig2][x],
        ) && signature_of(next[sig2][x]) == sig2 && first_index(rw, next[sig2][x]) < t + 1 by {
            if sig2 == sig {
                if x < b.len() {
                    assert(grown[x] == index[sig][x]);
                }
            } else {
                assert(next[sig2][x] == index[sig2][x]);
            }
        }
        assert forall|q: int| 0 <= q < t + 1 implies has_signature(#[trigger] rw[q])
            && next.contains_key(signature_of(rw[q])) && next[signature_of(rw[q])].contains(
            rw[q],
        ) by {
            if q < t {
                let s2 = signature_of(rw[q]);
                if s2 == sig {
                    let x = choose|x: int| 0 <= x < b.len() && b[x] == rw[q];
                    assert(grown[x] == rw[q]);
                }
            } else {
                assert(grown[b.len() as int] == rw[q]);
            }
        }
        assert forall|sig2: nat, x: int, y: int|
            next.contains_key(sig2) && 0 <= x < y < next[sig2].len() implies first_index(
            rw,
            #[trigger] next[sig2][x],
        ) < first_index(rw, #[trigger] next[sig2][y]) by {
            if sig2 == sig {
                assert(grown[x] == index[sig][x]);
                if y < b.len() {
                    assert(grown[y] == index[sig][y]);
                }
            } else {
                assert(next[sig2][x] == index[sig2][x]);
                assert(next[sig2][y] == index[sig2][y]);
            }
        }
    }
}

/// The highest count of a listed word is the count of one of its
/// entries, and no entry of the word has a higher one.
proof fn lemma_frequency(entries: Seq<(Seq<char>, nat)>, min: nat, w: Seq<char>)
    ensures
        forall|i: int| #[trigger]
            lists_at(entries, min, w, i) ==> entries[i].1 <= frequency(entries, min, w),
        is_listed(entries, min, w) ==> exists|i: int| #[trigger]
            lists_at(entries, min, w, i) && entries[i].1 == frequency(entries, min, w),
        !is_listed(entries, min, w) ==> frequency(entries, min, w) == 0,
    decreases entries.len(),
{
    if entries.len() > 0 {
        let rest = entries.drop_last();
        let last = entries.len() - 1;
        let e = entries[last];
        let top = frequency(entries, min, w);
        lemma_frequency(rest, min, w);
        assert forall|i: int| lists_at(rest, min, w, i) implies #[trigger] lists_at(
            entries,
            min,
            w,
            i,
        ) by {
            assert(rest[i] == entries[i]);
        }
        assert forall|i: int| #[trigger] lists_at(entries, min, w, i) implies entries[i].1
            <= top by {
            if i < last {
                assert(rest[i] == entries[i]);
                assert(lists_at(rest, min, w, i));
            }
        }
        if is_listed(rest, min, w) {
            let j = choose|j: int| #[trigger]
                lists_at(rest, min, w, j) && rest[j].1 == frequency(rest, min, w);
            assert(rest[j] == entries[j]);
            assert(lists_at(entries, min, w, j));
        }
        if e.1 >= min && upper_word(e.0) == w {
            assert(lists_at(entries, min, w, last));
        }
        if is_listed(entries, min, w) {
            let i = choose|i: int| #[trigger] lists_at(entries, min, w, i);
            if i < last {
                assert(rest[i] == entries[i]);
                assert(lists_at(rest, min, w, i));
            }
            if e.1 >= min && upper_word(e.0) == w && e.1 >= frequency(rest, min, w) {
                assert(lists_at(entries, min, w, last) && entries[last].1 == top);
            } else {
                let j = choose|j: int| #[trigger]
                    lists_at(rest, min, w, j) && rest[j].1 == frequency(rest, min, w);
                assert(lists_at(entries, min, w, j) && entries[j].1 == top);
            }
        }
    } else {
        assert forall|i: int| !lists_at(entries, min, w, i) by {}
    }
}

/// Once every ranked word has been entered, the index is the index of
/// the word list.
proof fn lemma_index_of(
    index: Map<nat, Seq<Seq<char>>>,
    rv: Seq<(Seq<char>, nat)>,
    entries: Seq<(Seq<char>, nat)>,
    min: nat,
)
    requires
        is_ranked(rv),
        is_selection(rv, entries, min),
        entered(index, entry_words(rv), rv.len() as int),
    ensures
        indexable(entries, min),
        is_index_of(index, entries, min),
{
    let rw = entry_words(rv);
    let n = rv.len() as int;
    // every listed word was entered
    assert forall|w: Seq<char>, i: int| #[trigger] lists_at(entries, min, w, i) implies exists|
        q: int,
    |
        0 <= q < n && #[trigger] rv[q] == (w, entries[i].1) by {
        let e = (w, entries[i].1);
        assert(lists_at(entries, min, e.0, i) && entries[i].1 == e.1);
        assert(selected_before(entries, min, e, entries.len() as int));
        assert(rv.contains(e));
    }
    assert forall|i: int| 0 <= i < entries.len() && (#[trigger] entries[i]).1
        >= min implies has_signature(entries[i].0) by {
        let w = upper_word(entries[i].0);
        assert(lists_at(entries, min, w, i));
        let q = choose|q: int| 0 <= q < n && #[trigger] rv[q] == (w, entries[i].1);
        assert(rw[q] == w);
        lemma_upper_word(entries[i].0);
    }
    // every entered word is listed, with its highest count at its first place
    assert forall|sig: nat, x: int| index.contains_key(sig) && 0 <= x < index[sig].len() implies {
        let w = #[trigger] index[sig][x];
        let p = first_index(rw, w);
        &&& 0 <= p < n
        &&& rv[p].0 == w
        &&& rv[p].1 == frequency(entries, min, w)
        &&& is_listed(entries, min, w)
    } by {
        let w = index[sig][x];
        let p = first_index(rw, w);
        lemma_first_index(rw, w);
        assert(rw[p] == w);
        assert(rv.contains(rv[p]));
        assert(selected_before(entries, min, rv[p], entries.len() as int));
        let i = choose|i: int|
            i < entries.len() && #[trigger] lists_at(entries, min, rv[p].0, i) && entries[i].1
                == rv[p].1;
        assert(lists_at(entries, min, w, i));
        lemma_frequency(entries, min, w);
        let j = choose|j: int| #[trigger]
            lists_at(entries, min, w, j) && entries[j].1 == frequency(entries, min, w);
        let q = choose|q: int| 0 <= q < n && #[trigger] rv[q] == (w, entries[j].1);
        assert(rw[q] == w);
        if p < q {
            assert(outranks(rv[p], rv[q]));
        }
    }
    assert forall|sig: nat, w: Seq<char>| #[trigger]
        bucket_of(index, sig).contains(w) <==> is_listed(entries, min, w) && signature_of(w)
            == sig by {
        if bucket_of(index, sig).contains(w) {
            let x = choose|x: int| 0 <= x < index[sig].len() && index[sig][x] == w;
            assert(index[sig][x] == w);
        }
        if is_listed(entries, min, w) && signature_of(w) == sig {
            let i = choose|i: int| #[trigger] lists_at(entries, min, w, i);
            let q = choose|q: int| 0 <= q < n && #[trigger] rv[q] == (w, entries[i].1);
            assert(rw[q] == w);
        }
    }
    assert forall|sig: nat, i: int, j: int|
        0 <= i < j < bucket_of(index, sig).len() implies ranks_above(
        entries,
        min,
        #[trigger] bucket_of(index, sig)[i],
        #[trigger] bucket_of(index, sig)[j],
    ) by {
        let a = index[sig][i];
        let b = index[sig][j];
        let pa = first_index(rw, a);
        let pb = first_index(rw, b);
        assert(pa < pb);
        assert(outranks(rv[pa], rv[pb]));
        assert(rw[pa] == a);
        assert(rw[pb] == b);
    }
    assert forall|sig: nat| #[trigger] bucket_of(index, sig).no_duplicates() by {
        let b = bucket_of(index, sig);
        assert forall|i: int, j: int| 0 <= i < b.len() && 0 <= j < b.len() && i != j implies b[i]
            != b[j] by {
            if i < j {
                assert(first_index(rw, index[sig][i]) < first_index(rw, index[sig][j]));
            } else {
                assert(first_index(rw, index[sig][j]) < first_index(rw, index[sig][i]));
            }
        }
    }
}

/// Buckets that hold the same words, each once and in ranking order,
/// are the same bucket.
proof fn lemma_same_bucket(
    x: Seq<Seq<char>>,
    y: Seq<Seq<char>>,
    entries: Seq<(Seq<char>, nat)>,
    min: nat,
)
    requires
        x.no_duplicates(),
        y.no_duplicates(),
        forall|w: Seq<char>| x.contains(w) <==> y.contains(w),
        forall|i: int, j: int|
            0 <= i < j < x.len() ==> ranks_above(entries, min, #[trigger] x[i], #[trigger] x[j]),
        forall|i: int, j: int|
            0 <= i < j < y.len() ==> ranks_above(entries, min, #[trigger] y[i], #[trigger] y[j]),
    ensures
        x == y,
    decreases x.len(),
{
    if x.len() == 0 {
        if y.len() > 0 {
            assert(y.contains(y[0]));
        }
        assert(x =~= y);
    } else {
        assert(x.contains(x[0]));
        let j = choose|j: int| 0 <= j < y.len() && y[j] == x[0];
        assert(y.contains(y[0]));
        let i = choose|i: int| 0 <= i < x.len() && x[i] == y[0];
        if i > 0 && j > 0 {
            assert(ranks_above(entries, min, x[0], x[i]));
            assert(ranks_above(entries, min, y[0], y[j]));
            lemma_word_le_antisymmetric(x[0], y[0]);
        }
        assert(x[0] == y[0]);
        let xt = x.drop_first();
        let yt = y.drop_first();
        assert forall|w: Seq<char>| xt.contains(w) <==> yt.contains(w) by {
            if xt.contains(w) {
                let k = choose|k: int| 0 <= k < xt.len() && xt[k] == w;
                assert(x[k + 1] == w);
                assert(x.contains(w));
                let m = choose|m: int| 0 <= m < y.len() && y[m] == w;
                assert(m > 0);
                assert(yt[m - 1] == w);
            }
            if yt.contains(w) {
                let k = choose|k: int| 0 <= k < yt.len() && yt[k] == w;
                assert(y[k + 1] == w);
                assert(y.contains(w));
                let m = choose|m: int| 0 <= m < x.len() && x[m] == w;
                assert(m > 0);
                assert(xt[m - 1] == w);
            }
        }
        assert forall|a: int, b: int| 0 <= a < b < xt.len() implies ranks_above(
            entries,
            min,
            #[trigger] xt[a],
            #[trigger] xt[b],
        ) by {
            assert(ranks_above(entries, min, x[a + 1], x[b + 1]));
        }
        assert forall|a: int, b: int| 0 <= a < b < yt.len() implies ranks_above(
            entries,
            min,
            #[trigger] yt[a],
            #[trigger] yt[b],
        ) by {
            assert(ranks_above(entries, min, y[a + 1], y[b + 1]));
        }
        lemma_same_bucket(xt, yt, entries, min);
        assert(x =~= seq![x[0]] + xt);
        assert(y =~= seq![y[0]] + yt);
    }
}

/// A word list has one index only.
pub proof fn lemma_index_is_unique(
    a: Map<nat, Seq<Seq<char>>>,
    b: Map<nat, Seq<Seq<char>>>,
    entries: Seq<(Seq<char>, nat)>,
    min: nat,
)
    requires
        is_index_of(a, entries, min),
        is_index_of(b, entries, min),
    ensures
        a == b,
{
    assert forall|sig: nat| bucket_of(a, sig) == bucket_of(b, sig) by {
        let x = bucket_of(a, sig);
        let y = bucket_of(b, sig);
        assert(x.no_duplicates());
        assert(y.no_duplicates());
        assert forall|w: Seq<char>| x.contains(w) <==> y.contains(w) by {
            assert(bucket_of(a, sig).contains(w) <==> is_listed(entries, min, w) && signature_of(w)
                == sig);
            assert(bucket_of(b, sig).contains(w) <==> is_listed(entries, min, w) && signature_of(w)
                == sig);
        }
        lemma_same_bucket(x, y, entries, min);
    }
    assert forall|sig: nat| a.contains_key(sig) <==> b.contains_key(sig) by {
        assert(bucket_of(a, sig) == bucket_of(b, sig));
        if a.contains_key(sig) {
            assert(a[sig].len() > 0);
        }
        if b.contains_key(sig) {
            assert(b[sig].len() > 0);
        }
    }
    assert forall|sig: nat| a.contains_key(sig) implies a[sig] == b[sig] by {
        assert(bucket_of(a, sig) == bucket_of(b, sig));
    }
    assert(a =~= b);
}

/// Tells whether the list holds the word.
fn holds_word(list: &Vec<String>, word: &String) -> (r: bool)
    ensures
        r == word_views(list@).contains(word@),
{
    let mut i: usize = 0;
    while i < list.len()
        invariant
            0 <= i <= list.len(),
            forall|x: int| 0 <= x < i ==> (#[trigger] word_views(list@)[x]) != word@,
        decreases list.len() - i,
    {
        if list[i] == *word {
            assert(word_views(list@)[i as int] == word@);
            return true;
        }
        i = i + 1;
    }
    false
}

impl Dictionary {
    /// Build the signature-to-words map from a word list.
    ///
    /// An entry of the list is a word and the number of times it was
    /// counted in some body of text. Entries counted less than
    /// `min_popularity` times are left out. The words are taken in upper
    /// case and listed under their signatures, each word once, the most
    /// frequent first; of two equally frequent words the one later in the
    /// alphabet comes first.
    ///
    /// A list in which an entry that is frequent enough holds a word
    /// without a signature cannot be indexed.
    pub fn build(wordlist: &[(String, usize)], min_popularity: usize) -> (r: Result<
        Dictionary,
        CipherError,
    >)
        ensures
            match r {
                Ok(d) => indexable(entry_views(wordlist@), min_popularity as nat) && is_index_of(
                    d@,
                    entry_views(wordlist@),
                    min_popularity as nat,
                ),
                Err(e) => !indexable(entry_views(wordlist@), min_popularity as nat) && e
                    == CipherError::UnsupportedInput,
            },
    {
        let ghost entries = entry_views(wordlist@);
        let ghost min = min_popularity as nat;
        let mut kept: Vec<(String, usize)> = Vec::new();
        let mut idx: usize = 0;
        while idx < wordlist.len()
            invariant
                0 <= idx <= wordlist.len(),
                entries == entry_views(wordlist@),
                min == min_popularity as nat,
                forall|e: (Seq<char>, nat)|
                    entry_views(kept@).contains(e) <==> selected_before(
                        entries,
                        min,
                        e,
                        idx as int,
                    ),
            decreases wordlist.len() - idx,
        {
            let ghost before = entry_views(kept@);
            if wordlist[idx].1 >= min_popularity {
                kept.push((to_upper_word(wordlist[idx].0.as_str()), wordlist[idx].1));
            }
            proof {
                let after = entry_views(kept@);
                let here = (upper_word(entries[idx as int].0), entries[idx as int].1);
                let taken = entries[idx as int].1 >= min;
                assert forall|x: int| 0 <= x < before.len() implies after[x] == before[x] by {}
                if taken {
                    assert(after[before.len() as int] == here);
                    assert(lists_at(entries, min, here.0, idx as int));
                }
                assert forall|e: (Seq<char>, nat)|
                    after.contains(e) <==> selected_before(entries, min, e, idx + 1) by {
                    if after.contains(e) {
                        let x = choose|x: int| 0 <= x < after.len() && after[x] == e;
                        if x < before.len() {
                            assert(before[x] == e);
                            assert(before.contains(e));
                            assert(selected_before(entries, min, e, idx as int));
                            let i = choose|i: int|
                                i < idx && #[trigger] lists_at(entries, min, e.0, i) && entries[i].1
                                    == e.1;
                            assert(lists_at(entries, min, e.0, i));
                        }
                    }
                    if selected_before(entries, min, e, idx + 1) {
                        let i = choose|i: int|
                            i < idx + 1 && #[trigger] lists_at(entries, min, e.0, i) && entries[i].1
                                == e.1;
                        if i < idx {
                            assert(selected_before(entries, min, e, idx as int));
                            let x = choose|x: int| 0 <= x < before.len() && before[x] == e;
                            assert(after[x] == e);
                        } else {
                            assert(e == here);
                        }
                    }
                }
            }
            idx = idx + 1;
        }
        let ranked = rank(&kept);
        let ghost rv = entry_views(ranked@);
        let ghost rw = entry_words(rv);
        proof {
            assert forall|e: (Seq<char>, nat)|
                rv.contains(e) <==> selected_before(entries, min, e, entries.len() as int) by {
                to_multiset_contains(rv, e);
                to_multiset_contains(entry_views(kept@), e);
            }
        }
        let mut buckets: HashMap<u128, Vec<String>> = HashMap::new();
        let mut t: usize = 0;
        proof {
            assert(index_view(buckets@) =~= Map::<nat, Seq<Seq<char>>>::empty());
        }
        while t < ranked.len()
            invariant
                0 <= t <= ranked.len(),
                entries == entry_views(wordlist@),
                min == min_popularity as nat,
                rv == entry_views(ranked@),
                rw == entry_words(rv),
                is_selection(rv, entries, min),
                entered(index_view(buckets@), rw, t as int),
            decreases ranked.len() - t,
        {
            let word = &ranked[t].0;
            assert(rw[t as int] == word@);
            let signature = match translate_word_to_signature(word.as_str()) {
                Ok(s) => s,
                Err(_) => {
                    proof {
                        assert(rv.contains(rv[t as int]));
                        assert(selected_before(entries, min, rv[t as int], entries.len() as int));
                        let i = choose|i: int|
                            i < entries.len() && #[trigger] lists_at(
                                entries,
                                min,
                                rv[t as int].0,
                                i,
                            ) && entries[i].1 == rv[t as int].1;
                        lemma_upper_word(entries[i].0);
                        assert(!has_signature(entries[i].0));
                    }
                    return Err(CipherError::UnsupportedInput);
                },
            };
            let ghost index = index_view(buckets@);
            let ghost earlier = buckets@;
            let mut bucket = match buckets.remove(&signature) {
                Some(b) => b,
                None => Vec::new(),
            };
            proof {
                assert(word_views(bucket@) =~= bucket_of(index, signature as nat));
                lemma_enter(index, rw, t as int);
            }
            if !holds_word(&bucket, word) {
                bucket.push(word.clone());
                assert(word_views(bucket@) =~= bucket_of(index, signature as nat).push(word@));
            }
            let ghost listed = word_views(bucket@);
            buckets.insert(signature, bucket);
            proof {
                assert(buckets@ =~= earlier.insert(signature, buckets@[signature]));
                assert(index_view(buckets@) =~= index.insert(signature as nat, listed));
                if index.contains_key(signature as nat) && listed == index[signature as nat] {
                    assert(index.insert(signature as nat, listed) =~= index);
                }
            }
            t = t + 1;
        }
        proof {
            lemma_index_of(index_view(buckets@), rv, entries, min);
            assert forall|sig: u128, x: int|
                buckets@.contains_key(sig) && 0 <= x < buckets@[sig]@.len() implies has_signature(
                (#[trigger] buckets@[sig]@[x])@,
            ) && signature_of(buckets@[sig]@[x]@) == sig by {
                let index = index_view(buckets@);
                assert(index.contains_key(sig as nat));
                assert(index[sig as nat][x] == buckets@[sig]@[x]@);
            }
        }
        Ok(Dictionary { buckets })
    }

    /// Every word stands under its own signature.
    #[verifier::type_invariant]
    spec fn well_formed(self) -> bool {
        forall|sig: u128, x: int|
            self.buckets@.contains_key(sig) && 0 <= x < self.buckets@[sig]@.len()
                ==> has_signature((#[trigger] self.buckets@[sig]@[x])@) && signature_of(
                self.buckets@[sig]@[x]@,
            ) == sig
    }

    /// Get all possible words for a cipherword from the dictionary: the
    /// words that have the signature of the cipherword and that the
    /// cipherword can decode to under the current key, the most frequent
    /// first. For a cipherword without a signature there are none.
    pub fn get_possible_words(&self, cipherword: &str, current_key: &PotentialKey) -> (r: Vec<
        String,
    >)
        ensures
            word_views(r@) == candidates(self@, cipherword@, current_key@),
    {
        proof {
            use_type_invariant(self);
        }
        let ghost pred = matcher(current_key@, cipherword@);
        let ghost listed = bucket_of(self@, signature_of(cipherword@));
        let mut out: Vec<String> = Vec::new();
        let signature = match translate_word_to_signature(cipherword) {
            Ok(s) => s,
            Err(_) => {
                proof {
                    assert forall|i: int| 0 <= i < listed.len() implies !pred(
                        #[trigger] listed[i],
                    ) by {
                        let sig = signature_of(cipherword@) as u128;
                        assert(listed[i] == self.buckets@[sig]@[i]@);
                        assert(has_signature(listed[i]));
                        if listed[i].len() == cipherword@.len() {
                            let p = choose|p: int|
                                0 <= p < cipherword@.len() && !crate::alphabet::is_letter(
                                    #[trigger] cipherword@[p],
                                );
                            assert(!crate::alphabet::is_upper(cipherword@[p]));
                        }
                    }
                    lemma_filter_none(listed, pred);
                    assert(word_views(out@) =~= Seq::<Seq<char>>::empty());
                }
                return out;
            },
        };
        match self.buckets.get(&signature) {
            Some(entries) => {
                proof {
                    assert(word_views(entries@) == listed);
                    reveal(Seq::filter);
                    assert(listed.take(0) =~= Seq::<Seq<char>>::empty());
                }
                let mut i: usize = 0;
                while i < entries.len()
                    invariant
                        0 <= i <= entries.len(),
                        word_views(entries@) == listed,
                        pred == matcher(current_key@, cipherword@),
                        word_views(out@) == listed.take(i as int).filter(pred),
                    decreases entries.len() - i,
                {
                    let word = &entries[i];
                    proof {
                        assert(listed.take(i + 1) =~= listed.take(i as int).push(word@));
                        listed.take(i as int).lemma_filter_push(word@, pred);
                    }
                    if current_key.matches(word.as_str(), cipherword) {
                        out.push(word.clone());
                        assert(word_views(out@) =~= listed.take(i as int).filter(pred).push(
                            word@,
                        ));
                    }
                    i = i + 1;
                }
                proof {
                    assert(listed.take(entries.len() as int) =~= listed);
                }
            },
            None => {
                proof {
                    reveal(Seq::filter);
                    assert(listed =~= Seq::<Seq<char>>::empty());
                    assert(word_views(out@) =~= Seq::<Seq<char>>::empty());
                }
            },
        }
        out
    }
}

} // verus!
