//! Ranking the entries of a word list: most frequent first.

use vstd::prelude::*;
use vstd::seq_lib::{
    lemma_multiset_commutative, to_multiset_build, to_multiset_contains, to_multiset_len,
};

verus! {

broadcast use {to_multiset_build, vstd::multiset::group_multiset_axioms};

/// `a` comes at or before `b` in alphabetical order, character by
/// character; a word comes before every longer word that begins with it.
pub open spec fn word_le(a: Seq<char>, b: Seq<char>) -> bool
    decreases a.len(),
{
    if a.len() == 0 {
        true
    } else if b.len() == 0 {
        false
    } else if a[0] == b[0] {
        word_le(a.drop_first(), b.drop_first())
    } else {
        a[0] < b[0]
    }
}

/// Of two words, one comes at or before the other.
pub proof fn lemma_word_le_total(a: Seq<char>, b: Seq<char>)
    ensures
        word_le(a, b) || word_le(b, a),
    decreases a.len(),
{
    if a.len() > 0 && b.len() > 0 && a[0] == b[0] {
        lemma_word_le_total(a.drop_first(), b.drop_first());
    }
}

/// Alphabetical order is transitive.
pub proof fn lemma_word_le_transitive(a: Seq<char>, b: Seq<char>, c: Seq<char>)
    requires
        word_le(a, b),
        word_le(b, c),
    ensures
        word_le(a, c),
    decreases a.len(),
{
    if a.len() > 0 && b.len() > 0 && c.len() > 0 && a[0] == b[0] && b[0] == c[0] {
        lemma_word_le_transitive(a.drop_first(), b.drop_first(), c.drop_first());
    }
}

/// Two words that each come at or before the other are the same word.
pub proof fn lemma_word_le_antisymmetric(a: Seq<char>, b: Seq<char>)
    requires
        word_le(a, b),
        word_le(b, a),
    ensures
        a == b,
    decreases a.len(),
{
    if a.len() == 0 || b.len() == 0 {
        assert(a =~= b);
    } else {
        lemma_word_le_antisymmetric(a.drop_first(), b.drop_first());
        assert(a =~= seq![a[0]] + a.drop_first());
        assert(b =~= seq![b[0]] + b.drop_first());
    }
}

/// An entry `a` ranks at or above an entry `b`: it is more frequent, or
/// equally frequent and not earlier in alphabetical order.
pub open spec fn outranks(a: (Seq<char>, nat), b: (Seq<char>, nat)) -> bool {
    a.1 > b.1 || (a.1 == b.1 && word_le(b.0, a.0))
}

/// The entries stand in ranking order, highest first.
pub open spec fn is_ranked(r: Seq<(Seq<char>, nat)>) -> bool {
    forall|i: int, j: int| 0 <= i < j < r.len() ==> outranks(#[trigger] r[i], #[trigger] r[j])
}

/// What an entry holds: the characters of its word, and its count.
pub open spec fn entry_view(e: (String, usize)) -> (Seq<char>, nat) {
    (e.0@, e.1 as nat)
}

/// What the entries of a list hold.
pub open spec fn entry_views(v: Seq<(String, usize)>) -> Seq<(Seq<char>, nat)> {
    Seq::new(v.len(), |i: int| entry_view(v[i]))
}

proof fn lemma_outranks_transitive(a: (Seq<char>, nat), b: (Seq<char>, nat), c: (Seq<char>, nat))
    requires
        outranks(a, b),
        outranks(b, c),
    ensures
        outranks(a, c),
{
    if a.1 == b.1 && b.1 == c.1 {
        lemma_word_le_transitive(c.0, b.0, a.0);
    }
}

/// Tells whether `a` comes at or before `b` in alphabetical order.
fn word_at_or_before(a: &str, b: &str) -> (r: bool)
    ensures
        r == word_le(a@, b@),
{
    let n = a.unicode_len();
    let m = b.unicode_len();
    let mut i: usize = 0;
    proof {
        assert(a@.skip(0) =~= a@);
        assert(b@.skip(0) =~= b@);
    }
    while i < n && i < m
        invariant
            0 <= i <= n,
            i <= m,
            n == a@.len(),
            m == b@.len(),
            word_le(a@, b@) == word_le(a@.skip(i as int), b@.skip(i as int)),
        decreases n - i,
    {
        let x = a.get_char(i);
        let y = b.get_char(i);
        proof {
            assert(a@.skip(i as int)[0] == x);
            assert(b@.skip(i as int)[0] == y);
            assert(a@.skip(i as int).drop_first() =~= a@.skip(i + 1));
            assert(b@.skip(i as int).drop_first() =~= b@.skip(i + 1));
        }
        if x != y {
            return x < y;
        }
        i = i + 1;
    }
    i == n
}

/// Tells whether entry `a` ranks at or above entry `b`.
fn ranks_at_or_above(a: &(String, usize), b: &(String, usize)) -> (r: bool)
    ensures
        r == outranks(entry_view(*a), entry_view(*b)),
{
    if a.1 != b.1 {
        a.1 > b.1
    } else {
        word_at_or_before(b.0.as_str(), a.0.as_str())
    }
}

/// A copy of an entry.
fn copy_entry(e: &(String, usize)) -> (r: (String, usize))
    ensures
        entry_view(r) == entry_view(*e),
{
    (e.0.clone(), e.1)
}

/// Merges two ranked lists into one.
fn merge(left: &Vec<(String, usize)>, right: &Vec<(String, usize)>) -> (r: Vec<(String, usize)>)
    requires
        is_ranked(entry_views(left@)),
        is_ranked(entry_views(right@)),
        left.len() + right.len() <= usize::MAX,
    ensures
        is_ranked(entry_views(r@)),
        entry_views(r@).to_multiset() == entry_views(left@).to_multiset().add(
            entry_views(right@).to_multiset(),
        ),
{
    let ghost lv = entry_views(left@);
    let ghost rv = entry_views(right@);
    let mut out: Vec<(String, usize)> = Vec::new();
    let mut i: usize = 0;
    let mut j: usize = 0;
    proof {
        assert(lv.take(0) =~= Seq::<(Seq<char>, nat)>::empty());
        assert(rv.take(0) =~= Seq::<(Seq<char>, nat)>::empty());
        assert(entry_views(out@) =~= Seq::<(Seq<char>, nat)>::empty());
        let none = Seq::<(Seq<char>, nat)>::empty();
        assert forall|e: (Seq<char>, nat)| none.to_multiset().count(e) == 0 by {
            to_multiset_contains(none, e);
        }
        assert(entry_views(out@).to_multiset() =~= lv.take(0).to_multiset().add(
            rv.take(0).to_multiset(),
        ));
    }
    while i < left.len() || j < right.len()
        invariant
            0 <= i <= left.len(),
            0 <= j <= right.len(),
            left.len() + right.len() <= usize::MAX,
            lv == entry_views(left@),
            rv == entry_views(right@),
            is_ranked(lv),
            is_ranked(rv),
            out.len() == i + j,
            is_ranked(entry_views(out@)),
            forall|x: int, t: int|
                0 <= x < out.len() && i <= t < left.len() ==> outranks(
                    #[trigger] entry_views(out@)[x],
                    #[trigger] lv[t],
                ),
            forall|x: int, t: int|
                0 <= x < out.len() && j <= t < right.len() ==> outranks(
                    #[trigger] entry_views(out@)[x],
                    #[trigger] rv[t],
                ),
            entry_views(out@).to_multiset() == lv.take(i as int).to_multiset().add(
                rv.take(j as int).to_multiset(),
            ),
        decreases left.len() - i + right.len() - j,
    {
        let from_left = if j >= right.len() {
            true
        } else if i >= left.len() {
            false
        } else {
            ranks_at_or_above(&left[i], &right[j])
        };
        let ghost before = entry_views(out@);
        let ghost added = if from_left {
            lv[i as int]
        } else {
            rv[j as int]
        };
        proof {
            if i < left.len() && j < right.len() {
                if from_left {
                    assert forall|t: int| j <= t < right.len() implies outranks(
                        lv[i as int],
                        #[trigger] rv[t],
                    ) by {
                        if t > j {
                            lemma_outranks_transitive(lv[i as int], rv[j as int], rv[t]);
                        }
                    }
                } else {
                    lemma_word_le_total(lv[i as int].0, rv[j as int].0);
                    assert(outranks(rv[j as int], lv[i as int]));
                    assert forall|t: int| i <= t < left.len() implies outranks(
                        rv[j as int],
                        #[trigger] lv[t],
                    ) by {
                        if t > i {
                            lemma_outranks_transitive(rv[j as int], lv[i as int], lv[t]);
                        }
                    }
                }
            }
            lemma_word_le_total(added.0, added.0);
            if from_left {
                assert(lv.take(i + 1) =~= lv.take(i as int).push(added));
            } else {
                assert(rv.take(j + 1) =~= rv.take(j as int).push(added));
            }
        }
        if from_left {
            out.push(copy_entry(&left[i]));
            i = i + 1;
        } else {
            out.push(copy_entry(&right[j]));
            j = j + 1;
        }
        proof {
            let after = entry_views(out@);
            let last = before.len() as int;
            assert(after =~= before.push(added));
            assert forall|a: int, b: int| 0 <= a < b < after.len() implies outranks(
                #[trigger] after[a],
                #[trigger] after[b],
            ) by {
                if b < last {
                    assert(outranks(before[a], before[b]));
                } else {
                    assert(after[a] == before[a]);
                }
            }
            assert(after.to_multiset() =~= lv.take(i as int).to_multiset().add(
                rv.take(j as int).to_multiset(),
            ));
        }
    }
    proof {
        assert(lv.take(left.len() as int) =~= lv);
        assert(rv.take(right.len() as int) =~= rv);
    }
    out
}

/// The entries of `v` from position `lo` up to, not including, `hi`, in
/// ranking order.
fn rank_range(v: &Vec<(String, usize)>, lo: usize, hi: usize) -> (r: Vec<(String, usize)>)
    requires
        lo <= hi <= v.len(),
    ensures
        is_ranked(entry_views(r@)),
        entry_views(r@).to_multiset() == entry_views(v@).subrange(
            lo as int,
            hi as int,
        ).to_multiset(),
    decreases hi - lo,
{
    let ghost vv = entry_views(v@);
    if hi - lo == 0 {
        let out: Vec<(String, usize)> = Vec::new();
        assert(entry_views(out@) =~= vv.subrange(lo as int, hi as int));
        out
    } else if hi - lo == 1 {
        let mut out: Vec<(String, usize)> = Vec::new();
        out.push(copy_entry(&v[lo]));
        assert(entry_views(out@) =~= vv.subrange(lo as int, hi as int));
        out
    } else {
        let mid = lo + (hi - lo) / 2;
        let left = rank_range(v, lo, mid);
        let right = rank_range(v, mid, hi);
        proof {
            to_multiset_len(entry_views(left@));
            to_multiset_len(entry_views(right@));
            to_multiset_len(vv.subrange(lo as int, mid as int));
            to_multiset_len(vv.subrange(mid as int, hi as int));
        }
        let out = merge(&left, &right);
        proof {
            assert(vv.subrange(lo as int, hi as int) =~= vv.subrange(lo as int, mid as int)
                + vv.subrange(mid as int, hi as int));
            lemma_multiset_commutative(
                vv.subrange(lo as int, mid as int),
                vv.subrange(mid as int, hi as int),
            );
        }
        out
    }
}

/// The entries of a word list in ranking order: by falling count, and
/// entries of equal count by falling alphabetical order of their words.
/// Every entry comes out as often as it went in.
pub fn rank(v: &Vec<(String, usize)>) -> (r: Vec<(String, usize)>)
    ensures
        is_ranked(entry_views(r@)),
        entry_views(r@).to_multiset() == entry_views(v@).to_multiset(),
        r.len() == v.len(),
{
    let out = rank_range(v, 0, v.len());
    proof {
        assert(entry_views(v@).subrange(0, v.len() as int) =~= entry_views(v@));
        to_multiset_len(entry_views(out@));
        to_multiset_len(entry_views(v@));
    }
    out
}

} // verus!
