//! First occurrences and leading runs in sequences.

use vstd::prelude::*;

verus! {

/// Position of the first occurrence of `c` in `s`; the length of `s` if
/// there is none.
pub open spec fn first_index<A>(s: Seq<A>, c: A) -> int
    decreases s.len(),
{
    if s.len() == 0 {
        0
    } else if s[0] == c {
        0
    } else {
        1 + first_index(s.drop_first(), c)
    }
}

/// `first_index` finds the first occurrence, if there is one.
pub proof fn lemma_first_index<A>(s: Seq<A>, c: A)
    ensures
        0 <= first_index(s, c) <= s.len(),
        s.contains(c) ==> first_index(s, c) < s.len() && s[first_index(s, c)] == c,
        !s.contains(c) ==> first_index(s, c) == s.len(),
        forall|j: int| 0 <= j < first_index(s, c) ==> s[j] != c,
    decreases s.len(),
{
    if s.len() == 0 {
    } else if s[0] == c {
    } else {
        let t = s.drop_first();
        lemma_first_index(t, c);
        assert(forall|j: int| 0 <= j < t.len() ==> t[j] == s[j + 1]);
        if s.contains(c) {
            let k = choose|k: int| 0 <= k < s.len() && s[k] == c;
            assert(t[k - 1] == c);
        }
        assert forall|j: int| 0 <= j < first_index(s, c) implies s[j] != c by {
            if j > 0 {
                assert(t[j - 1] == s[j]);
            }
        }
    }
}

/// The first occurrence of the element at position `i` lies at or before
/// `i`, and at `i` itself where no earlier position holds that element.
pub proof fn lemma_first_index_at<A>(s: Seq<A>, i: int)
    requires
        0 <= i < s.len(),
    ensures
        0 <= first_index(s, s[i]) <= i,
        s[first_index(s, s[i])] == s[i],
        !s.take(first_index(s, s[i])).contains(s[i]),
        !s.take(i).contains(s[i]) ==> first_index(s, s[i]) == i,
{
    let c = s[i];
    lemma_first_index(s, c);
    let f = first_index(s, c);
    if f > i {
        assert(s[i] != c);
    }
    if f < i {
        assert(s.take(i)[f] == c);
    }
}

/// How many elements that pass the test `p` the sequence begins with.
pub open spec fn leading<A>(s: Seq<A>, p: spec_fn(A) -> bool) -> nat
    decreases s.len(),
{
    if s.len() == 0 || !p(s[0]) {
        0
    } else {
        1 + leading(s.drop_first(), p)
    }
}

/// The leading run is no longer than the sequence, and not empty where
/// the first element passes the test.
pub proof fn lemma_leading_bound<A>(s: Seq<A>, p: spec_fn(A) -> bool)
    ensures
        leading(s, p) <= s.len(),
        s.len() > 0 && p(s[0]) ==> leading(s, p) >= 1,
    decreases s.len(),
{
    if s.len() > 0 && p(s[0]) {
        lemma_leading_bound(s.drop_first(), p);
    }
}

/// The first `n` elements are the leading run where all of them pass the
/// test and the sequence ends there or goes on with one that does not.
pub proof fn lemma_leading<A>(s: Seq<A>, p: spec_fn(A) -> bool, n: int)
    requires
        0 <= n <= s.len(),
        forall|j: int| 0 <= j < n ==> p(#[trigger] s[j]),
        n == s.len() || !p(s[n]),
    ensures
        leading(s, p) == n,
    decreases n,
{
    if n > 0 {
        let t = s.drop_first();
        assert forall|j: int| 0 <= j < n - 1 implies p(#[trigger] t[j]) by {
            assert(t[j] == s[j + 1]);
        }
        if n < s.len() {
            assert(t[n - 1] == s[n]);
        }
        lemma_leading(t, p, n - 1);
    }
}

} // verus!
