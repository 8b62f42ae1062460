//! Order-preserving subsequences: the shape in which a slot's candidate
//! set shrinks, whether by filtering or by collapsing to one member.

use vstd::prelude::*;

verus! {

/// Whether `a` is a subsequence of `b`: the elements of `a` appear in `b`
/// in the same order, not necessarily contiguously.
pub open spec fn subsequence_of<T>(a: Seq<T>, b: Seq<T>) -> bool
    decreases a.len() + b.len(),
{
    if a.len() == 0 {
        true
    } else if b.len() == 0 {
        false
    } else if a.last() == b.last() {
        subsequence_of(a.drop_last(), b.drop_last())
    } else {
        subsequence_of(a, b.drop_last())
    }
}

/// Every sequence is a subsequence of itself.
pub proof fn lemma_subsequence_refl<T>(a: Seq<T>)
    ensures
        subsequence_of(a, a),
    decreases a.len(),
{
    if a.len() > 0 {
        lemma_subsequence_refl(a.drop_last());
    }
}

/// Dropping the last element of a subsequence keeps it a subsequence.
pub proof fn lemma_subsequence_drop_left<T>(a: Seq<T>, b: Seq<T>)
    requires
        a.len() > 0,
        subsequence_of(a, b),
    ensures
        subsequence_of(a.drop_last(), b),
    decreases b.len(),
{
    if a.last() == b.last() {
        if a.len() > 1 {
            if a.drop_last().last() == b.last() {
                lemma_subsequence_drop_left(a.drop_last(), b.drop_last());
            }
        }
    } else {
        lemma_subsequence_drop_left(a, b.drop_last());
        if a.drop_last().len() > 0 && a.drop_last().last() == b.last() {
            lemma_subsequence_drop_left(a.drop_last(), b.drop_last());
        }
    }
}

/// Appending on the right keeps a subsequence.
pub proof fn lemma_subsequence_push_right<T>(a: Seq<T>, b: Seq<T>, x: T)
    requires
        subsequence_of(a, b),
    ensures
        subsequence_of(a, b.push(x)),
{
    assert(b.push(x).drop_last() =~= b);
    if a.len() > 0 && a.last() == x {
        lemma_subsequence_drop_left(a, b);
    }
}

/// A subsequence of a subsequence is a subsequence.
pub proof fn lemma_subsequence_trans<T>(a: Seq<T>, b: Seq<T>, c: Seq<T>)
    requires
        subsequence_of(a, b),
        subsequence_of(b, c),
    ensures
        subsequence_of(a, c),
    decreases a.len() + b.len() + c.len(),
{
    if a.len() > 0 {
        if b.last() == c.last() {
            if a.last() == b.last() {
                lemma_subsequence_trans(a.drop_last(), b.drop_last(), c.drop_last());
            } else {
                lemma_subsequence_trans(a, b.drop_last(), c.drop_last());
                if a.last() == c.last() {
                    lemma_subsequence_drop_left(a, c.drop_last());
                }
            }
        } else {
            lemma_subsequence_trans(a, b, c.drop_last());
            if a.last() == c.last() {
                lemma_subsequence_drop_left(a, c.drop_last());
            }
        }
    }
}

/// A subsequence is never longer than the sequence it came from.
pub proof fn lemma_subsequence_len<T>(a: Seq<T>, b: Seq<T>)
    requires
        subsequence_of(a, b),
    ensures
        a.len() <= b.len(),
    decreases a.len() + b.len(),
{
    if a.len() > 0 {
        if a.last() == b.last() {
            lemma_subsequence_len(a.drop_last(), b.drop_last());
        } else {
            lemma_subsequence_len(a, b.drop_last());
        }
    }
}

/// Every element of a subsequence stands in the sequence it came from.
pub proof fn lemma_subsequence_membership<T>(a: Seq<T>, b: Seq<T>)
    requires
        subsequence_of(a, b),
    ensures
        forall|k: int| 0 <= k < a.len() ==> b.contains(#[trigger] a[k]),
    decreases a.len() + b.len(),
{
    if a.len() > 0 {
        if a.last() == b.last() {
            lemma_subsequence_membership(a.drop_last(), b.drop_last());
            assert forall|k: int| 0 <= k < a.len() implies b.contains(a[k]) by {
                if k < a.len() - 1 {
                    assert(a[k] == a.drop_last()[k]);
                    assert(b.drop_last().contains(a[k]));
                    let w = choose|w: int| 0 <= w < b.drop_last().len() && b.drop_last()[w] == a[k];
                    assert(b[w] == a[k]);
                } else {
                    assert(b[b.len() - 1] == a[k]);
                }
            }
        } else {
            lemma_subsequence_membership(a, b.drop_last());
            assert forall|k: int| 0 <= k < a.len() implies b.contains(a[k]) by {
                assert(b.drop_last().contains(a[k]));
                let w = choose|w: int| 0 <= w < b.drop_last().len() && b.drop_last()[w] == a[k];
                assert(b[w] == a[k]);
            }
        }
    }
}

/// A non-empty subsequence of a one-element sequence is that sequence.
pub proof fn lemma_subsequence_singleton<T>(a: Seq<T>, b: Seq<T>)
    requires
        subsequence_of(a, b),
        b.len() == 1,
        a.len() >= 1,
    ensures
        a =~= b,
{
    lemma_subsequence_len(a, b);
    if a.last() != b.last() {
        assert(b.drop_last().len() == 0);
        assert(!subsequence_of(a, b.drop_last()));
    }
}

/// A one-element sequence of a member is a subsequence.
pub proof fn lemma_member_singleton_subsequence<T>(m: T, b: Seq<T>)
    requires
        b.contains(m),
    ensures
        subsequence_of(seq![m], b),
    decreases b.len(),
{
    let s = seq![m];
    assert(b.len() > 0);
    assert(s.len() == 1 && s.last() == m);
    if b.last() == m {
        assert(s.drop_last().len() == 0);
        assert(subsequence_of(s.drop_last(), b.drop_last()));
    } else {
        let w = choose|w: int| 0 <= w < b.len() && b[w] == m;
        assert(b.drop_last()[w] == m);
        assert(b.drop_last().contains(m));
        lemma_member_singleton_subsequence(m, b.drop_last());
        assert(subsequence_of(s, b.drop_last()));
    }
}

} // verus!
