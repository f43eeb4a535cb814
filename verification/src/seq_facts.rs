//! Facts about sequences and the sets of their values.

use vstd::prelude::*;

verus! {

/// Inserting into a sequence adds exactly the inserted value to its set.
pub proof fn lemma_insert_to_set<T>(s: Seq<T>, p: int, x: T)
    requires
        0 <= p <= s.len(),
    ensures
        s.insert(p, x).to_set() == s.to_set().insert(x),
{
    let t = s.insert(p, x);
    assert forall|y: T| t.to_set().contains(y) <==> s.to_set().insert(x).contains(y) by {
        if t.to_set().contains(y) {
            let i = choose|i: int| 0 <= i < t.len() && t[i] == y;
            if i < p {
                assert(s[i] == y);
            } else if i > p {
                assert(s[i - 1] == y);
            }
        }
        if s.to_set().insert(x).contains(y) {
            if y == x {
                assert(t[p] == y);
            } else {
                let i = choose|i: int| 0 <= i < s.len() && s[i] == y;
                if i < p {
                    assert(t[i] == y);
                } else {
                    assert(t[i + 1] == y);
                }
            }
        }
    }
    assert(t.to_set() =~= s.to_set().insert(x));
}

/// Removing the only occurrence of a value from a sequence removes it from
/// the sequence's set.
pub proof fn lemma_remove_to_set<T>(s: Seq<T>, p: int)
    requires
        0 <= p < s.len(),
        s.no_duplicates(),
    ensures
        s.remove(p).to_set() == s.to_set().remove(s[p]),
{
    let t = s.remove(p);
    assert forall|y: T| t.to_set().contains(y) <==> s.to_set().remove(s[p]).contains(y) by {
        if t.to_set().contains(y) {
            let i = choose|i: int| 0 <= i < t.len() && t[i] == y;
            if i < p {
                assert(s[i] == y);
            } else {
                assert(s[i + 1] == y);
            }
        }
        if s.to_set().remove(s[p]).contains(y) {
            let i = choose|i: int| 0 <= i < s.len() && s[i] == y;
            if i < p {
                assert(t[i] == y);
            } else {
                assert(i > p);
                assert(t[i - 1] == y);
            }
        }
    }
    assert(t.to_set() =~= s.to_set().remove(s[p]));
}

/// Appending to a sequence adds exactly the appended value to its set.
pub proof fn lemma_push_to_set<T>(s: Seq<T>, x: T)
    ensures
        s.push(x).to_set() == s.to_set().insert(x),
{
    assert(s.push(x) =~= s.insert(s.len() as int, x));
    lemma_insert_to_set(s, s.len() as int, x);
}

/// The set of a sequence is finite, and no larger than the sequence is long.
pub proof fn lemma_to_set_finite<T>(s: Seq<T>)
    ensures
        s.to_set().finite(),
        s.to_set().len() <= s.len(),
    decreases s.len(),
{
    if s.len() == 0 {
        assert(s.to_set() =~= Set::<T>::empty());
    } else {
        let t = s.drop_last();
        lemma_to_set_finite(t);
        assert(s =~= t.push(s.last()));
        lemma_push_to_set(t, s.last());
    }
}

/// The values among the first `n + 1` of a sequence are those among the
/// first `n` and the one after them.
pub proof fn lemma_take_next_contains<T>(s: Seq<T>, n: int)
    requires
        0 <= n < s.len(),
    ensures
        forall|x: T| s.take(n + 1).contains(x) <==> (s.take(n).contains(x) || x == s[n]),
{
    let a = s.take(n);
    let b = s.take(n + 1);
    assert forall|x: T| b.contains(x) <==> (a.contains(x) || x == s[n]) by {
        if a.contains(x) {
            let k = choose|k: int| 0 <= k < a.len() && a[k] == x;
            assert(b[k] == x);
        }
        if b.contains(x) {
            let k = choose|k: int| 0 <= k < b.len() && b[k] == x;
            if k < n {
                assert(a[k] == x);
            }
        }
        assert(b[n] == s[n]);
    }
}

} // verus!
