//! Generic facts about sequences: uniqueness of keys, and how `Seq::filter`
//! behaves under push, take, and repeated filtering.  The store modules use
//! these to carry table invariants through insertions and cascading deletes.

use vstd::prelude::*;

verus! {

/// No two elements of `s` share a key.
pub open spec fn unique_by<T>(s: Seq<T>, key: spec_fn(T) -> int) -> bool {
    forall|i: int, j: int|
        #![trigger key(s[i]), key(s[j])]
        0 <= i < j < s.len() ==> key(s[i]) != key(s[j])
}

/// Filtering after a push keeps the pushed element exactly when the
/// predicate holds of it.
pub proof fn lemma_filter_push<T>(s: Seq<T>, x: T, pred: spec_fn(T) -> bool)
    ensures
        s.push(x).filter(pred) == (if pred(x) {
            s.filter(pred).push(x)
        } else {
            s.filter(pred)
        }),
{
    reveal(Seq::filter);
    assert(s.push(x).drop_last() =~= s);
    assert(s.push(x).last() == x);
}

/// Extending a prefix of `s` by one element extends its filtered image by
/// that element exactly when the predicate holds of it.
pub proof fn lemma_filter_take_step<T>(s: Seq<T>, j: int, pred: spec_fn(T) -> bool)
    requires
        0 <= j < s.len(),
    ensures
        s.take(j + 1).filter(pred) == (if pred(s[j]) {
            s.take(j).filter(pred).push(s[j])
        } else {
            s.take(j).filter(pred)
        }),
{
    assert(s.take(j + 1) =~= s.take(j).push(s[j]));
    lemma_filter_push(s.take(j), s[j], pred);
}

/// Every element of a filtered sequence occurs in the original.
pub proof fn lemma_filter_subset<T>(s: Seq<T>, pred: spec_fn(T) -> bool)
    ensures
        forall|i: int| 0 <= i < s.filter(pred).len() ==> s.contains(#[trigger] s.filter(pred)[i]),
    decreases s.len(),
{
    reveal(Seq::filter);
    if s.len() > 0 {
        let t = s.drop_last();
        lemma_filter_subset(t, pred);
        assert forall|i: int|
            0 <= i < s.filter(pred).len() implies s.contains(#[trigger] s.filter(pred)[i]) by {
            let out = s.filter(pred);
            if i < t.filter(pred).len() {
                assert(out[i] == t.filter(pred)[i]);
                assert(t.contains(out[i]));
                let k = choose|k: int| 0 <= k < t.len() && t[k] == out[i];
                assert(s[k] == out[i]);
            } else {
                assert(out[i] == s.last());
                assert(s[s.len() - 1] == out[i]);
            }
        }
    }
}

/// Filtering preserves uniqueness of keys.
pub proof fn lemma_filter_unique<T>(s: Seq<T>, pred: spec_fn(T) -> bool, key: spec_fn(T) -> int)
    requires
        unique_by(s, key),
    ensures
        unique_by(s.filter(pred), key),
    decreases s.len(),
{
    reveal(Seq::filter);
    if s.len() > 0 {
        let t = s.drop_last();
        assert(unique_by(t, key)) by {
            assert forall|i: int, j: int|
                #![trigger key(t[i]), key(t[j])]
                0 <= i < j < t.len() implies key(t[i]) != key(t[j]) by {
                assert(t[i] == s[i]);
                assert(t[j] == s[j]);
                assert(key(s[i]) != key(s[j]));
            }
        }
        lemma_filter_unique(t, pred, key);
        lemma_filter_subset(t, pred);
        let out = s.filter(pred);
        let sub = t.filter(pred);
        if pred(s.last()) {
            assert forall|i: int, j: int|
                #![trigger key(out[i]), key(out[j])]
                0 <= i < j < out.len() implies key(out[i]) != key(out[j]) by {
                if j < sub.len() {
                    assert(out[i] == sub[i]);
                    assert(out[j] == sub[j]);
                    assert(key(sub[i]) != key(sub[j]));
                } else {
                    assert(out[j] == s.last());
                    assert(out[i] == sub[i]);
                    assert(t.contains(sub[i]));
                    let k = choose|k: int| 0 <= k < t.len() && t[k] == sub[i];
                    assert(s[k] == sub[i]);
                    assert(key(s[k]) != key(s[s.len() - 1]));
                }
            }
        }
    }
}

/// A filter that rejects every element yields the empty sequence.
pub proof fn lemma_filter_empty<T>(s: Seq<T>, pred: spec_fn(T) -> bool)
    requires
        forall|i: int| 0 <= i < s.len() ==> !pred(#[trigger] s[i]),
    ensures
        s.filter(pred) == Seq::<T>::empty(),
    decreases s.len(),
{
    reveal(Seq::filter);
    if s.len() > 0 {
        let t = s.drop_last();
        assert forall|i: int| 0 <= i < t.len() implies !pred(#[trigger] t[i]) by {
            assert(t[i] == s[i]);
        }
        lemma_filter_empty(t, pred);
        assert(!pred(s[s.len() - 1]));
    }
}

/// A filter that accepts every element is the identity.
pub proof fn lemma_filter_all<T>(s: Seq<T>, pred: spec_fn(T) -> bool)
    requires
        forall|i: int| 0 <= i < s.len() ==> pred(#[trigger] s[i]),
    ensures
        s.filter(pred) == s,
    decreases s.len(),
{
    reveal(Seq::filter);
    if s.len() > 0 {
        let t = s.drop_last();
        assert forall|i: int| 0 <= i < t.len() implies pred(#[trigger] t[i]) by {
            assert(t[i] == s[i]);
        }
        lemma_filter_all(t, pred);
        assert(pred(s[s.len() - 1]));
        assert(s.filter(pred) =~= s);
    }
}

/// Filtering by a narrower predicate subsumes an earlier, wider filter.
pub proof fn lemma_filter_narrow<T>(s: Seq<T>, p: spec_fn(T) -> bool, q: spec_fn(T) -> bool)
    requires
        forall|x: T| #[trigger] q(x) ==> p(x),
    ensures
        s.filter(p).filter(q) == s.filter(q),
    decreases s.len(),
{
    reveal(Seq::filter);
    if s.len() > 0 {
        let t = s.drop_last();
        lemma_filter_narrow(t, p, q);
        let x = s.last();
        if p(x) {
            lemma_filter_push(t.filter(p), x, q);
        }
    }
}

/// The pointwise conjunction of two predicates.
pub open spec fn pand<T>(p: spec_fn(T) -> bool, q: spec_fn(T) -> bool) -> spec_fn(T) -> bool {
    |x: T| p(x) && q(x)
}

/// Two successive filters are one filter by the conjunction.
pub proof fn lemma_filter_compose<T>(s: Seq<T>, p: spec_fn(T) -> bool, q: spec_fn(T) -> bool)
    ensures
        s.filter(p).filter(q) == s.filter(pand(p, q)),
    decreases s.len(),
{
    reveal(Seq::filter);
    if s.len() > 0 {
        let t = s.drop_last();
        lemma_filter_compose(t, p, q);
        let x = s.last();
        if p(x) {
            lemma_filter_push(t.filter(p), x, q);
        }
    }
}

/// Predicates that agree on every element of `s` filter `s` alike.
pub proof fn lemma_filter_agree<T>(s: Seq<T>, p: spec_fn(T) -> bool, q: spec_fn(T) -> bool)
    requires
        forall|i: int| 0 <= i < s.len() ==> p(#[trigger] s[i]) == q(s[i]),
    ensures
        s.filter(p) == s.filter(q),
    decreases s.len(),
{
    reveal(Seq::filter);
    if s.len() > 0 {
        let t = s.drop_last();
        assert forall|i: int| 0 <= i < t.len() implies p(#[trigger] t[i]) == q(t[i]) by {
            assert(t[i] == s[i]);
        }
        lemma_filter_agree(t, p, q);
        assert(p(s[s.len() - 1]) == q(s[s.len() - 1]));
    }
}

/// Pushing an element with a fresh key preserves uniqueness.
pub proof fn lemma_unique_push<T>(s: Seq<T>, x: T, key: spec_fn(T) -> int)
    requires
        unique_by(s, key),
        forall|i: int| 0 <= i < s.len() ==> key(#[trigger] s[i]) != key(x),
    ensures
        unique_by(s.push(x), key),
{
    let out = s.push(x);
    assert forall|i: int, j: int|
        #![trigger key(out[i]), key(out[j])]
        0 <= i < j < out.len() implies key(out[i]) != key(out[j]) by {
        assert(out[i] == s[i]);
        if j < s.len() {
            assert(out[j] == s[j]);
        } else {
            assert(out[j] == x);
        }
    }
}

/// Replacing an element by one with the same key preserves uniqueness.
pub proof fn lemma_unique_update<T>(s: Seq<T>, n: int, x: T, key: spec_fn(T) -> int)
    requires
        unique_by(s, key),
        0 <= n < s.len(),
        key(x) == key(s[n]),
    ensures
        unique_by(s.update(n, x), key),
{
    let out = s.update(n, x);
    assert forall|i: int, j: int|
        #![trigger key(out[i]), key(out[j])]
        0 <= i < j < out.len() implies key(out[i]) != key(out[j]) by {
        if i != n {
            assert(out[i] == s[i]);
        }
        if j != n {
            assert(out[j] == s[j]);
        }
        assert(key(s[i]) != key(s[j]));
    }
}

} // verus!
