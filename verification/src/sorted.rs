//! Sequences kept in strictly increasing order of a byte-string key: the
//! order, and what putting an element in its place does.

use vstd::prelude::*;

use crate::bytes::{lex_asymmetric, lex_lt, lex_total, lex_transitive};

verus! {

/// The keys of `s` strictly increase.
pub open spec fn sorted_by<T>(s: Seq<T>, key: spec_fn(T) -> Seq<u8>) -> bool {
    forall|i: int, j: int| 0 <= i < j < s.len() ==> lex_lt(key(#[trigger] s[i]), key(#[trigger] s[j]))
}

/// `s` with `x` in its place: instead of the element with the same key, where
/// there is one, and else before the first element with a greater key.
pub open spec fn sorted_put<T>(s: Seq<T>, x: T, key: spec_fn(T) -> Seq<u8>) -> Seq<T>
    decreases s.len(),
{
    if s.len() == 0 {
        seq![x]
    } else if key(s.last()) == key(x) {
        s.drop_last().push(x)
    } else if lex_lt(key(s.last()), key(x)) {
        s.push(x)
    } else {
        sorted_put(s.drop_last(), x, key).push(s.last())
    }
}

/// Where `x` goes: `i` is the number of elements with a smaller key.
pub proof fn lemma_sorted_put_at<T>(s: Seq<T>, x: T, key: spec_fn(T) -> Seq<u8>, i: int)
    requires
        sorted_by(s, key),
        0 <= i <= s.len(),
        forall|j: int| 0 <= j < i ==> lex_lt(key(#[trigger] s[j]), key(x)),
        i < s.len() ==> !lex_lt(key(s[i]), key(x)),
    ensures
        sorted_put(s, x, key) == if i < s.len() && key(s[i]) == key(x) {
            s.update(i, x)
        } else {
            s.insert(i, x)
        },
    decreases s.len(),
{
    if s.len() > 0 {
        let l = s.last();
        let n = s.len() - 1;
        lex_asymmetric(key(l), key(x));
        if i == s.len() {
            assert(lex_lt(key(s[n]), key(x)));
            assert(s.insert(i, x) =~= s.push(x));
        } else if i == n {
            lex_total(key(l), key(x));
            if key(l) == key(x) {
                assert(s.update(i, x) =~= s.drop_last().push(x));
            } else {
                let d = s.drop_last();
                assert forall|j: int| 0 <= j < i implies lex_lt(key(#[trigger] d[j]), key(x)) by {
                    assert(d[j] == s[j]);
                }
                lemma_sorted_put_at(d, x, key, i);
                assert(s.insert(i, x) =~= d.insert(i, x).push(l));
            }
        } else {
            lex_total(key(s[i]), key(x));
            assert(lex_lt(key(s[i]), key(s[n])));
            if lex_lt(key(x), key(s[i])) {
                lex_transitive(key(x), key(s[i]), key(l));
            }
            lex_asymmetric(key(x), key(l));
            lex_asymmetric(key(l), key(x));
            let d = s.drop_last();
            assert forall|j: int| 0 <= j < i implies lex_lt(key(#[trigger] d[j]), key(x)) by {
                assert(d[j] == s[j]);
            }
            assert(d[i] == s[i]);
            lemma_sorted_put_at(d, x, key, i);
            if key(s[i]) == key(x) {
                assert(s.update(i, x) =~= d.update(i, x).push(l));
            } else {
                assert(s.insert(i, x) =~= d.insert(i, x).push(l));
            }
        }
    } else {
        assert(s.insert(0, x) =~= seq![x]);
    }
}

/// Putting an element in its place keeps the order.
pub proof fn lemma_sorted_put_sorted<T>(s: Seq<T>, x: T, key: spec_fn(T) -> Seq<u8>)
    requires
        sorted_by(s, key),
    ensures
        sorted_by(sorted_put(s, x, key), key),
        sorted_put(s, x, key).len() >= s.len(),
        forall|j: int|
            0 <= j < sorted_put(s, x, key).len() ==> (key(#[trigger] sorted_put(s, x, key)[j])
                == key(x) || exists|i: int|
                0 <= i < s.len() && key(#[trigger] s[i]) == key(sorted_put(s, x, key)[j])),
    decreases s.len(),
{
    let r = sorted_put(s, x, key);
    if s.len() == 0 {
    } else if key(s.last()) == key(x) {
        assert forall|i: int, j: int| 0 <= i < j < r.len() implies lex_lt(
            key(#[trigger] r[i]),
            key(#[trigger] r[j]),
        ) by {
            assert(lex_lt(key(s[i]), key(s[j])));
        }
        assert forall|j: int| 0 <= j < r.len() implies (key(#[trigger] r[j]) == key(x)
            || exists|i: int| 0 <= i < s.len() && key(#[trigger] s[i]) == key(r[j])) by {
            assert(key(s[j]) == key(r[j]));
        }
    } else if lex_lt(key(s.last()), key(x)) {
        assert forall|i: int, j: int| 0 <= i < j < r.len() implies lex_lt(
            key(#[trigger] r[i]),
            key(#[trigger] r[j]),
        ) by {
            if j < s.len() {
                assert(lex_lt(key(s[i]), key(s[j])));
            } else if i < s.len() - 1 {
                assert(lex_lt(key(s[i]), key(s[s.len() - 1])));
                lex_transitive(key(s[i]), key(s.last()), key(x));
            }
        }
        assert forall|j: int| 0 <= j < r.len() implies (key(#[trigger] r[j]) == key(x)
            || exists|i: int| 0 <= i < s.len() && key(#[trigger] s[i]) == key(r[j])) by {
            if j < s.len() {
                assert(key(s[j]) == key(r[j]));
            }
        }
    } else {
        let d = s.drop_last();
        lemma_sorted_put_sorted(d, x, key);
        lex_total(key(s.last()), key(x));
        let q = sorted_put(d, x, key);
        assert forall|i: int, j: int| 0 <= i < j < r.len() implies lex_lt(
            key(#[trigger] r[i]),
            key(#[trigger] r[j]),
        ) by {
            if j < q.len() {
                assert(lex_lt(key(q[i]), key(q[j])));
            } else {
                assert(r[i] == q[i]);
                if key(q[i]) != key(x) {
                    let k = choose|k: int| 0 <= k < d.len() && key(#[trigger] d[k]) == key(q[i]);
                    assert(lex_lt(key(s[k]), key(s[s.len() - 1])));
                    assert(d[k] == s[k]);
                }
            }
        }
        assert forall|j: int| 0 <= j < r.len() implies (key(#[trigger] r[j]) == key(x)
            || exists|i: int| 0 <= i < s.len() && key(#[trigger] s[i]) == key(r[j])) by {
            if j < q.len() {
                assert(r[j] == q[j]);
                if key(q[j]) != key(x) {
                    let k = choose|k: int| 0 <= k < d.len() && key(#[trigger] d[k]) == key(q[j]);
                    assert(key(s[k]) == key(r[j]));
                }
            } else {
                assert(key(s[s.len() - 1]) == key(r[j]));
            }
        }
    }
}

/// An element with a key beyond all others goes to the end.
pub proof fn lemma_sorted_put_end<T>(s: Seq<T>, x: T, key: spec_fn(T) -> Seq<u8>)
    requires
        s.len() > 0 ==> lex_lt(key(s.last()), key(x)),
    ensures
        sorted_put(s, x, key) == s.push(x),
{
    if s.len() > 0 {
        lex_asymmetric(key(s.last()), key(x));
    } else {
        assert(s.push(x) =~= seq![x]);
    }
}

/// `xs` put in one after the other.
pub open spec fn sorted_put_all<T>(xs: Seq<T>, key: spec_fn(T) -> Seq<u8>) -> Seq<T>
    decreases xs.len(),
{
    if xs.len() == 0 {
        Seq::empty()
    } else {
        sorted_put(sorted_put_all(xs.drop_last(), key), xs.last(), key)
    }
}

/// What is in order already comes out as it went in.
pub proof fn lemma_sorted_put_all_sorted<T>(xs: Seq<T>, key: spec_fn(T) -> Seq<u8>)
    requires
        sorted_by(xs, key),
    ensures
        sorted_put_all(xs, key) == xs,
    decreases xs.len(),
{
    if xs.len() > 0 {
        let d = xs.drop_last();
        assert forall|i: int, j: int| 0 <= i < j < d.len() implies lex_lt(
            key(#[trigger] d[i]),
            key(#[trigger] d[j]),
        ) by {
            assert(lex_lt(key(xs[i]), key(xs[j])));
        }
        lemma_sorted_put_all_sorted(d, key);
        if d.len() > 0 {
            assert(lex_lt(key(xs[xs.len() - 2]), key(xs[xs.len() - 1])));
        }
        lemma_sorted_put_end(d, xs.last(), key);
        assert(d.push(xs.last()) =~= xs);
    } else {
        assert(xs =~= Seq::empty());
    }
}

} // verus!
