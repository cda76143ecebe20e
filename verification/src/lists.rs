//! Taking vectors apart.

use vstd::prelude::*;

verus! {

/// Puts the elements into the opposite order.
pub fn reversed<T>(v: Vec<T>) -> (r: Vec<T>)
    ensures
        r@ == v@.reverse(),
{
    let mut v = v;
    let ghost all = v@;
    let mut out: Vec<T> = Vec::new();
    while v.len() > 0
        invariant
            v@.len() <= all.len(),
            v@ == all.take(v@.len() as int),
            out@ == all.skip(v@.len() as int).reverse(),
        decreases v.len(),
    {
        let ghost n = v@.len() as int;
        match v.pop() {
            Some(x) => {
                out.push(x);
                proof {
                    assert(x == all[n - 1]);
                    assert(v@ =~= all.take(n - 1));
                    assert(out@ =~= all.skip(n - 1).reverse());
                }
            },
            None => {},
        }
    }
    assert(all.skip(0) =~= all);
    out
}

/// The last element of what is left of a sequence in the opposite order is the
/// next one.
pub proof fn lemma_next<T>(s: Seq<T>, k: int)
    requires
        0 <= k < s.len(),
    ensures
        s.skip(k).reverse().len() == s.len() - k,
        s.skip(k).reverse().last() == s[k],
        s.skip(k).reverse().drop_last() == s.skip(k + 1).reverse(),
{
    assert(s.skip(k).reverse().drop_last() =~= s.skip(k + 1).reverse());
}

/// How often a value is among those that a condition keeps.
pub proof fn lemma_filter_count<T>(s: Seq<T>, p: spec_fn(T) -> bool, x: T)
    ensures
        s.filter(p).to_multiset().count(x) == if p(x) {
            s.to_multiset().count(x)
        } else {
            0
        },
    decreases s.len(),
{
    broadcast use vstd::seq_lib::group_to_multiset_ensures;

    reveal(Seq::filter);
    if s.len() > 0 {
        lemma_filter_count(s.drop_last(), p, x);
        assert(s =~= s.drop_last().push(s.last()));
        assert(s.to_multiset() =~= s.drop_last().to_multiset().insert(s.last()));
    }
}

/// What a condition keeps was there and meets it.
pub proof fn lemma_filter_member<T>(s: Seq<T>, p: spec_fn(T) -> bool, i: int)
    requires
        0 <= i < s.filter(p).len(),
    ensures
        s.contains(s.filter(p)[i]),
        p(s.filter(p)[i]),
    decreases s.len(),
{
    reveal(Seq::filter);
    if s.len() > 0 {
        let d = s.drop_last();
        let n = s.len() - 1;
        if i < d.filter(p).len() {
            lemma_filter_member(d, p, i);
            let j = choose|j: int| 0 <= j < d.len() && d[j] == d.filter(p)[i];
            assert(s[j] == s.filter(p)[i]);
        } else {
            assert(s[n] == s.filter(p)[i]);
        }
    }
}

/// A value is in a list the other way round as often as in the list.
pub proof fn lemma_reverse_count<T>(s: Seq<T>, x: T)
    ensures
        s.reverse().to_multiset().count(x) == s.to_multiset().count(x),
    decreases s.len(),
{
    broadcast use vstd::seq_lib::group_to_multiset_ensures;

    if s.len() > 0 {
        let d = s.drop_last();
        lemma_reverse_count(d, x);
        assert(s =~= d.push(s.last()));
        assert(s.reverse() =~= seq![s.last()] + d.reverse());
        vstd::seq_lib::lemma_multiset_commutative(seq![s.last()], d.reverse());
        assert(seq![s.last()] =~= Seq::<T>::empty().push(s.last()));
        assert(Seq::<T>::empty().to_multiset().count(x) == 0);
    } else {
        assert(s.reverse() =~= s);
    }
}

} // verus!
