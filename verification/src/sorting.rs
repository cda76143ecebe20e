//! Sorting by text.

use vstd::prelude::*;

use crate::lists::{lemma_filter_count, lemma_filter_member, lemma_next, reversed};
use crate::text::{str_less, str_less_asymmetric, str_less_total, str_less_transitive, str_lt};

verus! {

/// `l` with `x` behind the last element that is not after it.
pub open spec fn put_in_order<T>(l: Seq<(Seq<char>, T)>, x: (Seq<char>, T)) -> Seq<(Seq<char>, T)>
    decreases l.len(),
{
    if l.len() == 0 || !str_less(x.0, l.last().0) {
        l.push(x)
    } else {
        put_in_order(l.drop_last(), x).push(l.last())
    }
}

/// The elements in the order of their texts; those that are level stay as they
/// were.
pub open spec fn in_text_order<T>(l: Seq<(Seq<char>, T)>) -> Seq<(Seq<char>, T)>
    decreases l.len(),
{
    if l.len() == 0 {
        Seq::empty()
    } else {
        put_in_order(in_text_order(l.drop_last()), l.last())
    }
}

/// Whether elements are in the order of their texts.
pub open spec fn is_in_order<T>(l: Seq<(Seq<char>, T)>) -> bool {
    forall|i: int, j: int|
        0 <= i < j < l.len() ==> !str_less((#[trigger] l[j]).0, (#[trigger] l[i]).0)
}

proof fn lemma_put_in_order<T>(l: Seq<(Seq<char>, T)>, x: (Seq<char>, T))
    requires
        is_in_order(l),
    ensures
        is_in_order(put_in_order(l, x)),
        put_in_order(l, x).to_multiset() =~= l.to_multiset().insert(x),
    decreases l.len(),
{
    broadcast use vstd::seq_lib::group_to_multiset_ensures;

    let r = put_in_order(l, x);
    if l.len() == 0 || !str_less(x.0, l.last().0) {
        assert forall|i: int, j: int| 0 <= i < j < r.len() implies !str_less(
            (#[trigger] r[j]).0,
            (#[trigger] r[i]).0,
        ) by {
            if j < l.len() {
                assert(r[i] == l[i] && r[j] == l[j]);
            } else {
                assert(r[i] == l[i]);
                let z = l.last().0;
                if i < l.len() - 1 {
                    assert(!str_less(l[l.len() - 1].0, l[i].0));
                }
                if str_less(x.0, l[i].0) {
                    str_less_total(l[i].0, z);
                    if str_less(l[i].0, z) {
                        str_less_transitive(x.0, l[i].0, z);
                    }
                    assert(false);
                }
            }
        }
    } else {
        let d = l.drop_last();
        let q = put_in_order(d, x);
        assert forall|i: int, j: int| 0 <= i < j < d.len() implies !str_less(
            (#[trigger] d[j]).0,
            (#[trigger] d[i]).0,
        ) by {
            assert(d[i] == l[i] && d[j] == l[j]);
        }
        lemma_put_in_order(d, x);
        assert forall|i: int, j: int| 0 <= i < j < r.len() implies !str_less(
            (#[trigger] r[j]).0,
            (#[trigger] r[i]).0,
        ) by {
            if j < q.len() {
                assert(r[i] == q[i] && r[j] == q[j]);
            } else {
                assert(r[i] == q[i]);
                assert(q.to_multiset().count(q[i]) > 0) by {
                    assert(q.contains(q[i]));
                }
                assert(d.to_multiset().insert(x).count(q[i]) > 0);
                if q[i] == x {
                    str_less_asymmetric(x.0, l.last().0);
                } else {
                    assert(d.to_multiset().count(q[i]) > 0);
                    assert(d.contains(q[i]));
                    let k = choose|k: int| 0 <= k < d.len() && d[k] == q[i];
                    assert(l[k] == q[i]);
                    assert(!str_less(l[l.len() - 1].0, l[k].0));
                }
            }
        }
        assert(l =~= d.push(l.last()));
        assert(l.to_multiset() =~= d.to_multiset().insert(l.last()));
        assert(r.to_multiset() =~= q.to_multiset().insert(l.last()));
    }
}

/// Sorting puts elements in order and neither adds nor drops any.
pub proof fn text_order<T>(l: Seq<(Seq<char>, T)>)
    ensures
        is_in_order(in_text_order(l)),
        in_text_order(l).to_multiset() == l.to_multiset(),
    decreases l.len(),
{
    broadcast use vstd::seq_lib::group_to_multiset_ensures;

    if l.len() > 0 {
        let d = l.drop_last();
        text_order(d);
        lemma_put_in_order(in_text_order(d), l.last());
        assert(l =~= d.push(l.last()));
        assert(l.to_multiset() =~= d.to_multiset().insert(l.last()));
    } else {
        assert(in_text_order(l) =~= l);
    }
}

proof fn lemma_put_at<T>(l: Seq<(Seq<char>, T)>, x: (Seq<char>, T), i: int)
    requires
        0 <= i <= l.len(),
        forall|j: int| i <= j < l.len() ==> str_less(x.0, (#[trigger] l[j]).0),
        i > 0 ==> !str_less(x.0, l[i - 1].0),
    ensures
        put_in_order(l, x) == l.insert(i, x),
    decreases l.len(),
{
    if i == l.len() {
        if l.len() > 0 {
            assert(l[i - 1] == l.last());
        }
        assert(l.insert(i, x) =~= l.push(x));
    } else {
        assert(str_less(x.0, l[l.len() - 1].0));
        let d = l.drop_last();
        assert forall|j: int| i <= j < d.len() implies str_less(x.0, (#[trigger] d[j]).0) by {
            assert(d[j] == l[j]);
        }
        lemma_put_at(d, x, i);
        assert(l.insert(i, x) =~= d.insert(i, x).push(l.last()));
    }
}

pub open spec fn keyed<T>(l: Seq<(String, T)>) -> Seq<(Seq<char>, T)> {
    l.map_values(|e: (String, T)| (e.0@, e.1))
}

/// Sorts elements by their texts.
pub fn sort_by_text<T>(l: Vec<(String, T)>) -> (r: Vec<(String, T)>)
    ensures
        keyed(r@) == in_text_order(keyed(l@)),
{
    let ghost given = l@;
    let ghost all = keyed(given);
    let mut left = reversed(l);
    let mut out: Vec<(String, T)> = Vec::new();
    let ghost mut k: int = 0;
    proof {
        assert(given.skip(0) =~= given);
        assert(keyed(out@) =~= Seq::empty());
    }
    while left.len() > 0
        invariant
            0 <= k <= given.len(),
            all == keyed(given),
            left@ == given.skip(k).reverse(),
            keyed(out@) == in_text_order(all.take(k)),
        decreases left.len(),
    {
        proof {
            lemma_next(given, k);
            assert(all.take(k + 1).drop_last() =~= all.take(k));
            assert(all.take(k + 1).last() == (given[k].0@, given[k].1));
        }
        let x = left.pop().unwrap();
        let ghost added = (x.0@, x.1);
        let ghost before = keyed(out@);
        let mut i: usize = out.len();
        while i > 0 && str_lt(x.0.as_str(), out[i - 1].0.as_str())
            invariant
                i <= out.len(),
                before == keyed(out@),
                forall|j: int| i <= j < before.len() ==> str_less(x.0@, (#[trigger] before[j]).0),
            decreases i,
        {
            assert(before[i - 1].0 == out@[i - 1].0@);
            i = i - 1;
        }
        proof {
            if i > 0 {
                assert(before[i - 1].0 == out@[i - 1].0@);
            }
            lemma_put_at(before, added, i as int);
        }
        out.insert(i, x);
        proof {
            assert(keyed(out@) =~= before.insert(i as int, added));
            k = k + 1;
        }
    }
    assert(all.take(k) =~= all);
    out
}

/// The elements whose texts are behind a text.
pub open spec fn after_text<T>(l: Seq<(Seq<char>, T)>, start: Option<Seq<char>>) -> Seq<
    (Seq<char>, T),
>
    decreases l.len(),
{
    match start {
        None => l,
        Some(s) => if l.len() == 0 {
            l
        } else if str_less(s, l.last().0) {
            after_text(l.drop_last(), start).push(l.last())
        } else {
            after_text(l.drop_last(), start)
        },
    }
}

/// Keeps the elements whose texts are behind a text.
pub fn keep_after<T>(l: Vec<(String, T)>, start: Option<&str>) -> (r: Vec<(String, T)>)
    ensures
        keyed(r@) == after_text(
            keyed(l@),
            match start {
                Some(s) => Some(s@),
                None => None,
            },
        ),
{
    let s = match start {
        Some(s) => s,
        None => return l,
    };
    let ghost given = l@;
    let ghost all = keyed(given);
    let mut left = reversed(l);
    let mut out: Vec<(String, T)> = Vec::new();
    let ghost mut k: int = 0;
    proof {
        assert(given.skip(0) =~= given);
        assert(keyed(out@) =~= after_text(all.take(0), Some(s@)));
    }
    while left.len() > 0
        invariant
            0 <= k <= given.len(),
            all == keyed(given),
            left@ == given.skip(k).reverse(),
            keyed(out@) == after_text(all.take(k), Some(s@)),
        decreases left.len(),
    {
        proof {
            lemma_next(given, k);
            assert(all.take(k + 1).drop_last() =~= all.take(k));
            assert(all.take(k + 1).last() == (given[k].0@, given[k].1));
        }
        let x = left.pop().unwrap();
        if str_lt(s, x.0.as_str()) {
            let ghost added = (x.0@, x.1);
            let ghost before = keyed(out@);
            out.push(x);
            assert(keyed(out@) =~= before.push(added));
        }
        proof {
            k = k + 1;
        }
    }
    assert(all.take(k) =~= all);
    out
}

/// Whether a text is behind another, or there is none to be behind.
pub open spec fn text_behind(start: Option<Seq<char>>, s: Seq<char>) -> bool {
    start matches Some(a) ==> str_less(a, s)
}

/// Whether no text is there twice and texts ascend.
pub open spec fn ascends<T>(l: Seq<(Seq<char>, T)>) -> bool {
    forall|i: int, j: int|
        0 <= i < j < l.len() ==> str_less((#[trigger] l[i]).0, (#[trigger] l[j]).0)
}

spec fn is_behind<T>(start: Option<Seq<char>>) -> spec_fn((Seq<char>, T)) -> bool {
    |x: (Seq<char>, T)| text_behind(start, x.0)
}

proof fn lemma_after_text<T>(l: Seq<(Seq<char>, T)>, start: Option<Seq<char>>)
    ensures
        after_text(l, start) == l.filter(is_behind::<T>(start)),
    decreases l.len(),
{
    reveal(Seq::filter);
    if l.len() > 0 {
        lemma_after_text(l.drop_last(), start);
        if start is None {
            assert(l =~= l.drop_last().push(l.last()));
        }
    }
}

/// Listing elements behind a text gives exactly those whose texts are behind it,
/// each as often as it is there, in the order of their texts.
pub proof fn listing_exact<T>(l: Seq<(Seq<char>, T)>, start: Option<Seq<char>>)
    ensures
        is_in_order(after_text(in_text_order(l), start)),
        forall|x: (Seq<char>, T)| #[trigger]
            after_text(in_text_order(l), start).to_multiset().count(x) == if text_behind(
                start,
                x.0,
            ) {
                l.to_multiset().count(x)
            } else {
                0
            },
{
    let s = in_text_order(l);
    let p = is_behind::<T>(start);
    text_order(l);
    lemma_after_text(s, start);
    assert forall|x: (Seq<char>, T)| #[trigger] s.filter(p).to_multiset().count(x)
        == if text_behind(start, x.0) {
        l.to_multiset().count(x)
    } else {
        0
    } by {
        lemma_filter_count(s, p, x);
    }
    lemma_order_kept(s, p);
}

proof fn lemma_order_kept<T>(s: Seq<(Seq<char>, T)>, p: spec_fn((Seq<char>, T)) -> bool)
    requires
        is_in_order(s),
    ensures
        is_in_order(s.filter(p)),
    decreases s.len(),
{
    reveal(Seq::filter);
    if s.len() > 0 {
        let d = s.drop_last();
        let n = s.len() - 1;
        assert forall|i: int, j: int| 0 <= i < j < d.len() implies !str_less(
            (#[trigger] d[j]).0,
            (#[trigger] d[i]).0,
        ) by {
            assert(d[i] == s[i] && d[j] == s[j]);
        }
        lemma_order_kept(d, p);
        let f = d.filter(p);
        let r = s.filter(p);
        assert forall|i: int, j: int| 0 <= i < j < r.len() implies !str_less(
            (#[trigger] r[j]).0,
            (#[trigger] r[i]).0,
        ) by {
            assert(r[i] == f[i]);
            if j < f.len() {
                assert(r[j] == f[j]);
            } else {
                lemma_filter_member(d, p, i);
                let m = choose|m: int| 0 <= m < d.len() && d[m] == f[i];
                assert(s[m] == f[i] && s[n] == r[j]);
            }
        }
    }
}

/// Behind an element of a listing come exactly the elements after it, where no
/// text is there twice.
pub proof fn listing_goes_on<T>(l: Seq<(Seq<char>, T)>, i: int)
    requires
        ascends(l),
        0 <= i < l.len(),
    ensures
        after_text(l, Some(l[i].0)) == l.skip(i + 1),
    decreases l.len(),
{
    lemma_after_part(l, l[i].0, i, l.len() as int);
    assert(l.take(l.len() as int) =~= l);
    assert(l.subrange(i + 1, l.len() as int) =~= l.skip(i + 1));
}

proof fn lemma_after_part<T>(l: Seq<(Seq<char>, T)>, s: Seq<char>, i: int, n: int)
    requires
        ascends(l),
        0 <= i < l.len(),
        s == l[i].0,
        0 <= n <= l.len(),
    ensures
        after_text(l.take(n), Some(s)) == if n <= i + 1 {
            Seq::<(Seq<char>, T)>::empty()
        } else {
            l.subrange(i + 1, n)
        },
    decreases n,
{
    let h = l.take(n);
    if n > 0 {
        lemma_after_part(l, s, i, n - 1);
        assert(h.drop_last() =~= l.take(n - 1));
        assert(h.last() == l[n - 1]);
        if n - 1 < i {
            assert(str_less(l[n - 1].0, l[i].0));
            str_less_asymmetric(l[n - 1].0, l[i].0);
        } else if n - 1 == i {
            str_less_asymmetric(s, s);
        } else {
            assert(str_less(l[i].0, l[n - 1].0));
            if n - 1 == i + 1 {
                assert(Seq::<(Seq<char>, T)>::empty().push(l[n - 1]) =~= l.subrange(i + 1, n));
            } else {
                assert(l.subrange(i + 1, n - 1).push(l[n - 1]) =~= l.subrange(i + 1, n));
            }
        }
    } else {
        assert(after_text(h, Some(s)) =~= Seq::<(Seq<char>, T)>::empty());
    }
}

} // verus!
