//! Searching and filtering sequences.

use vstd::prelude::*;

verus! {

/// Whether `i` is the first position whose element passes `pred`.
pub open spec fn is_first<A>(s: Seq<A>, pred: spec_fn(A) -> bool, i: int) -> bool {
    0 <= i < s.len() && pred(s[i]) && forall|j: int| 0 <= j < i ==> !pred(#[trigger] s[j])
}

/// The first position whose element passes `pred`, if there is one.
pub open spec fn first_where<A>(s: Seq<A>, pred: spec_fn(A) -> bool) -> Option<int> {
    if exists|i: int| is_first(s, pred, i) {
        Some(choose|i: int| is_first(s, pred, i))
    } else {
        None
    }
}

/// There is only one first position.
pub proof fn lemma_first_where<A>(s: Seq<A>, pred: spec_fn(A) -> bool, i: int)
    ensures
        is_first(s, pred, i) ==> first_where(s, pred) == Some(i),
        (forall|j: int| 0 <= j < s.len() ==> !pred(#[trigger] s[j])) ==> first_where(s, pred)
            is None,
{
    if is_first(s, pred, i) {
        let k = choose|k: int| is_first(s, pred, k);
        assert(k == i) by {
            if k < i {
                assert(!pred(s[k]));
            } else if i < k {
                assert(!pred(s[i]));
            }
        }
    }
}

/// The position of the first item that passes `test`, which answers as `pred` says.
pub(crate) fn position<T, F: Fn(&T) -> bool>(
    items: &Vec<T>,
    test: F,
    Ghost(pred): Ghost<spec_fn(T) -> bool>,
) -> (r: Option<usize>)
    requires
        forall|t: &T| #[trigger] call_requires(test, (t,)),
        forall|t: &T, b: bool| #[trigger] call_ensures(test, (t,), b) ==> b == pred(*t),
    ensures
        match r {
            Some(i) => i < items@.len() && first_where(items@, pred) == Some(i as int),
            None => first_where(items@, pred) is None,
        },
{
    for i in 0..items.len()
        invariant
            forall|t: &T| #[trigger] call_requires(test, (t,)),
            forall|t: &T, b: bool| #[trigger] call_ensures(test, (t,), b) ==> b == pred(*t),
            forall|j: int| 0 <= j < i ==> !pred(#[trigger] items@[j]),
    {
        if test(&items[i]) {
            proof {
                lemma_first_where(items@, pred, i as int);
            }
            return Some(i);
        }
    }
    proof {
        lemma_first_where(items@, pred, 0);
    }
    None
}

/// Filtering one element more appends it or leaves it out.
pub proof fn lemma_filter_next<A>(s: Seq<A>, pred: spec_fn(A) -> bool, i: int)
    requires
        0 <= i < s.len(),
    ensures
        s.take(i + 1).filter(pred) == if pred(s[i]) {
            s.take(i).filter(pred).push(s[i])
        } else {
            s.take(i).filter(pred)
        },
{
    reveal(Seq::filter);
    assert(s.take(i + 1).drop_last() =~= s.take(i));
}

/// Filtering nothing gives nothing, filtering all elements taken gives the filter.
pub proof fn lemma_filter_ends<A>(s: Seq<A>, pred: spec_fn(A) -> bool)
    ensures
        s.take(0).filter(pred) == Seq::<A>::empty(),
        s.take(s.len() as int).filter(pred) == s.filter(pred),
{
    reveal(Seq::filter);
    assert(s.take(s.len() as int) =~= s);
}

/// Filtering keeps exactly the elements that pass.
pub proof fn lemma_filter_contains<A>(s: Seq<A>, pred: spec_fn(A) -> bool)
    ensures
        forall|x: A| #[trigger] s.filter(pred).contains(x) <==> s.contains(x) && pred(x),
    decreases s.len(),
{
    reveal(Seq::filter);
    if s.len() > 0 {
        let front = s.drop_last();
        lemma_filter_contains(front, pred);
        let all = s.filter(pred);
        let before = front.filter(pred);
        assert forall|x: A| #[trigger] all.contains(x) <==> s.contains(x) && pred(x) by {
            if all.contains(x) {
                let i = choose|i: int| 0 <= i < all.len() && all[i] == x;
                if i < before.len() {
                    assert(before[i] == x);
                    assert(before.contains(x));
                    let j = choose|j: int| 0 <= j < front.len() && front[j] == x;
                    assert(s[j] == x);
                } else {
                    assert(s[s.len() - 1] == x);
                }
            }
            if s.contains(x) && pred(x) {
                let j = choose|j: int| 0 <= j < s.len() && s[j] == x;
                if j < front.len() {
                    assert(front[j] == x);
                    assert(before.contains(x));
                    let i = choose|i: int| 0 <= i < before.len() && before[i] == x;
                    assert(all[i] == x);
                } else {
                    assert(all[before.len() as int] == x);
                }
            }
        }
    }
}

/// Filtering with one element more at the end.
pub proof fn lemma_filter_push<A>(s: Seq<A>, pred: spec_fn(A) -> bool, x: A)
    ensures
        s.push(x).filter(pred) == if pred(x) {
            s.filter(pred).push(x)
        } else {
            s.filter(pred)
        },
{
    reveal(Seq::filter);
    assert(s.push(x).drop_last() =~= s);
}

/// Filters that agree on the elements give the same.
pub proof fn lemma_filter_agrees<A>(s: Seq<A>, p: spec_fn(A) -> bool, q: spec_fn(A) -> bool)
    requires
        forall|i: int| 0 <= i < s.len() ==> p(#[trigger] s[i]) == q(s[i]),
    ensures
        s.filter(p) == s.filter(q),
    decreases s.len(),
{
    reveal(Seq::filter);
    if s.len() > 0 {
        let front = s.drop_last();
        assert forall|i: int| 0 <= i < front.len() implies p(#[trigger] front[i]) == q(front[i]) by {
            assert(front[i] == s[i]);
        }
        lemma_filter_agrees(front, p, q);
        assert(s[s.len() - 1] == s.last());
    }
}

/// Filtering twice is filtering by both.
pub proof fn lemma_filter_twice<A>(s: Seq<A>, p: spec_fn(A) -> bool, q: spec_fn(A) -> bool)
    ensures
        s.filter(p).filter(q) == s.filter(|x: A| p(x) && q(x)),
    decreases s.len(),
{
    let both = |x: A| p(x) && q(x);
    if s.len() > 0 {
        let front = s.drop_last();
        lemma_filter_twice(front, p, q);
        assert(front.push(s.last()) =~= s);
        lemma_filter_push(front, p, s.last());
        lemma_filter_push(front, both, s.last());
        lemma_filter_push(front.filter(p), q, s.last());
    } else {
        reveal(Seq::filter);
        assert(s.filter(p).filter(q) =~= s.filter(both));
    }
}

/// A filter that passes just the first `n` elements counts them.
pub proof fn lemma_filter_prefix<A>(s: Seq<A>, pred: spec_fn(A) -> bool, n: int)
    requires
        0 <= n <= s.len(),
        forall|i: int| 0 <= i < s.len() ==> pred(#[trigger] s[i]) == (i < n),
    ensures
        s.filter(pred).len() == n,
    decreases s.len(),
{
    reveal(Seq::filter);
    if s.len() > 0 {
        let front = s.drop_last();
        assert forall|i: int| 0 <= i < front.len() implies pred(#[trigger] front[i]) == (i < n) by {
            assert(front[i] == s[i]);
        }
        assert(pred(s[s.len() - 1]) == (s.len() - 1 < n));
        lemma_filter_prefix(
            front,
            pred,
            if n < s.len() {
                n
            } else {
                n - 1
            },
        );
    }
}

} // verus!
