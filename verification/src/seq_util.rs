//! Small helpers over `Seq` used throughout the state machine's
//! specifications: keeping the elements that satisfy a predicate, and
//! counting them.

use vstd::prelude::*;

verus! {

/// The subsequence of `s` whose elements satisfy `pred`, in order.
pub open spec fn kept<A>(s: Seq<A>, pred: spec_fn(A) -> bool) -> Seq<A>
    decreases s.len(),
{
    if s.len() == 0 {
        Seq::empty()
    } else if pred(s.last()) {
        kept(s.drop_last(), pred).push(s.last())
    } else {
        kept(s.drop_last(), pred)
    }
}

/// How many elements of `s` satisfy `pred`.
pub open spec fn count_matching<A>(s: Seq<A>, pred: spec_fn(A) -> bool) -> nat {
    kept(s, pred).len()
}

/// `kept` commutes with appending one element.
pub proof fn lemma_kept_push<A>(s: Seq<A>, pred: spec_fn(A) -> bool, x: A)
    ensures
        kept(s.push(x), pred) == if pred(x) {
            kept(s, pred).push(x)
        } else {
            kept(s, pred)
        },
{
    assert(s.push(x).drop_last() =~= s);
    assert(s.push(x).last() == x);
}

/// An element is kept exactly when the sequence holds it and it satisfies
/// the predicate.
pub proof fn lemma_kept_membership<A>(s: Seq<A>, pred: spec_fn(A) -> bool)
    ensures
        forall|x: A| #[trigger] kept(s, pred).contains(x) ==> s.contains(x) && pred(x),
        forall|x: A| #[trigger] s.contains(x) && pred(x) ==> kept(s, pred).contains(x),
    decreases s.len(),
{
    if s.len() > 0 {
        let rest = s.drop_last();
        lemma_kept_membership(rest, pred);
        assert forall|x: A| #[trigger] kept(s, pred).contains(x) implies s.contains(x) && pred(
            x,
        ) by {
            let k = kept(s, pred);
            let j = choose|j: int| 0 <= j < k.len() && k[j] == x;
            if pred(s.last()) && j == k.len() - 1 {
                assert(s[s.len() - 1] == x);
                assert(s.contains(x));
            } else {
                assert(kept(rest, pred)[j] == x);
                assert(kept(rest, pred).contains(x));
                assert(rest.contains(x) && pred(x));
                let i = choose|i: int| 0 <= i < rest.len() && rest[i] == x;
                assert(s[i] == x);
                assert(s.contains(x));
            }
        }
        assert forall|x: A| #[trigger] s.contains(x) && pred(x) implies kept(s, pred).contains(
            x,
        ) by {
            let i = choose|i: int| 0 <= i < s.len() && s[i] == x;
            if i == s.len() - 1 {
                assert(pred(s.last()));
                assert(kept(s, pred)[kept(s, pred).len() - 1] == x);
                assert(kept(s, pred).contains(x));
            } else {
                assert(rest[i] == x);
                assert(rest.contains(x));
                assert(kept(rest, pred).contains(x));
                let j = choose|j: int|
                    0 <= j < kept(rest, pred).len() && kept(rest, pred)[j] == x;
                assert(kept(s, pred)[j] == x);
                assert(kept(s, pred).contains(x));
            }
        }
    }
}

/// If the elements of `s` have pairwise distinct keys, so do the kept ones.
pub proof fn lemma_kept_distinct_by<A, K>(
    s: Seq<A>,
    pred: spec_fn(A) -> bool,
    key: spec_fn(A) -> K,
)
    requires
        forall|i: int, j: int| 0 <= i < j < s.len() ==> key(s[i]) != key(s[j]),
    ensures
        forall|i: int, j: int|
            0 <= i < j < kept(s, pred).len() ==> key(kept(s, pred)[i]) != key(kept(s, pred)[j]),
    decreases s.len(),
{
    if s.len() > 0 {
        let rest = s.drop_last();
        assert forall|i: int, j: int| 0 <= i < j < rest.len() implies key(rest[i]) != key(
            rest[j],
        ) by {
            assert(rest[i] == s[i] && rest[j] == s[j]);
        }
        lemma_kept_distinct_by(rest, pred, key);
        lemma_kept_membership(rest, pred);
        if pred(s.last()) {
            assert forall|i: int, j: int|
                0 <= i < j < kept(s, pred).len() implies key(kept(s, pred)[i]) != key(
                kept(s, pred)[j],
            ) by {
                if j == kept(s, pred).len() - 1 {
                    assert(kept(s, pred)[j] == s.last());
                    assert(kept(s, pred)[i] == kept(rest, pred)[i]);
                    assert(kept(rest, pred).contains(kept(rest, pred)[i]));
                    assert(rest.contains(kept(rest, pred)[i]));
                    let m = choose|m: int|
                        0 <= m < rest.len() && rest[m] == kept(rest, pred)[i];
                    assert(s[m] == kept(s, pred)[i]);
                    assert(key(s[m]) != key(s[s.len() - 1]));
                } else {
                    assert(kept(s, pred)[i] == kept(rest, pred)[i]);
                    assert(kept(s, pred)[j] == kept(rest, pred)[j]);
                }
            }
        }
    }
}

/// Every kept element comes from the sequence and satisfies the predicate.
pub proof fn lemma_kept_source<A>(s: Seq<A>, pred: spec_fn(A) -> bool, i: int)
    requires
        0 <= i < kept(s, pred).len(),
    ensures
        s.contains(kept(s, pred)[i]),
        pred(kept(s, pred)[i]),
{
    lemma_kept_membership(s, pred);
    assert(kept(s, pred).contains(kept(s, pred)[i]));
}

} // verus!
