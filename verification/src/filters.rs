//! Facts about filtering sequences.

use vstd::prelude::*;

verus! {

/// Removing an entry that the filter drops leaves the filtered sequence as it was.
pub proof fn lemma_filter_remove<A>(s: Seq<A>, i: int, q: spec_fn(A) -> bool)
    requires
        0 <= i < s.len(),
        !q(s[i]),
    ensures
        s.remove(i).filter(q) == s.filter(q),
    decreases s.len(),
{
    let n = s.len() as int;
    assert(s =~= s.drop_last().push(s.last()));
    s.drop_last().lemma_filter_push(s.last(), q);
    if i == n - 1 {
        assert(s.remove(i) =~= s.drop_last());
    } else {
        let d = s.drop_last();
        assert(d[i] == s[i]);
        lemma_filter_remove(d, i, q);
        assert(s.remove(i) =~= d.remove(i).push(s.last()));
        d.remove(i).lemma_filter_push(s.last(), q);
    }
}

/// Filtering by `p` first keeps what `q` keeps when `p` implies `q`.
pub proof fn lemma_filter_implied<A>(s: Seq<A>, p: spec_fn(A) -> bool, q: spec_fn(A) -> bool)
    requires
        forall|x: A| #[trigger] p(x) ==> q(x),
    ensures
        s.filter(p) == s.filter(q).filter(p),
    decreases s.len(),
{
    if s.len() == 0 {
        reveal(Seq::filter);
        assert(s.filter(p) =~= Seq::<A>::empty());
        assert(s.filter(q) =~= Seq::<A>::empty());
        assert(s.filter(q).filter(p) =~= Seq::<A>::empty());
    } else {
        let d = s.drop_last();
        let x = s.last();
        assert(s =~= d.push(x));
        lemma_filter_implied(d, p, q);
        d.lemma_filter_push(x, p);
        d.lemma_filter_push(x, q);
        if q(x) {
            d.filter(q).lemma_filter_push(x, p);
        }
    }
}

/// Filters that agree on every entry keep the same entries.
pub proof fn lemma_filter_agree<A>(s: Seq<A>, p1: spec_fn(A) -> bool, p2: spec_fn(A) -> bool)
    requires
        forall|i: int| 0 <= i < s.len() ==> #[trigger] p1(s[i]) == p2(s[i]),
    ensures
        s.filter(p1) == s.filter(p2),
    decreases s.len(),
{
    if s.len() == 0 {
        reveal(Seq::filter);
        assert(s.filter(p1) =~= Seq::<A>::empty());
        assert(s.filter(p2) =~= Seq::<A>::empty());
    } else {
        let d = s.drop_last();
        let x = s.last();
        assert(s =~= d.push(x));
        assert forall|i: int| 0 <= i < d.len() implies #[trigger] p1(d[i]) == p2(d[i]) by {
            assert(d[i] == s[i]);
        }
        lemma_filter_agree(d, p1, p2);
        d.lemma_filter_push(x, p1);
        d.lemma_filter_push(x, p2);
        assert(p1(s[s.len() - 1]) == p2(s[s.len() - 1]));
    }
}

} // verus!
