use vstd::prelude::*;

verus! {

/// Counting here is `s.filter(pred).len()`. These lemmas relate that count
/// to the sequence operations the pipeline state performs: pushing at the
/// back of the bus, draining its front, and updating one worker slot.
pub proof fn lemma_filter_push<A>(s: Seq<A>, x: A, pred: spec_fn(A) -> bool)
    ensures
        s.push(x).filter(pred).len() == s.filter(pred).len() + (if pred(x) {
            1int
        } else {
            0int
        }),
{
    reveal(Seq::filter);
    assert(s.push(x).drop_last() =~= s);
    assert(s.push(x).last() == x);
}

pub proof fn lemma_filter_drop_first<A>(s: Seq<A>, pred: spec_fn(A) -> bool)
    requires
        s.len() > 0,
    ensures
        s.filter(pred).len() == s.drop_first().filter(pred).len() + (if pred(s[0]) {
            1int
        } else {
            0int
        }),
    decreases s.len(),
{
    reveal(Seq::filter);
    if s.len() == 1 {
        assert(s.drop_last() =~= Seq::<A>::empty());
        assert(s.drop_first() =~= Seq::<A>::empty());
    } else {
        let t = s.drop_last();
        lemma_filter_drop_first(t, pred);
        assert(s.drop_first().drop_last() =~= t.drop_first());
        assert(s.drop_first().last() == s.last());
        assert(t[0] == s[0]);
    }
}

pub proof fn lemma_filter_update<A>(s: Seq<A>, i: int, v: A, pred: spec_fn(A) -> bool)
    requires
        0 <= i < s.len(),
    ensures
        s.update(i, v).filter(pred).len() + (if pred(s[i]) {
            1int
        } else {
            0int
        }) == s.filter(pred).len() + (if pred(v) {
            1int
        } else {
            0int
        }),
    decreases s.len(),
{
    reveal(Seq::filter);
    if i == s.len() - 1 {
        assert(s.update(i, v).drop_last() =~= s.drop_last());
        assert(s.update(i, v).last() == v);
    } else {
        lemma_filter_update(s.drop_last(), i, v, pred);
        assert(s.update(i, v).drop_last() =~= s.drop_last().update(i, v));
        assert(s.update(i, v).last() == s.last());
        assert(s.drop_last()[i] == s[i]);
    }
}

/// When every element satisfies `pred`, the count is the whole length.
pub proof fn lemma_filter_full<A>(s: Seq<A>, pred: spec_fn(A) -> bool)
    requires
        forall|i: int| 0 <= i < s.len() ==> pred(#[trigger] s[i]),
    ensures
        s.filter(pred).len() == s.len(),
    decreases s.len(),
{
    reveal(Seq::filter);
    if s.len() > 0 {
        assert forall|i: int| 0 <= i < s.drop_last().len() implies pred(
            #[trigger] s.drop_last()[i],
        ) by {
            assert(s.drop_last()[i] == s[i]);
        }
        lemma_filter_full(s.drop_last(), pred);
    }
}

/// When no element satisfies `pred`, the count is zero.
pub proof fn lemma_filter_none<A>(s: Seq<A>, pred: spec_fn(A) -> bool)
    requires
        forall|i: int| 0 <= i < s.len() ==> !pred(#[trigger] s[i]),
    ensures
        s.filter(pred).len() == 0,
    decreases s.len(),
{
    reveal(Seq::filter);
    if s.len() > 0 {
        assert forall|i: int| 0 <= i < s.drop_last().len() implies !pred(
            #[trigger] s.drop_last()[i],
        ) by {
            assert(s.drop_last()[i] == s[i]);
        }
        lemma_filter_none(s.drop_last(), pred);
    }
}

/// One element that fails `pred` keeps the count strictly below the length.
pub proof fn lemma_filter_lt<A>(s: Seq<A>, i: int, pred: spec_fn(A) -> bool)
    requires
        0 <= i < s.len(),
        !pred(s[i]),
    ensures
        s.filter(pred).len() < s.len(),
    decreases s.len(),
{
    reveal(Seq::filter);
    if i == s.len() - 1 {
        s.drop_last().lemma_filter_len(pred);
    } else {
        assert(s.drop_last()[i] == s[i]);
        lemma_filter_lt(s.drop_last(), i, pred);
    }
}

/// A count strictly below the length yields an element that fails `pred`.
pub proof fn lemma_filter_exists_failing<A>(s: Seq<A>, pred: spec_fn(A) -> bool)
    requires
        s.filter(pred).len() < s.len(),
    ensures
        exists|i: int| 0 <= i < s.len() && !pred(#[trigger] s[i]),
{
    if forall|i: int| 0 <= i < s.len() ==> pred(#[trigger] s[i]) {
        lemma_filter_full(s, pred);
    }
}

/// A satisfied last element makes the count positive.
pub proof fn lemma_filter_last<A>(s: Seq<A>, pred: spec_fn(A) -> bool)
    requires
        s.len() > 0,
        pred(s.last()),
    ensures
        s.filter(pred).len() >= 1,
{
    reveal(Seq::filter);
}

} // verus!
