//! Small general facts about sequences used across the crate.

use vstd::prelude::*;
use vstd::multiset::Multiset;
use vstd::seq_lib::lemma_multiset_commutative;

verus! {

/// Inserting an element anywhere in a sequence adds exactly that element to
/// its multiset.
pub proof fn lemma_insert_to_multiset<A>(s: Seq<A>, i: int, x: A)
    requires
        0 <= i <= s.len(),
    ensures
        s.insert(i, x).to_multiset() =~= s.to_multiset().insert(x),
{
    broadcast use vstd::seq_lib::group_to_multiset_ensures;

    let left = s.subrange(0, i);
    let right = s.subrange(i, s.len() as int);
    assert(s =~= left + right);
    assert(s.insert(i, x) =~= left + (seq![x] + right));
    lemma_multiset_commutative(left, right);
    lemma_multiset_commutative(left, seq![x] + right);
    lemma_multiset_commutative(seq![x], right);
    assert(seq![x].to_multiset() =~= Multiset::empty().insert(x)) by {
        assert(seq![x].drop_last() =~= Seq::<A>::empty());
    }
}

/// A sequence extended by one element on the right, as a multiset.
pub proof fn lemma_push_to_multiset<A>(s: Seq<A>, x: A)
    ensures
        s.push(x).to_multiset() =~= s.to_multiset().insert(x),
{
    broadcast use vstd::seq_lib::group_to_multiset_ensures;

}

/// How an element inserted anywhere moves through a filter-then-map
/// pipeline: only the multiset of the result is affected, by that element.
pub proof fn lemma_filter_map_insert_multiset<A, B>(
    s: Seq<A>,
    i: int,
    x: A,
    p: spec_fn(A) -> bool,
    f: spec_fn(A) -> B,
)
    requires
        0 <= i <= s.len(),
    ensures
        p(x) ==> s.insert(i, x).filter(p).map_values(f).to_multiset() =~= s.filter(p).map_values(
            f,
        ).to_multiset().insert(f(x)),
        !p(x) ==> s.insert(i, x).filter(p).map_values(f).to_multiset() =~= s.filter(p).map_values(
            f,
        ).to_multiset(),
{
    broadcast use vstd::seq_lib::group_to_multiset_ensures;

    reveal(Seq::filter);
    let a = s.subrange(0, i);
    let b = s.subrange(i, s.len() as int);
    assert(s =~= a + b);
    assert(s.insert(i, x) =~= a + (seq![x] + b));
    Seq::filter_distributes_over_add(a, b, p);
    Seq::filter_distributes_over_add(a, seq![x] + b, p);
    Seq::filter_distributes_over_add(seq![x], b, p);
    assert(seq![x].drop_last() =~= Seq::<A>::empty());
    assert(seq![x].last() == x);
    assert(seq![x].drop_last().filter(p) =~= Seq::<A>::empty());
    assert(Seq::<A>::empty().filter(p) =~= Seq::<A>::empty());
    let fa = a.filter(p);
    let fb = b.filter(p);
    if p(x) {
        assert(seq![x].filter(p) =~= seq![x]);
        assert(s.insert(i, x).filter(p) =~= fa + (seq![x] + fb));
        assert((fa + (seq![x] + fb)).map_values(f) =~= fa.map_values(f) + (seq![
            f(x),
        ] + fb.map_values(f)));
        assert((fa + fb).map_values(f) =~= fa.map_values(f) + fb.map_values(f));
        lemma_insert_to_multiset(fa.map_values(f) + fb.map_values(f), fa.map_values(f).len() as int,
            f(x));
        assert((fa.map_values(f) + fb.map_values(f)).insert(fa.map_values(f).len() as int, f(x))
            =~= fa.map_values(f) + (seq![f(x)] + fb.map_values(f)));
    } else {
        assert(seq![x].filter(p) =~= Seq::<A>::empty());
        assert(s.insert(i, x).filter(p) =~= fa + fb);
        assert(s.filter(p) =~= fa + fb);
    }
}

/// A filter-then-map pipeline sees only which elements are there, never
/// their order: inputs equal as multisets give outputs equal as multisets.
pub proof fn lemma_filter_map_multiset<A, B>(
    s1: Seq<A>,
    s2: Seq<A>,
    p: spec_fn(A) -> bool,
    f: spec_fn(A) -> B,
)
    requires
        s1.to_multiset() == s2.to_multiset(),
    ensures
        s1.filter(p).map_values(f).to_multiset() == s2.filter(p).map_values(f).to_multiset(),
    decreases s1.len(),
{
    broadcast use vstd::seq_lib::group_to_multiset_ensures;

    if s1.len() == 0 {
        assert(s2.to_multiset().len() == 0);
        assert(s1 =~= s2);
    } else {
        let x = s1.last();
        assert(s1.contains(x));
        assert(s2.to_multiset().count(x) > 0);
        assert(s2.contains(x));
        let j = choose|j: int| 0 <= j < s2.len() && s2[j] == x;
        let s1r = s1.drop_last();
        let s2r = s2.remove(j);
        assert(s1r =~= s1.remove(s1.len() - 1));
        assert(s1r.to_multiset() =~= s1.to_multiset().remove(x));
        assert(s2r.to_multiset() =~= s2.to_multiset().remove(x));
        lemma_filter_map_multiset(s1r, s2r, p, f);
        assert(s1 =~= s1r.insert(s1r.len() as int, x));
        assert(s2 =~= s2r.insert(j, x));
        lemma_filter_map_insert_multiset(s1r, s1r.len() as int, x, p, f);
        lemma_filter_map_insert_multiset(s2r, j, x, p, f);
    }
}

/// How one more element moves through a filter-then-map pipeline.
pub proof fn lemma_filter_map_push<A, B>(s: Seq<A>, x: A, p: spec_fn(A) -> bool, f: spec_fn(A) -> B)
    ensures
        p(x) ==> s.push(x).filter(p).map_values(f) =~= s.filter(p).map_values(f).push(f(x)),
        !p(x) ==> s.push(x).filter(p).map_values(f) =~= s.filter(p).map_values(f),
{
    reveal(Seq::filter);
    assert(s.push(x).drop_last() =~= s);
    assert(s.push(x).last() == x);
    if p(x) {
        assert(s.push(x).filter(p) =~= s.filter(p).push(x));
        assert(s.filter(p).push(x).map_values(f) =~= s.filter(p).map_values(f).push(f(x)));
    } else {
        assert(s.push(x).filter(p) =~= s.filter(p));
    }
}

} // verus!
