use vstd::prelude::*;

verus! {

broadcast use vstd::seq_lib::group_to_multiset_ensures;

/// How many elements of `a` satisfy `f`.
pub open spec fn count_in(a: Seq<int>, f: spec_fn(int) -> bool) -> nat
    decreases a.len(),
{
    if a.len() == 0 {
        0
    } else {
        count_in(a.drop_last(), f) + if f(a.last()) {
            1nat
        } else {
            0nat
        }
    }
}

/// The offsets `0 .. n`.
pub open spec fn range(n: int) -> Seq<int> {
    Seq::new(n as nat, |i: int| i)
}

pub proof fn lemma_count_remove(a: Seq<int>, f: spec_fn(int) -> bool, j: int)
    requires
        0 <= j < a.len(),
    ensures
        count_in(a, f) == count_in(a.remove(j), f) + if f(a[j]) {
            1nat
        } else {
            0nat
        },
    decreases a.len(),
{
    if j < a.len() - 1 {
        assert(a.remove(j).drop_last() =~= a.drop_last().remove(j));
        lemma_count_remove(a.drop_last(), f, j);
    } else {
        assert(a.remove(j) =~= a.drop_last());
    }
}

/// Counting does not depend on the order of the elements.
pub proof fn lemma_count_perm(a: Seq<int>, b: Seq<int>, f: spec_fn(int) -> bool)
    requires
        a.to_multiset() == b.to_multiset(),
    ensures
        count_in(a, f) == count_in(b, f),
    decreases a.len(),
{
    if a.len() == 0 {
        assert(b.to_multiset().len() == 0);
        assert(b.len() == 0);
    } else {
        let x = a.last();
        assert(a.to_multiset().count(x) > 0);
        assert(b.contains(x));
        let j = choose|j: int| 0 <= j < b.len() && b[j] == x;
        assert(a.remove(a.len() - 1) =~= a.drop_last());
        assert(a.drop_last().to_multiset() == a.to_multiset().remove(x));
        assert(b.remove(j).to_multiset() == b.to_multiset().remove(x));
        lemma_count_perm(a.drop_last(), b.remove(j), f);
        lemma_count_remove(b, f, j);
    }
}

/// Predicates that agree on the elements count the same.
pub proof fn lemma_count_congruent(a: Seq<int>, f: spec_fn(int) -> bool, g: spec_fn(int) -> bool)
    requires
        forall|k: int| 0 <= k < a.len() ==> f(a[k]) == g(a[k]),
    ensures
        count_in(a, f) == count_in(a, g),
    decreases a.len(),
{
    if a.len() > 0 {
        lemma_count_congruent(a.drop_last(), f, g);
    }
}

/// Disjoint predicates count separately.
pub proof fn lemma_count_disjoint(a: Seq<int>, f: spec_fn(int) -> bool, g: spec_fn(int) -> bool)
    requires
        forall|k: int| 0 <= k < a.len() ==> !(f(a[k]) && g(a[k])),
    ensures
        count_in(a, |x: int| f(x) || g(x)) == count_in(a, f) + count_in(a, g),
    decreases a.len(),
{
    if a.len() > 0 {
        lemma_count_disjoint(a.drop_last(), f, g);
    }
}

/// A predicate that nothing satisfies counts zero.
pub proof fn lemma_count_none(a: Seq<int>, f: spec_fn(int) -> bool)
    requires
        forall|k: int| 0 <= k < a.len() ==> !f(a[k]),
    ensures
        count_in(a, f) == 0,
    decreases a.len(),
{
    if a.len() > 0 {
        lemma_count_none(a.drop_last(), f);
    }
}

/// Counting along the elements of `a` is counting the composed predicate over
/// the positions of `a`.
pub proof fn lemma_count_positions(a: Seq<int>, f: spec_fn(int) -> bool)
    ensures
        count_in(a, f) == count_in(range(a.len() as int), |k: int| f(a[k])),
    decreases a.len(),
{
    if a.len() > 0 {
        lemma_count_positions(a.drop_last(), f);
        let g = |k: int| f(a[k]);
        let h = |k: int| f(a.drop_last()[k]);
        assert(range(a.len() as int).drop_last() =~= range(a.len() - 1));
        lemma_count_congruent(range(a.len() - 1), g, h);
    }
}

/// Sequences without repeats that hold the same elements are permutations
/// of each other.
pub proof fn lemma_same_elements_perm(a: Seq<int>, b: Seq<int>)
    requires
        a.no_duplicates(),
        b.no_duplicates(),
        forall|x: int| a.contains(x) <==> b.contains(x),
    ensures
        a.to_multiset() == b.to_multiset(),
{
    a.lemma_multiset_has_no_duplicates();
    b.lemma_multiset_has_no_duplicates();
    assert forall|x: int| a.to_multiset().count(x) == b.to_multiset().count(x) by {
        if a.contains(x) {
            assert(b.contains(x));
        } else {
            assert(!b.contains(x));
        }
    }
    assert(a.to_multiset() =~= b.to_multiset());
}

} // verus!
