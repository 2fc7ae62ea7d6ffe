//! The order that the merges run on: the one that `PartialOrd` gives `T`.
use vstd::laws_cmp::obeys_cmp;
use vstd::laws_cmp::obeys_cmp_ord;
use vstd::laws_cmp::obeys_cmp_partial_ord;
use vstd::laws_cmp::obeys_partial_cmp_spec_properties;
use vstd::laws_eq::obeys_eq_spec_properties;
use vstd::prelude::*;
use vstd::std_specs::cmp::OrdSpec;
use vstd::std_specs::cmp::PartialOrdIs;
use vstd::std_specs::cmp::PartialOrdSpec;

verus! {

/// `a` comes before `b` or ranks equal to it: what `a <= b` stands for.
pub open spec fn le<T: PartialOrd>(a: T, b: T) -> bool {
    a.is_le(&b)
}

/// `a` and `b` rank equal: each comes before the other. Values that rank
/// equal need not be the same value.
pub open spec fn ranks_equal<T: PartialOrd>(a: T, b: T) -> bool {
    le(a, b) && le(b, a)
}

/// The executable `<=` of `T` computes [`le`].
pub open spec fn decides_le<T: PartialOrd>() -> bool {
    T::obeys_partial_cmp_spec()
}

/// [`le`] compares any two values of `T` and is transitive.
#[verifier::opaque]
pub open spec fn total_preorder<T: PartialOrd>() -> bool {
    &&& forall|a: T, b: T| #[trigger] le(a, b) || le(b, a)
    &&& forall|a: T, b: T, c: T| #[trigger] le(a, b) && #[trigger] le(b, c) ==> le(a, c)
}

/// What a heap of `T` needs of its order: `<=` computes [`le`], and [`le`] is
/// a total preorder.
pub open spec fn lawful_order<T: PartialOrd>() -> bool {
    decides_le::<T>() && total_preorder::<T>()
}

/// No element of `s` is followed, anywhere later, by one that it does not
/// come before.
pub open spec fn sorted<T: PartialOrd>(s: Seq<T>) -> bool {
    forall|i: int, j: int| 0 <= i < j < s.len() ==> le(#[trigger] s[i], #[trigger] s[j])
}

/// Each element of `s` comes before its successor.
pub open spec fn ascending_steps<T: PartialOrd>(s: Seq<T>) -> bool {
    forall|i: int| 0 <= i && i + 1 < s.len() ==> le(#[trigger] s[i], s[i + 1])
}

/// Under a total preorder any two values compare one way or the other.
pub proof fn lemma_le_total<T: PartialOrd>(a: T, b: T)
    requires
        total_preorder::<T>(),
    ensures
        le(a, b) || le(b, a),
{
    reveal(total_preorder);
}

/// Under a total preorder every value comes before itself.
pub proof fn lemma_le_reflexive<T: PartialOrd>(a: T)
    requires
        total_preorder::<T>(),
    ensures
        le(a, a),
{
    lemma_le_total(a, a);
}

/// Under a total preorder `le` chains.
pub proof fn lemma_le_transitive<T: PartialOrd>(a: T, b: T, c: T)
    requires
        total_preorder::<T>(),
        le(a, b),
        le(b, c),
    ensures
        le(a, c),
{
    reveal(total_preorder);
}

/// A type whose `Ord` keeps the laws that vstd states for it has a lawful
/// order. This holds of the integer types, of references to and tuples of
/// such types.
pub proof fn lemma_cmp_laws_give_lawful_order<T: Ord>()
    requires
        obeys_cmp::<T>(),
    ensures
        lawful_order::<T>(),
{
    reveal(obeys_cmp_partial_ord);
    reveal(obeys_cmp_ord);
    reveal(obeys_partial_cmp_spec_properties);
    reveal(obeys_eq_spec_properties);
    reveal(total_preorder);
    assert forall|a: T, b: T| #[trigger] le(a, b) || le(b, a) by {
        assert(a.partial_cmp_spec(&b) == Some(a.cmp_spec(&b)));
        assert(b.partial_cmp_spec(&a) == Some(b.cmp_spec(&a)));
    }
    assert forall|a: T, b: T, c: T| #[trigger] le(a, b) && #[trigger] le(b, c) implies le(a, c) by {
        assert(a.partial_cmp_spec(&b) == Some(a.cmp_spec(&b)));
        assert(b.partial_cmp_spec(&c) == Some(b.cmp_spec(&c)));
        assert(a.partial_cmp_spec(&c) == Some(a.cmp_spec(&c)));
        assert(c.partial_cmp_spec(&a) == Some(c.cmp_spec(&a)));
        assert(c.partial_cmp_spec(&b) == Some(c.cmp_spec(&b)));
        assert(b.partial_cmp_spec(&a) == Some(b.cmp_spec(&a)));
    }
}

/// Where `le` is transitive, a sequence that ascends step by step is sorted.
pub proof fn lemma_ascending_steps_sorted<T: PartialOrd>(s: Seq<T>)
    requires
        total_preorder::<T>(),
        ascending_steps(s),
    ensures
        sorted(s),
    decreases s.len(),
{
    if s.len() >= 2 {
        let front = s.drop_last();
        assert forall|i: int| 0 <= i && i + 1 < front.len() implies le(
            #[trigger] front[i],
            front[i + 1],
        ) by {
            assert(le(s[i], s[i + 1]));
        }
        lemma_ascending_steps_sorted(front);
        let last = s.len() - 1;
        assert forall|i: int, j: int| 0 <= i < j < s.len() implies le(
            #[trigger] s[i],
            #[trigger] s[j],
        ) by {
            if j < last {
                assert(le(front[i], front[j]));
            } else if i < last - 1 {
                assert(le(front[i], front[last - 1]));
                assert(le(s[last - 1], s[last - 1 + 1]));
                lemma_le_transitive(s[i], s[last - 1], s[j]);
            } else {
                assert(le(s[i], s[i + 1]));
            }
        }
    }
}

} // verus!
