//! The elements of sequences, counted with their multiplicity.
use crate::order::ranks_equal;
use vstd::multiset::group_multiset_axioms;
use vstd::multiset::Multiset;
use vstd::prelude::*;
use vstd::seq_lib::group_to_multiset_ensures;

verus! {

/// All elements of all of `sources`, each as often as it occurs.
pub open spec fn elements<T>(sources: Seq<Seq<T>>) -> Multiset<T>
    decreases sources.len(),
{
    if sources.len() == 0 {
        Multiset::empty()
    } else {
        elements(sources.drop_last()).add(sources.last().to_multiset())
    }
}

/// How many elements of `bag` rank equal to `v`.
pub open spec fn ties<T: PartialOrd>(bag: Multiset<T>, v: T) -> nat {
    bag.filter(|w: T| ranks_equal(w, v)).len()
}

/// Two bags together hold as many elements that rank equal to `v` as the
/// one and the other.
pub proof fn lemma_ties_add<T: PartialOrd>(left: Multiset<T>, right: Multiset<T>, v: T)
    ensures
        ties(left.add(right), v) == ties(left, v) + ties(right, v),
{
    broadcast use group_multiset_axioms;

    let tie = |w: T| ranks_equal(w, v);
    assert(left.add(right).filter(tie) =~= left.filter(tie).add(right.filter(tie)));
}

/// An empty sequence holds nothing.
pub proof fn lemma_empty_counts_nothing<T>(s: Seq<T>)
    requires
        s.len() == 0,
    ensures
        s.to_multiset() == Multiset::<T>::empty(),
{
    broadcast use group_to_multiset_ensures;
    broadcast use group_multiset_axioms;

    assert forall|v: T| s.to_multiset().count(v) == 0 by {
        assert(!s.contains(v));
    }
    assert(s.to_multiset() =~= Multiset::<T>::empty());
}

/// A non-empty sequence holds its head once more than its tail does, and
/// everything else as often.
pub proof fn lemma_head_counts_once<T>(s: Seq<T>)
    requires
        s.len() > 0,
    ensures
        s.to_multiset() == s.drop_first().to_multiset().insert(s[0]),
{
    broadcast use group_to_multiset_ensures;

    assert(s.remove(0) == s.drop_first());
    assert(s.contains(s[0]));
    assert(s.to_multiset() =~= s.to_multiset().remove(s[0]).insert(s[0]));
}

/// Replacing one of `sources` exchanges its elements for those of the
/// replacement.
pub proof fn lemma_elements_update<T>(sources: Seq<Seq<T>>, i: int, s: Seq<T>)
    requires
        0 <= i < sources.len(),
    ensures
        elements(sources.update(i, s)).add(sources[i].to_multiset()) == elements(sources).add(
            s.to_multiset(),
        ),
    decreases sources.len(),
{
    broadcast use group_multiset_axioms;

    let changed = sources.update(i, s);
    let front = sources.drop_last();
    if i == sources.len() - 1 {
        assert(changed.drop_last() == front);
    } else {
        assert(changed.drop_last() == front.update(i, s));
        lemma_elements_update(front, i, s);
        let shorter = elements(front.update(i, s)).add(front[i].to_multiset());
        let longer = elements(front).add(s.to_multiset());
        assert forall|v: T|
            elements(changed).add(sources[i].to_multiset()).count(v) == elements(sources).add(
                s.to_multiset(),
            ).count(v) by {
            assert(shorter.count(v) == longer.count(v));
        }
    }
    assert(elements(changed).add(sources[i].to_multiset()) =~= elements(sources).add(
        s.to_multiset(),
    ));
}

} // verus!
