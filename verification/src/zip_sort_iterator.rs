//! The merge of two sorted slices.
use crate::elements::lemma_empty_counts_nothing;
use crate::elements::lemma_head_counts_once;
use crate::elements::lemma_ties_add;
use crate::elements::ties;
use crate::merge::advance;
use crate::merge::is_least_head;
use crate::merge::lemma_run_prepends;
use crate::merge::merges;
use crate::merge::pulls_from;
use crate::merge::spent;
use crate::merge::step;
use crate::merge::takes_head;
use crate::order::decides_le;
use crate::order::lawful_order;
use crate::order::le;
use crate::order::lemma_le_reflexive;
use crate::order::lemma_le_total;
use crate::order::lemma_le_transitive;
use crate::order::sorted;
use crate::order::total_preorder;
use crate::source::pointee;
use crate::source::SliceSource;
use vstd::multiset::group_multiset_axioms;
use vstd::prelude::*;
use vstd::seq_lib::group_to_multiset_ensures;

verus! {

/// Whether the merge of `a` and `b` takes its next element from `a`: `a` has
/// one, and `b` has none that comes strictly before it. On a tie `a` goes
/// first.
pub open spec fn takes_left<T: PartialOrd>(a: Seq<T>, b: Seq<T>) -> bool {
    a.len() > 0 && (b.len() > 0 ==> le(a[0], b[0]))
}

/// One step of the merge of `a` and `b`: the element that comes out, if any
/// is left, and what remains of the two sides.
pub open spec fn pair_step<T: PartialOrd>(a: Seq<T>, b: Seq<T>) -> (Option<T>, (Seq<T>, Seq<T>)) {
    if takes_left(a, b) {
        (Some(a[0]), (a.drop_first(), b))
    } else if b.len() > 0 {
        (Some(b[0]), (a, b.drop_first()))
    } else {
        (None, (a, b))
    }
}

/// The whole merge of `a` and `b`: the elements in the order in which the
/// steps hand them out.
pub open spec fn merged<T: PartialOrd>(a: Seq<T>, b: Seq<T>) -> Seq<T>
    decreases a.len() + b.len(),
{
    match pair_step(a, b) {
        (Some(v), (rest_a, rest_b)) => seq![v] + merged(rest_a, rest_b),
        (None, _) => Seq::empty(),
    }
}

/// The two sides of a pair merge as the sources of a merge: the left one
/// first.
pub open spec fn sides<T>(pair: (Seq<T>, Seq<T>)) -> Seq<Seq<T>> {
    seq![pair.0, pair.1]
}

/// Merges two slices lazily. Each side keeps its next element at hand; a
/// step hands out the smaller of the two and refills that side only.
pub struct ZipSortIterator<'a, T> {
    a: SliceSource<'a, T>,
    b: SliceSource<'a, T>,
    a_next: Option<&'a T>,
    b_next: Option<&'a T>,
    initialized: bool,
}

/// What is left of one side: the element at hand, then what its source
/// still holds. Before the first step nothing is at hand, and a side found
/// empty is not asked again.
spec fn side<T>(source: Seq<T>, at_hand: Option<&T>, initialized: bool) -> Seq<T> {
    if !initialized {
        source
    } else {
        match at_hand {
            Some(v) => seq![*v] + source,
            None => Seq::empty(),
        }
    }
}

impl<'a, T> View for ZipSortIterator<'a, T> {
    type V = (Seq<T>, Seq<T>);

    /// The elements that are still to come, from the left and from the right
    /// input.
    closed spec fn view(&self) -> (Seq<T>, Seq<T>) {
        (
            side(self.a@, self.a_next, self.initialized),
            side(self.b@, self.b_next, self.initialized),
        )
    }
}

impl<'a, T> ZipSortIterator<'a, T> {
    /// A merge of `a` and `b`. Nothing is read before the first step.
    pub fn new(a: &'a [T], b: &'a [T]) -> (zip: Self)
        ensures
            zip@ == (a@, b@),
    {
        ZipSortIterator {
            a: SliceSource::new(a),
            b: SliceSource::new(b),
            a_next: None,
            b_next: None,
            initialized: false,
        }
    }
}

impl<'a, T: PartialOrd> ZipSortIterator<'a, T> {
    /// Hands out the next element of the merge, or `None` once both sides are
    /// used up, and then `None` again on every later call.
    ///
    /// This is a [`step`] of a merge of the two sides: the element is the
    /// head of one side, and that side alone moves on. Where `<=` on `T`
    /// computes [`le`], the side is the one that [`pair_step`] names: the left
    /// one unless the right head comes strictly first. Where the order is
    /// lawful, that head is a least one.
    pub fn next(&mut self) -> (item: Option<&'a T>)
        ensures
            step(sides(old(self)@), pointee(item), sides(final(self)@)),
            decides_le::<T>() ==> (pointee(item), final(self)@) == pair_step(
                old(self)@.0,
                old(self)@.1,
            ),
            lawful_order::<T>() ==> match item {
                Some(v) => is_least_head(sides(old(self)@), *v),
                None => true,
            },
    {
        let ghost before = self@;
        if !self.initialized {
            self.a_next = self.a.next();
            self.b_next = self.b.next();
            self.initialized = true;
        }
        let mut assign_a = false;
        let mut assign_b = false;
        let res = match (self.a_next, self.b_next) {
            (Some(a), Some(b)) => {
                if *a <= *b {
                    assign_a = true;
                    Some(a)
                } else {
                    assign_b = true;
                    Some(b)
                }
            },
            (Some(a), None) => {
                assign_a = true;
                Some(a)
            },
            (None, Some(b)) => {
                assign_b = true;
                Some(b)
            },
            (None, None) => None,
        };
        if assign_a {
            self.a_next = self.a.next();
        }
        if assign_b {
            self.b_next = self.b.next();
        }
        proof {
            if let Some(v) = res {
                if assign_a {
                    assert(self@.0 == before.0.drop_first());
                    assert(self@.1 == before.1);
                    assert(advance(sides(before), 0) == sides(self@));
                    assert(pulls_from(sides(before), 0, *v, sides(self@)));
                } else {
                    assert(self@.0 == before.0);
                    assert(self@.1 == before.1.drop_first());
                    assert(advance(sides(before), 1) == sides(self@));
                    assert(pulls_from(sides(before), 1, *v, sides(self@)));
                }
                assert(takes_head(sides(before), *v, sides(self@)));
                if lawful_order::<T>() {
                    lemma_le_reflexive(*v);
                    if before.0.len() > 0 && before.1.len() > 0 {
                        lemma_le_total(before.0[0], before.1[0]);
                    }
                }
            } else {
                assert(self@.0 == before.0);
                assert(self@.1 == before.1);
            }
        }
        res
    }

    /// Runs the merge to its end and returns, in order, every element that
    /// was still to come.
    ///
    /// Nothing is lost or added, whatever the order on `T` is like. Where
    /// `<=` on `T` computes [`le`], the result is [`merged`] of the two sides.
    /// Where the order is lawful besides, that is one of their merges, and
    /// it is sorted if both sides are.
    pub fn collect(self) -> (out: Vec<&'a T>)
        ensures
            out@.unref().to_multiset() == self@.0.to_multiset().add(self@.1.to_multiset()),
            decides_le::<T>() ==> out@.unref() == merged(self@.0, self@.1),
            lawful_order::<T>() ==> merges(sides(self@), out@.unref()),
            lawful_order::<T>() && sorted(self@.0) && sorted(self@.1) ==> sorted(out@.unref()),
    {
        let mut zip = self;
        let mut out: Vec<&'a T> = Vec::new();
        proof {
            broadcast use group_multiset_axioms;

            lemma_empty_counts_nothing(out@.unref());
            assert(out@.unref().to_multiset().add(zip@.0.to_multiset()).add(zip@.1.to_multiset())
                =~= self@.0.to_multiset().add(self@.1.to_multiset()));
            assert(out@.unref() + merged(zip@.0, zip@.1) == merged(self@.0, self@.1));
        }
        loop
            invariant
                out@.unref().to_multiset().add(zip@.0.to_multiset()).add(zip@.1.to_multiset())
                    == self@.0.to_multiset().add(self@.1.to_multiset()),
                decides_le::<T>() ==> out@.unref() + merged(zip@.0, zip@.1) == merged(
                    self@.0,
                    self@.1,
                ),
            ensures
                out@.unref().to_multiset() == self@.0.to_multiset().add(self@.1.to_multiset()),
                decides_le::<T>() ==> out@.unref() == merged(self@.0, self@.1),
            decreases zip@.0.len() + zip@.1.len(),
        {
            let ghost before = zip@;
            let ghost done = out@.unref();
            match zip.next() {
                Some(v) => {
                    out.push(v);
                    proof {
                        broadcast use group_multiset_axioms;
                        broadcast use group_to_multiset_ensures;

                        assert(out@.unref() == done.push(*v));
                        if before.0.len() > 0 {
                            lemma_head_counts_once(before.0);
                        }
                        if before.1.len() > 0 {
                            lemma_head_counts_once(before.1);
                        }
                        assert(out@.unref().to_multiset().add(zip@.0.to_multiset()).add(
                            zip@.1.to_multiset(),
                        ) =~= done.to_multiset().add(before.0.to_multiset()).add(
                            before.1.to_multiset(),
                        ));
                        if decides_le::<T>() {
                            assert(done.push(*v) + merged(zip@.0, zip@.1) == done + merged(
                                before.0,
                                before.1,
                            ));
                        }
                    }
                },
                None => {
                    proof {
                        broadcast use group_multiset_axioms;

                        lemma_empty_counts_nothing(before.0);
                        lemma_empty_counts_nothing(before.1);
                        assert(out@.unref().to_multiset().add(before.0.to_multiset()).add(
                            before.1.to_multiset(),
                        ) =~= out@.unref().to_multiset());
                        assert(out@.unref() + merged(before.0, before.1) == out@.unref());
                    }
                    break ;
                },
            }
        }
        proof {
            if lawful_order::<T>() {
                lemma_pair_merge_is_a_merge(self@.0, self@.1);
                if sorted(self@.0) && sorted(self@.1) {
                    lemma_merged_sorted(self@.0, self@.1);
                }
            }
        }
        out
    }
}

/// The merge of two sequences is as long as the two together.
pub proof fn lemma_merged_len<T: PartialOrd>(a: Seq<T>, b: Seq<T>)
    ensures
        merged(a, b).len() == a.len() + b.len(),
    decreases a.len() + b.len(),
{
    let (head, (rest_a, rest_b)) = pair_step(a, b);
    if head is Some {
        lemma_merged_len(rest_a, rest_b);
    }
}

/// The merge of two sequences holds every element of either as often as the
/// two hold it together: none is dropped, none is repeated, and equal
/// elements of the two sides all come out.
pub proof fn lemma_merged_elements<T: PartialOrd>(a: Seq<T>, b: Seq<T>)
    ensures
        merged(a, b).to_multiset() == a.to_multiset().add(b.to_multiset()),
    decreases a.len() + b.len(),
{
    broadcast use group_multiset_axioms;
    broadcast use group_to_multiset_ensures;

    let (head, (rest_a, rest_b)) = pair_step(a, b);
    match head {
        Some(v) => {
            lemma_merged_elements(rest_a, rest_b);
            let tail = merged(rest_a, rest_b);
            assert(merged(a, b).drop_first() == tail);
            lemma_head_counts_once(merged(a, b));
            if takes_left(a, b) {
                lemma_head_counts_once(a);
            } else {
                lemma_head_counts_once(b);
            }
            assert(merged(a, b).to_multiset() =~= a.to_multiset().add(b.to_multiset()));
        },
        None => {
            assert(a == Seq::<T>::empty());
            assert(b == Seq::<T>::empty());
            assert(merged(a, b).to_multiset() =~= a.to_multiset().add(b.to_multiset()));
        },
    }
}

/// The merge of two sequences holds as many elements that rank equal to `v`
/// as the two hold together: equal elements of the two sides all come out.
pub proof fn lemma_merged_keeps_ties<T: PartialOrd>(a: Seq<T>, b: Seq<T>, v: T)
    ensures
        ties(merged(a, b).to_multiset(), v) == ties(a.to_multiset(), v) + ties(
            b.to_multiset(),
            v,
        ),
{
    lemma_merged_elements(a, b);
    lemma_ties_add(a.to_multiset(), b.to_multiset(), v);
}

/// What comes before every element of both sides comes before every element
/// of their merge.
pub proof fn lemma_merged_lower_bound<T: PartialOrd>(a: Seq<T>, b: Seq<T>, bound: T)
    requires
        forall|i: int| 0 <= i < a.len() ==> le(bound, #[trigger] a[i]),
        forall|j: int| 0 <= j < b.len() ==> le(bound, #[trigger] b[j]),
    ensures
        forall|k: int| 0 <= k < merged(a, b).len() ==> le(bound, #[trigger] merged(a, b)[k]),
    decreases a.len() + b.len(),
{
    let (head, (rest_a, rest_b)) = pair_step(a, b);
    if head is Some {
        assert forall|i: int| 0 <= i < rest_a.len() implies le(bound, #[trigger] rest_a[i]) by {
            if takes_left(a, b) {
                assert(rest_a[i] == a[i + 1]);
            }
        }
        assert forall|j: int| 0 <= j < rest_b.len() implies le(bound, #[trigger] rest_b[j]) by {
            if !takes_left(a, b) {
                assert(rest_b[j] == b[j + 1]);
            }
        }
        lemma_merged_lower_bound(rest_a, rest_b, bound);
        let tail = merged(rest_a, rest_b);
        assert forall|k: int| 0 <= k < merged(a, b).len() implies le(
            bound,
            #[trigger] merged(a, b)[k],
        ) by {
            if k > 0 {
                assert(merged(a, b)[k] == tail[k - 1]);
            } else if takes_left(a, b) {
                assert(merged(a, b)[0] == a[0]);
            } else {
                assert(merged(a, b)[0] == b[0]);
            }
        }
    }
}

/// Under a total preorder the merge of two sorted sequences is sorted.
pub proof fn lemma_merged_sorted<T: PartialOrd>(a: Seq<T>, b: Seq<T>)
    requires
        total_preorder::<T>(),
        sorted(a),
        sorted(b),
    ensures
        sorted(merged(a, b)),
    decreases a.len() + b.len(),
{
    let (head, (rest_a, rest_b)) = pair_step(a, b);
    if let Some(v) = head {
        assert(sorted(rest_a)) by {
            assert forall|i: int, j: int| 0 <= i < j < rest_a.len() implies le(
                #[trigger] rest_a[i],
                #[trigger] rest_a[j],
            ) by {
                if takes_left(a, b) {
                    assert(le(a[i + 1], a[j + 1]));
                }
            }
        }
        assert(sorted(rest_b)) by {
            assert forall|i: int, j: int| 0 <= i < j < rest_b.len() implies le(
                #[trigger] rest_b[i],
                #[trigger] rest_b[j],
            ) by {
                if !takes_left(a, b) {
                    assert(le(b[i + 1], b[j + 1]));
                }
            }
        }
        lemma_merged_sorted(rest_a, rest_b);
        assert forall|i: int| 0 <= i < rest_a.len() implies le(v, #[trigger] rest_a[i]) by {
            if takes_left(a, b) {
                assert(le(a[0], a[i + 1]));
            } else {
                lemma_le_total(a[0], b[0]);
                if i > 0 {
                    assert(le(a[0], a[i]));
                    lemma_le_transitive(b[0], a[0], a[i]);
                }
            }
        }
        assert forall|j: int| 0 <= j < rest_b.len() implies le(v, #[trigger] rest_b[j]) by {
            if takes_left(a, b) {
                if j > 0 {
                    assert(le(b[0], b[j]));
                    lemma_le_transitive(a[0], b[0], b[j]);
                }
            } else {
                assert(le(b[0], b[j + 1]));
            }
        }
        lemma_merged_lower_bound(rest_a, rest_b, v);
        let tail = merged(rest_a, rest_b);
        assert forall|i: int, j: int| 0 <= i < j < merged(a, b).len() implies le(
            #[trigger] merged(a, b)[i],
            #[trigger] merged(a, b)[j],
        ) by {
            assert(merged(a, b)[j] == tail[j - 1]);
            if i > 0 {
                assert(merged(a, b)[i] == tail[i - 1]);
            } else {
                assert(merged(a, b)[0] == v);
            }
        }
    }
}

/// Under a total preorder the merge of two sequences is one of the merges
/// that least-head steps produce from them.
pub proof fn lemma_pair_merge_is_a_merge<T: PartialOrd>(a: Seq<T>, b: Seq<T>)
    requires
        total_preorder::<T>(),
    ensures
        merges(sides((a, b)), merged(a, b)),
    decreases a.len() + b.len(),
{
    let both = sides((a, b));
    match pair_step(a, b) {
        (Some(v), (rest_a, rest_b)) => {
            let rest = sides((rest_a, rest_b));
            lemma_pair_merge_is_a_merge(rest_a, rest_b);
            if takes_left(a, b) {
                assert(advance(both, 0) == rest);
                assert(pulls_from(both, 0, v, rest));
            } else {
                assert(advance(both, 1) == rest);
                assert(pulls_from(both, 1, v, rest));
                if a.len() > 0 {
                    lemma_le_total(a[0], b[0]);
                }
            }
            lemma_le_reflexive(v);
            assert(is_least_head(both, v));
            lemma_run_prepends(both, v, rest, merged(rest_a, rest_b), spent(2));
        },
        (None, _) => {
            assert(both =~~= spent::<T>(2));
        },
    }
}

/// Once the merge has nothing to hand out it is at rest: the step that
/// yields nothing leaves both sides as they were, so every later step yields
/// nothing either.
pub proof fn lemma_pair_merge_stays_exhausted<T: PartialOrd>(a: Seq<T>, b: Seq<T>)
    requires
        pair_step(a, b).0 is None,
    ensures
        a.len() == 0,
        b.len() == 0,
        pair_step(a, b).1 == (a, b),
        pair_step(pair_step(a, b).1.0, pair_step(a, b).1.1).0 is None,
{
}

/// Two empty sides merge to nothing, and their first step yields nothing.
pub proof fn lemma_pair_merge_of_nothing<T: PartialOrd>(a: Seq<T>, b: Seq<T>)
    requires
        a.len() == 0,
        b.len() == 0,
    ensures
        pair_step(a, b).0 is None,
        merged(a, b) == Seq::<T>::empty(),
{
}

} // verus!
