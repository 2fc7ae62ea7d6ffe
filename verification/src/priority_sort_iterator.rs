//! The merge of any number of sorted slices, driven by a heap.
use crate::elements::elements;
use crate::elements::lemma_empty_counts_nothing;
use crate::heap::heapify;
use crate::heap::is_heap;
use crate::heap::lemma_rest_stays_ordered;
use crate::heap::sift_down;
use crate::heap::State;
use crate::merge::advance;
use crate::merge::all_sorted;
use crate::merge::is_least_head;
use crate::merge::lemma_exhausted_holds_nothing;
use crate::merge::lemma_merge_is_sorted;
use crate::merge::lemma_run_extends;
use crate::merge::lemma_step_keeps_elements;
use crate::merge::merge_run;
use crate::merge::merges;
use crate::merge::pulls_from;
use crate::merge::spent;
use crate::merge::step;
use crate::merge::takes_head;
use crate::order::lawful_order;
use crate::order::sorted;
use crate::slots::lemma_added_slot_matches;
use crate::slots::lemma_first_slot_is_least_head;
use crate::slots::lemma_no_slots_left;
use crate::slots::lemma_rearranged_slots_match;
use crate::slots::lemma_refilled_slot_matches;
use crate::slots::lemma_removed_slot_matches;
use crate::slots::lemma_skipped_source_matches;
use crate::slots::only_first;
use crate::slots::slots_match;
use crate::source::pointee;
use crate::source::SliceSource;
use vstd::multiset::group_multiset_axioms;
use vstd::prelude::*;
use vstd::seq_lib::group_to_multiset_ensures;

verus! {

/// What each of `inputs` holds, in the order of the inputs.
pub open spec fn contents<T>(inputs: Seq<&[T]>) -> Seq<Seq<T>> {
    Seq::new(inputs.len(), |i: int| inputs[i]@)
}

/// Merges any number of slices lazily. Every slice that is not used up has
/// one slot in a min-heap, keyed on its next element; a step hands out the
/// key of the first slot, refills that slot from its slice or removes it,
/// and restores the heap.
///
/// Among several equal least elements any one may come first; elements of
/// one slice keep their order.
pub struct PrioritySortIterator<'a, T: Ord> {
    queue: Vec<State<'a, T>>,
    sources: Ghost<Seq<Seq<T>>>,
}

impl<'a, T: Ord> View for PrioritySortIterator<'a, T> {
    type V = Seq<Seq<T>>;

    /// What each input still holds, in the order of the inputs. An input
    /// that is used up stays in its place, empty.
    closed spec fn view(&self) -> Seq<Seq<T>> {
        self.sources@
    }
}

impl<'a, T: Ord> PrioritySortIterator<'a, T> {
    /// The slots stand for the inputs that still hold something, and they
    /// form a heap wherever the order on `T` lets them.
    #[verifier::type_invariant]
    spec fn well_formed(self) -> bool {
        &&& slots_match(self.queue@, self.sources@)
        &&& lawful_order::<T>() ==> is_heap(self.queue@)
    }

    /// A merge of `iterators`. It takes the first element of each to build
    /// its heap; a slice without elements gets no slot.
    pub fn new(iterators: &[&'a [T]]) -> (merge: Self)
        ensures
            merge@ == contents(iterators@),
    {
        let ghost goal = contents(iterators@);
        let mut queue: Vec<State<'a, T>> = Vec::new();
        let mut i: usize = 0;
        while i < iterators.len()
            invariant
                i <= iterators.len(),
                goal == contents(iterators@),
                slots_match(queue@, only_first(goal, i as int)),
            decreases iterators.len() - i,
        {
            let ghost slots = queue@;
            let mut iter = SliceSource::new(iterators[i]);
            let next = iter.next();
            if let Some(prio) = next {
                let slot = State { iter, prio, source: Ghost(i as nat) };
                queue.push(slot);
                proof {
                    assert(slot.pending() == goal[i as int]);
                    lemma_added_slot_matches(slots, slot, goal, i as int);
                }
            } else {
                proof {
                    lemma_skipped_source_matches(slots, goal, i as int);
                }
            }
            i += 1;
        }
        let ghost slots = queue@;
        heapify(&mut queue);
        proof {
            assert(only_first(goal, i as int) == goal);
            lemma_rearranged_slots_match(slots, queue@, goal);
        }
        PrioritySortIterator { queue, sources: Ghost(goal) }
    }

    /// Hands out the next element of the merge, or `None` once every input
    /// is used up, and then `None` again on every later call.
    ///
    /// This is a [`step`] of a merge: the element is the head of one input,
    /// and that input alone moves on. Where the order on `T` is lawful, no
    /// input has a head that comes strictly before the element.
    pub fn next(&mut self) -> (item: Option<&'a T>)
        ensures
            step(old(self)@, pointee(item), final(self)@),
            lawful_order::<T>() ==> match item {
                Some(v) => is_least_head(old(self)@, *v),
                None => true,
            },
    {
        proof {
            use_type_invariant(&*self);
        }
        if self.queue.len() == 0 {
            proof {
                lemma_no_slots_left(self.queue@, self.sources@);
            }
            return None;
        }
        let mut current = PrioritySortIterator { queue: Vec::new(), sources: Ghost(Seq::empty()) };
        std::mem::swap(self, &mut current);
        let ghost before = current.sources@;
        let mut queue = current.queue;
        let ghost slots = queue@;
        let mut top = queue[0];
        let ghost origin = top.source@ as int;
        let ghost after = advance(before, origin);
        let next = top.iter.next();
        let res = top.prio;
        proof {
            assert(pulls_from(before, origin, *res, after));
            assert(takes_head(before, *res, after));
            if lawful_order::<T>() {
                lemma_first_slot_is_least_head(slots, before);
            }
        }
        match next {
            Some(prio) => {
                top.prio = prio;
                queue[0] = top;
                proof {
                    assert(top.pending() == slots[0].pending().drop_first());
                    lemma_refilled_slot_matches(slots, top, before);
                }
            },
            None => {
                queue.swap_remove(0);
                proof {
                    lemma_removed_slot_matches(slots, before);
                }
            },
        }
        if queue.len() > 0 {
            let ghost changed = queue@;
            proof {
                if lawful_order::<T>() {
                    lemma_rest_stays_ordered(slots, changed);
                }
            }
            sift_down(&mut queue, 0);
            proof {
                lemma_rearranged_slots_match(changed, queue@, after);
            }
        }
        *self = PrioritySortIterator { queue, sources: Ghost(after) };
        Some(res)
    }

    /// Runs the merge to its end and returns, in order, every element that
    /// was still to come.
    ///
    /// Nothing is lost or added, whatever the order on `T` is like. Where
    /// the order is lawful, the result is a merge of what the inputs held,
    /// and it is sorted if each of them was.
    pub fn collect(self) -> (out: Vec<&'a T>)
        ensures
            out@.unref().to_multiset() == elements(self@),
            lawful_order::<T>() ==> merges(self@, out@.unref()),
            lawful_order::<T>() && all_sorted(self@) ==> sorted(out@.unref()),
    {
        let mut merge = self;
        let mut out: Vec<&'a T> = Vec::new();
        proof {
            broadcast use group_multiset_axioms;

            lemma_empty_counts_nothing(out@.unref());
            assert(out@.unref().to_multiset().add(elements(merge@)) =~= elements(self@));
        }
        loop
            invariant
                merge@.len() == self@.len(),
                out@.unref().to_multiset().add(elements(merge@)) == elements(self@),
                lawful_order::<T>() ==> merge_run(self@, out@.unref(), merge@),
            ensures
                out@.unref().to_multiset() == elements(self@),
                lawful_order::<T>() ==> merges(self@, out@.unref()),
            decreases elements(merge@).len(),
        {
            let ghost before = merge@;
            let ghost handed = out@.unref();
            match merge.next() {
                Some(v) => {
                    out.push(v);
                    proof {
                        broadcast use group_multiset_axioms;
                        broadcast use group_to_multiset_ensures;

                        assert(out@.unref() == handed.push(*v));
                        lemma_step_keeps_elements(before, Some(*v), merge@);
                        assert(out@.unref().to_multiset().add(elements(merge@))
                            =~= handed.to_multiset().add(elements(before)));
                        if lawful_order::<T>() {
                            lemma_run_extends(self@, handed, before, *v, merge@);
                        }
                    }
                },
                None => {
                    proof {
                        broadcast use group_multiset_axioms;

                        lemma_exhausted_holds_nothing(before);
                        assert(out@.unref().to_multiset().add(elements(before))
                            =~= out@.unref().to_multiset());
                        assert(before =~~= spent::<T>(self@.len()));
                    }
                    break ;
                },
            }
        }
        proof {
            if lawful_order::<T>() && all_sorted(self@) {
                lemma_merge_is_sorted(self@, out@.unref());
            }
        }
        out
    }
}

} // verus!
