//! A binary min-heap of merge slots, laid out in a `Vec`.
//!
//! The slot at index `c > 0` has its parent at `(c - 1) / 2`. In a heap every
//! parent comes before its children, so the slot at index 0 comes before all
//! others. The operations move slots around and never add or lose one.
use crate::order::decides_le;
use crate::order::lawful_order;
use crate::order::le;
use crate::order::lemma_le_reflexive;
use crate::order::lemma_le_total;
use crate::order::lemma_le_transitive;
use crate::order::total_preorder;
use crate::source::SliceSource;
use vstd::prelude::*;
use vstd::seq_lib::group_to_multiset_ensures;

verus! {

/// One source inside a merge, with its head at hand: `prio` is the next
/// element that the source contributes, `iter` holds what follows it.
/// `source` is the position of the source among the inputs of the merge.
pub struct State<'a, T> {
    pub iter: SliceSource<'a, T>,
    pub prio: &'a T,
    pub source: Ghost<nat>,
}

impl<'a, T> Clone for State<'a, T> {
    fn clone(&self) -> (copy: Self)
        ensures
            copy == *self,
    {
        *self
    }
}

impl<'a, T> Copy for State<'a, T> {

}

impl<'a, T> State<'a, T> {
    /// What the source still contributes: its head, then the rest.
    pub open spec fn pending(self) -> Seq<T> {
        seq![*self.prio] + self.iter@
    }
}

impl<'a, T: PartialOrd> State<'a, T> {
    /// Whether this slot may stand above `other` in the heap: its head
    /// comes before the other's, or ranks equal to it.
    pub fn comes_before(&self, other: &Self) -> (yes: bool)
        ensures
            decides_le::<T>() ==> yes == le(*self.prio, *other.prio),
    {
        *self.prio <= *other.prio
    }
}

/// The index of the parent of the slot at index `child`.
pub open spec fn parent(child: int) -> int {
    (child - 1) / 2
}

/// Every slot at index `from` or later comes before its children.
pub open spec fn ordered_from<T: PartialOrd>(queue: Seq<State<T>>, from: int) -> bool {
    forall|c: int|
        0 < c < queue.len() && from <= parent(c) ==> le(
            *queue[parent(c)].prio,
            *(#[trigger] queue[c]).prio,
        )
}

/// The heap property: every slot comes before its children.
pub open spec fn is_heap<T: PartialOrd>(queue: Seq<State<T>>) -> bool {
    ordered_from(queue, 0)
}

/// In a heap the slot at index 0 comes before every slot.
pub proof fn lemma_root_is_least<T: PartialOrd>(queue: Seq<State<T>>, k: int)
    requires
        total_preorder::<T>(),
        is_heap(queue),
        0 <= k < queue.len(),
    ensures
        le(*queue[0].prio, *queue[k].prio),
    decreases k,
{
    if k == 0 {
        lemma_le_reflexive(*queue[0].prio);
    } else {
        lemma_root_is_least(queue, parent(k));
        assert(le(*queue[parent(k)].prio, *queue[k].prio));
        lemma_le_transitive(*queue[0].prio, *queue[parent(k)].prio, *queue[k].prio);
    }
}

/// A heap whose first slot was replaced, or whose last slot took the place
/// of the first, is still in order below the first slot.
pub proof fn lemma_rest_stays_ordered<T: PartialOrd>(queue: Seq<State<T>>, changed: Seq<State<T>>)
    requires
        is_heap(queue),
        changed.len() <= queue.len(),
        forall|k: int| 1 <= k < changed.len() ==> #[trigger] changed[k] == queue[k],
    ensures
        ordered_from(changed, 1),
{
    assert forall|c: int| 0 < c < changed.len() && 1 <= parent(c) implies le(
        *changed[parent(c)].prio,
        *(#[trigger] changed[c]).prio,
    ) by {
        assert(le(*queue[parent(c)].prio, *queue[c].prio));
        assert(changed[parent(c)] == queue[parent(c)]);
    }
}

/// Exchanges the slots at `i` and `j`.
fn exchange<'a, T>(queue: &mut Vec<State<'a, T>>, i: usize, j: usize)
    requires
        i < old(queue).len(),
        j < old(queue).len(),
    ensures
        final(queue)@ == old(queue)@.update(i as int, old(queue)@[j as int]).update(
            j as int,
            old(queue)@[i as int],
        ),
        final(queue)@.to_multiset() == old(queue)@.to_multiset(),
{
    let first = queue[i];
    queue[i] = queue[j];
    queue[j] = first;
    proof {
        broadcast use group_to_multiset_ensures;

        let before = old(queue)@;
        let halfway = before.update(i as int, before[j as int]);
        assert(halfway.to_multiset() == before.to_multiset().insert(before[j as int]).remove(
            before[i as int],
        ));
        assert(queue@.to_multiset() == halfway.to_multiset().insert(before[i as int]).remove(
            halfway[j as int],
        ));
    }
}

/// Lets the slot at `pos` sink to where it comes before its children.
///
/// Where the slots after `pos` come before their children already, those
/// from `pos` on do so afterwards. The slots before `pos` stay where they
/// are.
pub fn sift_down<'a, T: PartialOrd>(queue: &mut Vec<State<'a, T>>, pos: usize)
    requires
        pos < old(queue).len(),
        lawful_order::<T>() ==> ordered_from(old(queue)@, pos + 1),
    ensures
        final(queue)@.len() == old(queue)@.len(),
        final(queue)@.to_multiset() == old(queue)@.to_multiset(),
        lawful_order::<T>() ==> ordered_from(final(queue)@, pos as int),
{
    let n = queue.len();
    let mut hole = pos;
    while hole < n / 2
        invariant
            queue@.len() == n,
            pos <= hole < n,
            queue@.to_multiset() == old(queue)@.to_multiset(),
            lawful_order::<T>() ==> forall|c: int|
                0 < c < n && pos <= parent(c) && parent(c) != hole ==> le(
                    *queue@[parent(c)].prio,
                    *(#[trigger] queue@[c]).prio,
                ),
            lawful_order::<T>() && hole > pos ==> pos <= parent(hole as int) && forall|c: int|
                0 < c < n && parent(c) == hole ==> le(
                    *queue@[parent(hole as int)].prio,
                    *(#[trigger] queue@[c]).prio,
                ),
        ensures
            queue@.len() == n,
            queue@.to_multiset() == old(queue)@.to_multiset(),
            lawful_order::<T>() ==> ordered_from(queue@, pos as int),
        decreases n - hole,
    {
        let left = 2 * hole + 1;
        let right = left + 1;
        let mut child = left;
        if right < n && !queue[left].comes_before(&queue[right]) {
            child = right;
        }
        proof {
            if lawful_order::<T>() && right < n {
                lemma_le_total(*queue@[left as int].prio, *queue@[right as int].prio);
            }
        }
        if queue[hole].comes_before(&queue[child]) {
            proof {
                if lawful_order::<T>() {
                    assert forall|c: int| 0 < c < n && pos <= parent(c) implies le(
                        *queue@[parent(c)].prio,
                        *(#[trigger] queue@[c]).prio,
                    ) by {
                        if parent(c) == hole && c != child {
                            lemma_le_transitive(
                                *queue@[hole as int].prio,
                                *queue@[child as int].prio,
                                *queue@[c].prio,
                            );
                        }
                    }
                }
            }
            break ;
        }
        let ghost before = queue@;
        exchange(queue, hole, child);
        proof {
            if lawful_order::<T>() {
                lemma_le_total(*before[hole as int].prio, *before[child as int].prio);
                assert forall|c: int|
                    0 < c < n && pos <= parent(c) && parent(c) != child implies le(
                    *queue@[parent(c)].prio,
                    *(#[trigger] queue@[c]).prio,
                ) by {
                    if parent(c) == hole {
                        if c != child {
                            assert(le(*before[child as int].prio, *before[c].prio));
                        }
                    } else if c == hole {
                        assert(le(*before[parent(c)].prio, *before[child as int].prio));
                    } else {
                        assert(le(*before[parent(c)].prio, *before[c].prio));
                    }
                }
                assert forall|c: int| 0 < c < n && parent(c) == child implies le(
                    *queue@[parent(child as int)].prio,
                    *(#[trigger] queue@[c]).prio,
                ) by {
                    assert(le(*before[child as int].prio, *before[c].prio));
                }
            }
        }
        hole = child;
    }
}

/// Turns any arrangement of slots into a heap, from the last parent back to
/// the first.
pub fn heapify<'a, T: PartialOrd>(queue: &mut Vec<State<'a, T>>)
    ensures
        final(queue)@.len() == old(queue)@.len(),
        final(queue)@.to_multiset() == old(queue)@.to_multiset(),
        lawful_order::<T>() ==> is_heap(final(queue)@),
{
    let n = queue.len();
    let mut pos = n / 2;
    while pos > 0
        invariant
            queue@.len() == n,
            pos <= n / 2,
            queue@.to_multiset() == old(queue)@.to_multiset(),
            lawful_order::<T>() ==> ordered_from(queue@, pos as int),
        decreases pos,
    {
        pos = pos - 1;
        sift_down(queue, pos);
    }
}

} // verus!
