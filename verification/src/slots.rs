//! How the slots of a heap stand for the sources of a merge.
use crate::heap::is_heap;
use crate::heap::lemma_root_is_least;
use crate::heap::State;
use crate::merge::advance;
use crate::merge::exhausted;
use crate::merge::is_least_head;
use crate::order::le;
use crate::order::total_preorder;
use vstd::prelude::*;
use vstd::seq_lib::to_multiset_contains;

verus! {

/// The slots of `queue` stand for the non-empty ones among `sources`: each
/// slot holds what its source holds, no two slots stand for one source, and
/// every source that holds something has its slot.
pub open spec fn slots_match<T>(queue: Seq<State<T>>, sources: Seq<Seq<T>>) -> bool {
    &&& forall|k: int|
        0 <= k < queue.len() ==> {
            &&& (#[trigger] queue[k]).source@ < sources.len()
            &&& sources[queue[k].source@ as int] == queue[k].pending()
        }
    &&& forall|k: int, l: int|
        0 <= k < l < queue.len() ==> (#[trigger] queue[k]).source@ != (#[trigger] queue[l]).source@
    &&& forall|s: int|
        0 <= s < sources.len() && (#[trigger] sources[s]).len() > 0 ==> has_slot(queue, s)
}

/// Some slot of `queue` stands for source `s`.
pub open spec fn has_slot<T>(queue: Seq<State<T>>, s: int) -> bool {
    exists|k: int| 0 <= k < queue.len() && (#[trigger] queue[k]).source@ == s
}

/// The first `count` of `sources` as they are, the others emptied: what a
/// merge under construction has looked at so far.
pub open spec fn only_first<T>(sources: Seq<Seq<T>>, count: int) -> Seq<Seq<T>> {
    Seq::new(
        sources.len(),
        |s: int|
            if s < count {
                sources[s]
            } else {
                Seq::empty()
            },
    )
}

/// Without slots, matching sources are exhausted.
pub proof fn lemma_no_slots_left<T>(queue: Seq<State<T>>, sources: Seq<Seq<T>>)
    requires
        slots_match(queue, sources),
        queue.len() == 0,
    ensures
        exhausted(sources),
{
    assert forall|s: int| 0 <= s < sources.len() implies (#[trigger] sources[s]).len() == 0 by {
        if sources[s].len() > 0 {
            assert(has_slot(queue, s));
        }
    }
}

/// Slots that match the sources looked at so far still do once the next
/// source, which holds something, has its slot behind them.
pub proof fn lemma_added_slot_matches<T>(
    queue: Seq<State<T>>,
    slot: State<T>,
    sources: Seq<Seq<T>>,
    count: int,
)
    requires
        slots_match(queue, only_first(sources, count)),
        0 <= count < sources.len(),
        slot.source@ == count,
        slot.pending() == sources[count],
    ensures
        slots_match(queue.push(slot), only_first(sources, count + 1)),
{
    let seen = only_first(sources, count);
    let grown = only_first(sources, count + 1);
    let longer = queue.push(slot);
    assert forall|k: int| 0 <= k < queue.len() implies (#[trigger] queue[k]).source@ != count by {
        assert(seen[queue[k].source@ as int] == queue[k].pending());
    }
    assert forall|s: int| 0 <= s < grown.len() && (#[trigger] grown[s]).len() > 0 implies has_slot(
        longer,
        s,
    ) by {
        if s < count {
            assert(seen[s].len() > 0);
            assert(has_slot(queue, s));
            let k = choose|k: int| 0 <= k < queue.len() && (#[trigger] queue[k]).source@ == s;
            assert(longer[k].source@ == s);
        } else {
            assert(longer[queue.len() as int].source@ == s);
        }
    }
}

/// Slots that match the sources looked at so far still do once the next
/// source, which holds nothing, was passed over.
pub proof fn lemma_skipped_source_matches<T>(
    queue: Seq<State<T>>,
    sources: Seq<Seq<T>>,
    count: int,
)
    requires
        slots_match(queue, only_first(sources, count)),
        0 <= count < sources.len(),
        sources[count].len() == 0,
    ensures
        slots_match(queue, only_first(sources, count + 1)),
{
    assert(sources[count] =~= Seq::<T>::empty());
    assert(only_first(sources, count + 1) =~~= only_first(sources, count));
}

/// Slots that match their sources still do after they were rearranged.
pub proof fn lemma_rearranged_slots_match<T>(
    before: Seq<State<T>>,
    after: Seq<State<T>>,
    sources: Seq<Seq<T>>,
)
    requires
        slots_match(before, sources),
        after.to_multiset() == before.to_multiset(),
    ensures
        slots_match(after, sources),
{
    assert forall|slot: State<T>| before.contains(slot) <==> after.contains(slot) by {
        to_multiset_contains(before, slot);
        to_multiset_contains(after, slot);
    }
    assert forall|i: int, j: int|
        0 <= i < before.len() && 0 <= j < before.len() && i != j implies before[i]
        != before[j] by {
        if i < j {
            assert(before[i].source@ != before[j].source@);
        } else {
            assert(before[j].source@ != before[i].source@);
        }
    }
    before.lemma_multiset_has_no_duplicates();
    after.lemma_multiset_has_no_duplicates_conv();
    assert forall|k: int| 0 <= k < after.len() implies {
        &&& (#[trigger] after[k]).source@ < sources.len()
        &&& sources[after[k].source@ as int] == after[k].pending()
    } by {
        assert(after.contains(after[k]));
        let l = choose|l: int| 0 <= l < before.len() && before[l] == after[k];
        assert(before[l].source@ < sources.len());
    }
    assert forall|k: int, l: int| 0 <= k < l < after.len() implies (#[trigger] after[k]).source@
        != (#[trigger] after[l]).source@ by {
        assert(after.contains(after[k]));
        assert(after.contains(after[l]));
        let i = choose|i: int| 0 <= i < before.len() && before[i] == after[k];
        let j = choose|j: int| 0 <= j < before.len() && before[j] == after[l];
        assert(after[k] != after[l]);
        if i < j {
            assert(before[i].source@ != before[j].source@);
        } else {
            assert(before[j].source@ != before[i].source@);
        }
    }
    assert forall|s: int| 0 <= s < sources.len() && (#[trigger] sources[s]).len() > 0 implies has_slot(
        after,
        s,
    ) by {
        assert(has_slot(before, s));
        let i = choose|i: int| 0 <= i < before.len() && (#[trigger] before[i]).source@ == s;
        assert(before.contains(before[i]));
        let k = choose|k: int| 0 <= k < after.len() && after[k] == before[i];
        assert(after[k].source@ == s);
    }
}

/// Slots still match once the first of them has moved on by one element
/// inside its source, which holds more.
pub proof fn lemma_refilled_slot_matches<T>(
    queue: Seq<State<T>>,
    refilled: State<T>,
    sources: Seq<Seq<T>>,
)
    requires
        slots_match(queue, sources),
        queue.len() > 0,
        refilled.source == queue[0].source,
        refilled.pending() == queue[0].pending().drop_first(),
    ensures
        slots_match(queue.update(0, refilled), advance(sources, queue[0].source@ as int)),
{
    let origin = queue[0].source@ as int;
    let changed = queue.update(0, refilled);
    let after = advance(sources, origin);
    assert forall|k: int| 0 <= k < changed.len() implies {
        &&& (#[trigger] changed[k]).source@ < after.len()
        &&& after[changed[k].source@ as int] == changed[k].pending()
    } by {
        if k > 0 {
            assert(queue[0].source@ != queue[k].source@);
        }
    }
    assert forall|k: int, l: int| 0 <= k < l < changed.len() implies (#[trigger] changed[k]).source@
        != (#[trigger] changed[l]).source@ by {
        assert(queue[k].source@ != queue[l].source@);
    }
    assert forall|s: int| 0 <= s < after.len() && (#[trigger] after[s]).len() > 0 implies has_slot(
        changed,
        s,
    ) by {
        if s == origin {
            assert(changed[0].source@ == s);
        } else {
            assert(sources[s].len() > 0);
            assert(has_slot(queue, s));
            let k = choose|k: int| 0 <= k < queue.len() && (#[trigger] queue[k]).source@ == s;
            assert(changed[k].source@ == s);
        }
    }
}

/// Slots still match once the first of them, whose source held one last
/// element, has given its place to the last slot.
pub proof fn lemma_removed_slot_matches<T>(queue: Seq<State<T>>, sources: Seq<Seq<T>>)
    requires
        slots_match(queue, sources),
        queue.len() > 0,
        queue[0].pending().len() == 1,
    ensures
        slots_match(
            queue.update(0, queue.last()).drop_last(),
            advance(sources, queue[0].source@ as int),
        ),
{
    let origin = queue[0].source@ as int;
    let last = queue.len() - 1;
    let changed = queue.update(0, queue.last()).drop_last();
    let after = advance(sources, origin);
    assert forall|k: int| 0 <= k < changed.len() implies {
        &&& (#[trigger] changed[k]).source@ < after.len()
        &&& after[changed[k].source@ as int] == changed[k].pending()
    } by {
        if k == 0 {
            assert(changed[0] == queue[last]);
            assert(queue[0].source@ != queue[last].source@);
        } else {
            assert(changed[k] == queue[k]);
            assert(queue[0].source@ != queue[k].source@);
        }
    }
    assert forall|k: int, l: int| 0 <= k < l < changed.len() implies (#[trigger] changed[k]).source@
        != (#[trigger] changed[l]).source@ by {
        if k == 0 {
            assert(queue[l].source@ != queue[last].source@);
        } else {
            assert(queue[k].source@ != queue[l].source@);
        }
    }
    assert forall|s: int| 0 <= s < after.len() && (#[trigger] after[s]).len() > 0 implies has_slot(
        changed,
        s,
    ) by {
        assert(s != origin);
        assert(sources[s].len() > 0);
        assert(has_slot(queue, s));
        let k = choose|k: int| 0 <= k < queue.len() && (#[trigger] queue[k]).source@ == s;
        if k == last {
            assert(changed[0].source@ == s);
        } else {
            assert(changed[k].source@ == s);
        }
    }
}

/// The first slot of a heap that matches its sources holds a least head.
pub proof fn lemma_first_slot_is_least_head<T: PartialOrd>(
    queue: Seq<State<T>>,
    sources: Seq<Seq<T>>,
)
    requires
        total_preorder::<T>(),
        is_heap(queue),
        slots_match(queue, sources),
        queue.len() > 0,
    ensures
        is_least_head(sources, *queue[0].prio),
{
    assert forall|j: int| 0 <= j < sources.len() && (#[trigger] sources[j]).len() > 0 implies le(
        *queue[0].prio,
        sources[j][0],
    ) by {
        assert(has_slot(queue, j));
        let k = choose|k: int| 0 <= k < queue.len() && (#[trigger] queue[k]).source@ == j;
        lemma_root_is_least(queue, k);
        assert(sources[j] == queue[k].pending());
    }
}

} // verus!
