//! What it means to merge any number of sequences, one element at a time.
//!
//! The state of a merge is what each of its sources still holds, a
//! `Seq<Seq<T>>` indexed by the position of the source among the inputs. A
//! step takes the head of one source. Which one it takes among several equal
//! least heads is left open.
use crate::elements::elements;
use crate::elements::lemma_elements_update;
use crate::elements::lemma_empty_counts_nothing;
use crate::elements::lemma_head_counts_once;
use crate::elements::ties;
use crate::order::le;
use crate::order::lemma_le_transitive;
use crate::order::sorted;
use crate::order::total_preorder;
use vstd::multiset::group_multiset_axioms;
use vstd::multiset::Multiset;
use vstd::prelude::*;
use vstd::seq_lib::group_to_multiset_ensures;

verus! {

/// No source holds anything.
pub open spec fn exhausted<T>(sources: Seq<Seq<T>>) -> bool {
    forall|i: int| 0 <= i < sources.len() ==> (#[trigger] sources[i]).len() == 0
}

/// Every source is sorted.
pub open spec fn all_sorted<T: PartialOrd>(sources: Seq<Seq<T>>) -> bool {
    forall|i: int| 0 <= i < sources.len() ==> sorted(#[trigger] sources[i])
}

/// `sources` after source `i` gave up its head.
pub open spec fn advance<T>(sources: Seq<Seq<T>>, i: int) -> Seq<Seq<T>> {
    sources.update(i, sources[i].drop_first())
}

/// `v` is the head of source `i` of `before`, and `after` is what is left
/// once it is taken.
pub open spec fn pulls_from<T>(before: Seq<Seq<T>>, i: int, v: T, after: Seq<Seq<T>>) -> bool {
    &&& 0 <= i < before.len()
    &&& before[i].len() > 0
    &&& before[i][0] == v
    &&& after == advance(before, i)
}

/// `v` comes before the head of every source that has one.
pub open spec fn is_least_head<T: PartialOrd>(sources: Seq<Seq<T>>, v: T) -> bool {
    forall|j: int|
        0 <= j < sources.len() && (#[trigger] sources[j]).len() > 0 ==> le(v, sources[j][0])
}

/// `v` comes before every element of every source.
pub open spec fn precedes_all<T: PartialOrd>(v: T, sources: Seq<Seq<T>>) -> bool {
    forall|i: int, j: int|
        0 <= i < sources.len() && 0 <= j < sources[i].len() ==> le(v, #[trigger] sources[i][j])
}

/// `v` is the head of some source of `before`, and `after` is what is left
/// once it is taken.
pub open spec fn takes_head<T>(before: Seq<Seq<T>>, v: T, after: Seq<Seq<T>>) -> bool {
    exists|i: int| #[trigger] pulls_from(before, i, v, after)
}

/// One step of a merge, as far as it does not depend on the order: it hands
/// out the head of some source and leaves the rest in place, or it hands out
/// nothing because nothing is left, and changes nothing.
pub open spec fn step<T>(before: Seq<Seq<T>>, item: Option<T>, after: Seq<Seq<T>>) -> bool {
    match item {
        Some(v) => takes_head(before, v, after),
        None => exhausted(before) && after == before,
    }
}

/// A step that hands out `v`, a least head.
pub open spec fn least_step<T: PartialOrd>(
    before: Seq<Seq<T>>,
    v: T,
    after: Seq<Seq<T>>,
) -> bool {
    step(before, Some(v), after) && is_least_head(before, v)
}

/// Steps that hand out least heads lead from `start` to `end` and hand out
/// `out`, in this order.
pub open spec fn merge_run<T: PartialOrd>(
    start: Seq<Seq<T>>,
    out: Seq<T>,
    end: Seq<Seq<T>>,
) -> bool
    decreases out.len(),
{
    if out.len() == 0 {
        end == start
    } else {
        exists|mid: Seq<Seq<T>>|
            merge_run(start, out.drop_last(), mid) && #[trigger] least_step(mid, out.last(), end)
    }
}

/// As many sources as `count`, all of them empty.
pub open spec fn spent<T>(count: nat) -> Seq<Seq<T>> {
    Seq::new(count, |i: int| Seq::<T>::empty())
}

/// `out` is a merge of `sources`: least-head steps hand it out and leave
/// every source empty.
pub open spec fn merges<T: PartialOrd>(sources: Seq<Seq<T>>, out: Seq<T>) -> bool {
    merge_run(sources, out, spent(sources.len()))
}

/// A run goes on by one more least-head step.
pub proof fn lemma_run_extends<T: PartialOrd>(
    start: Seq<Seq<T>>,
    out: Seq<T>,
    mid: Seq<Seq<T>>,
    v: T,
    end: Seq<Seq<T>>,
)
    requires
        merge_run(start, out, mid),
        least_step(mid, v, end),
    ensures
        merge_run(start, out.push(v), end),
{
    let longer = out.push(v);
    assert(longer.drop_last() == out);
    assert(least_step(mid, longer.last(), end));
}

/// A least-head step in front of a run gives a run.
pub proof fn lemma_run_prepends<T: PartialOrd>(
    start: Seq<Seq<T>>,
    v: T,
    next: Seq<Seq<T>>,
    out: Seq<T>,
    end: Seq<Seq<T>>,
)
    requires
        least_step(start, v, next),
        merge_run(next, out, end),
    ensures
        merge_run(start, seq![v] + out, end),
    decreases out.len(),
{
    let longer = seq![v] + out;
    if out.len() == 0 {
        assert(longer.drop_last() == Seq::<T>::empty());
        assert(merge_run(start, longer.drop_last(), start));
        assert(least_step(start, longer.last(), end));
    } else {
        let mid = choose|mid: Seq<Seq<T>>|
            merge_run(next, out.drop_last(), mid) && #[trigger] least_step(mid, out.last(), end);
        lemma_run_prepends(start, v, next, out.drop_last(), mid);
        assert(longer.drop_last() == seq![v] + out.drop_last());
        assert(least_step(mid, longer.last(), end));
    }
}

/// Exhausted sources hold no element.
pub proof fn lemma_exhausted_holds_nothing<T>(sources: Seq<Seq<T>>)
    requires
        exhausted(sources),
    ensures
        elements(sources) == Multiset::<T>::empty(),
    decreases sources.len(),
{
    broadcast use group_multiset_axioms;

    if sources.len() > 0 {
        let front = sources.drop_last();
        assert forall|i: int| 0 <= i < front.len() implies (#[trigger] front[i]).len() == 0 by {
            assert(sources[i].len() == 0);
        }
        lemma_exhausted_holds_nothing(front);
        lemma_empty_counts_nothing(sources.last());
        assert(elements(sources) =~= Multiset::<T>::empty());
    }
}

/// A step hands out an element that the sources held and takes it from
/// them: nothing else leaves, nothing comes in.
pub proof fn lemma_step_keeps_elements<T>(
    before: Seq<Seq<T>>,
    item: Option<T>,
    after: Seq<Seq<T>>,
)
    requires
        step(before, item, after),
    ensures
        elements(before) == match item {
            Some(v) => elements(after).insert(v),
            None => elements(after),
        },
{
    broadcast use group_multiset_axioms;

    if let Some(v) = item {
        let i = choose|i: int| #[trigger] pulls_from(before, i, v, after);
        lemma_elements_update(before, i, before[i].drop_first());
        lemma_head_counts_once(before[i]);
        let taken = elements(after).add(before[i].to_multiset());
        let kept = elements(before).add(before[i].drop_first().to_multiset());
        assert forall|w: T| elements(before).count(w) == elements(after).insert(v).count(w) by {
            assert(taken.count(w) == kept.count(w));
        }
        assert(elements(before) =~= elements(after).insert(v));
    }
}

/// What a run hands out and what it leaves in the sources is, with
/// multiplicity, what the sources held at its start. Equal elements of
/// different sources are all kept.
pub proof fn lemma_run_keeps_elements<T: PartialOrd>(
    start: Seq<Seq<T>>,
    out: Seq<T>,
    end: Seq<Seq<T>>,
)
    requires
        merge_run(start, out, end),
    ensures
        elements(start) == out.to_multiset().add(elements(end)),
    decreases out.len(),
{
    broadcast use group_multiset_axioms;
    broadcast use group_to_multiset_ensures;

    if out.len() == 0 {
        lemma_empty_counts_nothing(out);
        assert(elements(start) =~= out.to_multiset().add(elements(end)));
    } else {
        let mid = choose|mid: Seq<Seq<T>>|
            merge_run(start, out.drop_last(), mid) && #[trigger] least_step(mid, out.last(), end);
        lemma_run_keeps_elements(start, out.drop_last(), mid);
        lemma_step_keeps_elements(mid, Some(out.last()), end);
        assert(out == out.drop_last().push(out.last()));
        assert(out.to_multiset() == out.drop_last().to_multiset().insert(out.last()));
        assert(elements(start) =~= out.to_multiset().add(elements(end)));
    }
}

/// A merge hands out, with multiplicity, exactly what its sources held.
pub proof fn lemma_merge_keeps_elements<T: PartialOrd>(sources: Seq<Seq<T>>, out: Seq<T>)
    requires
        merges(sources, out),
    ensures
        out.to_multiset() == elements(sources),
{
    broadcast use group_multiset_axioms;

    lemma_run_keeps_elements(sources, out, spent(sources.len()));
    lemma_exhausted_holds_nothing(spent::<T>(sources.len()));
    assert(out.to_multiset() =~= elements(sources));
}

/// A merge hands out as many elements that rank equal to `v` as its sources
/// held: of equal elements, from one source or from several, none is
/// dropped and none is repeated.
pub proof fn lemma_merge_keeps_ties<T: PartialOrd>(sources: Seq<Seq<T>>, out: Seq<T>, v: T)
    requires
        merges(sources, out),
    ensures
        ties(out.to_multiset(), v) == ties(elements(sources), v),
{
    lemma_merge_keeps_elements(sources, out);
}

/// Under a total preorder a least head of sorted sources comes before
/// everything that they hold.
pub proof fn lemma_least_head_precedes_all<T: PartialOrd>(sources: Seq<Seq<T>>, v: T)
    requires
        total_preorder::<T>(),
        all_sorted(sources),
        is_least_head(sources, v),
    ensures
        precedes_all(v, sources),
{
    assert forall|i: int, j: int|
        0 <= i < sources.len() && 0 <= j < sources[i].len() implies le(
        v,
        #[trigger] sources[i][j],
    ) by {
        assert(sorted(sources[i]));
        assert(le(v, sources[i][0]));
        if j > 0 {
            assert(le(sources[i][0], sources[i][j]));
            lemma_le_transitive(v, sources[i][0], sources[i][j]);
        }
    }
}

/// Under a total preorder a run on sorted sources hands out a sorted
/// sequence, leaves the sources sorted, and has handed out nothing that
/// comes after something that is left.
pub proof fn lemma_run_is_sorted<T: PartialOrd>(
    start: Seq<Seq<T>>,
    out: Seq<T>,
    end: Seq<Seq<T>>,
)
    requires
        total_preorder::<T>(),
        all_sorted(start),
        merge_run(start, out, end),
    ensures
        sorted(out),
        all_sorted(end),
        forall|k: int| 0 <= k < out.len() ==> precedes_all(#[trigger] out[k], end),
    decreases out.len(),
{
    if out.len() > 0 {
        let mid = choose|mid: Seq<Seq<T>>|
            merge_run(start, out.drop_last(), mid) && #[trigger] least_step(mid, out.last(), end);
        let front = out.drop_last();
        let v = out.last();
        lemma_run_is_sorted(start, front, mid);
        let i = choose|i: int| #[trigger] pulls_from(mid, i, v, end);
        lemma_least_head_precedes_all(mid, v);
        assert forall|s: int| 0 <= s < end.len() implies sorted(#[trigger] end[s]) by {
            assert(sorted(mid[s]));
            if s == i {
                assert forall|x: int, y: int| 0 <= x < y < end[s].len() implies le(
                    #[trigger] end[s][x],
                    #[trigger] end[s][y],
                ) by {
                    assert(le(mid[s][x + 1], mid[s][y + 1]));
                }
            }
        }
        assert forall|w: T| precedes_all(w, mid) implies precedes_all(w, end) by {
            assert forall|s: int, j: int|
                0 <= s < end.len() && 0 <= j < end[s].len() implies le(
                w,
                #[trigger] end[s][j],
            ) by {
                if s == i {
                    assert(end[s][j] == mid[s][j + 1]);
                } else {
                    assert(end[s][j] == mid[s][j]);
                }
            }
        }
        assert forall|k: int| 0 <= k < out.len() implies precedes_all(#[trigger] out[k], end) by {
            if k < front.len() {
                assert(precedes_all(front[k], mid));
            }
        }
        assert forall|x: int, y: int| 0 <= x < y < out.len() implies le(
            #[trigger] out[x],
            #[trigger] out[y],
        ) by {
            if y < front.len() {
                assert(le(front[x], front[y]));
            } else {
                assert(precedes_all(front[x], mid));
                assert(le(front[x], mid[i][0]));
            }
        }
    }
}

/// Under a total preorder a merge of sorted sources is sorted.
pub proof fn lemma_merge_is_sorted<T: PartialOrd>(sources: Seq<Seq<T>>, out: Seq<T>)
    requires
        total_preorder::<T>(),
        all_sorted(sources),
        merges(sources, out),
    ensures
        sorted(out),
{
    lemma_run_is_sorted(sources, out, spent(sources.len()));
}

/// A step gives no source anything: the sources stay as many as they were,
/// and each keeps a suffix of what it held. So a source that is used up
/// stays used up, and the elements of one source leave it in their order.
pub proof fn lemma_step_only_shrinks<T>(before: Seq<Seq<T>>, item: Option<T>, after: Seq<Seq<T>>)
    requires
        step(before, item, after),
    ensures
        after.len() == before.len(),
        forall|i: int| 0 <= i < after.len() ==> (#[trigger] after[i]).is_suffix_of(before[i]),
{
    if let Some(v) = item {
        let i = choose|i: int| #[trigger] pulls_from(before, i, v, after);
    }
}

/// A run gives no source anything: the sources stay as many as they were,
/// and each keeps a suffix of what it held at the start.
pub proof fn lemma_run_only_shrinks<T: PartialOrd>(
    start: Seq<Seq<T>>,
    out: Seq<T>,
    end: Seq<Seq<T>>,
)
    requires
        merge_run(start, out, end),
    ensures
        end.len() == start.len(),
        forall|i: int| 0 <= i < end.len() ==> (#[trigger] end[i]).is_suffix_of(start[i]),
    decreases out.len(),
{
    if out.len() > 0 {
        let mid = choose|mid: Seq<Seq<T>>|
            merge_run(start, out.drop_last(), mid) && #[trigger] least_step(mid, out.last(), end);
        lemma_run_only_shrinks(start, out.drop_last(), mid);
        lemma_step_only_shrinks(mid, Some(out.last()), end);
        assert forall|i: int| 0 <= i < end.len() implies (#[trigger] end[i]).is_suffix_of(
            start[i],
        ) by {
            assert(end[i].is_suffix_of(mid[i]));
            assert(mid[i].is_suffix_of(start[i]));
        }
    }
}

/// Exhaustion is final: after a step that hands out nothing, no step hands
/// out anything, and the sources stay as they are.
pub proof fn lemma_exhaustion_is_final<T>(
    before: Seq<Seq<T>>,
    after: Seq<Seq<T>>,
    later_item: Option<T>,
    later: Seq<Seq<T>>,
)
    requires
        step(before, None, after),
        step(after, later_item, later),
    ensures
        later_item is None,
        later == after,
        after == before,
{
    if let Some(v) = later_item {
        let i = choose|i: int| #[trigger] pulls_from(after, i, v, later);
        assert(after[i].len() == 0);
    }
}

/// With no sources, or with empty ones only, the first step hands out
/// nothing, and the only merge is the empty one.
pub proof fn lemma_nothing_to_merge<T: PartialOrd>(
    sources: Seq<Seq<T>>,
    item: Option<T>,
    after: Seq<Seq<T>>,
    out: Seq<T>,
)
    requires
        exhausted(sources),
    ensures
        step(sources, item, after) ==> item is None,
        merges(sources, out) ==> out.len() == 0,
{
    if step(sources, item, after) {
        if let Some(v) = item {
            let i = choose|i: int| #[trigger] pulls_from(sources, i, v, after);
            assert(sources[i].len() == 0);
        }
    }
    if merges(sources, out) {
        broadcast use group_to_multiset_ensures;

        lemma_merge_keeps_elements(sources, out);
        lemma_exhausted_holds_nothing(sources);
        assert(out.to_multiset().len() == 0);
    }
}

} // verus!
