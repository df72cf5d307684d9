//! The order in which placements are painted.

use crate::placement::{HostPlacement, PlacementView, Rect};
use vstd::prelude::*;

verus! {

/// What the placements of a frame hold.
pub open spec fn placements_view(placements: Seq<HostPlacement>) -> Seq<PlacementView> {
    placements.map_values(|placement: HostPlacement| placement@)
}

/// Placement `i` is painted no later than placement `j`: the taller pane goes
/// first, then the wider one, then the one that was named first.
pub open spec fn paints_first(placements: Seq<PlacementView>, i: int, j: int) -> bool {
    let a = placements[i].area;
    let b = placements[j].area;
    if a.height != b.height {
        a.height > b.height
    } else if a.width != b.width {
        a.width > b.width
    } else {
        i <= j
    }
}

/// The relation [`paints_first`] of one frame.
pub open spec fn painting(placements: Seq<PlacementView>) -> spec_fn(int, int) -> bool {
    |i: int, j: int| paints_first(placements, i, j)
}

/// The numbers below `n`.
pub open spec fn indices(n: nat) -> Seq<int> {
    Seq::new(n, |i: int| i)
}

/// The order in which the placements of a frame are painted.
pub open spec fn paint_order(placements: Seq<PlacementView>) -> Seq<int> {
    indices(placements.len()).sort_by(painting(placements))
}

proof fn lemma_painting_is_total(placements: Seq<PlacementView>)
    ensures
        vstd::relations::total_ordering(painting(placements)),
{
}

/// The order holds each placement once. A taller pane goes before a lower one, so that
/// a shorter image is never covered by the trailing band of a taller one; of panes as
/// high, the wider goes first; of panes of one size, the one that was named first.
pub proof fn taller_placements_paint_first(placements: Seq<PlacementView>, i: int, j: int)
    requires
        0 <= i < j < paint_order(placements).len(),
    ensures
        paint_order(placements).len() == placements.len(),
        0 <= paint_order(placements)[i] < placements.len(),
        0 <= paint_order(placements)[j] < placements.len(),
        paint_order(placements)[i] != paint_order(placements)[j],
        paints_first(placements, paint_order(placements)[i], paint_order(placements)[j]),
        ({
            let first = paint_order(placements)[i];
            let second = paint_order(placements)[j];
            let a = placements[first].area;
            let b = placements[second].area;
            &&& a.height >= b.height
            &&& a.height == b.height ==> a.width >= b.width
            &&& a.height == b.height && a.width == b.width ==> first < second
        }),
{
    lemma_paint_order(placements);
    let order = paint_order(placements);
    assert(painting(placements)(order[i], order[j]));
}

/// The order is a permutation of the placements, sorted by [`paints_first`].
pub proof fn lemma_paint_order(placements: Seq<PlacementView>)
    ensures
        paint_order(placements).len() == placements.len(),
        paint_order(placements).no_duplicates(),
        forall|k: int|
            0 <= k < paint_order(placements).len() ==> 0 <= #[trigger] paint_order(placements)[k]
                < placements.len(),
        vstd::relations::sorted_by(paint_order(placements), painting(placements)),
        paint_order(placements).to_multiset() == indices(placements.len()).to_multiset(),
{
    broadcast use vstd::seq_lib::group_to_multiset_ensures;

    lemma_painting_is_total(placements);
    let all = indices(placements.len());
    let order = paint_order(placements);
    all.lemma_sort_by_ensures(painting(placements));
    assert(order.len() == order.to_multiset().len());
    assert(all.len() == all.to_multiset().len());
    assert forall|k: int| 0 <= k < order.len() implies 0 <= #[trigger] order[k]
        < placements.len() by {
        assert(order.contains(order[k]));
        assert(all.contains(order[k]));
    }
    all.lemma_multiset_has_no_duplicates();
    order.lemma_multiset_has_no_duplicates_conv();
}

/// The order depends on nothing but the areas.
pub proof fn lemma_order_depends_on_areas(a: Seq<PlacementView>, b: Seq<PlacementView>)
    requires
        a.len() == b.len(),
        forall|i: int| 0 <= i < a.len() ==> (#[trigger] a[i]).area == b[i].area,
    ensures
        paint_order(a) == paint_order(b),
{
    lemma_paint_order(a);
    lemma_paint_order(b);
    lemma_painting_is_total(b);
    let order = paint_order(a);
    assert forall|i: int, j: int| 0 <= i < j < order.len() implies #[trigger] painting(b)(
        order[i],
        order[j],
    ) by {
        assert(painting(a)(order[i], order[j]));
        assert(a[order[i]].area == b[order[i]].area);
        assert(a[order[j]].area == b[order[j]].area);
    }
    vstd::seq_lib::lemma_sorted_unique(order, paint_order(b), painting(b));
}

/// The order leaves no placement out.
pub proof fn lemma_paints_each(placements: Seq<PlacementView>, i: int)
    requires
        0 <= i < placements.len(),
    ensures
        exists|m: int| 0 <= m < paint_order(placements).len() && paint_order(placements)[m] == i,
{
    broadcast use vstd::seq_lib::group_to_multiset_ensures;

    lemma_paint_order(placements);
    let all = indices(placements.len());
    assert(all[i] == i);
    assert(all.contains(i));
    assert(all.to_multiset().count(i) > 0);
    assert(paint_order(placements).contains(i));
}

/// Whether area `a` is lower than `b`, or as high and narrower.
fn smaller(a: Rect, b: Rect) -> (is_smaller: bool)
    ensures
        is_smaller == (a.height < b.height || (a.height == b.height && a.width < b.width)),
{
    a.height < b.height || (a.height == b.height && a.width < b.width)
}

/// Sorts the placements into the order they are painted in.
pub fn paint_order_of(placements: &[HostPlacement]) -> (order: Vec<usize>)
    ensures
        order@.map_values(|i: usize| i as int) == paint_order(placements_view(placements@)),
{
    let ghost views = placements_view(placements@);
    let mut order: Vec<usize> = Vec::new();
    let ghost mut sorted: Seq<int> = Seq::empty();
    let mut i: usize = 0;
    assert(indices(0) =~= sorted);
    while i < placements.len()
        invariant
            views == placements_view(placements@),
            i <= placements@.len(),
            sorted =~= order@.map_values(|i: usize| i as int),
            order@.len() == i,
            forall|k: int| 0 <= k < order@.len() ==> #[trigger] order@[k] < i,
            vstd::relations::sorted_by(sorted, painting(views)),
            sorted.to_multiset() == indices(i as nat).to_multiset(),
        decreases placements@.len() - i,
    {
        let area = placements[i].area;
        let mut at: usize = order.len();
        while at > 0 && smaller(placements[order[at - 1]].area, area)
            invariant
                views == placements_view(placements@),
                i < placements@.len(),
                at <= order@.len(),
                forall|k: int| 0 <= k < order@.len() ==> #[trigger] order@[k] < i,
                area == views[i as int].area,
                forall|k: int|
                    at <= k < order@.len() ==> paints_first(
                        views,
                        i as int,
                        #[trigger] order@[k] as int,
                    ),
            decreases at,
        {
            at -= 1;
        }
        proof {
            let leq = painting(views);
            assert forall|k: int| 0 <= k < at implies #[trigger] leq(sorted[k], i as int) by {
                assert(leq(sorted[at - 1], i as int));
                if k < at - 1 {
                    assert(leq(sorted[k], sorted[at - 1]));
                }
            }
            assert forall|k: int| at <= k < sorted.len() implies #[trigger] leq(
                i as int,
                sorted[k],
            ) by {
                assert(paints_first(views, i as int, order@[k] as int));
            }
            let grown = sorted.insert(at as int, i as int);
            assert forall|a: int, b: int| 0 <= a < b < grown.len() implies #[trigger] leq(
                grown[a],
                grown[b],
            ) by {
                if a < at && b < at {
                    assert(leq(sorted[a], sorted[b]));
                } else if a < at && b == at {
                    assert(leq(sorted[a], i as int));
                } else if a < at {
                    assert(leq(sorted[a], sorted[b - 1]));
                } else if a == at {
                    assert(leq(i as int, sorted[b - 1]));
                } else {
                    assert(leq(sorted[a - 1], sorted[b - 1]));
                }
            }
            vstd::seq_lib::to_multiset_insert(sorted, at as int, i as int);
            vstd::seq_lib::to_multiset_build(indices(i as nat), i as int);
            assert(indices((i + 1) as nat) =~= indices(i as nat).push(i as int));
            sorted = grown;
        }
        order.insert(at, i);
        i += 1;
    }
    proof {
        lemma_painting_is_total(views);
        lemma_paint_order(views);
        vstd::seq_lib::lemma_sorted_unique(sorted, paint_order(views), painting(views));
    }
    order
}

/// What a frame holds is what its placements hold, one by one.
pub proof fn frames_hold_their_placements(placements: Seq<HostPlacement>, i: int)
    requires
        0 <= i < placements.len(),
    ensures
        placements_view(placements).len() == placements.len(),
        placements_view(placements)[i] == placements[i]@,
{
}

} // verus!
