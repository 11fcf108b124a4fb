//! Properties of the clustering that hold for all inputs.

use vstd::prelude::*;
use vstd::multiset::Multiset;
use crate::point::{Point, dist2};
use crate::centroid::CentroidView;
use crate::engine::{
    KMeansError, after_passes, all_settled, clustering_outcome, law_nearest_is_first_minimum,
    lemma_members_of_push, members_of, nearest, positions, with_members,
};

verus! {

/// Of two positions at the same distance from a point, the one with the
/// higher index is never the nearest.
pub proof fn law_tie_goes_to_lower_index(positions: Seq<Point>, p: Point, i: int, j: int)
    requires
        0 <= i < j < positions.len(),
        dist2(positions[i], p) == dist2(positions[j], p),
    ensures
        nearest(positions, p) != j,
{
    law_nearest_is_first_minimum(positions, p);
}

/// A clustering run has one outcome: the same centroids, points and allowed
/// passes give the same result and leave the same centroids.
pub proof fn law_outcome_is_unique(
    before: Seq<CentroidView>,
    points: Seq<Point>,
    max_passes: u32,
    first: Result<u32, KMeansError>,
    after_first: Seq<CentroidView>,
    second: Result<u32, KMeansError>,
    after_second: Seq<CentroidView>,
)
    requires
        clustering_outcome(before, points, max_passes, first, after_first),
        clustering_outcome(before, points, max_passes, second, after_second),
    ensures
        first == second,
        after_first == after_second,
{
    if before.len() > 0 && points.len() > 0 {
        match (first, second) {
            (Ok(a), Ok(b)) => {
                if a < b {
                    assert(!all_settled(after_passes(before, points, a as nat)));
                }
                if b < a {
                    assert(!all_settled(after_passes(before, points, b as nat)));
                }
            },
            (Ok(a), Err(_)) => {
                assert(!all_settled(after_passes(before, points, a as nat)));
            },
            (Err(_), Ok(b)) => {
                assert(!all_settled(after_passes(before, points, b as nat)));
            },
            (Err(_), Err(_)) => {},
        }
    }
}

/// The members of the first `k` positions taken together, as a multiset.
pub open spec fn members_union(positions: Seq<Point>, points: Seq<Point>, k: nat) -> Multiset<
    Point,
>
    decreases k,
{
    if k == 0 {
        Multiset::empty()
    } else {
        members_union(positions, points, (k - 1) as nat).add(
            members_of(positions, points, k - 1).to_multiset(),
        )
    }
}

/// One more point adds one occurrence to the members of the first `k`
/// positions if its nearest position is among them, and nothing otherwise.
proof fn lemma_members_union_push(positions: Seq<Point>, points: Seq<Point>, p: Point, k: nat)
    ensures
        members_union(positions, points.push(p), k) == if 0 <= nearest(positions, p) < k {
            members_union(positions, points, k).insert(p)
        } else {
            members_union(positions, points, k)
        },
    decreases k,
{
    broadcast use vstd::seq_lib::group_to_multiset_ensures;

    if k > 0 {
        lemma_members_union_push(positions, points, p, (k - 1) as nat);
        lemma_members_of_push(positions, points, p, k - 1);
        let lower = members_union(positions, points, (k - 1) as nat);
        let top = members_of(positions, points, k - 1);
        if nearest(positions, p) == k - 1 {
            assert(lower.add(top.push(p).to_multiset()) =~= lower.add(top.to_multiset()).insert(p));
        } else if 0 <= nearest(positions, p) < k - 1 {
            assert(lower.insert(p).add(top.to_multiset()) =~= lower.add(top.to_multiset()).insert(
                p,
            ));
        }
    }
}

/// Every point is a member of exactly one centroid: the members of all
/// positions taken together are the points, each as often as it was given.
pub proof fn law_members_partition_points(positions: Seq<Point>, points: Seq<Point>)
    requires
        positions.len() > 0,
    ensures
        members_union(positions, points, positions.len()) == points.to_multiset(),
    decreases points.len(),
{
    broadcast use vstd::seq_lib::group_to_multiset_ensures;

    if points.len() == 0 {
        lemma_no_points_no_members(positions, positions.len());
        assert(points =~= Seq::<Point>::empty());
        assert(points.to_multiset() =~= Multiset::<Point>::empty());
    } else {
        let rest = points.drop_last();
        let p = points.last();
        assert(points =~= rest.push(p));
        law_members_partition_points(positions, rest);
        lemma_members_union_push(positions, rest, p, positions.len());
        law_nearest_is_first_minimum(positions, p);
        assert(rest.push(p).to_multiset() =~= rest.to_multiset().insert(p));
    }
}

/// Without points no position has members.
proof fn lemma_no_points_no_members(positions: Seq<Point>, k: nat)
    ensures
        members_union(positions, Seq::<Point>::empty(), k) == Multiset::<Point>::empty(),
    decreases k,
{
    broadcast use vstd::seq_lib::group_to_multiset_ensures;

    if k > 0 {
        lemma_no_points_no_members(positions, (k - 1) as nat);
        assert(members_of(positions, Seq::<Point>::empty(), k - 1) =~= Seq::<Point>::empty());
        assert(Seq::<Point>::empty().to_multiset() =~= Multiset::<Point>::empty());
        assert(Multiset::<Point>::empty().add(Multiset::<Point>::empty()) =~= Multiset::<
            Point,
        >::empty());
    }
}

/// A point is a member of the position nearest to it and of no other: the
/// members of position `j` are nearest to `j`.
pub proof fn law_members_are_nearest(positions: Seq<Point>, points: Seq<Point>, j: int, t: int)
    requires
        0 <= t < members_of(positions, points, j).len(),
    ensures
        nearest(positions, members_of(positions, points, j)[t]) == j,
    decreases points.len(),
{
    if points.len() > 0 {
        let rest = members_of(positions, points.drop_last(), j);
        if t < rest.len() {
            law_members_are_nearest(positions, points.drop_last(), j, t);
        }
    }
}

/// Recording the members a second time appends to every centroid exactly
/// what the first time appended, and changes nothing else.
pub proof fn law_rematerialize_repeats(cs: Seq<CentroidView>, points: Seq<Point>, j: int)
    requires
        0 <= j < cs.len(),
    ensures
        with_members(cs, points)[j].members == cs[j].members + members_of(
            positions(cs),
            points,
            j,
        ),
        with_members(with_members(cs, points), points)[j].members == with_members(
            cs,
            points,
        )[j].members + members_of(positions(cs), points, j),
        with_members(with_members(cs, points), points)[j].current == cs[j].current,
        with_members(with_members(cs, points), points)[j].previous == cs[j].previous,
        with_members(with_members(cs, points), points)[j].sum_x == cs[j].sum_x,
        with_members(with_members(cs, points), points)[j].sum_y == cs[j].sum_y,
        with_members(with_members(cs, points), points)[j].count == cs[j].count,
{
    assert(positions(with_members(cs, points)) =~= positions(cs));
}

/// The members of the first `k` centroids taken together, as a multiset.
pub open spec fn recorded_members(cs: Seq<CentroidView>, k: nat) -> Multiset<Point>
    decreases k,
{
    if k == 0 {
        Multiset::empty()
    } else {
        recorded_members(cs, (k - 1) as nat).add(cs[k - 1].members.to_multiset())
    }
}

/// Centroids whose members are those of their positions hold, taken
/// together, the members of their positions taken together.
proof fn lemma_recorded_members(
    cs: Seq<CentroidView>,
    positions: Seq<Point>,
    points: Seq<Point>,
    k: nat,
)
    requires
        k <= cs.len(),
        forall|j: int| 0 <= j < k ==> (#[trigger] cs[j]).members == members_of(positions, points, j),
    ensures
        recorded_members(cs, k) == members_union(positions, points, k),
    decreases k,
{
    if k > 0 {
        lemma_recorded_members(cs, positions, points, (k - 1) as nat);
    }
}

/// A run that converges on centroids without members leaves every point
/// with exactly one centroid: the recorded members taken together are the
/// points, each as often as it was given, and every centroid's members are
/// the points nearest to its final position, in the order they were given.
pub proof fn law_converged_run_partitions_points(
    before: Seq<CentroidView>,
    points: Seq<Point>,
    max_passes: u32,
    passes: u32,
    after: Seq<CentroidView>,
)
    requires
        forall|j: int| 0 <= j < before.len() ==> (#[trigger] before[j]).members.len() == 0,
        clustering_outcome(before, points, max_passes, Ok(passes), after),
    ensures
        after.len() == before.len(),
        recorded_members(after, after.len()) == points.to_multiset(),
        forall|j: int|
            0 <= j < after.len() ==> (#[trigger] after[j]).members == members_of(
                positions(after),
                points,
                j,
            ),
{
    let reached = after_passes(before, points, passes as nat);
    lemma_members_stay(before, points, passes as nat);
    assert(positions(after) =~= positions(reached));
    assert forall|j: int| 0 <= j < after.len() implies (#[trigger] after[j]).members == members_of(
        positions(after),
        points,
        j,
    ) by {
        assert(reached[j].members =~= Seq::<Point>::empty());
        assert(reached[j].members + members_of(positions(reached), points, j) =~= members_of(
            positions(reached),
            points,
            j,
        ));
    }
    lemma_recorded_members(after, positions(after), points, after.len());
    law_members_partition_points(positions(after), points);
}

/// Passes record no members.
proof fn lemma_members_stay(cs: Seq<CentroidView>, points: Seq<Point>, m: nat)
    ensures
        after_passes(cs, points, m).len() == cs.len(),
        forall|j: int|
            0 <= j < cs.len() ==> (#[trigger] after_passes(cs, points, m)[j]).members
                == cs[j].members,
    decreases m,
{
    if m > 0 {
        lemma_members_stay(cs, points, (m - 1) as nat);
    }
}

} // verus!
