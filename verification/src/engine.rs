//! The clustering passes: assignment, update, convergence test and the final
//! recording of members.

use vstd::prelude::*;
use crate::point::{Point, SquaredDistance, dist2};
use crate::centroid::{Centroid, CentroidView};

verus! {

/// Why a request could not be served.
#[derive(Debug, Copy, Clone, PartialEq, Eq, Structural)]
pub enum KMeansError {
    /// No centroid, no point, or a coordinate bound that cannot be used.
    InvalidArgument,
    /// The allowed number of passes went by without convergence.
    DidNotConverge,
}

/// Index of the first position, among the first `n`, that is nearest to `p`.
/// It is meant for at least one position.
pub open spec fn nearest_among(positions: Seq<Point>, p: Point, n: nat) -> int
    recommends
        0 < n <= positions.len(),
    decreases n,
{
    if n <= 1 {
        0
    } else {
        let best = nearest_among(positions, p, (n - 1) as nat);
        if dist2(positions[n - 1], p) < dist2(positions[best], p) {
            n - 1
        } else {
            best
        }
    }
}

/// Index of the position nearest to `p`, the lowest index among equals.
pub open spec fn nearest(positions: Seq<Point>, p: Point) -> int
    recommends
        positions.len() > 0,
{
    nearest_among(positions, p, positions.len())
}

/// `i` is the lowest index of a position at minimal distance from `p`.
pub open spec fn is_first_minimum(positions: Seq<Point>, p: Point, i: int) -> bool {
    &&& 0 <= i < positions.len()
    &&& forall|j: int| 0 <= j < positions.len() ==> dist2(positions[i], p) <= dist2(#[trigger] positions[j], p)
    &&& forall|j: int| 0 <= j < i ==> dist2(positions[i], p) < dist2(#[trigger] positions[j], p)
}

/// Views of all centroids, in order.
pub open spec fn views(cs: Seq<Centroid>) -> Seq<CentroidView> {
    Seq::new(cs.len(), |j: int| cs[j]@)
}

/// Current positions of all centroids, in order.
pub open spec fn positions(cs: Seq<CentroidView>) -> Seq<Point> {
    Seq::new(cs.len(), |j: int| cs[j].current)
}

/// Among the first `n` positions, `nearest_among` is the first minimum.
proof fn lemma_nearest_among(positions: Seq<Point>, p: Point, n: nat)
    requires
        0 < n <= positions.len(),
    ensures
        is_first_minimum(positions.take(n as int), p, nearest_among(positions, p, n)),
    decreases n,
{
    if n > 1 {
        lemma_nearest_among(positions, p, (n - 1) as nat);
        let best = nearest_among(positions, p, (n - 1) as nat);
        let shorter = positions.take(n - 1);
        let longer = positions.take(n as int);
        assert forall|j: int| 0 <= j < n - 1 implies dist2(positions[best], p) <= dist2(
            #[trigger] longer[j],
            p,
        ) by {
            assert(shorter[j] == longer[j]);
        }
        assert forall|j: int| 0 <= j < best implies dist2(positions[best], p) < dist2(
            #[trigger] longer[j],
            p,
        ) by {
            assert(shorter[j] == longer[j]);
        }
    }
}

/// With at least one position, the nearest position to a point is the first
/// of those at minimal distance from it.
pub proof fn law_nearest_is_first_minimum(positions: Seq<Point>, p: Point)
    requires
        positions.len() > 0,
    ensures
        is_first_minimum(positions, p, nearest(positions, p)),
{
    lemma_nearest_among(positions, p, positions.len());
    assert(positions.take(positions.len() as int) =~= positions);
}

/// Index of the centroid nearest to `point`; of several at the same distance,
/// the one with the lowest index. There has to be a centroid to choose.
pub fn min_distance(centroids: &Vec<Centroid>, point: &Point) -> (index: usize)
    requires
        centroids.len() > 0,
    ensures
        index == nearest(positions(views(centroids@)), *point),
        is_first_minimum(positions(views(centroids@)), *point, index as int),
{
    let ghost pos = positions(views(centroids@));
    let mut index_of_min: usize = 0;
    let mut min_distance: SquaredDistance = centroids[0].squared_distance(point);
    let mut i: usize = 1;
    while i < centroids.len()
        invariant
            1 <= i <= centroids.len(),
            pos == positions(views(centroids@)),
            index_of_min == nearest_among(pos, *point, i as nat),
            0 <= index_of_min < i,
            min_distance.value() == dist2(pos[index_of_min as int], *point),
        decreases centroids.len() - i,
    {
        let d: SquaredDistance = centroids[i].squared_distance(point);
        if d.less_than(&min_distance) {
            min_distance = d;
            index_of_min = i;
        }
        i = i + 1;
    }
    proof {
        law_nearest_is_first_minimum(pos, *point);
    }
    index_of_min
}

/// Sum of the x coordinates of `s`.
pub open spec fn sum_x(s: Seq<Point>) -> int
    decreases s.len(),
{
    if s.len() == 0 {
        0
    } else {
        sum_x(s.drop_last()) + s.last().x
    }
}

/// Sum of the y coordinates of `s`.
pub open spec fn sum_y(s: Seq<Point>) -> int
    decreases s.len(),
{
    if s.len() == 0 {
        0
    } else {
        sum_y(s.drop_last()) + s.last().y
    }
}

/// The points whose nearest position is number `j`, in the order of `points`.
pub open spec fn members_of(positions: Seq<Point>, points: Seq<Point>, j: int) -> Seq<Point>
    decreases points.len(),
{
    if points.len() == 0 {
        Seq::empty()
    } else {
        let rest = members_of(positions, points.drop_last(), j);
        if nearest(positions, points.last()) == j {
            rest.push(points.last())
        } else {
            rest
        }
    }
}

/// A centroid after the points `given` have been accumulated into it.
pub open spec fn accumulated(c: CentroidView, given: Seq<Point>) -> CentroidView {
    CentroidView {
        sum_x: c.sum_x + sum_x(given),
        sum_y: c.sum_y + sum_y(given),
        count: c.count + given.len(),
        ..c
    }
}

/// The centroids after the assignment phase over `points`.
pub open spec fn after_assign(cs: Seq<CentroidView>, points: Seq<Point>) -> Seq<CentroidView> {
    Seq::new(cs.len(), |j: int| accumulated(cs[j], members_of(positions(cs), points, j)))
}

/// The centroids after the update phase.
pub open spec fn after_update(cs: Seq<CentroidView>) -> Seq<CentroidView> {
    Seq::new(cs.len(), |j: int| cs[j].recentered())
}

/// The centroids after one pass: assignment, then update.
pub open spec fn after_pass(cs: Seq<CentroidView>, points: Seq<Point>) -> Seq<CentroidView> {
    after_update(after_assign(cs, points))
}

/// The centroids after `m` passes.
pub open spec fn after_passes(cs: Seq<CentroidView>, points: Seq<Point>, m: nat) -> Seq<
    CentroidView,
>
    decreases m,
{
    if m == 0 {
        cs
    } else {
        after_pass(after_passes(cs, points, (m - 1) as nat), points)
    }
}

/// Every centroid's last move was shorter than the tolerance.
pub open spec fn all_settled(cs: Seq<CentroidView>) -> bool {
    forall|j: int| 0 <= j < cs.len() ==> (#[trigger] cs[j]).is_settled()
}

/// Every centroid is between two passes.
pub open spec fn all_idle(cs: Seq<CentroidView>) -> bool {
    forall|j: int| 0 <= j < cs.len() ==> (#[trigger] cs[j]).is_idle()
}

/// The centroids after each has been given, behind the members it already
/// has, the points nearest to it.
pub open spec fn with_members(cs: Seq<CentroidView>, points: Seq<Point>) -> Seq<CentroidView> {
    Seq::new(
        cs.len(),
        |j: int|
            CentroidView {
                members: cs[j].members + members_of(positions(cs), points, j),
                ..cs[j]
            },
    )
}

/// What a clustering run owes its caller: `result` and the centroids `after`
/// it, for the centroids `before`, the points and the allowed passes.
pub open spec fn clustering_outcome(
    before: Seq<CentroidView>,
    points: Seq<Point>,
    max_passes: u32,
    result: Result<u32, KMeansError>,
    after: Seq<CentroidView>,
) -> bool {
    if before.len() == 0 || points.len() == 0 {
        result == Err::<u32, KMeansError>(KMeansError::InvalidArgument) && after == before
    } else {
        match result {
            Ok(m) => {
                &&& 1 <= m <= max_passes
                &&& all_settled(after_passes(before, points, m as nat))
                &&& forall|i: nat|
                    1 <= i < m ==> !all_settled(#[trigger] after_passes(before, points, i))
                &&& after == with_members(after_passes(before, points, m as nat), points)
            },
            Err(KMeansError::DidNotConverge) => {
                &&& forall|i: nat|
                    1 <= i <= max_passes ==> !all_settled(
                        #[trigger] after_passes(before, points, i),
                    )
                &&& after == after_passes(before, points, max_passes as nat)
            },
            Err(KMeansError::InvalidArgument) => false,
        }
    }
}

/// Adding a point behind the others adds it to the members of its nearest
/// position and to no others.
pub proof fn lemma_members_of_push(positions: Seq<Point>, points: Seq<Point>, p: Point, j: int)
    ensures
        members_of(positions, points.push(p), j) == if nearest(positions, p) == j {
            members_of(positions, points, j).push(p)
        } else {
            members_of(positions, points, j)
        },
{
    assert(points.push(p).drop_last() =~= points);
}

/// The coordinate sums of a sequence with one more point.
pub proof fn lemma_sums_push(s: Seq<Point>, p: Point)
    ensures
        sum_x(s.push(p)) == sum_x(s) + p.x,
        sum_y(s.push(p)) == sum_y(s) + p.y,
{
    assert(s.push(p).drop_last() =~= s);
}

/// The assignment phase: every point is accumulated into the centroid
/// nearest to it. No centroid moves.
pub fn assign_points(centroids: &mut Vec<Centroid>, data: &Vec<Point>)
    requires
        old(centroids).len() > 0,
        forall|j: int|
            0 <= j < old(centroids).len() ==> (#[trigger] old(centroids)[j])@.wf() && old(
                centroids,
            )[j]@.count + data.len() <= usize::MAX,
    ensures
        final(centroids).len() == old(centroids).len(),
        views(final(centroids)@) =~= after_assign(views(old(centroids)@), data@),
        forall|j: int| 0 <= j < final(centroids).len() ==> (#[trigger] final(centroids)[j])@.wf(),
{
    let ghost before = views(centroids@);
    let ghost pos = positions(before);
    let mut i: usize = 0;
    proof {
        assert(data@.take(0) =~= Seq::<Point>::empty());
    }
    while i < data.len()
        invariant
            0 <= i <= data.len(),
            centroids.len() == before.len(),
            centroids.len() > 0,
            pos == positions(before),
            positions(views(centroids@)) =~= pos,
            views(centroids@) =~= after_assign(before, data@.take(i as int)),
            forall|j: int|
                0 <= j < centroids.len() ==> (#[trigger] centroids[j])@.wf() && centroids[j]@.count
                    + (data.len() - i) <= usize::MAX,
        decreases data.len() - i,
    {
        let point = &data[i];
        let index = min_distance(centroids, point);
        let ghost mid = centroids@;
        centroids[index].add_point(&point.x, &point.y);
        proof {
            let shorter = data@.take(i as int);
            let longer = data@.take(i + 1);
            assert(longer =~= shorter.push(*point));
            assert forall|j: int| 0 <= j < centroids.len() implies (#[trigger] views(
                centroids@,
            )[j]) == after_assign(before, longer)[j] by {
                lemma_members_of_push(pos, shorter, *point, j);
                lemma_sums_push(members_of(pos, shorter, j), *point);
                assert(views(mid)[j] == after_assign(before, shorter)[j]);
                if j != index {
                    assert(centroids[j] == mid[j]);
                }
            }
            assert forall|j: int| 0 <= j < centroids.len() implies (#[trigger] positions(
                views(centroids@),
            )[j]) == pos[j] by {
                assert(views(mid)[j] == after_assign(before, shorter)[j]);
                if j != index {
                    assert(centroids[j] == mid[j]);
                }
            }
        }
        i = i + 1;
    }
    proof {
        assert(data@.take(data.len() as int) =~= data@);
    }
}

/// The update phase: every centroid that was given points moves to their
/// rounded mean; the others stay.
pub fn update_centroids(centroids: &mut Vec<Centroid>)
    requires
        forall|j: int| 0 <= j < old(centroids).len() ==> (#[trigger] old(centroids)[j])@.wf(),
    ensures
        final(centroids).len() == old(centroids).len(),
        views(final(centroids)@) =~= after_update(views(old(centroids)@)),
        all_idle(views(final(centroids)@)),
{
    let ghost before = centroids@;
    let mut j: usize = 0;
    while j < centroids.len()
        invariant
            0 <= j <= centroids.len(),
            centroids.len() == before.len(),
            forall|t: int| 0 <= t < j ==> (#[trigger] centroids[t])@ == before[t]@.recentered(),
            forall|t: int| 0 <= t < j ==> (#[trigger] centroids[t])@.is_idle(),
            forall|t: int| j <= t < centroids.len() ==> (#[trigger] centroids[t]) == before[t],
            forall|t: int| 0 <= t < before.len() ==> (#[trigger] before[t])@.wf(),
        decreases centroids.len() - j,
    {
        centroids[j].update_centroid();
        j = j + 1;
    }
}

/// Whether every centroid's last move was shorter than the tolerance.
pub fn all_converged(centroids: &Vec<Centroid>) -> (settled: bool)
    ensures
        settled == all_settled(views(centroids@)),
{
    let mut j: usize = 0;
    while j < centroids.len()
        invariant
            0 <= j <= centroids.len(),
            forall|t: int| 0 <= t < j ==> (#[trigger] views(centroids@)[t]).is_settled(),
        decreases centroids.len() - j,
    {
        if !centroids[j].compare_to_previous() {
            assert(!views(centroids@)[j as int].is_settled());
            return false;
        }
        j = j + 1;
    }
    true
}

/// Records the final assignment: every point is appended, in input order, to
/// the members of the centroid nearest to it. Nothing else changes. Without
/// centroids or without points there is nothing to record and nothing is
/// touched.
pub fn materialize(centroids: &mut Vec<Centroid>, data: &Vec<Point>) -> (result: Result<
    (),
    KMeansError,
>)
    ensures
        final(centroids).len() == old(centroids).len(),
        old(centroids).len() == 0 || data.len() == 0 ==> result == Err::<(), KMeansError>(
            KMeansError::InvalidArgument,
        ) && final(centroids)@ == old(centroids)@,
        old(centroids).len() > 0 && data.len() > 0 ==> result.is_ok() && views(final(centroids)@)
            =~= with_members(views(old(centroids)@), data@),
{
    if centroids.len() == 0 || data.len() == 0 {
        return Err(KMeansError::InvalidArgument);
    }
    let ghost before = views(centroids@);
    let ghost pos = positions(before);
    let mut i: usize = 0;
    proof {
        assert(data@.take(0) =~= Seq::<Point>::empty());
        assert forall|j: int| 0 <= j < before.len() implies before[j] == #[trigger] with_members(
            before,
            data@.take(0),
        )[j] by {
            assert(before[j].members + Seq::<Point>::empty() =~= before[j].members);
        }
    }
    while i < data.len()
        invariant
            0 <= i <= data.len(),
            centroids.len() == before.len(),
            centroids.len() > 0,
            pos == positions(before),
            positions(views(centroids@)) =~= pos,
            views(centroids@) =~= with_members(before, data@.take(i as int)),
        decreases data.len() - i,
    {
        let point = &data[i];
        let index = min_distance(centroids, point);
        let ghost mid = centroids@;
        centroids[index].members.push(*point);
        proof {
            let shorter = data@.take(i as int);
            let longer = data@.take(i + 1);
            assert(longer =~= shorter.push(*point));
            assert forall|j: int| 0 <= j < centroids.len() implies (#[trigger] views(
                centroids@,
            )[j]) == with_members(before, longer)[j] by {
                lemma_members_of_push(pos, shorter, *point, j);
                assert(views(mid)[j] == with_members(before, shorter)[j]);
                if j != index {
                    assert(centroids[j] == mid[j]);
                } else {
                    assert((before[j].members + members_of(pos, shorter, j)).push(*point)
                        =~= before[j].members + members_of(pos, shorter, j).push(*point));
                }
            }
            assert forall|j: int| 0 <= j < centroids.len() implies (#[trigger] positions(
                views(centroids@),
            )[j]) == pos[j] by {
                assert(views(mid)[j] == with_members(before, shorter)[j]);
                if j != index {
                    assert(centroids[j] == mid[j]);
                }
            }
        }
        i = i + 1;
    }
    proof {
        assert(data@.take(data.len() as int) =~= data@);
    }
    Ok(())
}

/// Clusters `data` around `centroids`: passes of assignment and update until
/// a pass leaves every centroid within the tolerance of where it was, then
/// the members are recorded. Returns the number of passes made.
///
/// Without centroids or without points the answer is `InvalidArgument` and
/// nothing is touched. If `max_passes` passes do not converge the answer is
/// `DidNotConverge`; the centroids are then left as the last pass made them,
/// with no members recorded.
pub fn k_mean_clustering(
    centroids: &mut Vec<Centroid>,
    data: &Vec<Point>,
    max_passes: u32,
) -> (result: Result<u32, KMeansError>)
    requires
        all_idle(views(old(centroids)@)),
    ensures
        final(centroids).len() == old(centroids).len(),
        clustering_outcome(
            views(old(centroids)@),
            data@,
            max_passes,
            result,
            views(final(centroids)@),
        ),
{
    if centroids.len() == 0 || data.len() == 0 {
        return Err(KMeansError::InvalidArgument);
    }
    let ghost before = views(centroids@);
    let mut iterations: u32 = 0;
    while iterations < max_passes
        invariant
            iterations <= max_passes,
            before == views(old(centroids)@),
            centroids.len() == before.len(),
            centroids.len() > 0,
            data.len() > 0,
            views(centroids@) =~= after_passes(before, data@, iterations as nat),
            all_idle(views(centroids@)),
            forall|i: nat|
                1 <= i <= iterations ==> !all_settled(#[trigger] after_passes(before, data@, i)),
        decreases max_passes - iterations,
    {
        iterations = iterations + 1;
        proof {
            assert forall|j: int| 0 <= j < centroids.len() implies (#[trigger] centroids[j])@.wf()
                && centroids[j]@.count + data.len() <= usize::MAX by {
                assert(views(centroids@)[j].is_idle());
            }
        }
        assign_points(centroids, data);
        update_centroids(centroids);
        let ghost reached = views(centroids@);
        assert(reached == after_passes(before, data@, iterations as nat));
        if all_converged(centroids) {
            assert(all_settled(reached));
            let _recorded = materialize(centroids, data);
            return Ok(iterations);
        }
    }
    Err(KMeansError::DidNotConverge)
}

/// How a clustering run ended, with the centroids it leaves.
#[derive(Debug)]
pub enum ClusterResult {
    /// A pass left every centroid within the tolerance of where it was. The
    /// centroids carry their members.
    Converged { passes: u32, centroids: Vec<Centroid> },
    /// The allowed passes went by without convergence. The centroids are as
    /// the last pass made them and carry no new members.
    MaxPassesExceeded { best_centroids: Vec<Centroid> },
}

/// What `run` owes its caller: for the centroids `before`, the points and
/// the allowed passes, `result` is what a clustering run gives, with the
/// centroids that it leaves.
pub open spec fn run_outcome(
    before: Seq<CentroidView>,
    points: Seq<Point>,
    max_passes: u32,
    result: Result<ClusterResult, KMeansError>,
) -> bool {
    match result {
        Ok(ClusterResult::Converged { passes, centroids }) => clustering_outcome(
            before,
            points,
            max_passes,
            Ok(passes),
            views(centroids@),
        ),
        Ok(ClusterResult::MaxPassesExceeded { best_centroids }) => clustering_outcome(
            before,
            points,
            max_passes,
            Err(KMeansError::DidNotConverge),
            views(best_centroids@),
        ),
        Err(e) => e == KMeansError::InvalidArgument && (before.len() == 0 || points.len() == 0),
    }
}

/// Clusters `data` around `centroids` as `k_mean_clustering` does, and hands
/// the centroids back with the way the run ended. Without centroids or
/// without points the answer is `InvalidArgument`.
pub fn run(centroids: Vec<Centroid>, data: &Vec<Point>, max_passes: u32) -> (result: Result<
    ClusterResult,
    KMeansError,
>)
    requires
        all_idle(views(centroids@)),
    ensures
        run_outcome(views(centroids@), data@, max_passes, result),
{
    let mut centroids = centroids;
    match k_mean_clustering(&mut centroids, data, max_passes) {
        Ok(passes) => Ok(ClusterResult::Converged { passes, centroids }),
        Err(KMeansError::DidNotConverge) => Ok(
            ClusterResult::MaxPassesExceeded { best_centroids: centroids },
        ),
        Err(KMeansError::InvalidArgument) => Err(KMeansError::InvalidArgument),
    }
}

} // verus!
