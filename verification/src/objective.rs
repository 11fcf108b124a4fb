//! The clustering objective, and the proof that a pass never raises it.

use vstd::prelude::*;
use crate::point::{Point, dist2};
use crate::centroid::{CentroidView, lemma_rounded_mean_in_range, rounded_mean};
use crate::engine::{
    after_assign, after_pass, after_passes, all_idle, law_nearest_is_first_minimum,
    lemma_members_of_push, members_of, nearest, positions, sum_x, sum_y,
};

verus! {

/// Sum over `points` of the squared distance from each point to the centre
/// whose index is that of the point's nearest position in `guide`.
pub open spec fn cost_under(guide: Seq<Point>, centres: Seq<Point>, points: Seq<Point>) -> int
    decreases points.len(),
{
    if points.len() == 0 {
        0
    } else {
        cost_under(guide, centres, points.drop_last()) + dist2(
            centres[nearest(guide, points.last())],
            points.last(),
        )
    }
}

/// The objective: the sum of the squared distances from every point to the
/// position nearest to it.
pub open spec fn objective(positions: Seq<Point>, points: Seq<Point>) -> int {
    cost_under(positions, positions, points)
}

/// Sum of the squared distances from the points of `s` to `c`.
pub open spec fn spread(c: Point, s: Seq<Point>) -> int
    decreases s.len(),
{
    if s.len() == 0 {
        0
    } else {
        spread(c, s.drop_last()) + dist2(c, s.last())
    }
}

/// Sum of the squared distances from the points of `s` to the origin.
spec fn norm2(s: Seq<Point>) -> int
    decreases s.len(),
{
    if s.len() == 0 {
        0
    } else {
        norm2(s.drop_last()) + s.last().x * s.last().x + s.last().y * s.last().y
    }
}

/// The spread summed over the first `k` centres, each with the members that
/// `guide` gives it.
spec fn total_spread(guide: Seq<Point>, centres: Seq<Point>, points: Seq<Point>, k: nat) -> int
    decreases k,
{
    if k == 0 {
        0
    } else {
        total_spread(guide, centres, points, (k - 1) as nat) + spread(
            centres[k - 1],
            members_of(guide, points, k - 1),
        )
    }
}

/// The point at the rounded mean of the points of `s`.
pub open spec fn mean_point(s: Seq<Point>) -> Point {
    Point {
        x: rounded_mean(sum_x(s), s.len() as int) as i64,
        y: rounded_mean(sum_y(s), s.len() as int) as i64,
    }
}

/// Coordinate sums of `n` points lie between `n` times the least and `n`
/// times the greatest coordinate.
proof fn lemma_sum_bounds(s: Seq<Point>)
    ensures
        s.len() * i64::MIN <= sum_x(s) <= s.len() * i64::MAX,
        s.len() * i64::MIN <= sum_y(s) <= s.len() * i64::MAX,
    decreases s.len(),
{
    if s.len() > 0 {
        lemma_sum_bounds(s.drop_last());
        let n = s.len() as int;
        assert(n * i64::MIN == (n - 1) * i64::MIN + i64::MIN && n * i64::MAX == (n - 1) * i64::MAX
            + i64::MAX) by (nonlinear_arith);
    }
}

/// The spread written out in the centre's coordinates.
proof fn lemma_spread_expanded(c: Point, s: Seq<Point>)
    ensures
        spread(c, s) == s.len() * (c.x * c.x) - 2 * (c.x * sum_x(s)) + s.len() * (c.y * c.y) - 2
            * (c.y * sum_y(s)) + norm2(s),
    decreases s.len(),
{
    if s.len() > 0 {
        let r = s.drop_last();
        let p = s.last();
        lemma_spread_expanded(c, r);
        let n = s.len() as int;
        let cx = c.x as int;
        let cy = c.y as int;
        let px = p.x as int;
        let py = p.y as int;
        let sx = sum_x(r);
        let sy = sum_y(r);
        assert((cx - px) * (cx - px) == cx * cx - 2 * (cx * px) + px * px) by (nonlinear_arith);
        assert((cy - py) * (cy - py) == cy * cy - 2 * (cy * py) + py * py) by (nonlinear_arith);
        assert(n * (cx * cx) == (n - 1) * (cx * cx) + cx * cx) by (nonlinear_arith);
        assert(n * (cy * cy) == (n - 1) * (cy * cy) + cy * cy) by (nonlinear_arith);
        assert(cx * (sx + px) == cx * sx + cx * px) by (nonlinear_arith);
        assert(cy * (sy + py) == cy * sy + cy * py) by (nonlinear_arith);
    }
}

/// The rounded mean is within half a step of the mean.
proof fn lemma_rounded_mean_error(sum: int, n: int)
    requires
        n > 0,
    ensures
        -n <= 2 * (n * rounded_mean(sum, n) - sum) <= n,
{
    let a = if sum >= 0 {
        sum
    } else {
        -sum
    };
    let d = 2 * a + n;
    let q = d / (2 * n);
    let r = d % (2 * n);
    vstd::arithmetic::div_mod::lemma_fundamental_div_mod(d, 2 * n);
    vstd::arithmetic::div_mod::lemma_mod_bound(d, 2 * n);
    assert((2 * n) * q == 2 * (n * q)) by (nonlinear_arith);
    if sum < 0 {
        assert(n * (-q) == -(n * q)) by (nonlinear_arith);
    }
}

/// Along one axis, no integer centre does better than the rounded mean.
proof fn lemma_mean_minimises_axis(sum: int, n: int, c: int)
    requires
        n > 0,
    ensures
        n * (rounded_mean(sum, n) * rounded_mean(sum, n)) - 2 * (rounded_mean(sum, n) * sum) <= n
            * (c * c) - 2 * (c * sum),
{
    let m = rounded_mean(sum, n);
    lemma_rounded_mean_error(sum, n);
    let e = 2 * (n * m - sum);
    let d = c - m;
    assert(n * (c * c) - 2 * (c * sum) - (n * (m * m) - 2 * (m * sum)) == n * (d * d) + d * e)
        by (nonlinear_arith)
        requires
            e == 2 * (n * m - sum),
            d == c - m,
    ;
    if d >= 1 {
        assert(n * (d * d) + d * e >= 0) by (nonlinear_arith)
            requires
                d >= 1,
                n > 0,
                -n <= e,
        ;
    } else if d <= -1 {
        assert(n * (d * d) + d * e >= 0) by (nonlinear_arith)
            requires
                d <= -1,
                n > 0,
                e <= n,
        ;
    } else {
        assert(n * (d * d) + d * e == 0) by (nonlinear_arith)
            requires
                d == 0,
        ;
    }
}

/// No position has a smaller sum of squared distances to the points of `s`
/// than the rounded mean of `s`.
pub proof fn law_mean_minimises_spread(c: Point, s: Seq<Point>)
    requires
        s.len() > 0,
    ensures
        spread(mean_point(s), s) <= spread(c, s),
{
    let n = s.len() as int;
    let m = mean_point(s);
    lemma_sum_bounds(s);
    lemma_rounded_mean_in_range(sum_x(s), n);
    lemma_rounded_mean_in_range(sum_y(s), n);
    lemma_spread_expanded(c, s);
    lemma_spread_expanded(m, s);
    lemma_mean_minimises_axis(sum_x(s), n, c.x as int);
    lemma_mean_minimises_axis(sum_y(s), n, c.y as int);
}

/// One update never raises a centroid's sum of squared distances to the
/// points it was given: a centroid that has accumulated exactly the points of
/// `given` moves to the position that, of all positions, has the least sum of
/// squared distances to them.
pub proof fn law_update_minimises_spread(c: CentroidView, given: Seq<Point>, q: Point)
    requires
        given.len() > 0,
        c.count == given.len(),
        c.sum_x == sum_x(given),
        c.sum_y == sum_y(given),
    ensures
        c.recentered().current == mean_point(given),
        c.recentered().previous == c.current,
        spread(c.recentered().current, given) <= spread(q, given),
        spread(c.recentered().current, given) <= spread(c.current, given),
{
    law_mean_minimises_spread(q, given);
    law_mean_minimises_spread(c.current, given);
}

/// The spread of a sequence with one more point.
proof fn lemma_spread_push(c: Point, s: Seq<Point>, p: Point)
    ensures
        spread(c, s.push(p)) == spread(c, s) + dist2(c, p),
{
    assert(s.push(p).drop_last() =~= s);
}

/// One more point adds its squared distance to the total spread if its
/// nearest position is among the first `k`, and nothing otherwise.
proof fn lemma_total_spread_push(
    guide: Seq<Point>,
    centres: Seq<Point>,
    points: Seq<Point>,
    p: Point,
    k: nat,
)
    ensures
        total_spread(guide, centres, points.push(p), k) == total_spread(guide, centres, points, k)
            + if 0 <= nearest(guide, p) < k {
            dist2(centres[nearest(guide, p)], p)
        } else {
            0
        },
    decreases k,
{
    if k > 0 {
        lemma_total_spread_push(guide, centres, points, p, (k - 1) as nat);
        lemma_members_of_push(guide, points, p, k - 1);
        lemma_spread_push(centres[k - 1], members_of(guide, points, k - 1), p);
    }
}

/// Without points the total spread is zero.
proof fn lemma_total_spread_empty(guide: Seq<Point>, centres: Seq<Point>, k: nat)
    ensures
        total_spread(guide, centres, Seq::<Point>::empty(), k) == 0,
    decreases k,
{
    if k > 0 {
        lemma_total_spread_empty(guide, centres, (k - 1) as nat);
        assert(members_of(guide, Seq::<Point>::empty(), k - 1) =~= Seq::<Point>::empty());
    }
}

/// The cost is the spread summed over all centres.
proof fn lemma_cost_by_centre(guide: Seq<Point>, centres: Seq<Point>, points: Seq<Point>)
    requires
        guide.len() > 0,
    ensures
        cost_under(guide, centres, points) == total_spread(guide, centres, points, guide.len()),
    decreases points.len(),
{
    if points.len() == 0 {
        assert(points =~= Seq::<Point>::empty());
        lemma_total_spread_empty(guide, centres, guide.len());
    } else {
        let rest = points.drop_last();
        let p = points.last();
        assert(points =~= rest.push(p));
        lemma_cost_by_centre(guide, centres, rest);
        lemma_total_spread_push(guide, centres, rest, p, guide.len());
        law_nearest_is_first_minimum(guide, p);
    }
}

/// Centres that do no worse on every member list do no worse in total.
proof fn lemma_total_spread_ordered(
    guide: Seq<Point>,
    better: Seq<Point>,
    worse: Seq<Point>,
    points: Seq<Point>,
    k: nat,
)
    requires
        forall|j: int|
            0 <= j < k ==> spread(better[j], #[trigger] members_of(guide, points, j)) <= spread(
                worse[j],
                members_of(guide, points, j),
            ),
    ensures
        total_spread(guide, better, points, k) <= total_spread(guide, worse, points, k),
    decreases k,
{
    if k > 0 {
        lemma_total_spread_ordered(guide, better, worse, points, (k - 1) as nat);
    }
}

/// Giving every point to the centre nearest to it costs no more than any
/// other way of giving the points to centres.
proof fn lemma_nearest_costs_least(guide: Seq<Point>, centres: Seq<Point>, points: Seq<Point>)
    requires
        guide.len() > 0,
        guide.len() == centres.len(),
    ensures
        cost_under(centres, centres, points) <= cost_under(guide, centres, points),
    decreases points.len(),
{
    if points.len() > 0 {
        let p = points.last();
        lemma_nearest_costs_least(guide, centres, points.drop_last());
        law_nearest_is_first_minimum(guide, p);
        law_nearest_is_first_minimum(centres, p);
        assert(dist2(centres[nearest(centres, p)], p) <= dist2(centres[nearest(guide, p)], p));
    }
}

/// One pass never raises the objective: the sum of the squared distances
/// from every point to the position nearest to it is, after a pass of
/// assignment and update, at most what it was before.
pub proof fn law_pass_does_not_raise_objective(cs: Seq<CentroidView>, points: Seq<Point>)
    requires
        cs.len() > 0,
        all_idle(cs),
    ensures
        objective(positions(after_pass(cs, points)), points) <= objective(positions(cs), points),
{
    let old_pos = positions(cs);
    let new_pos = positions(after_pass(cs, points));
    assert forall|j: int| 0 <= j < cs.len() implies spread(
        new_pos[j],
        #[trigger] members_of(old_pos, points, j),
    ) <= spread(old_pos[j], members_of(old_pos, points, j)) by {
        let given = members_of(old_pos, points, j);
        let mid = after_assign(cs, points)[j];
        assert(cs[j].is_idle());
        assert(mid.sum_x == sum_x(given) && mid.sum_y == sum_y(given) && mid.count == given.len());
        if given.len() > 0 {
            assert(new_pos[j] == mean_point(given));
            law_mean_minimises_spread(old_pos[j], given);
        } else {
            assert(new_pos[j] == old_pos[j]);
        }
    }
    lemma_nearest_costs_least(old_pos, new_pos, points);
    lemma_cost_by_centre(old_pos, new_pos, points);
    lemma_cost_by_centre(old_pos, old_pos, points);
    lemma_total_spread_ordered(old_pos, new_pos, old_pos, points, old_pos.len());
}

/// Passes leave as many centroids as there were, each between two passes.
pub proof fn lemma_passes_keep_idle(cs: Seq<CentroidView>, points: Seq<Point>, m: nat)
    requires
        all_idle(cs),
    ensures
        after_passes(cs, points, m).len() == cs.len(),
        all_idle(after_passes(cs, points, m)),
    decreases m,
{
    if m > 0 {
        lemma_passes_keep_idle(cs, points, (m - 1) as nat);
        let start = after_passes(cs, points, (m - 1) as nat);
        assert forall|j: int| 0 <= j < start.len() implies (#[trigger] after_pass(
            start,
            points,
        )[j]).is_idle() by {
            assert(start[j].is_idle());
            let given = members_of(positions(start), points, j);
            if given.len() == 0 {
                assert(sum_x(given) == 0 && sum_y(given) == 0);
            }
        }
    }
}

/// From one pass to the next the objective never grows, however many passes
/// have gone before.
pub proof fn law_objective_never_grows(cs: Seq<CentroidView>, points: Seq<Point>, m: nat)
    requires
        cs.len() > 0,
        all_idle(cs),
    ensures
        objective(positions(after_passes(cs, points, m + 1)), points) <= objective(
            positions(after_passes(cs, points, m)),
            points,
        ),
{
    lemma_passes_keep_idle(cs, points, m);
    law_pass_does_not_raise_objective(after_passes(cs, points, m), points);
}

} // verus!
