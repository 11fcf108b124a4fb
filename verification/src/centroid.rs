//! The per-cluster state that the clustering passes refine.

use vstd::prelude::*;
use crate::point::{Point, SquaredDistance, dist2, EPSILON};

verus! {

/// Mathematical content of a [`Centroid`].
pub struct CentroidView {
    pub current: Point,
    pub previous: Point,
    pub sum_x: int,
    pub sum_y: int,
    pub count: nat,
    pub members: Seq<Point>,
}

/// `sum / count` rounded to the nearest integer, halves away from zero.
pub open spec fn rounded_mean(sum: int, count: int) -> int
    recommends
        count > 0,
{
    if sum >= 0 {
        (2 * sum + count) / (2 * count)
    } else {
        -((2 * (-sum) + count) / (2 * count))
    }
}

impl CentroidView {
    /// The accumulated sums are sums of `count` coordinates.
    pub open spec fn wf(self) -> bool {
        &&& self.count * i64::MIN <= self.sum_x <= self.count * i64::MAX
        &&& self.count * i64::MIN <= self.sum_y <= self.count * i64::MAX
        &&& self.count <= usize::MAX
    }

    /// Nothing is accumulated: the state between two passes.
    pub open spec fn is_idle(self) -> bool {
        self.count == 0 && self.sum_x == 0 && self.sum_y == 0
    }

    /// The last move was shorter than the tolerance along both axes.
    pub open spec fn is_settled(self) -> bool {
        &&& -EPSILON < self.previous.x - self.current.x < EPSILON
        &&& -EPSILON < self.previous.y - self.current.y < EPSILON
    }

    /// State after one more point has been accumulated.
    pub open spec fn with_point(self, x: int, y: int) -> CentroidView {
        CentroidView {
            sum_x: self.sum_x + x,
            sum_y: self.sum_y + y,
            count: self.count + 1,
            ..self
        }
    }

    /// State after the update phase: a centroid that was given points moves
    /// to their rounded mean and remembers where it was; one that was given
    /// none stays as it is.
    pub open spec fn recentered(self) -> CentroidView {
        if self.count > 0 {
            CentroidView {
                current: Point {
                    x: rounded_mean(self.sum_x, self.count as int) as i64,
                    y: rounded_mean(self.sum_y, self.count as int) as i64,
                },
                previous: self.current,
                sum_x: 0,
                sum_y: 0,
                count: 0,
                members: self.members,
            }
        } else {
            self
        }
    }
}

/// One cluster in the making: where its centre is, where it was before the
/// last update, what the running pass has accumulated, and the points that
/// the final assignment gave it.
#[derive(Debug)]
pub struct Centroid {
    pub current: Point,
    pub previous: Point,
    pub sum_x: i128,
    pub sum_y: i128,
    pub count: usize,
    pub members: Vec<Point>,
}

impl View for Centroid {
    type V = CentroidView;

    open spec fn view(&self) -> CentroidView {
        CentroidView {
            current: self.current,
            previous: self.previous,
            sum_x: self.sum_x as int,
            sum_y: self.sum_y as int,
            count: self.count as nat,
            members: self.members@,
        }
    }
}

/// `(2 * a + n) / (2 * n)` for `0 <= a <= n * limit` is at most `limit`.
proof fn lemma_rounded_quotient_bounded(a: int, n: int, limit: int)
    requires
        n > 0,
        limit >= 0,
        0 <= a <= n * limit,
    ensures
        0 <= (2 * a + n) / (2 * n) <= limit,
{
    let q = (2 * a + n) / (2 * n);
    vstd::arithmetic::div_mod::lemma_fundamental_div_mod(2 * a + n, 2 * n);
    vstd::arithmetic::div_mod::lemma_mod_bound(2 * a + n, 2 * n);
    assert(q <= limit) by (nonlinear_arith)
        requires
            n > 0,
            2 * a + n == (2 * n) * q + (2 * a + n) % (2 * n),
            0 <= (2 * a + n) % (2 * n),
            a <= n * limit,
    ;
    assert(q >= 0) by (nonlinear_arith)
        requires
            n > 0,
            a >= 0,
            2 * a + n == (2 * n) * q + (2 * a + n) % (2 * n),
            (2 * a + n) % (2 * n) < 2 * n,
    ;
}

/// The rounded mean of a sum of `n` coordinates is itself a coordinate.
pub proof fn lemma_rounded_mean_in_range(sum: int, n: int)
    requires
        n > 0,
        n * i64::MIN <= sum <= n * i64::MAX,
    ensures
        i64::MIN <= rounded_mean(sum, n) <= i64::MAX,
{
    if sum >= 0 {
        lemma_rounded_quotient_bounded(sum, n, i64::MAX as int);
    } else {
        lemma_rounded_quotient_bounded(-sum, n, 0x8000_0000_0000_0000);
    }
}

/// Mean of `count` accumulated coordinates, rounded to the nearest step.
fn mean_of(sum: i128, count: usize) -> (m: i64)
    requires
        count > 0,
        count * i64::MIN <= sum <= count * i64::MAX,
    ensures
        m == rounded_mean(sum as int, count as int),
{
    proof {
        lemma_rounded_mean_in_range(sum as int, count as int);
    }
    let n: u128 = count as u128;
    if sum >= 0 {
        let a: u128 = sum as u128;
        let q: u128 = (2 * a + n) / (2 * n);
        q as i64
    } else {
        let a: u128 = (-sum) as u128;
        let q: u128 = (2 * a + n) / (2 * n);
        (-(q as i128)) as i64
    }
}

impl Centroid {
    /// A centroid at `(x, y)` that has seen no pass yet.
    pub fn new(x: i64, y: i64) -> (c: Self)
        ensures
            c@.current == (Point { x, y }),
            c@.previous == (Point { x: 0, y: 0 }),
            c@.is_idle(),
            c@.members == Seq::<Point>::empty(),
    {
        Self {
            current: Point::new(x, y),
            previous: Point::new(0, 0),
            sum_x: 0,
            sum_y: 0,
            count: 0,
            members: Vec::new(),
        }
    }

    /// Squared Euclidean distance from the centroid's position to `a`.
    pub fn squared_distance(&self, a: &Point) -> (d: SquaredDistance)
        ensures
            d.value() == dist2(self@.current, *a),
    {
        self.current.squared_distance(a)
    }

    /// Accumulates one point for the running pass.
    pub fn add_point(&mut self, x: &i64, y: &i64)
        requires
            old(self)@.wf(),
            old(self)@.count < usize::MAX,
        ensures
            final(self)@ == old(self)@.with_point(*x as int, *y as int),
            final(self)@.wf(),
    {
        self.sum_x = self.sum_x + *x as i128;
        self.sum_y = self.sum_y + *y as i128;
        self.count = self.count + 1;
    }

    /// The update phase for this centroid.
    pub fn update_centroid(&mut self)
        requires
            old(self)@.wf(),
        ensures
            final(self)@ == old(self)@.recentered(),
            final(self)@.is_idle(),
    {
        if self.count > 0 {
            proof {
                lemma_rounded_mean_in_range(self.sum_x as int, self.count as int);
                lemma_rounded_mean_in_range(self.sum_y as int, self.count as int);
            }
            let mx: i64 = mean_of(self.sum_x, self.count);
            let my: i64 = mean_of(self.sum_y, self.count);
            self.previous.update(&self.current.x, &self.current.y);
            self.current.update(&mx, &my);
            self.sum_x = 0;
            self.sum_y = 0;
            self.count = 0;
        }
    }

    /// Whether the last update moved the centroid by less than the tolerance
    /// along both axes.
    pub fn compare_to_previous(&self) -> (settled: bool)
        ensures
            settled == self@.is_settled(),
    {
        let dx: i128 = self.previous.x as i128 - self.current.x as i128;
        let dy: i128 = self.previous.y as i128 - self.current.y as i128;
        let eps: i128 = EPSILON as i128;
        -eps < dx && dx < eps && -eps < dy && dy < eps
    }
}

} // verus!
