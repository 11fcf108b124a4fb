//! Seeded pseudo-random points and starting centroids.

use vstd::prelude::*;
use crate::point::{Point, SCALE};
use crate::centroid::{Centroid, CentroidView};
use crate::engine::{KMeansError, all_idle, views};

verus! {

/// Largest coordinate, in whole units, that fits a point's 64-bit
/// coordinates: `i64::MAX / SCALE`.
pub const MAX_BOUND: u64 = 922_337_203_685_477;

/// Both numbers of the pair can be stored as coordinates.
pub open spec fn usable(pair: (u64, u64)) -> bool {
    1 <= pair.0 <= MAX_BOUND && 1 <= pair.1 <= MAX_BOUND
}

/// The point whose coordinates are the given whole numbers of units.
pub open spec fn point_at(pair: (u64, u64)) -> Point {
    Point { x: (pair.0 * SCALE) as i64, y: (pair.1 * SCALE) as i64 }
}

/// The points at the given pairs of whole units, in order.
pub open spec fn points_at(pairs: Seq<(u64, u64)>) -> Seq<Point> {
    Seq::new(pairs.len(), |i: int| point_at(pairs[i]))
}

/// `p` has whole-unit coordinates between 1 and `bound`.
pub open spec fn on_grid(p: Point, bound: int) -> bool {
    &&& p.x as int % SCALE as int == 0
    &&& p.y as int % SCALE as int == 0
    &&& SCALE <= p.x <= bound * SCALE
    &&& SCALE <= p.y <= bound * SCALE
}

/// A centroid at `p` that has seen no pass yet.
pub open spec fn fresh_at(p: Point) -> CentroidView {
    CentroidView {
        current: p,
        previous: Point { x: 0, y: 0 },
        sum_x: 0,
        sum_y: 0,
        count: 0,
        members: Seq::empty(),
    }
}

/// Fresh centroids at the given points, in order.
pub open spec fn fresh_centroids(ps: Seq<Point>) -> Seq<CentroidView> {
    Seq::new(ps.len(), |j: int| fresh_at(ps[j]))
}

/// `rand::rngs::StdRng`, the generator that the draws come from. Nothing is
/// known of what a value of it holds.
#[verifier::external_type_specification]
#[verifier::external_body]
pub struct ExStdRng(rand::rngs::StdRng);

/// Calls `rand::SeedableRng::seed_from_u64` for `rand::rngs::StdRng`.
/// Nothing is claimed of the generator that comes back.
#[verifier::external_body]
fn seeded_generator(seed: u64) -> (rng: rand::rngs::StdRng) {
    rand::SeedableRng::seed_from_u64(seed)
}

/// Calls `rand::Rng::gen_range` with the inclusive range from `low` to
/// `high`. The range is not empty, so the call returns, and what it returns
/// lies in the range. Which number of the range comes back is not claimed.
#[verifier::external_body]
fn draw_in_range(rng: &mut rand::rngs::StdRng, low: u64, high: u64) -> (v: u64)
    requires
        low <= high,
    ensures
        low <= v <= high,
{
    rand::Rng::gen_range(rng, low..=high)
}

/// Draws `count` pairs of numbers between 1 and `bound`: of every pair first
/// the first number, then the second.
fn draw_pairs(rng: &mut rand::rngs::StdRng, bound: u64, count: usize) -> (pairs: Vec<(u64, u64)>)
    requires
        bound >= 1,
    ensures
        pairs.len() == count,
        forall|i: int|
            0 <= i < count ==> 1 <= (#[trigger] pairs[i]).0 <= bound && 1 <= pairs[i].1 <= bound,
{
    let mut pairs: Vec<(u64, u64)> = Vec::new();
    let mut i: usize = 0;
    while i < count
        invariant
            i <= count,
            bound >= 1,
            pairs.len() == i,
            forall|t: int|
                0 <= t < i ==> 1 <= (#[trigger] pairs[t]).0 <= bound && 1 <= pairs[t].1 <= bound,
        decreases count - i,
    {
        let first: u64 = draw_in_range(rng, 1, bound);
        let second: u64 = draw_in_range(rng, 1, bound);
        pairs.push((first, second));
        i = i + 1;
    }
    pairs
}

/// A whole number of units as a stored coordinate.
fn whole_units(units: u64) -> (v: i64)
    requires
        1 <= units <= MAX_BOUND,
    ensures
        v == units * SCALE,
        v as int % SCALE as int == 0,
{
    proof {
        vstd::arithmetic::div_mod::lemma_mod_multiples_basic(units as int, SCALE as int);
    }
    (units as i64) * SCALE
}

/// A point at whole units is on the grid of every bound that neither of its
/// coordinates exceeds.
proof fn lemma_point_at_on_grid(pair: (u64, u64), bound: u64)
    requires
        1 <= pair.0 <= bound,
        1 <= pair.1 <= bound,
        bound <= MAX_BOUND,
    ensures
        on_grid(point_at(pair), bound as int),
{
    vstd::arithmetic::div_mod::lemma_mod_multiples_basic(pair.0 as int, SCALE as int);
    vstd::arithmetic::div_mod::lemma_mod_multiples_basic(pair.1 as int, SCALE as int);
    assert(pair.0 * SCALE <= bound * SCALE && pair.1 * SCALE <= bound * SCALE) by (nonlinear_arith)
        requires
            pair.0 <= bound,
            pair.1 <= bound,
    ;
}

/// The points at the given pairs of whole units. A pair with a number that
/// is zero or beyond `MAX_BOUND` cannot be stored and is refused.
pub fn points_from_pairs(pairs: &Vec<(u64, u64)>) -> (result: Result<Vec<Point>, KMeansError>)
    ensures
        result.is_ok() <==> forall|i: int| 0 <= i < pairs.len() ==> usable(#[trigger] pairs[i]),
        result.is_ok() ==> result.unwrap()@ == points_at(pairs@),
        result.is_err() ==> result == Err::<Vec<Point>, KMeansError>(KMeansError::InvalidArgument),
{
    let mut points: Vec<Point> = Vec::new();
    let mut i: usize = 0;
    while i < pairs.len()
        invariant
            i <= pairs.len(),
            points.len() == i,
            forall|t: int| 0 <= t < i ==> usable(#[trigger] pairs[t]),
            forall|t: int| 0 <= t < i ==> points[t] == point_at(#[trigger] pairs[t]),
        decreases pairs.len() - i,
    {
        let pair = pairs[i];
        if pair.0 < 1 || pair.0 > MAX_BOUND || pair.1 < 1 || pair.1 > MAX_BOUND {
            assert(!usable(pairs[i as int]));
            return Err(KMeansError::InvalidArgument);
        }
        points.push(Point::new(whole_units(pair.0), whole_units(pair.1)));
        i = i + 1;
    }
    assert(points@ =~= points_at(pairs@));
    Ok(points)
}

/// Fresh centroids at the given points, in order.
pub fn centroids_at(points: &Vec<Point>) -> (centroids: Vec<Centroid>)
    ensures
        centroids.len() == points.len(),
        views(centroids@) == fresh_centroids(points@),
        all_idle(views(centroids@)),
{
    let mut centroids: Vec<Centroid> = Vec::new();
    let mut j: usize = 0;
    while j < points.len()
        invariant
            j <= points.len(),
            centroids.len() == j,
            forall|t: int| 0 <= t < j ==> (#[trigger] centroids[t])@ == fresh_at(points[t]),
        decreases points.len() - j,
    {
        let c = Centroid::new(points[j].x, points[j].y);
        assert(c@ =~= fresh_at(points[j as int]));
        centroids.push(c);
        j = j + 1;
    }
    assert(views(centroids@) =~= fresh_centroids(points@));
    centroids
}

/// `n` points drawn from a generator seeded with `seed`, every coordinate a
/// whole number of units between 1 and `bound`. A request for no points, or
/// with a bound that is zero or beyond `MAX_BOUND`, is refused.
pub fn generate_random_coordinates(n: u32, seed: u64, bound: u64) -> (result: Result<
    Vec<Point>,
    KMeansError,
>)
    ensures
        result.is_err() <==> n == 0 || bound == 0 || bound > MAX_BOUND,
        result.is_err() ==> result == Err::<Vec<Point>, KMeansError>(KMeansError::InvalidArgument),
        result.is_ok() ==> result.unwrap().len() == n && forall|i: int|
            0 <= i < n ==> on_grid(#[trigger] result.unwrap()[i], bound as int),
{
    if n == 0 || bound == 0 || bound > MAX_BOUND {
        return Err(KMeansError::InvalidArgument);
    }
    let mut rng = seeded_generator(seed);
    let pairs = draw_pairs(&mut rng, bound, n as usize);
    let result = points_from_pairs(&pairs);
    proof {
        assert forall|i: int| 0 <= i < n implies on_grid(
            #[trigger] points_at(pairs@)[i],
            bound as int,
        ) by {
            lemma_point_at_on_grid(pairs@[i], bound);
        }
    }
    result
}

/// `k` starting centroids that have seen no pass yet, at points drawn as
/// `generate_random_coordinates` draws them for the same seed and bound. A
/// request for no centroid, or with a bound that is zero or beyond
/// `MAX_BOUND`, is refused.
pub fn initialize(k: u32, seed: u64, bound: u64) -> (result: Result<Vec<Centroid>, KMeansError>)
    ensures
        result.is_err() <==> k == 0 || bound == 0 || bound > MAX_BOUND,
        result.is_err() ==> result == Err::<Vec<Centroid>, KMeansError>(
            KMeansError::InvalidArgument,
        ),
        result.is_ok() ==> result.unwrap().len() == k && all_idle(views(result.unwrap()@))
            && forall|j: int|
            0 <= j < k ==> on_grid((#[trigger] result.unwrap()[j])@.current, bound as int)
                && result.unwrap()[j]@ == fresh_at(result.unwrap()[j]@.current),
{
    match generate_random_coordinates(k, seed, bound) {
        Ok(points) => {
            let centroids = centroids_at(&points);
            proof {
                assert forall|j: int| 0 <= j < k implies on_grid(
                    (#[trigger] centroids[j])@.current,
                    bound as int,
                ) && centroids[j]@ == fresh_at(centroids[j]@.current) by {
                    assert(views(centroids@)[j] == fresh_at(points[j]));
                }
            }
            Ok(centroids)
        },
        Err(e) => Err(e),
    }
}

impl Centroid {
    /// A centroid that has seen no pass yet, at a point drawn from a fresh
    /// generator seeded with `seed`, both coordinates whole numbers of units
    /// between 1 and `bound`. A bound that is zero or beyond `MAX_BOUND` is
    /// refused.
    pub fn new_random(seed: u64, bound: u64) -> (result: Result<Centroid, KMeansError>)
        ensures
            result.is_err() <==> bound == 0 || bound > MAX_BOUND,
            result.is_err() ==> result == Err::<Centroid, KMeansError>(
                KMeansError::InvalidArgument,
            ),
            result.is_ok() ==> result.unwrap()@ == fresh_at(result.unwrap()@.current) && on_grid(
                result.unwrap()@.current,
                bound as int,
            ),
    {
        match generate_random_coordinates(1, seed, bound) {
            Ok(points) => {
                let c = Centroid::new(points[0].x, points[0].y);
                assert(c@ =~= fresh_at(points[0]));
                Ok(c)
            },
            Err(e) => Err(e),
        }
    }
}

} // verus!
