use kmeans2d::centroid::Centroid;
use kmeans2d::engine::{
    all_converged, assign_points, k_mean_clustering, materialize, min_distance, run,
    update_centroids, ClusterResult, KMeansError,
};
use kmeans2d::point::{Point, SquaredDistance, EPSILON, SCALE};
use kmeans2d::sampling::{generate_random_coordinates, initialize};

fn units(x: i64, y: i64) -> Point {
    Point::new(x * SCALE, y * SCALE)
}

fn centroid_at(x: i64, y: i64) -> Centroid {
    Centroid::new(x * SCALE, y * SCALE)
}

fn four_points() -> Vec<Point> {
    vec![units(0, 0), units(0, 1), units(10, 0), units(10, 1)]
}

fn objective(centroids: &Vec<Centroid>, data: &Vec<Point>) -> u128 {
    let mut total: u128 = 0;
    for p in data {
        let index = min_distance(centroids, p);
        let d = centroids[index].squared_distance(p);
        assert!(!d.wrapped);
        total += d.low;
    }
    total
}

fn sorted(points: &Vec<Point>) -> Vec<(i64, i64)> {
    let mut keys: Vec<(i64, i64)> = points.iter().map(|p| (p.x, p.y)).collect();
    keys.sort();
    keys
}

#[test]
fn point_new_and_update() {
    let mut p = Point::new(3, -4);
    assert_eq!((p.x, p.y), (3, -4));
    p.update(&7, &8);
    assert_eq!(p, Point::new(7, 8));
}

#[test]
fn squared_distance_values() {
    let near = Point::new(0, 0).squared_distance(&Point::new(3, 4));
    assert_eq!(near, SquaredDistance { wrapped: false, low: 25 });
    let none = Point::new(3, 4).squared_distance(&Point::new(3, 4));
    assert_eq!(none, SquaredDistance { wrapped: false, low: 0 });
    let wide = Point::new(i64::MIN, 0).squared_distance(&Point::new(i64::MAX, 0));
    assert_eq!(wide, SquaredDistance { wrapped: false, low: u128::MAX - (1u128 << 65) + 2 });
    let far = Point::new(i64::MIN, i64::MIN).squared_distance(&Point::new(i64::MAX, i64::MAX));
    assert_eq!(far, SquaredDistance { wrapped: true, low: u128::MAX - (1u128 << 66) + 3 });
    let c = Centroid::new(1, 1).squared_distance(&Point::new(-1, -1));
    assert_eq!(c, SquaredDistance { wrapped: false, low: 8 });
}

#[test]
fn squared_distances_compare_by_value() {
    let small = SquaredDistance { wrapped: false, low: 7 };
    let large = SquaredDistance { wrapped: false, low: u128::MAX };
    let beyond = SquaredDistance { wrapped: true, low: 0 };
    let furthest = SquaredDistance { wrapped: true, low: 1 };
    assert!(small.less_than(&large));
    assert!(!large.less_than(&small));
    assert!(!small.less_than(&small));
    assert!(large.less_than(&beyond));
    assert!(!beyond.less_than(&large));
    assert!(beyond.less_than(&furthest));
    assert!(!furthest.less_than(&beyond));
}

#[test]
fn far_apart_centroids_are_told_apart() {
    let centroids = vec![Centroid::new(i64::MAX, i64::MAX), Centroid::new(i64::MAX, i64::MAX - 1)];
    assert_eq!(min_distance(&centroids, &Point::new(i64::MIN, i64::MIN)), 1);
    let tied = vec![Centroid::new(i64::MAX, i64::MAX), Centroid::new(i64::MAX, i64::MAX)];
    assert_eq!(min_distance(&tied, &Point::new(i64::MIN, i64::MIN)), 0);
}

#[test]
fn new_centroid_is_idle() {
    let c = Centroid::new(5, 6);
    assert_eq!(c.current, Point::new(5, 6));
    assert_eq!(c.previous, Point::new(0, 0));
    assert_eq!((c.sum_x, c.sum_y, c.count), (0, 0, 0));
    assert!(c.members.is_empty());
}

#[test]
fn add_point_accumulates() {
    let mut c = Centroid::new(0, 0);
    c.add_point(&10, &-20);
    c.add_point(&5, &6);
    assert_eq!((c.sum_x, c.sum_y, c.count), (15, -14, 2));
    assert_eq!(c.current, Point::new(0, 0));
}

#[test]
fn update_moves_to_rounded_mean() {
    let mut c = Centroid::new(100, 200);
    c.add_point(&0, &0);
    c.add_point(&1, &-1);
    c.update_centroid();
    assert_eq!(c.current, Point::new(1, -1));
    assert_eq!(c.previous, Point::new(100, 200));
    assert_eq!((c.sum_x, c.sum_y, c.count), (0, 0, 0));

    let mut d = Centroid::new(0, 0);
    d.add_point(&1, &-1);
    d.add_point(&0, &0);
    d.add_point(&0, &-1);
    d.update_centroid();
    assert_eq!(d.current, Point::new(0, -1));

    let mut e = Centroid::new(0, 0);
    e.add_point(&i64::MAX, &i64::MIN);
    e.add_point(&i64::MAX, &i64::MIN);
    e.update_centroid();
    assert_eq!(e.current, Point::new(i64::MAX, i64::MIN));
}

#[test]
fn update_without_points_changes_nothing() {
    let mut c = Centroid::new(7, 9);
    c.update_centroid();
    assert_eq!(c.current, Point::new(7, 9));
    assert_eq!(c.previous, Point::new(0, 0));
}

#[test]
fn compare_to_previous_uses_tolerance() {
    let near = Centroid::new(EPSILON - 1, 1 - EPSILON);
    assert!(near.compare_to_previous());
    let off_x = Centroid::new(EPSILON, 0);
    assert!(!off_x.compare_to_previous());
    let off_y = Centroid::new(0, -EPSILON);
    assert!(!off_y.compare_to_previous());
}

#[test]
fn min_distance_picks_nearest() {
    let centroids = vec![centroid_at(0, 0), centroid_at(10, 0), centroid_at(4, 4)];
    assert_eq!(min_distance(&centroids, &units(9, 1)), 1);
    assert_eq!(min_distance(&centroids, &units(1, 1)), 0);
    assert_eq!(min_distance(&centroids, &units(4, 5)), 2);
}

#[test]
fn tie_goes_to_lowest_index() {
    let centroids = vec![centroid_at(0, 0), centroid_at(2, 0)];
    assert_eq!(min_distance(&centroids, &units(1, 0)), 0);
    let mirrored = vec![centroid_at(2, 0), centroid_at(0, 0)];
    assert_eq!(min_distance(&mirrored, &units(1, 0)), 0);
    let three = vec![centroid_at(9, 9), centroid_at(0, 2), centroid_at(2, 0), centroid_at(0, 2)];
    assert_eq!(min_distance(&three, &units(0, 0)), 1);
}

#[test]
fn four_points_two_clusters() {
    let data = four_points();
    let mut centroids = vec![centroid_at(0, 0), centroid_at(10, 0)];
    let passes = k_mean_clustering(&mut centroids, &data, 100);
    assert_eq!(passes, Ok(2));
    assert_eq!(centroids[0].current, Point::new(0, SCALE / 2));
    assert_eq!(centroids[1].current, Point::new(10 * SCALE, SCALE / 2));
    assert_eq!(centroids[0].members, vec![units(0, 0), units(0, 1)]);
    assert_eq!(centroids[1].members, vec![units(10, 0), units(10, 1)]);
    assert_eq!((centroids[0].sum_x, centroids[0].sum_y, centroids[0].count), (0, 0, 0));
}

#[test]
fn no_centroids_is_invalid() {
    let data = four_points();
    let mut centroids: Vec<Centroid> = Vec::new();
    assert_eq!(k_mean_clustering(&mut centroids, &data, 10), Err(KMeansError::InvalidArgument));
    assert!(centroids.is_empty());
    assert_eq!(materialize(&mut centroids, &data), Err(KMeansError::InvalidArgument));
}

#[test]
fn no_points_is_invalid() {
    let data: Vec<Point> = Vec::new();
    let mut centroids = vec![centroid_at(3, 3)];
    assert_eq!(k_mean_clustering(&mut centroids, &data, 10), Err(KMeansError::InvalidArgument));
    assert_eq!(centroids[0].current, units(3, 3));
    assert_eq!(centroids[0].previous, Point::new(0, 0));
    assert!(centroids[0].members.is_empty());
    assert_eq!(materialize(&mut centroids, &data), Err(KMeansError::InvalidArgument));
}

#[test]
fn pass_limit_is_reported() {
    let data = four_points();
    let mut centroids = vec![centroid_at(0, 0), centroid_at(10, 0)];
    assert_eq!(k_mean_clustering(&mut centroids, &data, 0), Err(KMeansError::DidNotConverge));
    assert_eq!(centroids[0].current, units(0, 0));
    assert_eq!(k_mean_clustering(&mut centroids, &data, 1), Err(KMeansError::DidNotConverge));
    assert_eq!(centroids[0].current, Point::new(0, SCALE / 2));
    assert_eq!(centroids[0].previous, units(0, 0));
    assert!(centroids[0].members.is_empty());
    assert!(centroids[1].members.is_empty());
    assert_eq!(k_mean_clustering(&mut centroids, &data, 1), Ok(1));
    assert_eq!(centroids[0].members.len(), 2);
}

#[test]
fn centroid_without_points_stays() {
    let data = vec![units(1, 1), units(1, 3)];
    let mut idle_at_origin = vec![centroid_at(1, 1), Centroid::new(-5 * SCALE, -5 * SCALE)];
    idle_at_origin[1].previous = idle_at_origin[1].current;
    assert_eq!(k_mean_clustering(&mut idle_at_origin, &data, 10), Ok(2));
    assert_eq!(idle_at_origin[0].current, units(1, 2));
    assert_eq!(idle_at_origin[1].current, units(-5, -5));
    assert!(idle_at_origin[1].members.is_empty());

    let mut far = vec![centroid_at(1, 1), centroid_at(400, 400)];
    assert_eq!(k_mean_clustering(&mut far, &data, 10), Err(KMeansError::DidNotConverge));
    assert_eq!(far[1].current, units(400, 400));
    assert_eq!(far[1].previous, Point::new(0, 0));
}

#[test]
fn assign_then_update_is_one_pass() {
    let data = four_points();
    let mut centroids = vec![centroid_at(0, 0), centroid_at(10, 0)];
    assign_points(&mut centroids, &data);
    assert_eq!(centroids[0].current, units(0, 0));
    assert_eq!((centroids[0].sum_x, centroids[0].sum_y, centroids[0].count), (0, SCALE as i128, 2));
    assert_eq!(
        (centroids[1].sum_x, centroids[1].sum_y, centroids[1].count),
        (20 * SCALE as i128, SCALE as i128, 2)
    );
    assert!(!all_converged(&centroids));
    update_centroids(&mut centroids);
    assert_eq!(centroids[1].current, Point::new(10 * SCALE, SCALE / 2));
    assert_eq!(centroids[1].previous, units(10, 0));
    assert!(!all_converged(&centroids));
    assign_points(&mut centroids, &data);
    update_centroids(&mut centroids);
    assert!(all_converged(&centroids));
}

#[test]
fn members_partition_the_points() {
    let data = generate_random_coordinates(50, 10, 500).unwrap();
    let mut centroids = initialize(5, 3, 500).unwrap();
    let passes = k_mean_clustering(&mut centroids, &data, 1000);
    assert!(passes.is_ok());
    let mut all: Vec<Point> = Vec::new();
    for (j, c) in centroids.iter().enumerate() {
        for p in &c.members {
            assert_eq!(min_distance(&centroids, p), j);
            all.push(*p);
        }
    }
    assert_eq!(all.len(), data.len());
    assert_eq!(sorted(&all), sorted(&data));
}

#[test]
fn members_keep_input_order() {
    let data = vec![units(9, 9), units(1, 1), units(8, 8), units(2, 2), units(9, 9)];
    let mut centroids = vec![centroid_at(1, 1), centroid_at(9, 9)];
    assert_eq!(materialize(&mut centroids, &data), Ok(()));
    assert_eq!(centroids[0].members, vec![units(1, 1), units(2, 2)]);
    assert_eq!(centroids[1].members, vec![units(9, 9), units(8, 8), units(9, 9)]);
    assert_eq!(centroids[0].current, units(1, 1));
    assert_eq!(centroids[0].count, 0);
}

#[test]
fn materializing_twice_repeats_the_members() {
    let data = four_points();
    let mut centroids = vec![centroid_at(0, 0), centroid_at(10, 0)];
    assert_eq!(k_mean_clustering(&mut centroids, &data, 10), Ok(2));
    let first: Vec<Vec<Point>> = centroids.iter().map(|c| c.members.clone()).collect();
    let positions: Vec<Point> = centroids.iter().map(|c| c.current).collect();
    assert_eq!(materialize(&mut centroids, &data), Ok(()));
    for (j, c) in centroids.iter().enumerate() {
        assert_eq!(c.current, positions[j]);
        assert_eq!(c.members.len(), 2 * first[j].len());
        assert_eq!(c.members[..first[j].len()].to_vec(), first[j]);
        assert_eq!(c.members[first[j].len()..].to_vec(), first[j]);
    }
}

#[test]
fn objective_never_grows() {
    let data = generate_random_coordinates(200, 77, 500).unwrap();
    let mut centroids = initialize(7, 5, 500).unwrap();
    let mut last = objective(&centroids, &data);
    for _ in 0..50 {
        assign_points(&mut centroids, &data);
        update_centroids(&mut centroids);
        let now = objective(&centroids, &data);
        assert!(now <= last);
        last = now;
    }
}

#[test]
fn runs_are_repeatable() {
    let run = || {
        let data = generate_random_coordinates(50, 10, 500).unwrap();
        let mut centroids = initialize(5, 11, 500).unwrap();
        let passes = k_mean_clustering(&mut centroids, &data, 1000);
        let state: Vec<(Point, Point, Vec<Point>)> =
            centroids.iter().map(|c| (c.current, c.previous, c.members.clone())).collect();
        (passes, state)
    };
    let first = run();
    let second = run();
    assert!(first.0.is_ok());
    assert_eq!(first, second);
}

#[test]
fn run_hands_back_converged_centroids() {
    let data = four_points();
    match run(vec![centroid_at(0, 0), centroid_at(10, 0)], &data, 3) {
        Ok(ClusterResult::Converged { passes, centroids }) => {
            assert_eq!(passes, 2);
            assert_eq!(centroids[0].current, Point::new(0, SCALE / 2));
            assert_eq!(centroids[1].current, Point::new(10 * SCALE, SCALE / 2));
            assert_eq!(centroids[0].members, vec![units(0, 0), units(0, 1)]);
            assert_eq!(centroids[1].members, vec![units(10, 0), units(10, 1)]);
        }
        other => panic!("{:?}", other),
    }
}

#[test]
fn run_hands_back_the_best_so_far() {
    let data = four_points();
    match run(vec![centroid_at(0, 0), centroid_at(10, 0)], &data, 1) {
        Ok(ClusterResult::MaxPassesExceeded { best_centroids }) => {
            assert_eq!(best_centroids.len(), 2);
            assert_eq!(best_centroids[0].current, Point::new(0, SCALE / 2));
            assert!(best_centroids[0].members.is_empty());
        }
        other => panic!("{:?}", other),
    }
}

#[test]
fn run_refuses_empty_inputs() {
    assert!(matches!(run(Vec::new(), &four_points(), 5), Err(KMeansError::InvalidArgument)));
    assert!(matches!(
        run(vec![centroid_at(1, 1)], &Vec::new(), 5),
        Err(KMeansError::InvalidArgument)
    ));
}
