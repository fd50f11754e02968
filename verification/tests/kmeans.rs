use kmeans_rs::config::Config;
use kmeans_rs::kmeans::{calculate_next_centroid, init_centroids};
use kmeans_rs::point::{Centroid, Point};
use std::collections::HashSet;

#[test]
fn test_calculate_next_centroid() {
    let prev = Centroid {
        p: Point { x: 0, y: 0 },
        id: 5,
    };

    // (0, 0) and (20, 40) in grid steps; the mean is (10, 20).
    let points = vec![
        Point { x: 0, y: 0 },
        Point {
            x: 2_000_000,
            y: 4_000_000,
        },
    ];

    let next = calculate_next_centroid(&prev, &points);
    assert_eq!(5, next.id);
    assert_eq!(1_000_000, next.p.x);
    assert_eq!(2_000_000, next.p.y);
}

#[test]
fn test_init_centroid() {
    let cfg = &Config {
        k: 13,
        num_points: 100,
        iterations: 10,
        has_points_file: false,
        lower_bound: Point { x: 0, y: 0 },
        upper_bound: Point {
            x: 10_000_000,
            y: 10_000_000,
        },
    };
    let centroids = init_centroids(cfg);

    assert_eq!(13, centroids.len());

    let mut ids_seen = HashSet::new();
    centroids.iter().for_each(|c| {
        assert!(c.id > 0_usize);
        assert!(!ids_seen.contains(&c.id));
        ids_seen.insert(c.id);
    });
}

#[test]
fn test_calculate_next_centroid_empty_keeps_position() {
    let prev = Centroid {
        p: Point {
            x: 700_000,
            y: -300_000,
        },
        id: 2,
    };
    let points: Vec<Point> = vec![];
    let next = calculate_next_centroid(&prev, &points);
    assert_eq!(prev, next);
}

#[test]
fn test_calculate_next_centroid_rounds_down() {
    let prev = Centroid {
        p: Point { x: 0, y: 0 },
        id: 1,
    };
    // mean of 0 and 1 grid steps rounds down to 0 on each axis
    let points = vec![Point { x: 0, y: 0 }, Point { x: 1, y: 1 }];
    let next = calculate_next_centroid(&prev, &points);
    assert_eq!(0, next.p.x);
    assert_eq!(0, next.p.y);
}
