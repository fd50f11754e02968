use kmeans_rs::config::validate_input_points;
use kmeans_rs::config::Config;
use kmeans_rs::point::Point;

// Coordinates are fixed-point: 100_000 grid steps per coordinate unit.
fn test_cfg() -> Config {
    Config {
        k: 5,
        iterations: 10,
        num_points: 100,
        has_points_file: false,
        lower_bound: Point { x: 0, y: 0 },
        upper_bound: Point {
            x: 2_000_000,
            y: 2_000_000,
        },
    }
}

#[test]
fn test_bounds() {
    let cfg = test_cfg();
    let resolved = cfg.bounds();
    assert_eq!(0, resolved.0.x);
    assert_eq!(0, resolved.0.y);
    assert_eq!(2_000_000, resolved.1.x);
    assert_eq!(2_000_000, resolved.1.y);
}

#[test]
fn test_points() {
    let cfg = test_cfg();
    let resolved = cfg.points();

    assert_eq!(cfg.num_points, resolved.len());
}

#[test]
fn test_validate_good_cfg() {
    let cfg = test_cfg();
    let result = cfg.validate();

    assert!(result.is_ok());
}

#[test]
fn test_validate_bounds() {
    let cfg = Config {
        lower_bound: Point {
            x: 30_000_000,
            y: 30_000_000,
        },
        ..test_cfg()
    };

    let result = cfg.validate();
    assert!(result.is_err());
}

#[test]
fn test_validate_k_gte_num_points() {
    let cfg = Config {
        k: 44,
        num_points: 43,
        ..test_cfg()
    };

    let result = cfg.validate();
    assert!(result.is_err());
}

#[test]
fn test_validate_k() {
    let cfg = Config { k: 0, ..test_cfg() };

    let result = cfg.validate();
    assert!(result.is_err());
}

#[test]
fn test_validate_iterations() {
    let cfg = Config {
        iterations: 0,
        ..test_cfg()
    };

    let result = cfg.validate();
    assert!(result.is_err());
}

#[test]
fn test_validate_input_points() {
    let lower = Point { x: 0, y: 0 };
    let upper = Point {
        x: 2_000_000,
        y: 2_000_000,
    };
    let inside = vec![
        Point {
            x: 100_000,
            y: 100_000,
        },
        Point {
            x: 1_999_999,
            y: 0,
        },
    ];
    assert!(validate_input_points(&inside, 2, &lower, &upper));
    // too few points for k
    assert!(!validate_input_points(&inside, 3, &lower, &upper));
    // a point on the upper edge is out of the half-open rectangle
    let edge = vec![
        Point { x: 0, y: 0 },
        Point {
            x: 2_000_000,
            y: 100_000,
        },
    ];
    assert!(!validate_input_points(&edge, 1, &lower, &upper));
}

#[test]
fn test_validation_error_message() {
    let cfg = Config { k: 0, ..test_cfg() };
    let err = cfg.validate().unwrap_err();
    assert_eq!("kmeans-rs: k must be positive", err.err_msg);
}
