use kmeans_rs::generate::{generate_point, generate_points};
use kmeans_rs::point::{ParsePointError, Point};

#[test]
fn test_gen_points() {
    let bounds = (
        Point { x: 0, y: 0 },
        Point {
            x: 10_000_000,
            y: 10_000_000,
        },
    );
    let ps = generate_points(bounds, 13);

    assert_eq!(13, ps.len());
    ps.iter().for_each(|p| {
        assert!(p.x >= bounds.0.x);
        assert!(p.y >= bounds.0.y);
        assert!(p.x < bounds.1.x);
        assert!(p.y < bounds.1.y);
    });
}

#[test]
fn test_gen_point() {
    let bounds = (
        Point { x: 0, y: 0 },
        Point {
            x: 10_000_000,
            y: 10_000_000,
        },
    );
    let p = generate_point(bounds);

    assert!(p.x >= bounds.0.x);
    assert!(p.y >= bounds.0.y);
    assert!(p.x < bounds.1.x);
    assert!(p.y < bounds.1.y);
}

#[test]
fn test_point_from_str() {
    let result = Point::from_str("22,33");
    assert!(&result.is_ok());

    let p: Point = result.unwrap();
    assert_eq!(2_200_000, p.x);
    assert_eq!(3_300_000, p.y);
}

#[test]
fn test_eq_point() {
    let p1 = Point {
        x: 200_000,
        y: 400_000,
    };
    let p2 = p1.clone();
    let p3 = Point {
        x: 11_110_000,
        y: 555_550_000,
    };

    assert_eq!(p1, p2);
    assert!(p1 != p3);
}

#[test]
fn test_point_from_str_decimals_and_sign() {
    let p = Point::from_str("1.5,-2.25").unwrap();
    assert_eq!(150_000, p.x);
    assert_eq!(-225_000, p.y);

    // a trailing dot is a valid plain decimal
    let q = Point::from_str("12.,0").unwrap();
    assert_eq!(1_200_000, q.x);
    assert_eq!(0, q.y);

    // fraction digits beyond the grid resolution are dropped
    let r = Point::from_str("0.123456,0").unwrap();
    assert_eq!(12_345, r.x);
}

#[test]
fn test_point_from_str_ignores_extra_fields() {
    // like splitting on commas and reading the first two fields
    let p = Point::from_str("22,33,44").unwrap();
    assert_eq!(2_200_000, p.x);
    assert_eq!(3_300_000, p.y);
}

#[test]
fn test_point_from_str_rejects_malformed() {
    assert_eq!(Err(ParsePointError::Malformed), Point::from_str("22"));
    assert_eq!(Err(ParsePointError::Malformed), Point::from_str("abc,1"));
    assert_eq!(Err(ParsePointError::Malformed), Point::from_str("1,2x"));
    assert_eq!(Err(ParsePointError::Malformed), Point::from_str(",5"));
    assert_eq!(Err(ParsePointError::Malformed), Point::from_str("-,5"));
    assert_eq!(Err(ParsePointError::Malformed), Point::from_str(".5,1"));
    assert_eq!(Err(ParsePointError::Malformed), Point::from_str("1..2,3"));
}

#[test]
fn test_point_from_str_rejects_out_of_range() {
    // 99999999 coordinate units lie outside the coordinate bound
    assert_eq!(
        Err(ParsePointError::OutOfRange),
        Point::from_str("99999999,0")
    );
    assert_eq!(
        Err(ParsePointError::OutOfRange),
        Point::from_str("0,-10000.00001")
    );
    // the bound itself is representable
    let p = Point::from_str("10000,-10000").unwrap();
    assert_eq!(1_000_000_000, p.x);
    assert_eq!(-1_000_000_000, p.y);
}

#[test]
fn test_sum_squared_error() {
    // (0,0) against (3,4): squared distance 25 square units
    let a = Point { x: 0, y: 0 };
    let b = Point {
        x: 300_000,
        y: 400_000,
    };
    assert_eq!(250_000_000_000, a.sum_squared_error(&b));
    assert_eq!(250_000_000_000, b.sum_squared_error(&a));
    assert_eq!(0, a.sum_squared_error(&a));
}
