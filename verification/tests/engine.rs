use kmeans_rs::config::Config;
use kmeans_rs::kmeans::{
    execute, regroup_points, run_kmeans, KmeansError, Snapshot, Termination,
};
use kmeans_rs::generate::generate_clustered_points;
use kmeans_rs::point::{Centroid, Point};

// One coordinate unit is 100_000 grid steps.
const UNIT: i64 = 100_000;

fn pt(x: i64, y: i64) -> Point {
    Point {
        x: x * UNIT,
        y: y * UNIT,
    }
}

fn cent(x: i64, y: i64, id: usize) -> Centroid {
    Centroid { p: pt(x, y), id }
}

fn member_count(s: &Snapshot) -> usize {
    s.cluster.entries.iter().map(|e| e.members.len()).sum()
}

// Every point lands in exactly one cluster entry: the total member
// count equals the input size, in every snapshot.
#[test]
fn test_assignment_is_partition() {
    let points = vec![pt(0, 0), pt(0, 1), pt(10, 0), pt(10, 1), pt(5, 5)];
    let centroids = vec![cent(0, 0, 1), cent(10, 0, 2), cent(5, 5, 3)];
    let (cluster, _err) = regroup_points(&points, &centroids).unwrap();
    let total: usize = cluster.entries.iter().map(|e| e.members.len()).sum();
    assert_eq!(points.len(), total);
    assert_eq!(centroids.len(), cluster.entries.len());
}

// The assignment step is deterministic: repeating it on the same
// inputs yields the identical cluster and the identical total error.
#[test]
fn test_assignment_idempotent() {
    let points = vec![pt(0, 0), pt(3, 4), pt(10, 1), pt(-2, -2)];
    let centroids = vec![cent(0, 0, 1), cent(10, 0, 2)];
    let (c1, e1) = regroup_points(&points, &centroids).unwrap();
    let (c2, e2) = regroup_points(&points, &centroids).unwrap();
    assert_eq!(c1, c2);
    assert_eq!(e1, e2);
}

// An empty candidate list is a programming fault.
#[test]
fn test_assignment_empty_centroids() {
    let points = vec![pt(0, 0)];
    let centroids: Vec<Centroid> = vec![];
    assert_eq!(
        Err(KmeansError::InvalidState),
        regroup_points(&points, &centroids)
    );
}

// Ties go to the first centroid in candidate order.
#[test]
fn test_assignment_tie_breaks_first() {
    let points = vec![pt(5, 0)];
    let centroids = vec![cent(0, 0, 1), cent(10, 0, 2)];
    let (cluster, err) = regroup_points(&points, &centroids).unwrap();
    assert_eq!(1, cluster.entries[0].members.len());
    assert_eq!(0, cluster.entries[1].members.len());
    // 5 units squared = 25 square units
    assert_eq!(25 * (UNIT as u128) * (UNIT as u128), err);
}

// Centroid identities are preserved across all iterations.
#[test]
fn test_identity_preserved_across_iterations() {
    let points = vec![pt(0, 0), pt(0, 1), pt(10, 0), pt(10, 1), pt(4, 7)];
    let initial = vec![cent(1, 1, 1), cent(9, 0, 2), cent(4, 4, 3)];
    let ids0: Vec<usize> = initial.iter().map(|c| c.id).collect();
    let (history, _term) = run_kmeans(&points, initial, 10);
    for snapshot in &history {
        let ids: Vec<usize> = snapshot.cluster.entries.iter().map(|e| e.centroid.id).collect();
        assert_eq!(ids0, ids);
        assert_eq!(points.len(), member_count(snapshot));
    }
}

// K = 1: a single cluster containing all points, with total error the
// sum of squared distances to the single centroid.
#[test]
fn test_single_cluster_owns_everything() {
    let points = vec![pt(0, 0), pt(3, 4), pt(-3, -4)];
    let initial = vec![cent(0, 0, 1)];
    let (history, _term) = run_kmeans(&points, initial, 10);
    let first = &history[0];
    assert_eq!(1, first.cluster.entries.len());
    assert_eq!(3, first.cluster.entries[0].members.len());
    // 0 + 25 + 25 square units
    assert_eq!(50 * (UNIT as u128) * (UNIT as u128), first.total_error);
}

// K at or above the point count is rejected with InvalidK.
#[test]
fn test_execute_rejects_bad_k() {
    let points = vec![pt(0, 0), pt(1, 1), pt(2, 2)];
    let cfg = Config {
        k: 3,
        iterations: 5,
        num_points: 3,
        has_points_file: true,
        lower_bound: pt(0, 0),
        upper_bound: pt(20, 20),
    };
    assert_eq!(Err(KmeansError::InvalidK), execute(&cfg, &points));
    let cfg_zero = Config { k: 0, ..cfg };
    assert_eq!(Err(KmeansError::InvalidK), execute(&cfg_zero, &points));
    let cfg_ok = Config { k: 2, ..cfg };
    assert!(execute(&cfg_ok, &points).is_ok());
}

#[test]
fn test_execute_rejects_bad_bounds() {
    let points = vec![pt(0, 0), pt(1, 1), pt(2, 2)];
    let cfg = Config {
        k: 2,
        iterations: 5,
        num_points: 3,
        has_points_file: true,
        lower_bound: pt(20, 20),
        upper_bound: pt(20, 20),
    };
    assert_eq!(Err(KmeansError::InvalidBounds), execute(&cfg, &points));
}

#[test]
fn test_execute_rejects_bad_iteration_budget() {
    let points = vec![pt(0, 0), pt(1, 1), pt(2, 2)];
    let cfg = Config {
        k: 2,
        iterations: 0,
        num_points: 3,
        has_points_file: true,
        lower_bound: pt(0, 0),
        upper_bound: pt(20, 20),
    };
    assert_eq!(
        Err(KmeansError::InvalidIterationBudget),
        execute(&cfg, &points)
    );
}

// Four points in two obvious pairs converge to the pair means within
// the iteration budget.
#[test]
fn test_two_cluster_scenario_converges() {
    let points = vec![pt(0, 0), pt(0, 1), pt(10, 0), pt(10, 1)];
    let initial = vec![cent(0, 0, 1), cent(10, 0, 2)];
    let (history, term) = run_kmeans(&points, initial, 10);

    assert_eq!(Termination::Converged, term);
    assert!(history.len() <= 11);
    let last = history.last().unwrap();
    // centroids settle at (0, 0.5) and (10, 0.5), owning two points each
    assert_eq!(
        Point {
            x: 0,
            y: UNIT / 2
        },
        last.cluster.entries[0].centroid.p
    );
    assert_eq!(
        Point {
            x: 10 * UNIT,
            y: UNIT / 2
        },
        last.cluster.entries[1].centroid.p
    );
    assert_eq!(2, last.cluster.entries[0].members.len());
    assert_eq!(2, last.cluster.entries[1].members.len());

    // errors never go negative and the final pair stabilized
    let n = history.len();
    let prev = history[n - 2].total_error;
    let curr = history[n - 1].total_error;
    assert!(prev.abs_diff(curr) < 100_000_000);
}

// All points identical, K = 1: immediate convergence with zero error.
#[test]
fn test_identical_points_converge_immediately() {
    let points = vec![pt(3, 3); 5];
    let initial = vec![cent(3, 3, 1)];
    let (history, term) = run_kmeans(&points, initial, 10);

    assert_eq!(Termination::Converged, term);
    assert_eq!(2, history.len());
    assert_eq!(0, history[0].total_error);
    assert_eq!(0, history[1].total_error);
}

// A budget of one iteration on data that needs several: the run ends
// EXHAUSTED with a two-entry history (iterations 0 and 1).
#[test]
fn test_budget_exhausted_after_one_iteration() {
    let points = vec![
        pt(0, 0),
        pt(1, 0),
        pt(2, 0),
        pt(3, 0),
        pt(4, 0),
        pt(5, 0),
        pt(6, 0),
        pt(7, 0),
        pt(8, 0),
        pt(9, 0),
    ];
    let initial = vec![cent(0, 0, 1), cent(1, 0, 2)];
    let (history, term) = run_kmeans(&points, initial, 1);

    assert_eq!(Termination::Exhausted, term);
    assert_eq!(2, history.len());
    assert_eq!(0, history[0].iteration);
    assert_eq!(1, history[1].iteration);
}

// The end-to-end entry produces a history with the right shape.
#[test]
fn test_execute_history_shape() {
    let points = vec![pt(1, 1), pt(2, 2), pt(8, 8), pt(9, 9), pt(5, 1)];
    let cfg = Config {
        k: 2,
        iterations: 7,
        num_points: 5,
        has_points_file: true,
        lower_bound: pt(0, 0),
        upper_bound: pt(20, 20),
    };
    let run = execute(&cfg, &points).unwrap();
    assert!(run.history.len() >= 2);
    assert!(run.history.len() <= 8);
    for (i, snapshot) in run.history.iter().enumerate() {
        assert_eq!(i, snapshot.iteration);
        assert_eq!(2, snapshot.cluster.entries.len());
        assert_eq!(points.len(), member_count(snapshot));
        let ids: Vec<usize> = snapshot.cluster.entries.iter().map(|e| e.centroid.id).collect();
        assert_eq!(vec![1, 2], ids);
    }
    match run.termination {
        Termination::Converged => {
            let n = run.history.len();
            let prev = run.history[n - 2].total_error;
            let curr = run.history[n - 1].total_error;
            assert!(prev.abs_diff(curr) < 100_000_000);
        }
        Termination::Exhausted => {
            assert_eq!(8, run.history.len());
        }
    }
}

// Sampling initial centroids from the input points.
#[test]
fn test_select_initial_centroids() {
    let points = vec![pt(0, 0), pt(1, 1), pt(2, 2), pt(3, 3), pt(4, 4)];
    let centroids = Point::select_initial_centroids(&points, 3);
    assert_eq!(3, centroids.len());
    for (i, c) in centroids.iter().enumerate() {
        assert_eq!(i + 1, c.id);
        assert!(points.contains(&c.p));
    }
}

// Demo point generation stays within the bounds rectangle.
#[test]
fn test_generate_clustered_points() {
    let bounds = (pt(0, 0), pt(20, 20));
    let points = generate_clustered_points(bounds, 4, 50);
    assert_eq!(50, points.len());
    for p in &points {
        assert!(p.x >= 0 && p.x < 20 * UNIT);
        assert!(p.y >= 0 && p.y < 20 * UNIT);
    }
}
