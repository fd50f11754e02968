use vstd::prelude::*;

use crate::point::{point_in_bounds, Centroid, Point, COORD_LIMIT};
use rand::Rng;
use vstd::arithmetic::div_mod::{lemma_div_basics, lemma_div_is_ordered_by_denominator};

verus! {

/// How many random draws a bounded rejection loop makes before it falls
/// back to the cluster center itself.
pub const REJECTION_ATTEMPTS: usize = 16;

/// Relies on `rand::Rng::gen_range` over the `i64` range `lo..hi`: for
/// a non-empty range it returns a value of that half-open range (it
/// panics on an empty one, which the precondition rules out).
#[verifier::external_body]
fn random_in_range(lo: i64, hi: i64) -> (r: i64)
    requires
        lo < hi,
    ensures
        lo <= r < hi,
{
    rand::thread_rng().gen_range(lo..hi)
}

/// Relies on `rand::Rng::gen` with the `Standard` distribution for
/// `usize`: some machine-word value; nothing is assumed about it.
#[verifier::external_body]
fn random_usize() -> (r: usize) {
    rand::thread_rng().gen()
}

/// Draw one point uniformly at random within the half-open rectangle
/// `[lower.x, upper.x) x [lower.y, upper.y)`.
pub fn generate_point(bounds: (Point, Point)) -> (r: Point)
    requires
        bounds.0.in_range(),
        bounds.1.in_range(),
        bounds.0.x < bounds.1.x,
        bounds.0.y < bounds.1.y,
    ensures
        point_in_bounds(r, bounds.0, bounds.1),
        r.in_range(),
{
    let x = random_in_range(bounds.0.x, bounds.1.x);
    let y = random_in_range(bounds.0.y, bounds.1.y);
    Point { x, y }
}

/// Draw `cardinality` points independently and uniformly within the
/// bounds rectangle.
pub fn generate_points(bounds: (Point, Point), cardinality: usize) -> (r: Vec<Point>)
    requires
        bounds.0.in_range(),
        bounds.1.in_range(),
        bounds.0.x < bounds.1.x,
        bounds.0.y < bounds.1.y,
    ensures
        r@.len() == cardinality,
        forall|i: int| 0 <= i < r@.len() ==> point_in_bounds(#[trigger] r@[i], bounds.0, bounds.1),
        forall|i: int| 0 <= i < r@.len() ==> (#[trigger] r@[i]).in_range(),
{
    let mut points: Vec<Point> = Vec::new();
    for _n in 0..cardinality
        invariant
            bounds.0.in_range(),
            bounds.1.in_range(),
            bounds.0.x < bounds.1.x,
            bounds.0.y < bounds.1.y,
            points@.len() == _n,
            forall|i: int| 0 <= i < points@.len() ==> point_in_bounds(
                #[trigger] points@[i],
                bounds.0,
                bounds.1,
            ),
            forall|i: int| 0 <= i < points@.len() ==> (#[trigger] points@[i]).in_range(),
    {
        points.push(generate_point(bounds));
    }
    points
}

/// Draw one point near `cluster_center`: a random offset of at most
/// `radius` on each axis, redrawn while the candidate leaves the bounds
/// rectangle. The retry loop is bounded; if every attempt lands outside
/// the bounds, the center itself (which lies within them) is returned.
fn generate_clustered_point(bounds: (Point, Point), cluster_center: &Point, radius: i64) -> (r:
    Point)
    requires
        bounds.0.in_range(),
        bounds.1.in_range(),
        bounds.0.x < bounds.1.x,
        bounds.0.y < bounds.1.y,
        point_in_bounds(*cluster_center, bounds.0, bounds.1),
        0 <= radius <= 2 * COORD_LIMIT,
    ensures
        point_in_bounds(r, bounds.0, bounds.1),
        r.in_range(),
{
    for _attempt in 0..REJECTION_ATTEMPTS
        invariant
            bounds.0.in_range(),
            bounds.1.in_range(),
            point_in_bounds(*cluster_center, bounds.0, bounds.1),
            0 <= radius <= 2 * COORD_LIMIT,
    {
        let dx = if radius > 0 {
            random_in_range(-radius, radius)
        } else {
            0
        };
        let dy = if radius > 0 {
            random_in_range(-radius, radius)
        } else {
            0
        };
        let candidate = Point { x: cluster_center.x + dx, y: cluster_center.y + dy };
        if candidate.x >= bounds.0.x && candidate.x < bounds.1.x && candidate.y >= bounds.0.y
            && candidate.y < bounds.1.y {
            return candidate;
        }
    }
    *cluster_center
}

/// Generate `num_points` pre-clustered demo points: `num_clusters`
/// random cluster centers, then points scattered around the centers in
/// rotation, each within a radius derived from the bounds.
pub fn generate_clustered_points(
    bounds: (Point, Point),
    num_clusters: usize,
    num_points: usize,
) -> (r: Vec<Point>)
    requires
        bounds.0.in_range(),
        bounds.1.in_range(),
        bounds.0.x < bounds.1.x,
        bounds.0.y < bounds.1.y,
        num_clusters >= 1,
    ensures
        r@.len() == num_points,
        forall|i: int| 0 <= i < r@.len() ==> point_in_bounds(#[trigger] r@[i], bounds.0, bounds.1),
        forall|i: int| 0 <= i < r@.len() ==> (#[trigger] r@[i]).in_range(),
{
    let centers = generate_points(bounds, num_clusters);

    let xbound: i64 = bounds.1.x - bounds.0.x;
    let ybound: i64 = bounds.1.y - bounds.0.y;
    let min_bound: i64 = if xbound >= ybound {
        ybound
    } else {
        xbound
    };
    let max_radius: i64 = ((min_bound as u128) / (num_clusters as u128)) as i64;
    proof {
        lemma_div_is_ordered_by_denominator(min_bound as int, 1, num_clusters as int);
        lemma_div_basics(min_bound as int);
    }

    let mut points: Vec<Point> = Vec::new();
    for ndx in 0..num_points
        invariant
            bounds.0.in_range(),
            bounds.1.in_range(),
            bounds.0.x < bounds.1.x,
            bounds.0.y < bounds.1.y,
            num_clusters >= 1,
            centers@.len() == num_clusters,
            forall|i: int| 0 <= i < centers@.len() ==> point_in_bounds(
                #[trigger] centers@[i],
                bounds.0,
                bounds.1,
            ),
            0 <= max_radius <= 2 * COORD_LIMIT,
            points@.len() == ndx,
            forall|i: int| 0 <= i < points@.len() ==> point_in_bounds(
                #[trigger] points@[i],
                bounds.0,
                bounds.1,
            ),
            forall|i: int| 0 <= i < points@.len() ==> (#[trigger] points@[i]).in_range(),
    {
        let selection = ndx % centers.len();
        points.push(generate_clustered_point(bounds, &centers[selection], max_radius));
    }
    points
}

/// Number of `true` entries among the first `n` of a flag sequence.
pub open spec fn count_used(s: Seq<bool>, n: int) -> int
    decreases n,
{
    if n <= 0 {
        0
    } else {
        count_used(s, n - 1) + if s[n - 1] {
            1int
        } else {
            0int
        }
    }
}

/// Marking one unmarked flag raises the count by one.
proof fn lemma_count_used_update(s: Seq<bool>, j: int, n: int)
    requires
        0 <= j < s.len(),
        !s[j],
        0 <= n <= s.len(),
    ensures
        count_used(s.update(j, true), n) == count_used(s, n) + if j < n {
            1int
        } else {
            0int
        },
    decreases n,
{
    if n > 0 {
        lemma_count_used_update(s, j, n - 1);
    }
}

/// An unmarked prefix counts nothing.
proof fn lemma_count_used_none(s: Seq<bool>, n: int)
    requires
        0 <= n <= s.len(),
        forall|t: int| 0 <= t < n ==> !s[t],
    ensures
        count_used(s, n) == 0,
    decreases n,
{
    if n > 0 {
        lemma_count_used_none(s, n - 1);
    }
}

/// A fully marked prefix accounts for its whole length.
proof fn lemma_count_used_full(s: Seq<bool>, n: int)
    requires
        0 <= n <= s.len(),
        forall|t: int| 0 <= t < n ==> s[t],
    ensures
        count_used(s, n) == n,
    decreases n,
{
    if n > 0 {
        lemma_count_used_full(s, n - 1);
    }
}

impl Point {
    /// Sample `k` of the input points as the initial centroids, with
    /// identities `1..=k`. Each draw prefers a random index; an index
    /// that was already taken falls back to the first untaken one, so
    /// that exactly `k` centroids come back, at `k` distinct indices.
    pub fn select_initial_centroids(points: &Vec<Point>, k: usize) -> (r: Vec<Centroid>)
        requires
            1 <= k <= points@.len(),
        ensures
            r@.len() == k,
            forall|i: int| 0 <= i < r@.len() ==> (#[trigger] r@[i]).id == i + 1,
            forall|i: int| 0 <= i < r@.len() ==> points@.contains((#[trigger] r@[i]).p),
    {
        let n = points.len();
        let mut used: Vec<bool> = vec![false; n];
        proof {
            lemma_count_used_none(used@, n as int);
        }
        let mut selections: Vec<Centroid> = Vec::new();
        for idx in 0..k
            invariant
                n == points@.len(),
                1 <= k <= n,
                used@.len() == n,
                selections@.len() == idx,
                count_used(used@, n as int) == idx,
                forall|i: int| 0 <= i < selections@.len() ==> (#[trigger] selections@[i]).id == i
                    + 1,
                forall|i: int| 0 <= i < selections@.len() ==> points@.contains(
                    (#[trigger] selections@[i]).p,
                ),
        {
            let candidate = random_usize() % n;
            let mut j = candidate;
            if used[j] {
                j = 0;
                while j < n && used[j]
                    invariant
                        n == used@.len(),
                        j <= n,
                        forall|t: int| 0 <= t < j ==> used@[t],
                    decreases n - j,
                {
                    j = j + 1;
                }
                proof {
                    if j == n {
                        lemma_count_used_full(used@, n as int);
                        assert(false);
                    }
                }
            }
            proof {
                assert(points@.contains(points@[j as int]));
                lemma_count_used_update(used@, j as int, n as int);
            }
            selections.push(Centroid { p: points[j], id: idx + 1 });
            used[j] = true;
        }
        selections
    }
}

} // verus!
