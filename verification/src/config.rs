use vstd::prelude::*;

use crate::generate::generate_clustered_points;
use crate::point::{point_in_bounds, Point};

verus! {

/// The engine-facing run parameters: cluster count, iteration budget,
/// how many points to generate when no input file supplies them, and
/// the bounds rectangle. Presentation and I/O settings (file paths,
/// output switches) live with the callers that use them.
#[derive(Clone, Copy, Debug)]
pub struct Config {
    pub k: usize,
    pub iterations: usize,
    pub num_points: usize,
    pub has_points_file: bool,
    pub lower_bound: Point,
    pub upper_bound: Point,
}

/// A rejected configuration, with the message describing what was wrong.
#[derive(Debug)]
pub struct ValidationError {
    pub err_msg: String,
}

impl ValidationError {
    /// Wrap a message as a boxed validation error.
    pub fn new(msg: &str) -> (r: Box<ValidationError>)
        ensures
            r.err_msg@ == msg@,
    {
        Box::new(ValidationError { err_msg: msg.to_owned() })
    }
}

impl Config {
    /// Check the configuration before a run: the bounds rectangle must
    /// be non-degenerate, `k` and the iteration budget positive, and —
    /// when the points are to be generated rather than loaded — the
    /// requested point count no smaller than `k`. Exactly the first
    /// failed check's error is returned.
    pub fn validate(&self) -> (r: Result<(), Box<ValidationError>>)
        ensures
            ({
                let bad_bounds = self.lower_bound.x >= self.upper_bound.x || self.lower_bound.y
                    >= self.upper_bound.y;
                let bad_k = self.k < 1;
                let bad_iterations = self.iterations < 1;
                let bad_num_points = !self.has_points_file && self.num_points < self.k;
                &&& (r is Ok <==> !bad_bounds && !bad_k && !bad_iterations && !bad_num_points)
                &&& (bad_bounds ==> r is Err && (r->Err_0).err_msg@
                    == "kmeans-rs: lower bounds cannot be greater than upper bounds"@)
                &&& (!bad_bounds && bad_k ==> r is Err && (r->Err_0).err_msg@
                    == "kmeans-rs: k must be positive"@)
                &&& (!bad_bounds && !bad_k && bad_iterations ==> r is Err && (r->Err_0).err_msg@
                    == "kmean-rs: no point in performing less than 1 iteration"@)
                &&& (!bad_bounds && !bad_k && !bad_iterations && bad_num_points ==> r is Err && (
                r->Err_0).err_msg@ == "kmeans-rs: k is greater than num_points"@)
            }),
    {
        if self.lower_bound.x >= self.upper_bound.x || self.lower_bound.y >= self.upper_bound.y {
            return Err(
                ValidationError::new("kmeans-rs: lower bounds cannot be greater than upper bounds"),
            );
        }

        if self.k < 1 {
            return Err(ValidationError::new("kmeans-rs: k must be positive"));
        }

        if self.iterations < 1 {
            return Err(
                ValidationError::new("kmean-rs: no point in performing less than 1 iteration"),
            );
        }

        if !self.has_points_file {
            if self.num_points < self.k {
                return Err(ValidationError::new("kmeans-rs: k is greater than num_points"));
            }
        }

        Ok(())
    }

    /// The bounds rectangle, lower-left corner first.
    pub fn bounds(&self) -> (r: (Point, Point))
        ensures
            r.0 == self.lower_bound,
            r.1 == self.upper_bound,
    {
        (self.lower_bound, self.upper_bound)
    }

    /// The input points of a run without a points file: `num_points`
    /// pre-clustered points generated within the bounds rectangle.
    /// Loading points from a file is the caller's business; the loaded
    /// points are then screened with `validate_input_points`.
    pub fn points(&self) -> (r: Vec<Point>)
        requires
            !self.has_points_file,
            self.k >= 1,
            self.lower_bound.in_range(),
            self.upper_bound.in_range(),
            self.lower_bound.x < self.upper_bound.x,
            self.lower_bound.y < self.upper_bound.y,
        ensures
            r@.len() == self.num_points,
            forall|i: int| 0 <= i < r@.len() ==> point_in_bounds(
                #[trigger] r@[i],
                self.lower_bound,
                self.upper_bound,
            ),
            forall|i: int| 0 <= i < r@.len() ==> (#[trigger] r@[i]).in_range(),
    {
        generate_clustered_points(self.bounds(), self.k, self.num_points)
    }
}

/// The screen applied to points loaded from a file: accepted exactly
/// when at least `k` points came in and every one lies within the
/// bounds rectangle.
pub fn validate_input_points(points: &Vec<Point>, k: usize, lower: &Point, upper: &Point) -> (ok:
    bool)
    ensures
        ok <==> (points@.len() >= k && forall|i: int| 0 <= i < points@.len() ==> point_in_bounds(
            #[trigger] points@[i],
            *lower,
            *upper,
        )),
{
    if points.len() < k {
        return false;
    }
    let n = points.len();
    for i in 0..n
        invariant
            n == points@.len(),
            forall|t: int| 0 <= t < i ==> point_in_bounds(#[trigger] points@[t], *lower, *upper),
    {
        let p = &points[i];
        if p.x < lower.x || p.x >= upper.x || p.y < lower.y || p.y >= upper.y {
            return false;
        }
    }
    true
}

} // verus!
