use vstd::prelude::*;

use crate::config::Config;
use crate::generate::generate_point;
use crate::point::{point_in_bounds, Centroid, Point, COORD_LIMIT, MAX_SQ_ERROR};
use crate::point::lemma_sum_squared_error_bounds;
use vstd::arithmetic::div_mod::{
    lemma_div_is_ordered, lemma_div_multiples_vanish, lemma_hoist_over_denominator,
};

verus! {

/// Convergence tolerance on the total squared error, in squared grid
/// steps: one hundredth of a squared coordinate unit
/// (`SCALE * SCALE / 100`).
pub const EPSILON: u128 = 100_000_000;

/// Errors surfaced by the engine: the three input-validation failures,
/// detected before any iteration runs, and `InvalidState` for an empty
/// centroid list reaching the assignment step.
#[derive(Clone, Copy, PartialEq, Eq, Structural, Debug)]
pub enum KmeansError {
    InvalidBounds,
    InvalidK,
    InvalidIterationBudget,
    InvalidState,
}

/// How a run ended: the error stabilized within `EPSILON`, or the
/// iteration budget ran out first.
#[derive(Clone, Copy, PartialEq, Eq, Structural, Debug)]
pub enum Termination {
    Converged,
    Exhausted,
}

/// One centroid together with the points assigned to it this iteration,
/// in input order.
#[derive(Clone, PartialEq, Eq, Debug)]
pub struct ClusterEntry {
    pub centroid: Centroid,
    pub members: Vec<Point>,
}

/// One iteration's partition of the input points: entry `i` holds
/// candidate centroid `i` and the points whose nearest candidate it is.
/// A centroid that owns no points keeps its entry, with an empty list.
#[derive(Clone, PartialEq, Eq, Debug)]
pub struct Cluster {
    pub entries: Vec<ClusterEntry>,
}

impl View for Cluster {
    type V = Seq<(Centroid, Seq<Point>)>;

    open spec fn view(&self) -> Seq<(Centroid, Seq<Point>)> {
        self.entries@.map_values(|e: ClusterEntry| (e.centroid, e.members@))
    }
}

/// The immutable record of one iteration: its index, the partition it
/// produced, and the iteration's total squared error.
#[derive(Clone, PartialEq, Eq, Debug)]
pub struct Snapshot {
    pub iteration: usize,
    pub cluster: Cluster,
    pub total_error: u128,
}

/// Index of the centroid nearest to `p` among the first `n` candidates,
/// ties going to the earliest candidate (selection replaces the running
/// best only on a strictly smaller distance).
pub open spec fn nearest_upto(cs: Seq<Centroid>, p: Point, n: int) -> int
    recommends 1 <= n <= cs.len()
    decreases n,
{
    if n <= 1 {
        0
    } else {
        let best = nearest_upto(cs, p, n - 1);
        if cs[n - 1].p.spec_sum_squared_error(p) < cs[best].p.spec_sum_squared_error(p) {
            n - 1
        } else {
            best
        }
    }
}

/// Index of the first centroid at minimum squared distance from `p`.
pub open spec fn nearest(cs: Seq<Centroid>, p: Point) -> int {
    nearest_upto(cs, p, cs.len() as int)
}

/// The nearest index lies in range, no candidate is strictly closer, and
/// every earlier candidate is strictly farther (first-wins tie-break).
pub proof fn lemma_nearest_upto_properties(cs: Seq<Centroid>, p: Point, n: int)
    requires
        1 <= n <= cs.len(),
    ensures
        0 <= nearest_upto(cs, p, n) < n,
        forall|j: int| 0 <= j < n ==>
            cs[nearest_upto(cs, p, n)].p.spec_sum_squared_error(p)
                <= #[trigger] cs[j].p.spec_sum_squared_error(p),
        forall|j: int| 0 <= j < nearest_upto(cs, p, n) ==>
            cs[nearest_upto(cs, p, n)].p.spec_sum_squared_error(p)
                < #[trigger] cs[j].p.spec_sum_squared_error(p),
    decreases n,
{
    if n > 1 {
        lemma_nearest_upto_properties(cs, p, n - 1);
    }
}

/// The points among `ps` (in input order) whose nearest candidate in
/// `cs` has index `i`.
pub open spec fn members_of(cs: Seq<Centroid>, ps: Seq<Point>, i: int) -> Seq<Point>
    decreases ps.len(),
{
    if ps.len() == 0 {
        Seq::empty()
    } else {
        let rest = members_of(cs, ps.drop_last(), i);
        if nearest(cs, ps.last()) == i {
            rest.push(ps.last())
        } else {
            rest
        }
    }
}

/// The full partition of `ps` by nearest candidate in `cs`.
pub open spec fn spec_cluster(cs: Seq<Centroid>, ps: Seq<Point>) -> Seq<(Centroid, Seq<Point>)> {
    Seq::new(cs.len(), |i: int| (cs[i], members_of(cs, ps, i)))
}

/// Total squared error of the first `n` points: each contributes its
/// squared distance to its nearest candidate.
pub open spec fn error_upto(cs: Seq<Centroid>, ps: Seq<Point>, n: int) -> int
    decreases n,
{
    if n <= 0 {
        0
    } else {
        error_upto(cs, ps, n - 1) + cs[nearest(cs, ps[n - 1])].p.spec_sum_squared_error(ps[n - 1])
    }
}

/// Total squared error of an assignment of `ps` to `cs`.
pub open spec fn spec_total_error(cs: Seq<Centroid>, ps: Seq<Point>) -> int {
    error_upto(cs, ps, ps.len() as int)
}

/// All points of a sequence lie within the coordinate bound.
pub open spec fn points_in_range(ps: Seq<Point>) -> bool {
    forall|i: int| 0 <= i < ps.len() ==> #[trigger] ps[i].in_range()
}

/// All centroid positions of a sequence lie within the coordinate bound.
pub open spec fn centroids_in_range(cs: Seq<Centroid>) -> bool {
    forall|i: int| 0 <= i < cs.len() ==> #[trigger] cs[i].p.in_range()
}

/// Index of the first candidate centroid at minimum squared distance
/// from `p`, scanning candidates in order and keeping the running best
/// on ties.
fn nearest_index(centroids: &Vec<Centroid>, p: &Point) -> (r: usize)
    requires
        centroids@.len() >= 1,
        centroids_in_range(centroids@),
        p.in_range(),
    ensures
        r == nearest(centroids@, *p),
        r < centroids@.len(),
{
    proof {
        lemma_nearest_upto_properties(centroids@, *p, centroids@.len() as int);
    }
    let mut best: usize = 0;
    let mut best_error: u64 = centroids[0].p.sum_squared_error(p);
    let n = centroids.len();
    for i in 1..n
        invariant
            centroids@.len() == n,
            centroids_in_range(centroids@),
            p.in_range(),
            best == nearest_upto(centroids@, *p, i as int),
            0 <= best < i,
            best_error == centroids@[best as int].p.spec_sum_squared_error(*p),
    {
        let candidate_error = centroids[i].p.sum_squared_error(p);
        if candidate_error < best_error {
            best = i;
            best_error = candidate_error;
        }
    }
    best
}

/// Partition `points` by nearest centroid (first-wins on ties) and
/// report the total squared error. Every point lands in exactly one
/// entry; a centroid without points keeps an empty entry. An empty
/// candidate list is a programming fault and yields `InvalidState`.
pub fn regroup_points(points: &Vec<Point>, centroids: &Vec<Centroid>) -> (r: Result<
    (Cluster, u128),
    KmeansError,
>)
    requires
        points_in_range(points@),
        centroids_in_range(centroids@),
    ensures
        centroids@.len() == 0 <==> r is Err,
        r is Err ==> r == Result::<(Cluster, u128), KmeansError>::Err(KmeansError::InvalidState),
        r is Ok ==> (r->Ok_0).0@ == spec_cluster(centroids@, points@),
        r is Ok ==> (r->Ok_0).1 == spec_total_error(centroids@, points@),
{
    if centroids.len() == 0 {
        return Err(KmeansError::InvalidState);
    }
    let k = centroids.len();
    let n = points.len();

    let mut entries: Vec<ClusterEntry> = Vec::new();
    for i in 0..k
        invariant
            centroids@.len() == k,
            points@.len() == n,
            1 <= k,
            points_in_range(points@),
            centroids_in_range(centroids@),
            entries@.len() == i,
            forall|t: int| 0 <= t < i ==> #[trigger] entries@[t].centroid == centroids@[t],
            forall|t: int| 0 <= t < i ==>
                #[trigger] entries@[t].members@ == members_of(centroids@, points@, t),
    {
        let mut members: Vec<Point> = Vec::new();
        for j in 0..n
            invariant
                centroids@.len() == k,
                points@.len() == n,
                1 <= k,
                i < k,
                points_in_range(points@),
                centroids_in_range(centroids@),
                members@ == members_of(centroids@, points@.take(j as int), i as int),
        {
            proof {
                assert(points@.take(j + 1).drop_last() == points@.take(j as int));
                assert(points@.take(j + 1).last() == points@[j as int]);
            }
            if nearest_index(centroids, &points[j]) == i {
                members.push(points[j]);
            }
        }
        proof {
            assert(points@.take(n as int) == points@);
        }
        entries.push(ClusterEntry { centroid: centroids[i], members });
    }

    let mut total_error: u128 = 0;
    for j in 0..n
        invariant
            centroids@.len() == k,
            points@.len() == n,
            1 <= k,
            points_in_range(points@),
            centroids_in_range(centroids@),
            total_error == error_upto(centroids@, points@, j as int),
            total_error <= j * MAX_SQ_ERROR,
    {
        let idx = nearest_index(centroids, &points[j]);
        let err = centroids[idx].p.sum_squared_error(&points[j]);
        proof {
            lemma_nearest_upto_properties(centroids@, points@[j as int], k as int);
            lemma_sum_squared_error_bounds(centroids@[idx as int].p, points@[j as int]);
            assert((j + 1) * MAX_SQ_ERROR <= 0x10000000000000000 * MAX_SQ_ERROR
                && 0x10000000000000000 * MAX_SQ_ERROR < u128::MAX) by (nonlinear_arith)
                requires 0 <= j < 0x10000000000000000;
            assert(j * MAX_SQ_ERROR + MAX_SQ_ERROR == (j + 1) * MAX_SQ_ERROR) by (nonlinear_arith);
        }
        total_error = total_error + (err as u128);
    }

    let cluster = Cluster { entries };
    proof {
        assert(cluster@ =~= spec_cluster(centroids@, points@));
    }
    Ok((cluster, total_error))
}

/// Sum of the x coordinates of a sequence of points.
pub open spec fn sum_x(ps: Seq<Point>) -> int
    decreases ps.len(),
{
    if ps.len() == 0 {
        0
    } else {
        sum_x(ps.drop_last()) + ps.last().x
    }
}

/// Sum of the y coordinates of a sequence of points.
pub open spec fn sum_y(ps: Seq<Point>) -> int
    decreases ps.len(),
{
    if ps.len() == 0 {
        0
    } else {
        sum_y(ps.drop_last()) + ps.last().y
    }
}

/// Coordinate sums over in-range points stay within `len * COORD_LIMIT`.
pub proof fn lemma_coordinate_sum_bounds(ps: Seq<Point>)
    requires
        points_in_range(ps),
    ensures
        -COORD_LIMIT * ps.len() <= sum_x(ps) <= COORD_LIMIT * ps.len(),
        -COORD_LIMIT * ps.len() <= sum_y(ps) <= COORD_LIMIT * ps.len(),
    decreases ps.len(),
{
    if ps.len() > 0 {
        assert(points_in_range(ps.drop_last()));
        lemma_coordinate_sum_bounds(ps.drop_last());
        let m = ps.len() - 1;
        assert(ps[m].in_range());
        assert(ps.last() == ps[m]);
        assert(COORD_LIMIT * m + COORD_LIMIT == COORD_LIMIT * (m + 1)) by (nonlinear_arith);
        assert(-COORD_LIMIT * m - COORD_LIMIT == -COORD_LIMIT * (m + 1)) by (nonlinear_arith);
        assert(ps.len() as int == m + 1);
    }
}

/// A quotient of a sum bounded by `n * COORD_LIMIT`, divided by `n`,
/// stays within the coordinate bound.
pub proof fn lemma_mean_in_range(s: int, n: int)
    requires
        n >= 1,
        -COORD_LIMIT * n <= s <= COORD_LIMIT * n,
    ensures
        -COORD_LIMIT <= s / n <= COORD_LIMIT,
{
    assert(COORD_LIMIT * n == n * COORD_LIMIT) by (nonlinear_arith);
    assert(-COORD_LIMIT * n == n * (-COORD_LIMIT as int)) by (nonlinear_arith);
    lemma_div_is_ordered(s, n * COORD_LIMIT, n);
    lemma_div_is_ordered(n * (-COORD_LIMIT as int), s, n);
    lemma_div_multiples_vanish(COORD_LIMIT as int, n);
    lemma_div_multiples_vanish(-COORD_LIMIT as int, n);
}

/// The arithmetic mean of the members' x coordinates, rounded down to
/// the grid.
pub open spec fn spec_mean_x(ms: Seq<Point>) -> int
    recommends ms.len() > 0
{
    sum_x(ms) / ms.len() as int
}

/// The arithmetic mean of the members' y coordinates, rounded down to
/// the grid.
pub open spec fn spec_mean_y(ms: Seq<Point>) -> int
    recommends ms.len() > 0
{
    sum_y(ms) / ms.len() as int
}

/// The update step for one centroid: its position moves to the mean of
/// its members; a centroid with no members keeps position and identity
/// unchanged, so it may recover members in a later iteration. The
/// identity is carried over in every case.
pub open spec fn spec_next_centroid(c: Centroid, ms: Seq<Point>) -> Centroid {
    if ms.len() == 0 {
        c
    } else {
        Centroid { p: Point { x: spec_mean_x(ms) as i64, y: spec_mean_y(ms) as i64 }, id: c.id }
    }
}

/// The updated centroid of in-range inputs is in range, and its mean
/// coordinates need no truncation.
pub proof fn lemma_next_centroid_in_range(c: Centroid, ms: Seq<Point>)
    requires
        c.p.in_range(),
        points_in_range(ms),
    ensures
        spec_next_centroid(c, ms).p.in_range(),
        ms.len() > 0 ==> spec_next_centroid(c, ms).p.x == spec_mean_x(ms),
        ms.len() > 0 ==> spec_next_centroid(c, ms).p.y == spec_mean_y(ms),
{
    if ms.len() > 0 {
        lemma_coordinate_sum_bounds(ms);
        lemma_mean_in_range(sum_x(ms), ms.len() as int);
        lemma_mean_in_range(sum_y(ms), ms.len() as int);
    }
}

/// Recompute one centroid as the mean of its assigned points, keeping
/// its identity; with no assigned points, return it unchanged.
pub fn calculate_next_centroid(old_centroid: &Centroid, points: &Vec<Point>) -> (r: Centroid)
    requires
        old_centroid.p.in_range(),
        points_in_range(points@),
    ensures
        r == spec_next_centroid(*old_centroid, points@),
        r.p.in_range(),
{
    proof {
        lemma_next_centroid_in_range(*old_centroid, points@);
    }
    let n = points.len();
    if n == 0 {
        return *old_centroid;
    }
    let mut sx: u128 = 0;
    let mut sy: u128 = 0;
    for j in 0..n
        invariant
            points@.len() == n,
            1 <= n,
            points_in_range(points@),
            sx == sum_x(points@.take(j as int)) + j * (COORD_LIMIT as int),
            sy == sum_y(points@.take(j as int)) + j * (COORD_LIMIT as int),
    {
        proof {
            let jj = j as int;
            assert(points@[jj].in_range());
            assert(points@.take(jj + 1).drop_last() == points@.take(jj));
            assert(points@.take(jj + 1).last() == points@[jj]);
            assert(points_in_range(points@.take(jj)));
            lemma_coordinate_sum_bounds(points@.take(jj));
            assert(points@.take(jj).len() == jj);
            assert(jj * (COORD_LIMIT as int) <= 0x10000000000000000 * (COORD_LIMIT as int))
                by (nonlinear_arith)
                requires 0 <= jj < 0x10000000000000000;
            assert(COORD_LIMIT * jj == jj * (COORD_LIMIT as int)) by (nonlinear_arith);
            assert(-COORD_LIMIT * jj == -(jj * (COORD_LIMIT as int))) by (nonlinear_arith);
            assert(j * (COORD_LIMIT as int) + COORD_LIMIT == (j + 1) * (COORD_LIMIT as int))
                by (nonlinear_arith);
        }
        sx = sx + ((points[j].x + COORD_LIMIT) as u128);
        sy = sy + ((points[j].y + COORD_LIMIT) as u128);
    }
    proof {
        assert(points@.take(n as int) == points@);
        lemma_coordinate_sum_bounds(points@);
        assert(COORD_LIMIT * (n as int) == (n as int) * (COORD_LIMIT as int)) by (nonlinear_arith);
        assert(-COORD_LIMIT * (n as int) == -((n as int) * (COORD_LIMIT as int)))
            by (nonlinear_arith);
        lemma_hoist_over_denominator(sum_x(points@), COORD_LIMIT as int, n as nat);
        lemma_hoist_over_denominator(sum_y(points@), COORD_LIMIT as int, n as nat);
        lemma_mean_in_range(sum_x(points@), n as int);
        lemma_mean_in_range(sum_y(points@), n as int);
    }
    let qx = sx / (n as u128);
    let qy = sy / (n as u128);
    let x = (qx as i64) - COORD_LIMIT;
    let y = (qy as i64) - COORD_LIMIT;
    Centroid { p: Point { x, y }, id: old_centroid.id }
}

/// Every member list drawn from in-range points is in range.
pub proof fn lemma_members_of_in_range(cs: Seq<Centroid>, ps: Seq<Point>, i: int)
    requires
        points_in_range(ps),
    ensures
        points_in_range(members_of(cs, ps, i)),
    decreases ps.len(),
{
    if ps.len() > 0 {
        assert(points_in_range(ps.drop_last()));
        lemma_members_of_in_range(cs, ps.drop_last(), i);
        let rest = members_of(cs, ps.drop_last(), i);
        if nearest(cs, ps.last()) == i {
            assert(ps.last() == ps[ps.len() - 1]);
            assert(ps[ps.len() - 1].in_range());
            assert forall|t: int| 0 <= t < rest.push(ps.last()).len() implies #[trigger] rest.push(
                ps.last(),
            )[t].in_range() by {
                if t < rest.len() {
                    assert(rest[t].in_range());
                }
            }
        }
    }
}

/// One full update step: each candidate centroid moves to the mean of
/// its members under the current assignment.
pub open spec fn spec_step(cs: Seq<Centroid>, ps: Seq<Point>) -> Seq<Centroid> {
    Seq::new(cs.len(), |i: int| spec_next_centroid(cs[i], members_of(cs, ps, i)))
}

/// A step keeps the centroid count, keeps every identity in place, and
/// keeps every position in range.
pub proof fn lemma_step_properties(cs: Seq<Centroid>, ps: Seq<Point>)
    requires
        centroids_in_range(cs),
        points_in_range(ps),
    ensures
        spec_step(cs, ps).len() == cs.len(),
        forall|i: int| 0 <= i < cs.len() ==> #[trigger] spec_step(cs, ps)[i].id == cs[i].id,
        centroids_in_range(spec_step(cs, ps)),
{
    assert forall|i: int| 0 <= i < cs.len() implies #[trigger] spec_step(cs, ps)[i].id
        == cs[i].id by {
        lemma_members_of_in_range(cs, ps, i);
        lemma_next_centroid_in_range(cs[i], members_of(cs, ps, i));
    }
    assert forall|i: int| 0 <= i < spec_step(cs, ps).len() implies (#[trigger] spec_step(
        cs,
        ps,
    )[i]).p.in_range() by {
        lemma_members_of_in_range(cs, ps, i);
        lemma_next_centroid_in_range(cs[i], members_of(cs, ps, i));
    }
}

/// The candidate centroids before iteration `n`: the initial centroids
/// stepped `n` times against the same input points.
pub open spec fn spec_centroids_at(init: Seq<Centroid>, ps: Seq<Point>, n: nat) -> Seq<Centroid>
    decreases n,
{
    if n == 0 {
        init
    } else {
        spec_step(spec_centroids_at(init, ps, (n - 1) as nat), ps)
    }
}

/// The total squared error of iteration `n`'s assignment.
pub open spec fn spec_error_at(init: Seq<Centroid>, ps: Seq<Point>, n: nat) -> int {
    spec_total_error(spec_centroids_at(init, ps, n), ps)
}

/// Iteration `n >= 1` triggers convergence when its error differs from
/// the previous iteration's by less than `EPSILON`.
pub open spec fn spec_converged_at(init: Seq<Centroid>, ps: Seq<Point>, n: nat) -> bool
    recommends n >= 1
{
    vstd::math::abs(spec_error_at(init, ps, (n - 1) as nat) - spec_error_at(init, ps, n))
        < EPSILON
}

/// Every iteration's candidate list keeps the initial count, the
/// initial identities in place, and in-range positions.
pub proof fn lemma_centroids_at_properties(init: Seq<Centroid>, ps: Seq<Point>, n: nat)
    requires
        centroids_in_range(init),
        points_in_range(ps),
    ensures
        spec_centroids_at(init, ps, n).len() == init.len(),
        forall|i: int| 0 <= i < init.len() ==>
            #[trigger] spec_centroids_at(init, ps, n)[i].id == init[i].id,
        centroids_in_range(spec_centroids_at(init, ps, n)),
    decreases n,
{
    if n > 0 {
        lemma_centroids_at_properties(init, ps, (n - 1) as nat);
        lemma_step_properties(spec_centroids_at(init, ps, (n - 1) as nat), ps);
    }
}

/// Apply the update step to every entry of one iteration's cluster.
fn update_centroids(cluster: &Cluster) -> (r: Vec<Centroid>)
    requires
        forall|i: int| 0 <= i < cluster@.len() ==> (#[trigger] cluster@[i]).0.p.in_range(),
        forall|i: int| 0 <= i < cluster@.len() ==> points_in_range((#[trigger] cluster@[i]).1),
    ensures
        r@.len() == cluster@.len(),
        forall|i: int| 0 <= i < cluster@.len() ==>
            #[trigger] r@[i] == spec_next_centroid(cluster@[i].0, cluster@[i].1),
        centroids_in_range(r@),
{
    let mut next: Vec<Centroid> = Vec::new();
    let k = cluster.entries.len();
    for i in 0..k
        invariant
            cluster@.len() == k,
            forall|t: int| 0 <= t < cluster@.len() ==> (#[trigger] cluster@[t]).0.p.in_range(),
            forall|t: int| 0 <= t < cluster@.len() ==> points_in_range((#[trigger] cluster@[t]).1),
            next@.len() == i,
            forall|t: int| 0 <= t < i ==>
                #[trigger] next@[t] == spec_next_centroid(cluster@[t].0, cluster@[t].1),
            forall|t: int| 0 <= t < i ==> #[trigger] next@[t].p.in_range(),
    {
        proof {
            assert(cluster@[i as int] == (cluster.entries@[i as int].centroid,
                cluster.entries@[i as int].members@));
            lemma_next_centroid_in_range(cluster@[i as int].0, cluster@[i as int].1);
        }
        let entry = &cluster.entries[i];
        let c = calculate_next_centroid(&entry.centroid, &entry.members);
        next.push(c);
    }
    next
}

/// What a finished run guarantees, given the initial centroids `init`,
/// the input points `ps` and the iteration budget `max`:
/// snapshot `i` records exactly iteration `i`'s assignment and error
/// under the stepped centroids; no iteration before the last one
/// satisfied the convergence test; the run ends `Converged` exactly
/// when the last iteration satisfies it, and `Exhausted` only with the
/// budget spent.
pub open spec fn run_post(
    init: Seq<Centroid>,
    ps: Seq<Point>,
    max: nat,
    history: Seq<Snapshot>,
    term: Termination,
) -> bool {
    let fin = history.len() - 1;
    &&& 2 <= history.len() <= max + 1
    &&& forall|i: int| 0 <= i <= fin ==> (#[trigger] history[i]).iteration == i
    &&& forall|i: int| 0 <= i <= fin ==>
        (#[trigger] history[i]).cluster@ == spec_cluster(spec_centroids_at(init, ps, i as nat), ps)
    &&& forall|i: int| 0 <= i <= fin ==>
        (#[trigger] history[i]).total_error == spec_error_at(init, ps, i as nat)
    &&& forall|i: int| 1 <= i < fin ==> !(#[trigger] spec_converged_at(init, ps, i as nat))
    &&& (term == Termination::Converged <==> spec_converged_at(init, ps, fin as nat))
    &&& (term == Termination::Exhausted ==> fin == max)
}

/// Drive the assign/update loop: snapshot the initial assignment as
/// iteration 0, then update and reassign until the total squared error
/// stabilizes within `EPSILON` or `max_iterations` is reached. The full
/// ordered history is returned in both terminal states.
pub fn run_kmeans(points: &Vec<Point>, initial_centroids: Vec<Centroid>, max_iterations: usize)
    -> (r: (Vec<Snapshot>, Termination))
    requires
        points@.len() >= 1,
        initial_centroids@.len() >= 1,
        max_iterations >= 1,
        points_in_range(points@),
        centroids_in_range(initial_centroids@),
    ensures
        run_post(initial_centroids@, points@, max_iterations as nat, r.0@, r.1),
{
    let ghost init = initial_centroids@;
    let ghost ps = points@;

    let (cluster0, error0) = regroup_points(points, &initial_centroids).unwrap();
    let mut history: Vec<Snapshot> = Vec::new();
    history.push(Snapshot { iteration: 0, cluster: cluster0, total_error: error0 });

    let mut centroids: Vec<Centroid> = initial_centroids;
    let mut last_error: u128 = error0;
    let mut converged: bool = false;

    while history.len() <= max_iterations && !converged
        invariant
            ps == points@,
            1 <= history@.len() <= max_iterations + 1,
            ps.len() >= 1,
            init.len() >= 1,
            max_iterations >= 1,
            points_in_range(ps),
            centroids_in_range(init),
            centroids@ == spec_centroids_at(init, ps, (history@.len() - 1) as nat),
            centroids@.len() == init.len(),
            centroids_in_range(centroids@),
            forall|i: int| 0 <= i < history@.len() ==> (#[trigger] history@[i]).iteration == i,
            forall|i: int| 0 <= i < history@.len() ==> (#[trigger] history@[i]).cluster@
                == spec_cluster(spec_centroids_at(init, ps, i as nat), ps),
            forall|i: int| 0 <= i < history@.len() ==> (#[trigger] history@[i]).total_error
                == spec_error_at(init, ps, i as nat),
            last_error == spec_error_at(init, ps, (history@.len() - 1) as nat),
            converged ==> history@.len() >= 2 && spec_converged_at(
                init,
                ps,
                (history@.len() - 1) as nat,
            ),
            !converged && history@.len() >= 2 ==> !spec_converged_at(
                init,
                ps,
                (history@.len() - 1) as nat,
            ),
            forall|i: int| 1 <= i < history@.len() - 1 ==> !(#[trigger] spec_converged_at(
                init,
                ps,
                i as nat,
            )),
        decreases max_iterations + 1 - history@.len(),
    {
        let iter = history.len();
        let ghost cs_prev = centroids@;
        proof {
            assert(history@[iter - 1].cluster@ == spec_cluster(cs_prev, ps));
            assert forall|i: int| 0 <= i < history@[iter - 1].cluster@.len() implies
                (#[trigger] history@[iter - 1].cluster@[i]).0.p.in_range() && points_in_range(
                    history@[iter - 1].cluster@[i].1,
                ) by {
                assert(history@[iter - 1].cluster@[i] == (cs_prev[i], members_of(cs_prev, ps, i)));
                lemma_members_of_in_range(cs_prev, ps, i);
            }
        }
        let prev_snapshot = &history[iter - 1];
        let next_centroids = update_centroids(&prev_snapshot.cluster);
        proof {
            assert(next_centroids@ =~= spec_step(cs_prev, ps));
            assert(spec_centroids_at(init, ps, iter as nat) == spec_step(cs_prev, ps));
        }
        centroids = next_centroids;

        let (cluster, error) = regroup_points(points, &centroids).unwrap();
        history.push(Snapshot { iteration: iter, cluster, total_error: error });

        let close = if last_error >= error {
            last_error - error < EPSILON
        } else {
            error - last_error < EPSILON
        };
        proof {
            assert(close == spec_converged_at(init, ps, iter as nat));
        }
        if close {
            converged = true;
        }
        last_error = error;
    }

    let termination = if converged {
        Termination::Converged
    } else {
        Termination::Exhausted
    };
    (history, termination)
}

/// A well-formed initial centroid set for `k` clusters over the given
/// bounds rectangle: exactly `k` centroids, identities `1..=k` in
/// order, every position within the rectangle.
pub open spec fn spec_initial_centroids(cs: Seq<Centroid>, k: nat, lower: Point, upper: Point)
    -> bool {
    &&& cs.len() == k
    &&& forall|i: int| 0 <= i < cs.len() ==> (#[trigger] cs[i]).id == i + 1
    &&& forall|i: int| 0 <= i < cs.len() ==> point_in_bounds((#[trigger] cs[i]).p, lower, upper)
}

/// Initialize `cfg.k` centroids with identities `1..=k`, each at an
/// independent uniformly random position within the bounds rectangle.
pub fn init_centroids(cfg: &Config) -> (r: Vec<Centroid>)
    requires
        cfg.lower_bound.in_range(),
        cfg.upper_bound.in_range(),
        cfg.lower_bound.x < cfg.upper_bound.x,
        cfg.lower_bound.y < cfg.upper_bound.y,
        cfg.k >= 1,
    ensures
        spec_initial_centroids(r@, cfg.k as nat, cfg.lower_bound, cfg.upper_bound),
        centroids_in_range(r@),
{
    let k = cfg.k;
    let mut centroids: Vec<Centroid> = Vec::new();
    for idx in 0..k
        invariant
            cfg.lower_bound.in_range(),
            cfg.upper_bound.in_range(),
            cfg.lower_bound.x < cfg.upper_bound.x,
            cfg.lower_bound.y < cfg.upper_bound.y,
            centroids@.len() == idx,
            forall|i: int| 0 <= i < centroids@.len() ==> (#[trigger] centroids@[i]).id == i + 1,
            forall|i: int| 0 <= i < centroids@.len() ==> point_in_bounds(
                (#[trigger] centroids@[i]).p,
                cfg.lower_bound,
                cfg.upper_bound,
            ),
            forall|i: int| 0 <= i < centroids@.len() ==> (#[trigger] centroids@[i]).p.in_range(),
    {
        let p = generate_point((cfg.lower_bound, cfg.upper_bound));
        centroids.push(Centroid { p, id: idx + 1 });
    }
    centroids
}

/// A finished run: the ordered snapshot history, iteration 0 first, and
/// the terminal state that ended it.
#[derive(Clone, PartialEq, Eq, Debug)]
pub struct KmeansRun {
    pub history: Vec<Snapshot>,
    pub termination: Termination,
}

/// Run K-Means end to end: validate the inputs, initialize `cfg.k`
/// random centroids within the bounds rectangle, and iterate until the
/// total squared error stabilizes or `cfg.iterations` is reached.
/// Exactly the first failed validation's error comes back: degenerate
/// bounds, then `k` outside `1..points.len()`, then an empty iteration
/// budget. On success, the history and terminal state obey `run_post`
/// for some well-formed random initial centroid set.
pub fn execute(cfg: &Config, points: &Vec<Point>) -> (r: Result<KmeansRun, KmeansError>)
    requires
        points_in_range(points@),
        cfg.lower_bound.in_range(),
        cfg.upper_bound.in_range(),
    ensures
        ({
            let bounds_ok = cfg.lower_bound.x < cfg.upper_bound.x && cfg.lower_bound.y
                < cfg.upper_bound.y;
            let k_ok = 1 <= cfg.k < points@.len();
            let iterations_ok = cfg.iterations >= 1;
            &&& (!bounds_ok ==> r == Result::<KmeansRun, KmeansError>::Err(
                KmeansError::InvalidBounds,
            ))
            &&& (bounds_ok && !k_ok ==> r == Result::<KmeansRun, KmeansError>::Err(
                KmeansError::InvalidK,
            ))
            &&& (bounds_ok && k_ok && !iterations_ok ==> r == Result::<KmeansRun, KmeansError>::Err(
                KmeansError::InvalidIterationBudget,
            ))
            &&& (bounds_ok && k_ok && iterations_ok ==> r is Ok && exists|init: Seq<Centroid>|
                spec_initial_centroids(init, cfg.k as nat, cfg.lower_bound, cfg.upper_bound)
                    && #[trigger] run_post(
                    init,
                    points@,
                    cfg.iterations as nat,
                    (r->Ok_0).history@,
                    (r->Ok_0).termination,
                ))
        }),
{
    if !(cfg.lower_bound.x < cfg.upper_bound.x && cfg.lower_bound.y < cfg.upper_bound.y) {
        return Err(KmeansError::InvalidBounds);
    }
    if cfg.k < 1 || cfg.k >= points.len() {
        return Err(KmeansError::InvalidK);
    }
    if cfg.iterations < 1 {
        return Err(KmeansError::InvalidIterationBudget);
    }

    let initial_centroids = init_centroids(cfg);
    let ghost init = initial_centroids@;
    let (history, termination) = run_kmeans(points, initial_centroids, cfg.iterations);
    let run = KmeansRun { history, termination };
    proof {
        assert(spec_initial_centroids(init, cfg.k as nat, cfg.lower_bound, cfg.upper_bound)
            && run_post(init, points@, cfg.iterations as nat, run.history@, run.termination));
        assert(exists|witness: Seq<Centroid>|
            spec_initial_centroids(witness, cfg.k as nat, cfg.lower_bound, cfg.upper_bound)
                && #[trigger] run_post(
                witness,
                points@,
                cfg.iterations as nat,
                run.history@,
                run.termination,
            ));
    }
    Ok(run)
}

} // verus!
