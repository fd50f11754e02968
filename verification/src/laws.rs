use vstd::prelude::*;

use crate::kmeans::{
    centroids_in_range, error_upto, lemma_centroids_at_properties, lemma_nearest_upto_properties,
    members_of, nearest, points_in_range, run_post, spec_cluster, spec_total_error, Cluster,
    Snapshot, Termination, EPSILON,
};
use crate::point::Centroid;
use crate::point::Point;

verus! {

/// Number of points that the first `k` groups of the partition of `ps`
/// by nearest candidate in `cs` hold together.
pub open spec fn member_count_upto(cs: Seq<Centroid>, ps: Seq<Point>, k: int) -> int
    decreases k,
{
    if k <= 0 {
        0
    } else {
        member_count_upto(cs, ps, k - 1) + members_of(cs, ps, k - 1).len()
    }
}

/// Removing the last point removes exactly one membership, in the group
/// of that point's nearest candidate.
proof fn lemma_member_count_drop_last(cs: Seq<Centroid>, ps: Seq<Point>, k: int)
    requires
        ps.len() > 0,
        0 <= k,
    ensures
        member_count_upto(cs, ps, k) == member_count_upto(cs, ps.drop_last(), k) + (
        if 0 <= nearest(cs, ps.last()) < k {
            1int
        } else {
            0int
        }),
    decreases k,
{
    if k > 0 {
        lemma_member_count_drop_last(cs, ps, k - 1);
    }
}

/// The assignment step is a partition: over all groups together, every
/// input point is counted exactly once — none lost, none duplicated.
pub proof fn lemma_assignment_is_partition(cs: Seq<Centroid>, ps: Seq<Point>)
    requires
        cs.len() >= 1,
    ensures
        member_count_upto(cs, ps, cs.len() as int) == ps.len(),
    decreases ps.len(),
{
    if ps.len() == 0 {
        lemma_member_count_empty(cs, ps, cs.len() as int);
    } else {
        lemma_assignment_is_partition(cs, ps.drop_last());
        lemma_member_count_drop_last(cs, ps, cs.len() as int);
        lemma_nearest_upto_properties(cs, ps.last(), cs.len() as int);
    }
}

proof fn lemma_member_count_empty(cs: Seq<Centroid>, ps: Seq<Point>, k: int)
    requires
        ps.len() == 0,
    ensures
        member_count_upto(cs, ps, k) == 0,
    decreases k,
{
    if k > 0 {
        lemma_member_count_empty(cs, ps, k - 1);
    }
}

/// A total squared error is a sum of squares, hence never negative.
pub proof fn lemma_total_error_nonneg(cs: Seq<Centroid>, ps: Seq<Point>)
    ensures
        spec_total_error(cs, ps) >= 0,
{
    lemma_error_upto_nonneg(cs, ps, ps.len() as int);
}

proof fn lemma_error_upto_nonneg(cs: Seq<Centroid>, ps: Seq<Point>, n: int)
    ensures
        error_upto(cs, ps, n) >= 0,
    decreases n,
{
    if n > 0 {
        lemma_error_upto_nonneg(cs, ps, n - 1);
        let c = cs[nearest(cs, ps[n - 1])].p;
        let p = ps[n - 1];
        let dx = c.x - p.x;
        let dy = c.y - p.y;
        assert(dx * dx >= 0) by (nonlinear_arith);
        assert(dy * dy >= 0) by (nonlinear_arith);
    }
}

/// A run that ends `Converged` did stabilize: the recorded errors of
/// its last two snapshots differ by less than `EPSILON`.
pub proof fn lemma_converged_run_stabilizes(
    init: Seq<Centroid>,
    ps: Seq<Point>,
    max: nat,
    history: Seq<Snapshot>,
    term: Termination,
)
    requires
        run_post(init, ps, max, history, term),
        term == Termination::Converged,
    ensures
        vstd::math::abs(
            history[history.len() - 2].total_error - history[history.len() - 1].total_error,
        ) < EPSILON,
{
    let fin = history.len() - 1;
    assert(history[fin - 1].total_error == crate::kmeans::spec_error_at(
        init,
        ps,
        (fin - 1) as nat,
    ));
    assert(history[fin].total_error == crate::kmeans::spec_error_at(init, ps, fin as nat));
}

/// The assignment step is deterministic: two results that both meet its
/// contract on the same points and candidates are identical — the same
/// partition and the same total error.
pub proof fn lemma_assignment_deterministic(
    cs: Seq<Centroid>,
    ps: Seq<Point>,
    c1: Cluster,
    e1: u128,
    c2: Cluster,
    e2: u128,
)
    requires
        c1@ == spec_cluster(cs, ps),
        e1 == spec_total_error(cs, ps),
        c2@ == spec_cluster(cs, ps),
        e2 == spec_total_error(cs, ps),
    ensures
        c1@ == c2@,
        e1 == e2,
{
}

/// Centroid identity is preserved across a whole run: in every snapshot,
/// group `j` is owned by a centroid carrying the initial centroid `j`'s
/// identity, so the identities of snapshot `i` equal those of snapshot 0.
pub proof fn lemma_identity_preserved(
    init: Seq<Centroid>,
    ps: Seq<Point>,
    max: nat,
    history: Seq<Snapshot>,
    term: Termination,
    i: int,
    j: int,
)
    requires
        centroids_in_range(init),
        points_in_range(ps),
        run_post(init, ps, max, history, term),
        0 <= i < history.len(),
        0 <= j < init.len(),
    ensures
        history[i].cluster@.len() == init.len(),
        history[i].cluster@[j].0.id == init[j].id,
{
    lemma_centroids_at_properties(init, ps, i as nat);
}

/// Squared distances of the first `n` points to one fixed centroid,
/// summed.
pub open spec fn sum_errors_upto(c: Centroid, ps: Seq<Point>, n: int) -> int
    decreases n,
{
    if n <= 0 {
        0
    } else {
        sum_errors_upto(c, ps, n - 1) + c.p.spec_sum_squared_error(ps[n - 1])
    }
}

/// With a single candidate centroid, its group holds every input point
/// and the total error is plainly the sum of the squared distances of
/// all points to that one centroid.
pub proof fn lemma_single_centroid_owns_all(cs: Seq<Centroid>, ps: Seq<Point>)
    requires
        cs.len() == 1,
    ensures
        members_of(cs, ps, 0) == ps,
        spec_total_error(cs, ps) == sum_errors_upto(cs[0], ps, ps.len() as int),
    decreases ps.len(),
{
    if ps.len() == 0 {
        assert(members_of(cs, ps, 0) =~= ps);
    } else {
        lemma_single_centroid_owns_all(cs, ps.drop_last());
        assert(members_of(cs, ps, 0) =~= ps);
        lemma_error_agrees_single(cs, ps, ps.len() as int);
    }
}

proof fn lemma_error_agrees_single(cs: Seq<Centroid>, ps: Seq<Point>, n: int)
    requires
        cs.len() == 1,
    ensures
        error_upto(cs, ps, n) == sum_errors_upto(cs[0], ps, n),
    decreases n,
{
    if n > 0 {
        lemma_error_agrees_single(cs, ps, n - 1);
    }
}

} // verus!
