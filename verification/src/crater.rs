use crate::clusterizer::{
    can_clusterize, clustered_view, clusterize_snapshot, indexed, is_max_cluster,
    is_neighbourhood, lemma_found_is_row, lemma_occurrences, lemma_row_is_found, max_cluster,
    occurrences, snapshot_points,
};
use crate::dump_snapshot::{
    copy_snapshot_with_indices, key_index, rows_in_range, subset_view, DumpSnapshot, SnapshotView,
};
use crate::spatial::SpatialIndex;
use crate::xyz::{within_cutoff, XYZ};
use vstd::prelude::*;

verus! {

/// Row `i` of `reference` has no point of `comparison` within `cutoff`.
pub open spec fn is_candidate(
    reference: Seq<XYZ>,
    comparison: Seq<XYZ>,
    cutoff: int,
    i: int,
) -> bool {
    forall|j: int|
        0 <= j < comparison.len() ==> !within_cutoff(
            (#[trigger] comparison[j]).coords,
            reference[i].coords,
            cutoff,
        )
}

/// The candidate rows among the first `upto` rows of `reference`, ascending.
pub open spec fn candidate_rows(
    reference: Seq<XYZ>,
    comparison: Seq<XYZ>,
    cutoff: int,
    upto: nat,
) -> Seq<usize>
    decreases upto,
{
    if upto == 0 {
        Seq::empty()
    } else {
        let rest = candidate_rows(reference, comparison, cutoff, (upto - 1) as nat);
        if is_candidate(reference, comparison, cutoff, upto - 1) {
            rest.push((upto - 1) as usize)
        } else {
            rest
        }
    }
}

/// The rows among the first `upto` rows of `column` that hold `id`, ascending.
pub open spec fn matching_rows(column: Seq<i64>, id: i64, upto: nat) -> Seq<usize>
    decreases upto,
{
    if upto == 0 {
        Seq::empty()
    } else {
        let rest = matching_rows(column, id, (upto - 1) as nat);
        if column[upto - 1] == id {
            rest.push((upto - 1) as usize)
        } else {
            rest
        }
    }
}

/// The id of the largest cluster of a column of cluster ids.
pub open spec fn largest_cluster(column: Seq<i64>) -> i64 {
    choose|id: i64| is_max_cluster(column, id)
}

/// The candidate atoms of `reference`, clusterized under `cluster_cutoff`.
pub open spec fn candidates_view(
    reference: SnapshotView,
    comparison: SnapshotView,
    candidate_cutoff: int,
    cluster_cutoff: int,
) -> SnapshotView {
    clustered_view(
        subset_view(
            reference,
            candidate_rows(
                snapshot_points(reference),
                snapshot_points(comparison),
                candidate_cutoff,
                reference.atoms_count,
            ),
        ),
        cluster_cutoff,
    )
}

/// The rows of `v` whose property `cluster` names the largest cluster.
pub open spec fn largest_cluster_view(v: SnapshotView) -> SnapshotView {
    let column = v.columns[key_index(v.keys, "cluster"@)];
    subset_view(v, matching_rows(column, largest_cluster(column), v.atoms_count))
}

/// Candidate rows are rows, and there are no more of them than rows.
pub proof fn lemma_candidate_rows(
    reference: Seq<XYZ>,
    comparison: Seq<XYZ>,
    cutoff: int,
    upto: nat,
)
    requires
        upto <= usize::MAX,
    ensures
        candidate_rows(reference, comparison, cutoff, upto).len() <= upto,
        rows_in_range(candidate_rows(reference, comparison, cutoff, upto), upto),
    decreases upto,
{
    if upto > 0 {
        lemma_candidate_rows(reference, comparison, cutoff, (upto - 1) as nat);
    }
}

/// Matching rows are rows, and there are no more of them than rows.
pub proof fn lemma_matching_rows(column: Seq<i64>, id: i64, upto: nat)
    requires
        upto <= usize::MAX,
    ensures
        matching_rows(column, id, upto).len() <= upto,
        rows_in_range(matching_rows(column, id, upto), upto),
    decreases upto,
{
    if upto > 0 {
        lemma_matching_rows(column, id, (upto - 1) as nat);
    }
}

/// Where the two lists of points are one list, every point has itself
/// within any cutoff that is not negative, so no row is a candidate.
pub proof fn lemma_no_candidates_against_self(points: Seq<XYZ>, cutoff: int, upto: nat)
    requires
        cutoff >= 0,
        upto <= points.len(),
    ensures
        candidate_rows(points, points, cutoff, upto) == Seq::<usize>::empty(),
    decreases upto,
{
    if upto > 0 {
        lemma_no_candidates_against_self(points, cutoff, (upto - 1) as nat);
        let i = upto - 1;
        assert(cutoff * cutoff >= 0) by (nonlinear_arith);
        assert(within_cutoff(points[i].coords, points[i].coords, cutoff));
        assert(!is_candidate(points, points, cutoff, i));
    }
}

/// A snapshot compared with itself has no candidates: every atom has at
/// least itself within any cutoff that is not negative, so what the
/// candidates are clusterized into holds no atom.
pub proof fn lemma_no_candidates_in_same_snapshot(
    v: SnapshotView,
    candidate_cutoff: int,
    cluster_cutoff: int,
)
    requires
        candidate_cutoff >= 0,
    ensures
        candidate_rows(
            snapshot_points(v),
            snapshot_points(v),
            candidate_cutoff,
            v.atoms_count,
        ) == Seq::<usize>::empty(),
        candidates_view(v, v, candidate_cutoff, cluster_cutoff).atoms_count == 0,
{
    lemma_no_candidates_against_self(snapshot_points(v), candidate_cutoff, v.atoms_count);
}

/// A column has one largest cluster only.
pub proof fn lemma_max_cluster_unique(column: Seq<i64>, a: i64, b: i64)
    requires
        is_max_cluster(column, a),
        is_max_cluster(column, b),
    ensures
        a == b,
{
    let ma = choose|m: int| 0 <= m < column.len() && column[m] == a;
    let mb = choose|m: int| 0 <= m < column.len() && column[m] == b;
    assert(occurrences(column, column[ma]) <= occurrences(column, b));
    assert(occurrences(column, column[mb]) <= occurrences(column, a));
}

/// The rows of `initial_snapshot` that have no atom of `final_snapshot`
/// within `candidate_cutoff`, ascending.
pub fn crater_candidate_rows(
    initial_snapshot: &DumpSnapshot,
    final_snapshot: &DumpSnapshot,
    candidate_cutoff: i64,
) -> (rows: Vec<usize>)
    requires
        initial_snapshot.wf(),
        final_snapshot.wf(),
        initial_snapshot@.keys.contains("x"@),
        initial_snapshot@.keys.contains("y"@),
        initial_snapshot@.keys.contains("z"@),
        final_snapshot@.keys.contains("x"@),
        final_snapshot@.keys.contains("y"@),
        final_snapshot@.keys.contains("z"@),
        candidate_cutoff >= 0,
    ensures
        rows@ == candidate_rows(
            snapshot_points(initial_snapshot@),
            snapshot_points(final_snapshot@),
            candidate_cutoff as int,
            initial_snapshot@.atoms_count,
        ),
{
    proof {
        initial_snapshot.lemma_view();
        final_snapshot.lemma_view();
    }
    let initial_coords = initial_snapshot.get_coordinates();
    let final_coords = final_snapshot.get_coordinates();
    let index = SpatialIndex::build(&final_coords);
    let mut rows: Vec<usize> = Vec::new();
    let mut i: usize = 0;
    while i < initial_coords.len()
        invariant
            i <= initial_coords@.len(),
            candidate_cutoff >= 0,
            indexed(final_coords@),
            indexed(initial_coords@),
            index.points() == final_coords@.to_multiset(),
            rows@ == candidate_rows(
                initial_coords@,
                final_coords@,
                candidate_cutoff as int,
                i as nat,
            ),
        decreases initial_coords@.len() - i,
    {
        let atom = initial_coords[i];
        let found = index.within_radius(atom.coords, candidate_cutoff);
        proof {
            let c = candidate_cutoff as int;
            assert(is_neighbourhood(final_coords@, found@, atom.coords, c));
            if found@.len() == 0 {
                assert forall|j: int| 0 <= j < final_coords@.len() implies !within_cutoff(
                    (#[trigger] final_coords@[j]).coords,
                    atom.coords,
                    c,
                ) by {
                    if within_cutoff(final_coords@[j].coords, atom.coords, c) {
                        lemma_row_is_found(final_coords@, found@, atom.coords, c, j);
                    }
                }
            } else {
                lemma_found_is_row(final_coords@, found@, atom.coords, c, 0);
                let j = found@[0].index as int;
                assert(within_cutoff(final_coords@[j].coords, atom.coords, c));
            }
        }
        if found.len() == 0 {
            rows.push(atom.index);
        }
        i += 1;
    }
    rows
}

/// The atoms of `initial_snapshot` that have no atom of `final_snapshot`
/// within `candidate_cutoff`, clusterized under `cluster_cutoff`.
pub fn crater_candidates_snapshot(
    initial_snapshot: &DumpSnapshot,
    final_snapshot: &DumpSnapshot,
    candidate_cutoff: i64,
    cluster_cutoff: i64,
) -> (r: DumpSnapshot)
    requires
        initial_snapshot.wf(),
        final_snapshot.wf(),
        can_clusterize(initial_snapshot@),
        final_snapshot@.keys.contains("x"@),
        final_snapshot@.keys.contains("y"@),
        final_snapshot@.keys.contains("z"@),
        candidate_cutoff >= 0,
        cluster_cutoff >= 0,
    ensures
        r.wf(),
        r@ == candidates_view(
            initial_snapshot@,
            final_snapshot@,
            candidate_cutoff as int,
            cluster_cutoff as int,
        ),
{
    let indices = crater_candidate_rows(initial_snapshot, final_snapshot, candidate_cutoff);
    proof {
        initial_snapshot.lemma_view();
        let v = initial_snapshot@;
        lemma_candidate_rows(
            snapshot_points(v),
            snapshot_points(final_snapshot@),
            candidate_cutoff as int,
            v.atoms_count,
        );
        lemma_smaller_product(
            indices@.len() as int,
            v.atoms_count as int,
            v.keys.len() as int + 1,
        );
        lemma_smaller_product(indices@.len() as int, v.atoms_count as int, v.keys.len() as int);
        lemma_smaller_product(
            v.atoms_count as int,
            v.atoms_count as int,
            v.keys.len() as int,
        );
    }
    let candidates_snapshot = copy_snapshot_with_indices(initial_snapshot, &indices);
    clusterize_snapshot(&candidates_snapshot, cluster_cutoff)
}

/// Fewer rows need no more room.
proof fn lemma_smaller_product(a: int, b: int, c: int)
    requires
        0 <= a <= b,
        0 <= c,
    ensures
        0 <= a * c <= b * c,
        b * c <= b * (c + 1),
{
    assert(0 <= a * c <= b * c) by (nonlinear_arith)
        requires
            0 <= a <= b,
            0 <= c,
    ;
    assert(b * c <= b * (c + 1)) by (nonlinear_arith)
        requires
            0 <= b,
            0 <= c,
    ;
}

/// The rows of `column` that hold `id`, ascending.
pub fn rows_with_value(column: &[i64], id: i64) -> (rows: Vec<usize>)
    ensures
        rows@ == matching_rows(column@, id, column@.len()),
{
    let mut rows: Vec<usize> = Vec::new();
    let mut i: usize = 0;
    while i < column.len()
        invariant
            i <= column@.len(),
            rows@ == matching_rows(column@, id, i as nat),
        decreases column@.len() - i,
    {
        if column[i] == id {
            rows.push(i);
        }
        i += 1;
    }
    rows
}

/// The largest connected group of the atoms of `initial_snapshot` that have
/// no atom of `final_snapshot` within `candidate_cutoff`, the groups formed
/// under `cluster_cutoff`. There must be at least one such atom.
pub fn crater_snapshot(
    initial_snapshot: &DumpSnapshot,
    final_snapshot: &DumpSnapshot,
    candidate_cutoff: i64,
    cluster_cutoff: i64,
) -> (r: DumpSnapshot)
    requires
        initial_snapshot.wf(),
        final_snapshot.wf(),
        can_clusterize(initial_snapshot@),
        final_snapshot@.keys.contains("x"@),
        final_snapshot@.keys.contains("y"@),
        final_snapshot@.keys.contains("z"@),
        candidate_cutoff >= 0,
        cluster_cutoff >= 0,
        candidate_rows(
            snapshot_points(initial_snapshot@),
            snapshot_points(final_snapshot@),
            candidate_cutoff as int,
            initial_snapshot@.atoms_count,
        ).len() > 0,
    ensures
        r.wf(),
        r@ == largest_cluster_view(
            candidates_view(
                initial_snapshot@,
                final_snapshot@,
                candidate_cutoff as int,
                cluster_cutoff as int,
            ),
        ),
{
    let candidates_snapshot = crater_candidates_snapshot(
        initial_snapshot,
        final_snapshot,
        candidate_cutoff,
        cluster_cutoff,
    );
    let ghost v = candidates_snapshot@;
    proof {
        candidates_snapshot.lemma_view();
        let last = v.keys.len() - 1;
        assert(v.keys[last] == "cluster"@);
        assert(v.keys.contains("cluster"@));
    }
    let cluster = candidates_snapshot.get_property("cluster");
    let max_id = max_cluster(cluster);
    let indices = rows_with_value(cluster, max_id);
    proof {
        lemma_max_cluster_unique(cluster@, max_id, largest_cluster(cluster@));
        lemma_matching_rows(cluster@, max_id, v.atoms_count);
        lemma_smaller_product(indices@.len() as int, v.atoms_count as int, v.keys.len() as int);
    }
    copy_snapshot_with_indices(&candidates_snapshot, &indices)
}

} // verus!
