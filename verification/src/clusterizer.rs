use crate::dump_snapshot::{
    coordinates_view, copy_snapshot_with_keys, extend_view, key_index, keys_distinct,
    names_view, snapshot_wf, DumpSnapshot, SnapshotView,
};
use crate::spatial::SpatialIndex;
use crate::xyz::{distance_squared, within_cutoff, Point3, XYZ};
use std::collections::HashMap;
use vstd::prelude::*;
use vstd::set_lib::set_int_range;
use vstd::std_specs::iter::IteratorSpec;

verus! {

/// Every point carries the row at which it stands in the list.
pub open spec fn indexed(points: Seq<XYZ>) -> bool {
    forall|k: int| 0 <= k < points.len() ==> (#[trigger] points[k]).index == k
}

/// Rows `a` and `b` lie at most `cutoff` apart.
pub open spec fn adjacent(points: Seq<XYZ>, cutoff: int, a: int, b: int) -> bool {
    &&& 0 <= a < points.len()
    &&& 0 <= b < points.len()
    &&& within_cutoff(points[a].coords, points[b].coords, cutoff)
}

/// `path` is a chain of rows in which each row is adjacent to the next.
pub open spec fn is_path(points: Seq<XYZ>, cutoff: int, path: Seq<int>) -> bool {
    &&& path.len() > 0
    &&& forall|k: int| 0 <= k < path.len() ==> 0 <= #[trigger] path[k] < points.len()
    &&& forall|k: int|
        0 <= k < path.len() - 1 ==> #[trigger] adjacent(points, cutoff, path[k], path[k + 1])
}

/// Rows `a` and `b` are joined by a chain of adjacent rows.
pub open spec fn connected(points: Seq<XYZ>, cutoff: int, a: int, b: int) -> bool {
    exists|path: Seq<int>|
        #[trigger] is_path(points, cutoff, path) && path.first() == a && path.last() == b
}

/// What a labelling by clusters is: every row carries the least row of its
/// cluster, and two rows carry the same label exactly when they are connected.
pub open spec fn is_clustering(points: Seq<XYZ>, cutoff: int, labels: Seq<usize>) -> bool {
    &&& labels.len() == points.len()
    &&& forall|i: int| 0 <= i < labels.len() ==> (#[trigger] labels[i]) <= i
    &&& forall|i: int|
        0 <= i < labels.len() ==> connected(points, cutoff, (#[trigger] labels[i]) as int, i)
    &&& forall|i: int, j: int| #[trigger]
        connected(points, cutoff, i, j) ==> labels[i] == labels[j]
}

/// Distance does not depend on the order of the two points.
pub proof fn lemma_distance_symmetric(a: Point3, b: Point3)
    ensures
        distance_squared(a, b) == distance_squared(b, a),
{
    assert((a.x - b.x) * (a.x - b.x) == (b.x - a.x) * (b.x - a.x)) by (nonlinear_arith);
    assert((a.y - b.y) * (a.y - b.y) == (b.y - a.y) * (b.y - a.y)) by (nonlinear_arith);
    assert((a.z - b.z) * (a.z - b.z) == (b.z - a.z) * (b.z - a.z)) by (nonlinear_arith);
}

/// Adjacency is symmetric.
pub proof fn lemma_adjacent_symmetric(points: Seq<XYZ>, cutoff: int, a: int, b: int)
    requires
        adjacent(points, cutoff, a, b),
    ensures
        adjacent(points, cutoff, b, a),
{
    lemma_distance_symmetric(points[a].coords, points[b].coords);
}

/// Every row is connected to itself.
pub proof fn lemma_connected_reflexive(points: Seq<XYZ>, cutoff: int, a: int)
    requires
        0 <= a < points.len(),
    ensures
        connected(points, cutoff, a, a),
{
    let path = seq![a];
    assert(is_path(points, cutoff, path));
    assert(path.first() == a && path.last() == a);
}

/// Adjacent rows are connected.
pub proof fn lemma_adjacent_connected(points: Seq<XYZ>, cutoff: int, a: int, b: int)
    requires
        adjacent(points, cutoff, a, b),
    ensures
        connected(points, cutoff, a, b),
{
    let path = seq![a, b];
    assert(is_path(points, cutoff, path)) by {
        assert forall|k: int| 0 <= k < path.len() - 1 implies #[trigger] adjacent(
            points,
            cutoff,
            path[k],
            path[k + 1],
        ) by {
            assert(k == 0);
        }
    }
    assert(path.first() == a && path.last() == b);
}

/// Connection is symmetric.
pub proof fn lemma_connected_symmetric(points: Seq<XYZ>, cutoff: int, a: int, b: int)
    requires
        connected(points, cutoff, a, b),
    ensures
        connected(points, cutoff, b, a),
{
    let path = choose|path: Seq<int>|
        #[trigger] is_path(points, cutoff, path) && path.first() == a && path.last() == b;
    let back = Seq::new(path.len(), |k: int| path[path.len() - 1 - k]);
    assert(is_path(points, cutoff, back)) by {
        assert forall|k: int| 0 <= k < back.len() - 1 implies #[trigger] adjacent(
            points,
            cutoff,
            back[k],
            back[k + 1],
        ) by {
            let m = path.len() - 2 - k;
            assert(adjacent(points, cutoff, path[m], path[m + 1]));
            lemma_adjacent_symmetric(points, cutoff, path[m], path[m + 1]);
        }
    }
    assert(back.first() == b && back.last() == a);
}

/// Connection is transitive.
pub proof fn lemma_connected_transitive(points: Seq<XYZ>, cutoff: int, a: int, b: int, c: int)
    requires
        connected(points, cutoff, a, b),
        connected(points, cutoff, b, c),
    ensures
        connected(points, cutoff, a, c),
{
    let first = choose|path: Seq<int>|
        #[trigger] is_path(points, cutoff, path) && path.first() == a && path.last() == b;
    let second = choose|path: Seq<int>|
        #[trigger] is_path(points, cutoff, path) && path.first() == b && path.last() == c;
    let joined = first.drop_last() + second;
    assert(is_path(points, cutoff, joined)) by {
        assert forall|k: int| 0 <= k < joined.len() - 1 implies #[trigger] adjacent(
            points,
            cutoff,
            joined[k],
            joined[k + 1],
        ) by {
            let cut = first.len() - 1;
            if k + 1 < cut {
                assert(adjacent(points, cutoff, first[k], first[k + 1]));
            } else if k + 1 == cut {
                assert(adjacent(points, cutoff, first[k], first[k + 1]));
                assert(joined[k + 1] == second[0]);
            } else {
                assert(adjacent(points, cutoff, second[k - cut], second[k - cut + 1]));
            }
        }
    }
    assert(joined.first() == a && joined.last() == c);
}

/// A labelling that adjacent rows share is shared along every path.
pub proof fn lemma_labels_along_path(
    points: Seq<XYZ>,
    cutoff: int,
    labels: Seq<usize>,
    path: Seq<int>,
)
    requires
        labels.len() == points.len(),
        is_path(points, cutoff, path),
        forall|i: int, j: int| #[trigger]
            adjacent(points, cutoff, i, j) ==> labels[i] == labels[j],
    ensures
        labels[path.first()] == labels[path.last()],
    decreases path.len(),
{
    if path.len() > 1 {
        let shorter = path.drop_last();
        assert(is_path(points, cutoff, shorter)) by {
            assert forall|k: int| 0 <= k < shorter.len() - 1 implies #[trigger] adjacent(
                points,
                cutoff,
                shorter[k],
                shorter[k + 1],
            ) by {
                assert(adjacent(points, cutoff, path[k], path[k + 1]));
            }
        }
        lemma_labels_along_path(points, cutoff, labels, shorter);
        let m = path.len() - 2;
        assert(adjacent(points, cutoff, path[m], path[m + 1]));
    }
}

/// A wider cutoff keeps every adjacency.
pub proof fn lemma_adjacent_monotone(points: Seq<XYZ>, c1: int, c2: int, a: int, b: int)
    requires
        0 <= c1 <= c2,
        adjacent(points, c1, a, b),
    ensures
        adjacent(points, c2, a, b),
{
    assert(c1 * c1 <= c2 * c2) by (nonlinear_arith)
        requires
            0 <= c1 <= c2,
    ;
}

/// A wider cutoff keeps every connection.
pub proof fn lemma_connected_monotone(points: Seq<XYZ>, c1: int, c2: int, a: int, b: int)
    requires
        0 <= c1 <= c2,
        connected(points, c1, a, b),
    ensures
        connected(points, c2, a, b),
{
    let path = choose|path: Seq<int>|
        #[trigger] is_path(points, c1, path) && path.first() == a && path.last() == b;
    assert(is_path(points, c2, path)) by {
        assert forall|k: int| 0 <= k < path.len() - 1 implies #[trigger] adjacent(
            points,
            c2,
            path[k],
            path[k + 1],
        ) by {
            assert(adjacent(points, c1, path[k], path[k + 1]));
            lemma_adjacent_monotone(points, c1, c2, path[k], path[k + 1]);
        }
    }
}

/// The labelling by clusters is a partition of the rows: every row has one
/// label, and to share a label is reflexive, symmetric and transitive,
/// because it is to be connected.
pub proof fn lemma_clustering_is_partition(
    points: Seq<XYZ>,
    cutoff: int,
    labels: Seq<usize>,
    i: int,
    j: int,
)
    requires
        is_clustering(points, cutoff, labels),
        0 <= i < points.len(),
        0 <= j < points.len(),
    ensures
        0 <= labels[i] < points.len(),
        (labels[i] == labels[j]) == connected(points, cutoff, i, j),
        connected(points, cutoff, i, i),
        connected(points, cutoff, i, j) == connected(points, cutoff, j, i),
{
    lemma_connected_reflexive(points, cutoff, i);
    if connected(points, cutoff, i, j) {
        lemma_connected_symmetric(points, cutoff, i, j);
    }
    if connected(points, cutoff, j, i) {
        lemma_connected_symmetric(points, cutoff, j, i);
    }
    if labels[i] == labels[j] {
        let l = labels[i] as int;
        assert(connected(points, cutoff, labels[i] as int, i));
        assert(connected(points, cutoff, labels[j] as int, j));
        lemma_connected_symmetric(points, cutoff, l, i);
        lemma_connected_transitive(points, cutoff, i, l, j);
    }
}

/// Widening the cutoff never splits a cluster: rows that share a label at
/// `c1` share one at every `c2` that is not smaller.
pub proof fn lemma_clustering_monotone(
    points: Seq<XYZ>,
    c1: int,
    c2: int,
    labels1: Seq<usize>,
    labels2: Seq<usize>,
    i: int,
    j: int,
)
    requires
        0 <= c1 <= c2,
        is_clustering(points, c1, labels1),
        is_clustering(points, c2, labels2),
        0 <= i < points.len(),
        0 <= j < points.len(),
        labels1[i] == labels1[j],
    ensures
        labels2[i] == labels2[j],
{
    lemma_clustering_is_partition(points, c1, labels1, i, j);
    lemma_connected_monotone(points, c1, c2, i, j);
}

/// At most one labelling is a clustering.
pub proof fn lemma_clustering_unique(
    points: Seq<XYZ>,
    cutoff: int,
    labels1: Seq<usize>,
    labels2: Seq<usize>,
)
    requires
        is_clustering(points, cutoff, labels1),
        is_clustering(points, cutoff, labels2),
    ensures
        labels1 == labels2,
{
    assert forall|i: int| 0 <= i < labels1.len() implies labels1[i] == labels2[i] by {
        let a = labels1[i] as int;
        let b = labels2[i] as int;
        assert(connected(points, cutoff, a, i));
        assert(connected(points, cutoff, b, i));
        assert(labels2[a] == labels2[i]);
        assert(labels1[b] == labels1[i]);
        assert(labels2[a] <= a);
        assert(labels1[b] <= b);
    }
    assert(labels1 =~= labels2);
}

/// What a radius query promises of its result, over the list that was indexed.
pub open spec fn is_neighbourhood(
    points: Seq<XYZ>,
    found: Seq<XYZ>,
    query: Point3,
    cutoff: int,
) -> bool {
    forall|p: XYZ| #[trigger]
        found.to_multiset().count(p) == (if within_cutoff(p.coords, query, cutoff) {
            points.to_multiset().count(p)
        } else {
            0
        })
}

/// Every point that a radius query found is a row of the list, within the cutoff.
pub proof fn lemma_found_is_row(
    points: Seq<XYZ>,
    found: Seq<XYZ>,
    query: Point3,
    cutoff: int,
    k: int,
)
    requires
        indexed(points),
        is_neighbourhood(points, found, query, cutoff),
        0 <= k < found.len(),
    ensures
        found[k].index < points.len(),
        points[found[k].index as int] == found[k],
        within_cutoff(found[k].coords, query, cutoff),
{
    broadcast use vstd::seq_lib::to_multiset_contains;

    let p = found[k];
    assert(found.contains(p));
    assert(found.to_multiset().count(p) > 0);
    assert(points.to_multiset().count(p) > 0);
    assert(points.contains(p));
    let t = choose|t: int| 0 <= t < points.len() && points[t] == p;
    assert(points[t].index == t);
}

/// Every row within the cutoff is among the points that a radius query found.
pub proof fn lemma_row_is_found(
    points: Seq<XYZ>,
    found: Seq<XYZ>,
    query: Point3,
    cutoff: int,
    j: int,
)
    requires
        is_neighbourhood(points, found, query, cutoff),
        0 <= j < points.len(),
        within_cutoff(points[j].coords, query, cutoff),
    ensures
        found.contains(points[j]),
{
    broadcast use vstd::seq_lib::to_multiset_contains;

    let p = points[j];
    assert(points.contains(p));
    assert(points.to_multiset().count(p) > 0);
    assert(found.to_multiset().count(p) > 0);
}

/// The state of a flood fill: every visited row carries a label that is a
/// row of its cluster and not above it, and the visited rows are closed
/// under adjacency but for the rows on the stack and the row `busy`.
pub open spec fn flood_state(
    points: Seq<XYZ>,
    cutoff: int,
    visited: Seq<bool>,
    labels: Seq<usize>,
    stack: Seq<usize>,
    busy: int,
) -> bool {
    &&& visited.len() == points.len()
    &&& labels.len() == points.len()
    &&& forall|i: int|
        0 <= i < points.len() && #[trigger] visited[i] ==> labels[i] <= i && connected(
            points,
            cutoff,
            labels[i] as int,
            i,
        )
    &&& forall|i: int, j: int| #[trigger]
        adjacent(points, cutoff, i, j) && visited[i] && !stack.contains(i as usize) && i != busy
            ==> visited[j] && labels[j] == labels[i]
}

/// The rows on the stack are visited rows of the cluster of `seed`.
pub open spec fn stack_of(
    visited: Seq<bool>,
    labels: Seq<usize>,
    stack: Seq<usize>,
    seed: usize,
) -> bool {
    forall|m: int|
        0 <= m < stack.len() ==> (#[trigger] stack[m]) < visited.len() && visited[stack[m] as int]
            && labels[stack[m] as int] == seed
}

/// A vector of `n` copies of `false`.
fn unvisited(n: usize) -> (v: Vec<bool>)
    ensures
        v@.len() == n,
        forall|k: int| 0 <= k < n ==> !v@[k],
{
    let mut v: Vec<bool> = Vec::new();
    let mut k: usize = 0;
    while k < n
        invariant
            k <= n,
            v@.len() == k,
            forall|m: int| 0 <= m < k ==> !v@[m],
        decreases n - k,
    {
        v.push(false);
        k += 1;
    }
    v
}

/// A vector of `n` zeros.
fn no_labels(n: usize) -> (v: Vec<usize>)
    ensures
        v@.len() == n,
{
    let mut v: Vec<usize> = Vec::new();
    let mut k: usize = 0;
    while k < n
        invariant
            k <= n,
            v@.len() == k,
        decreases n - k,
    {
        v.push(0);
        k += 1;
    }
    v
}

/// Marks row `j`, a neighbour of the visited row `r` of the cluster of
/// `seed`, as a member of that cluster and puts it on the stack.
proof fn lemma_mark(
    points: Seq<XYZ>,
    cutoff: int,
    visited: Seq<bool>,
    labels: Seq<usize>,
    stack: Seq<usize>,
    r: int,
    seed: usize,
    j: int,
)
    requires
        flood_state(points, cutoff, visited, labels, stack, r),
        stack_of(visited, labels, stack, seed),
        0 <= r < points.len(),
        visited[r],
        labels[r] == seed,
        adjacent(points, cutoff, r, j),
        !visited[j],
        seed <= j,
        points.len() <= usize::MAX,
    ensures
        flood_state(
            points,
            cutoff,
            visited.update(j, true),
            labels.update(j, seed),
            stack.push(j as usize),
            r,
        ),
        stack_of(visited.update(j, true), labels.update(j, seed), stack.push(j as usize), seed),
{
    let visited1 = visited.update(j, true);
    let labels1 = labels.update(j, seed);
    let stack1 = stack.push(j as usize);
    assert forall|i: int| 0 <= i < points.len() && #[trigger] visited1[i] implies labels1[i] <= i
        && connected(points, cutoff, labels1[i] as int, i) by {
        if i == j {
            assert(connected(points, cutoff, seed as int, r));
            lemma_adjacent_connected(points, cutoff, r, j);
            lemma_connected_transitive(points, cutoff, seed as int, r, j);
        } else {
            assert(visited[i]);
        }
    }
    assert forall|i: int, k: int| #[trigger]
        adjacent(points, cutoff, i, k) && visited1[i] && !stack1.contains(i as usize) && i
            != r implies visited1[k] && labels1[k] == labels1[i] by {
        assert(stack1[stack.len() as int] == j as usize);
        assert(i != j);
        if stack.contains(i as usize) {
            let m = choose|m: int| 0 <= m < stack.len() && stack[m] == i as usize;
            assert(stack1[m] == i as usize);
        }
        assert(visited[i]);
        assert(visited[k] && labels[k] == labels[i]);
    }
    assert forall|m: int| 0 <= m < stack1.len() implies (#[trigger] stack1[m]) < visited1.len()
        && visited1[stack1[m] as int] && labels1[stack1[m] as int] == seed by {
        if m < stack.len() {
            assert(stack[m] == stack1[m]);
        }
    }
}

/// Labels every row with the least row of its cluster, where two rows
/// belong to one cluster when a chain of rows joins them in which each
/// lies at most `cutoff` from the next.
pub fn get_clusters(coords: &Vec<XYZ>, cutoff: i64) -> (labels: Vec<usize>)
    requires
        cutoff >= 0,
        indexed(coords@),
    ensures
        is_clustering(coords@, cutoff as int, labels@),
{
    let n: usize = coords.len();
    let index = SpatialIndex::build(coords);
    let mut visited: Vec<bool> = unvisited(n);
    let mut labels: Vec<usize> = no_labels(n);
    let ghost mut open_rows: Set<int> = set_int_range(0, n as int);
    proof {
        vstd::set_lib::lemma_int_range(0, n as int);
    }
    let mut seed: usize = 0;
    while seed < n
        invariant
            n == coords@.len(),
            cutoff >= 0,
            indexed(coords@),
            index.points() == coords@.to_multiset(),
            seed <= n,
            flood_state(coords@, cutoff as int, visited@, labels@, Seq::empty(), -1),
            forall|i: int| 0 <= i < seed ==> visited@[i],
            open_rows.finite(),
            forall|i: int| open_rows.contains(i) <==> 0 <= i < n && !visited@[i],
        decreases n - seed,
    {
        if !visited[seed] {
            let ghost visited0 = visited@;
            let ghost labels0 = labels@;
            visited.set(seed, true);
            labels.set(seed, seed);
            let mut stack: Vec<usize> = Vec::new();
            stack.push(seed);
            proof {
                open_rows = open_rows.remove(seed as int);
                let points = coords@;
                let c = cutoff as int;
                assert forall|i: int| 0 <= i < points.len() && #[trigger] visited@[i] implies
                    labels@[i] <= i && connected(points, c, labels@[i] as int, i) by {
                    if i == seed {
                        lemma_connected_reflexive(points, c, i);
                    } else {
                        assert(visited0[i]);
                    }
                }
                assert forall|i: int, k: int| #[trigger]
                    adjacent(points, c, i, k) && visited@[i] && !stack@.contains(i as usize) && i
                        != -1 implies visited@[k] && labels@[k] == labels@[i] by {
                    assert(stack@[0] == seed);
                    assert(i != seed);
                    assert(visited0[i]);
                    assert(!Seq::<usize>::empty().contains(i as usize));
                    assert(visited0[k] && labels0[k] == labels0[i]);
                }
            }
            while stack.len() > 0
                invariant
                    n == coords@.len(),
                    cutoff >= 0,
                    indexed(coords@),
                    index.points() == coords@.to_multiset(),
                    seed < n,
                    flood_state(coords@, cutoff as int, visited@, labels@, stack@, -1),
                    stack_of(visited@, labels@, stack@, seed),
                    forall|i: int| 0 <= i < seed ==> visited@[i],
                    visited@[seed as int],
                    open_rows.finite(),
                    forall|i: int| open_rows.contains(i) <==> 0 <= i < n && !visited@[i],
                decreases open_rows.len(), stack@.len(),
            {
                let ghost stack0 = stack@;
                let ghost open0 = open_rows;
                let r: usize = stack.pop().unwrap();
                proof {
                    assert(stack0[stack0.len() - 1] == r);
                    assert forall|i: int, k: int| #[trigger]
                        adjacent(coords@, cutoff as int, i, k) && visited@[i] && !stack@.contains(
                            i as usize,
                        ) && i != r implies visited@[k] && labels@[k] == labels@[i] by {
                        if stack0.contains(i as usize) {
                            let m = choose|m: int| 0 <= m < stack0.len() && stack0[m] == i as usize;
                            assert(m < stack0.len() - 1);
                            assert(stack@[m] == i as usize);
                        }
                    }
                    assert forall|m: int| 0 <= m < stack@.len() implies (#[trigger] stack@[m])
                        < visited@.len() && visited@[stack@[m] as int] && labels@[stack@[m] as int]
                        == seed by {
                        assert(stack0[m] == stack@[m]);
                    }
                }
                let query = coords[r].coords;
                let found = index.within_radius(query, cutoff);
                let mut k: usize = 0;
                while k < found.len()
                    invariant
                        n == coords@.len(),
                        cutoff >= 0,
                        indexed(coords@),
                        seed < n,
                        r < n,
                        query == coords@[r as int].coords,
                        is_neighbourhood(coords@, found@, query, cutoff as int),
                        k <= found@.len(),
                        flood_state(coords@, cutoff as int, visited@, labels@, stack@, r as int),
                        stack_of(visited@, labels@, stack@, seed),
                        forall|i: int| 0 <= i < seed ==> visited@[i],
                        visited@[seed as int],
                        visited@[r as int],
                        labels@[r as int] == seed,
                        open_rows.finite(),
                        forall|i: int| open_rows.contains(i) <==> 0 <= i < n && !visited@[i],
                        open_rows.len() <= open0.len(),
                        stack@.len() - (stack0.len() - 1) == open0.len() - open_rows.len(),
                        forall|m: int|
                            0 <= m < k ==> visited@[(#[trigger] found@[m]).index as int]
                                && labels@[found@[m].index as int] == seed,
                    decreases found@.len() - k,
                {
                    let p = found[k];
                    proof {
                        lemma_found_is_row(coords@, found@, query, cutoff as int, k as int);
                    }
                    let j: usize = p.index;
                    proof {
                        lemma_distance_symmetric(p.coords, query);
                        assert(adjacent(coords@, cutoff as int, r as int, j as int));
                    }
                    if !visited[j] {
                        let ghost found_before = visited@;
                        proof {
                            lemma_mark(
                                coords@,
                                cutoff as int,
                                visited@,
                                labels@,
                                stack@,
                                r as int,
                                seed,
                                j as int,
                            );
                            assert(open_rows.contains(j as int));
                            open_rows = open_rows.remove(j as int);
                        }
                        visited.set(j, true);
                        labels.set(j, seed);
                        stack.push(j);
                        proof {
                            assert forall|m: int| 0 <= m < k implies visited@[(
                            #[trigger] found@[m]).index as int] && labels@[found@[m].index as int]
                                == seed by {
                                lemma_found_is_row(coords@, found@, query, cutoff as int, m);
                                assert(found_before[found@[m].index as int]);
                            }
                        }
                    } else {
                        proof {
                            let ji = j as int;
                            lemma_adjacent_symmetric(coords@, cutoff as int, r as int, ji);
                            if labels@[ji] != seed {
                                if stack@.contains(j) {
                                    let m = choose|m: int| 0 <= m < stack@.len() && stack@[m] == j;
                                    assert(labels@[stack@[m] as int] == seed);
                                }
                                if ji != r as int {
                                    assert(adjacent(coords@, cutoff as int, ji, r as int));
                                    assert(labels@[r as int] == labels@[ji]);
                                }
                            }
                        }
                    }
                    k += 1;
                }
                proof {
                    assert forall|i: int, t: int| #[trigger]
                        adjacent(coords@, cutoff as int, i, t) && visited@[i] && !stack@.contains(
                            i as usize,
                        ) && i != -1 implies visited@[t] && labels@[t] == labels@[i] by {
                        if i == r as int {
                            lemma_distance_symmetric(coords@[t].coords, query);
                            lemma_row_is_found(coords@, found@, query, cutoff as int, t);
                            let m = choose|m: int| 0 <= m < found@.len() && found@[m] == coords@[t];
                            assert(found@[m].index == t);
                        }
                    }
                }
            }
            proof {
                assert forall|i: int, t: int| #[trigger]
                    adjacent(coords@, cutoff as int, i, t) && visited@[i] && !Seq::<
                        usize,
                    >::empty().contains(i as usize) && i != -1 implies visited@[t] && labels@[t]
                    == labels@[i] by {
                    assert(stack@.len() == 0);
                    assert(!stack@.contains(i as usize));
                }
            }
        }
        seed += 1;
    }
    proof {
        let points = coords@;
        let c = cutoff as int;
        assert forall|i: int, j: int| #[trigger] adjacent(points, c, i, j) implies labels@[i]
            == labels@[j] by {
            assert(visited@[i]);
            assert(!Seq::<usize>::empty().contains(i as usize));
        }
        assert forall|i: int, j: int| #[trigger] connected(points, c, i, j) implies labels@[i]
            == labels@[j] by {
            let path = choose|path: Seq<int>|
                #[trigger] is_path(points, c, path) && path.first() == i && path.last() == j;
            lemma_labels_along_path(points, c, labels@, path);
        }
        assert forall|i: int| 0 <= i < labels@.len() implies connected(
            points,
            c,
            (#[trigger] labels@[i]) as int,
            i,
        ) by {
            assert(visited@[i]);
        }
        assert forall|i: int| 0 <= i < labels@.len() implies (#[trigger] labels@[i]) <= i by {
            assert(visited@[i]);
        }
    }
    labels
}

/// The labelling of `points` by clusters under `cutoff`.
pub open spec fn cluster_labels(points: Seq<XYZ>, cutoff: int) -> Seq<usize> {
    choose|labels: Seq<usize>| is_clustering(points, cutoff, labels)
}

/// The points of a snapshot, read from its properties `x`, `y` and `z`.
pub open spec fn snapshot_points(v: SnapshotView) -> Seq<XYZ> {
    coordinates_view(
        v,
        key_index(v.keys, "x"@),
        key_index(v.keys, "y"@),
        key_index(v.keys, "z"@),
    )
}

/// The snapshot `v` with one more column, `cluster`, which holds for the
/// first `done` rows the value of property `id` at the row that labels the
/// row's cluster, and zero below.
pub open spec fn labelled_view(v: SnapshotView, labels: Seq<usize>, done: int) -> SnapshotView {
    SnapshotView {
        keys: v.keys.push("cluster"@),
        columns: v.columns.push(
            Seq::new(
                v.atoms_count,
                |i: int|
                    if i < done {
                        v.columns[key_index(v.keys, "id"@)][labels[i] as int]
                    } else {
                        0i64
                    },
            ),
        ),
        ..v
    }
}

/// The snapshot `v` with the column `cluster` added: the cluster of every
/// row under `cutoff`, named by the `id` of the least row of the cluster.
pub open spec fn clustered_view(v: SnapshotView, cutoff: int) -> SnapshotView {
    labelled_view(v, cluster_labels(snapshot_points(v), cutoff), v.atoms_count as int)
}

/// What `clusterize_snapshot` asks of a snapshot's schema.
pub open spec fn can_clusterize(v: SnapshotView) -> bool {
    &&& v.keys.contains("x"@)
    &&& v.keys.contains("y"@)
    &&& v.keys.contains("z"@)
    &&& v.keys.contains("id"@)
    &&& !v.keys.contains("cluster"@)
    &&& v.atoms_count * (v.keys.len() + 1) <= usize::MAX
}

/// A name that a list does not hold can be added to it without a repeat.
pub proof fn lemma_push_distinct(keys: Seq<Seq<char>>, key: Seq<char>)
    requires
        keys_distinct(keys),
        !keys.contains(key),
    ensures
        keys_distinct(keys.push(key)),
{
    let longer = keys.push(key);
    assert forall|a: int, b: int| 0 <= a < b < longer.len() implies longer[a] != longer[b] by {
        if b == keys.len() {
            assert(keys[a] == longer[a]);
            assert(keys.contains(keys[a]));
        }
    }
}

/// In a list without repeats a name stands at one place only.
pub proof fn lemma_key_index(keys: Seq<Seq<char>>, key: Seq<char>, j: int)
    requires
        keys_distinct(keys),
        0 <= j < keys.len(),
        keys[j] == key,
    ensures
        key_index(keys, key) == j,
        keys.contains(key),
{
    let other = key_index(keys, key);
    assert(keys.contains(key));
    assert(0 <= other < keys.len() && keys[other] == key);
    if other < j {
        assert(keys[other] != keys[j]);
    }
    if j < other {
        assert(keys[j] != keys[other]);
    }
}

/// The least row from `j` on that is connected to row `i`, which is `i`
/// itself where no row before it is.
pub open spec fn least_from(points: Seq<XYZ>, cutoff: int, i: int, j: int) -> int
    decreases i - j,
{
    if j >= i {
        i
    } else if connected(points, cutoff, j, i) {
        j
    } else {
        least_from(points, cutoff, i, j + 1)
    }
}

/// `least_from` gives a row connected to `i`, and no row from `j` on
/// before it is.
pub proof fn lemma_least_from(points: Seq<XYZ>, cutoff: int, i: int, j: int)
    requires
        0 <= j <= i < points.len(),
    ensures
        j <= least_from(points, cutoff, i, j) <= i,
        connected(points, cutoff, least_from(points, cutoff, i, j), i),
        forall|m: int|
            j <= m < least_from(points, cutoff, i, j) ==> !connected(points, cutoff, m, i),
    decreases i - j,
{
    if j >= i {
        lemma_connected_reflexive(points, cutoff, i);
    } else if connected(points, cutoff, j, i) {
    } else {
        lemma_least_from(points, cutoff, i, j + 1);
    }
}

/// Every list of points has a clustering: the labelling of each row by
/// the least row connected to it.
pub proof fn lemma_clustering_exists(points: Seq<XYZ>, cutoff: int)
    requires
        points.len() <= usize::MAX,
    ensures
        is_clustering(points, cutoff, cluster_labels(points, cutoff)),
{
    let labels = Seq::new(points.len(), |i: int| least_from(points, cutoff, i, 0) as usize);
    assert forall|i: int| 0 <= i < labels.len() implies (#[trigger] labels[i]) <= i && connected(
        points,
        cutoff,
        labels[i] as int,
        i,
    ) by {
        lemma_least_from(points, cutoff, i, 0);
    }
    assert forall|i: int, j: int| #[trigger] connected(points, cutoff, i, j) implies labels[i]
        == labels[j] by {
        let path = choose|path: Seq<int>|
            #[trigger] is_path(points, cutoff, path) && path.first() == i && path.last() == j;
        assert(0 <= path[0] < points.len());
        assert(0 <= path[path.len() - 1] < points.len());
        lemma_least_from(points, cutoff, i, 0);
        lemma_least_from(points, cutoff, j, 0);
        let li = least_from(points, cutoff, i, 0);
        let lj = least_from(points, cutoff, j, 0);
        lemma_connected_transitive(points, cutoff, li, i, j);
        lemma_connected_symmetric(points, cutoff, i, j);
        lemma_connected_transitive(points, cutoff, lj, j, i);
    }
    assert(is_clustering(points, cutoff, labels));
}

/// The values of property `cluster` of a snapshot.
pub open spec fn cluster_column(v: SnapshotView) -> Seq<i64> {
    v.columns[key_index(v.keys, "cluster"@)]
}

/// The values of property `id` of a snapshot.
pub open spec fn id_column(v: SnapshotView) -> Seq<i64> {
    v.columns[key_index(v.keys, "id"@)]
}

/// What a clusterized snapshot holds under `cluster`: for every row the
/// `id` of the row that labels its cluster.
pub proof fn lemma_cluster_column(v: SnapshotView, cutoff: int)
    requires
        snapshot_wf(v),
        !v.keys.contains("cluster"@),
        v.atoms_count <= usize::MAX,
    ensures
        is_clustering(snapshot_points(v), cutoff, cluster_labels(snapshot_points(v), cutoff)),
        clustered_view(v, cutoff).atoms_count == v.atoms_count,
        cluster_column(clustered_view(v, cutoff)).len() == v.atoms_count,
        forall|i: int|
            0 <= i < v.atoms_count ==> (#[trigger] cluster_column(clustered_view(v, cutoff))[i])
                == id_column(v)[cluster_labels(snapshot_points(v), cutoff)[i] as int],
{
    lemma_clustering_exists(snapshot_points(v), cutoff);
    lemma_push_distinct(v.keys, "cluster"@);
    lemma_key_index(v.keys.push("cluster"@), "cluster"@, v.keys.len() as int);
}

/// The clusters of a snapshot part its atoms: a clusterized snapshot has
/// as many atoms as the snapshot it was made from and one label for each,
/// the label of a row is the `id` of a row not behind it, the first of its
/// cluster, that carries its own `id` as label, and rows that a chain of
/// atoms within the cutoff joins carry one label.
pub proof fn lemma_clustered_partition(v: SnapshotView, cutoff: int)
    requires
        snapshot_wf(v),
        !v.keys.contains("cluster"@),
        v.atoms_count <= usize::MAX,
    ensures
        clustered_view(v, cutoff).atoms_count == v.atoms_count,
        cluster_column(clustered_view(v, cutoff)).len() == v.atoms_count,
        forall|i: int|
            0 <= i < v.atoms_count ==> {
                let s = cluster_labels(snapshot_points(v), cutoff)[i] as int;
                &&& 0 <= s <= i
                &&& (#[trigger] cluster_column(clustered_view(v, cutoff))[i]) == id_column(v)[s]
                &&& cluster_column(clustered_view(v, cutoff))[s] == id_column(v)[s]
            },
        forall|i: int, j: int| #[trigger]
            connected(snapshot_points(v), cutoff, i, j) ==> cluster_column(
                clustered_view(v, cutoff),
            )[i] == cluster_column(clustered_view(v, cutoff))[j],
{
    lemma_cluster_column(v, cutoff);
    let points = snapshot_points(v);
    let labels = cluster_labels(points, cutoff);
    let column = cluster_column(clustered_view(v, cutoff));
    assert forall|i: int| 0 <= i < v.atoms_count implies {
        let s = labels[i] as int;
        &&& 0 <= s <= i
        &&& (#[trigger] column[i]) == id_column(v)[s]
        &&& column[s] == id_column(v)[s]
    } by {
        let s = labels[i] as int;
        assert(labels[i] <= i);
        assert(connected(points, cutoff, s, i));
        assert(labels[s] == labels[i]);
        assert(column[s] == id_column(v)[labels[s] as int]);
    }
    assert forall|i: int, j: int| #[trigger]
        connected(points, cutoff, i, j) implies column[i] == column[j] by {
        let path = choose|path: Seq<int>|
            #[trigger] is_path(points, cutoff, path) && path.first() == i && path.last() == j;
        assert(0 <= path[0] < points.len());
        assert(0 <= path[path.len() - 1] < points.len());
        assert(labels[i] == labels[j]);
    }
}

/// No two rows of a snapshot carry the same `id`.
pub open spec fn ids_distinct(v: SnapshotView) -> bool {
    forall|a: int, b: int|
        0 <= a < b < v.atoms_count ==> id_column(v)[a] != id_column(v)[b]
}

/// A wider cutoff never splits a cluster of a snapshot: rows that carry
/// one label after clusterizing under `c1` carry one label after
/// clusterizing under any `c2` that is not smaller, where no two rows
/// carry the same `id`.
pub proof fn lemma_clustered_monotone(v: SnapshotView, c1: int, c2: int, i: int, j: int)
    requires
        snapshot_wf(v),
        !v.keys.contains("cluster"@),
        v.atoms_count <= usize::MAX,
        ids_distinct(v),
        0 <= c1 <= c2,
        0 <= i < v.atoms_count,
        0 <= j < v.atoms_count,
        cluster_column(clustered_view(v, c1))[i] == cluster_column(clustered_view(v, c1))[j],
    ensures
        cluster_column(clustered_view(v, c2))[i] == cluster_column(clustered_view(v, c2))[j],
{
    lemma_cluster_column(v, c1);
    lemma_cluster_column(v, c2);
    let points = snapshot_points(v);
    let first = cluster_labels(points, c1);
    let second = cluster_labels(points, c2);
    let a = first[i] as int;
    let b = first[j] as int;
    assert(first[i] <= i && first[j] <= j);
    assert(cluster_column(clustered_view(v, c1))[i] == id_column(v)[a]);
    assert(cluster_column(clustered_view(v, c1))[j] == id_column(v)[b]);
    if a < b {
        assert(id_column(v)[a] != id_column(v)[b]);
    }
    if b < a {
        assert(id_column(v)[b] != id_column(v)[a]);
    }
    lemma_clustering_monotone(points, c1, c2, first, second, i, j);
    assert(cluster_column(clustered_view(v, c2))[i] == id_column(v)[second[i] as int]);
    assert(cluster_column(clustered_view(v, c2))[j] == id_column(v)[second[j] as int]);
}

/// The snapshot with a new property `cluster`: for every atom the `id` of
/// the first atom of its cluster, where atoms at most `cutoff` apart, and
/// atoms joined by a chain of such atoms, form one cluster.
pub fn clusterize_snapshot(snapshot: &DumpSnapshot, cutoff: i64) -> (r: DumpSnapshot)
    requires
        snapshot.wf(),
        can_clusterize(snapshot@),
        cutoff >= 0,
    ensures
        r.wf(),
        r@ == clustered_view(snapshot@, cutoff as int),
{
    let ghost v = snapshot@;
    let mut extra: Vec<String> = Vec::new();
    extra.push("cluster".to_owned());
    proof {
        snapshot.lemma_view();
        assert(names_view(extra@) =~= seq!["cluster"@]);
        assert(v.keys + seq!["cluster"@] =~= v.keys.push("cluster"@));
        lemma_push_distinct(v.keys, "cluster"@);
    }
    let mut result = copy_snapshot_with_keys(snapshot, &extra);
    let coords = snapshot.get_coordinates();
    let labels = get_clusters(&coords, cutoff);
    let id_j: usize = snapshot.get_property_index("id");
    proof {
        lemma_key_index(v.keys.push("cluster"@), "cluster"@, v.keys.len() as int);
        result.lemma_view();
    }
    let cluster_j: usize = result.get_property_index("cluster");
    let n: usize = snapshot.num_atoms();
    proof {
        assert(cluster_j == v.keys.len());
        lemma_clustering_unique(
            coords@,
            cutoff as int,
            labels@,
            cluster_labels(coords@, cutoff as int),
        );
        let start = labelled_view(v, labels@, 0);
        assert(result@.keys =~= start.keys);
        assert forall|c: int| 0 <= c < start.columns.len() implies #[trigger] result@.columns[c]
            =~= start.columns[c] by {}
        assert(result@.columns =~= start.columns);
    }
    let mut atom_i: usize = 0;
    while atom_i < n
        invariant
            atom_i <= n,
            n == v.atoms_count,
            v == snapshot@,
            snapshot.wf(),
            snapshot_wf(v),
            result.wf(),
            labels@.len() == n,
            forall|i: int| 0 <= i < n ==> (#[trigger] labels@[i]) <= i,
            id_j == key_index(v.keys, "id"@),
            id_j < v.keys.len(),
            cluster_j == v.keys.len(),
            result@ == labelled_view(v, labels@, atom_i as int),
        decreases n - atom_i,
    {
        let cluster_i: usize = labels[atom_i];
        let cluster_id: i64 = snapshot.get_atom_value(id_j, cluster_i);
        result.set_atom_value(cluster_j, atom_i, cluster_id);
        proof {
            let target = labelled_view(v, labels@, atom_i + 1);
            assert forall|c: int| 0 <= c < target.columns.len() implies
                #[trigger] result@.columns[c] =~= target.columns[c] by {}
            assert(result@.columns =~= target.columns);
        }
        atom_i += 1;
    }
    result
}

/// How often `id` occurs in `column`.
pub open spec fn occurrences(column: Seq<i64>, id: i64) -> nat
    decreases column.len(),
{
    if column.len() == 0 {
        0
    } else {
        occurrences(column.drop_last(), id) + if column.last() == id {
            1nat
        } else {
            0nat
        }
    }
}

/// A value occurs in a column at most as often as the column is long, and
/// at least once where the column holds it.
pub proof fn lemma_occurrences(column: Seq<i64>, id: i64)
    ensures
        occurrences(column, id) <= column.len(),
        column.contains(id) <==> occurrences(column, id) > 0,
    decreases column.len(),
{
    if column.len() > 0 {
        let shorter = column.drop_last();
        lemma_occurrences(shorter, id);
        if column.contains(id) {
            let m = choose|m: int| 0 <= m < column.len() && column[m] == id;
            if m < shorter.len() {
                assert(shorter[m] == id);
            }
        }
        if shorter.contains(id) {
            let m = choose|m: int| 0 <= m < shorter.len() && shorter[m] == id;
            assert(column[m] == id);
        }
        if column.last() == id {
            assert(column[column.len() - 1] == id);
        }
    }
}

/// What the table of cluster sizes is: it holds every cluster id of the
/// column, and no other, with the number of rows that carry it.
pub open spec fn is_cluster_counts(column: Seq<i64>, counts: Map<i64, usize>) -> bool {
    &&& forall|id: i64| #[trigger] counts.contains_key(id) <==> column.contains(id)
    &&& forall|id: i64| #[trigger] counts.contains_key(id) ==> counts[id] == occurrences(column, id)
}

/// One more row changes the number of rows of its own cluster only.
pub proof fn lemma_occurrences_push(column: Seq<i64>, id: i64, other: i64)
    ensures
        occurrences(column.push(id), other) == occurrences(column, other) + if other == id {
            1nat
        } else {
            0nat
        },
        column.push(id).contains(other) <==> other == id || column.contains(other),
{
    let longer = column.push(id);
    assert(longer.drop_last() =~= column);
    assert(longer.last() == id);
    if longer.contains(other) {
        let m = choose|m: int| 0 <= m < longer.len() && longer[m] == other;
        if m < column.len() {
            assert(column[m] == other);
        }
    }
    if column.contains(other) {
        let m = choose|m: int| 0 <= m < column.len() && column[m] == other;
        assert(longer[m] == other);
    }
    assert(longer[column.len() as int] == id);
}

/// Counts the rows of every cluster of a column of cluster ids.
pub fn count_clusters(column: &[i64]) -> (counts: HashMap<i64, usize>)
    ensures
        is_cluster_counts(column@, counts@),
{
    broadcast use vstd::std_specs::hash::group_hash_axioms;

    let mut counts: HashMap<i64, usize> = HashMap::new();
    let mut i: usize = 0;
    proof {
        let none = column@.take(0);
        assert forall|id: i64| !none.contains(id) by {}
    }
    while i < column.len()
        invariant
            i <= column@.len(),
            is_cluster_counts(column@.take(i as int), counts@),
        decreases column@.len() - i,
    {
        let id: i64 = column[i];
        let ghost before = column@.take(i as int);
        let ghost counts0 = counts@;
        proof {
            assert(column@.take(i + 1) =~= before.push(id));
            lemma_occurrences(before, id);
            assert(counts0.contains_key(id) <==> before.contains(id));
        }
        let seen: usize = match counts.get(&id) {
            Some(n) => *n,
            None => 0,
        };
        counts.insert(id, seen + 1);
        proof {
            let after = before.push(id);
            assert forall|other: i64| #[trigger]
                counts@.contains_key(other) <==> after.contains(other) by {
                lemma_occurrences_push(before, id, other);
                assert(counts0.contains_key(other) <==> before.contains(other));
            }
            assert forall|other: i64| #[trigger] counts@.contains_key(other) implies counts@[other]
                == occurrences(after, other) by {
                lemma_occurrences_push(before, id, other);
                if other != id {
                    assert(counts0.contains_key(other));
                }
            }
        }
        i += 1;
    }
    proof {
        assert(column@.take(i as int) =~= column@);
    }
    counts
}

/// The cluster ids that a table of cluster sizes holds, in no particular order.
fn counted_ids(counts: &HashMap<i64, usize>) -> (ids: Vec<i64>)
    ensures
        forall|id: i64| ids@.contains(id) <==> counts@.contains_key(id),
{
    broadcast use vstd::std_specs::hash::group_hash_axioms;

    let mut ids: Vec<i64> = Vec::new();
    let ghost all: Seq<i64> = counts.keys().remaining().unref();
    proof {
        vstd::std_specs::hash::axiom_spec_keys_iter(counts);
    }
    for id in it: counts.keys()
        invariant
            ids@.len() == it.index(),
            it.seq().unref() == all,
            forall|j: int| 0 <= j < ids@.len() ==> ids@[j] == *it.seq()[j],
    {
        ids.push(*id);
    }
    proof {
        assert(ids@ =~= all);
        assert forall|id: i64| ids@.contains(id) <==> counts@.contains_key(id) by {
            assert(ids@.contains(id) <==> ids@.to_set().contains(id));
            assert(counts@.dom().contains(id) <==> counts@.contains_key(id));
        }
    }
    ids
}

/// The number of atoms of every cluster of a clusterized snapshot.
pub fn get_cluster_counts(snapshot: &DumpSnapshot) -> (counts: HashMap<i64, usize>)
    requires
        snapshot.wf(),
        snapshot@.keys.contains("cluster"@),
    ensures
        is_cluster_counts(snapshot@.columns[key_index(snapshot@.keys, "cluster"@)], counts@),
{
    count_clusters(snapshot.get_property("cluster"))
}

/// `id` names the largest cluster of the column: no id has more rows, and
/// of those with as many rows none is smaller.
pub open spec fn is_max_cluster(column: Seq<i64>, id: i64) -> bool {
    &&& column.contains(id)
    &&& forall|m: int|
        0 <= m < column.len() ==> occurrences(column, #[trigger] column[m]) < occurrences(
            column,
            id,
        ) || (occurrences(column, column[m]) == occurrences(column, id) && id <= column[m])
}

/// The id of the largest cluster of a column of cluster ids that is not
/// empty; of several largest clusters the one with the smallest id.
pub fn max_cluster(column: &[i64]) -> (id: i64)
    requires
        column@.len() > 0,
    ensures
        is_max_cluster(column@, id),
{
    broadcast use vstd::std_specs::hash::group_hash_axioms;

    let counts = count_clusters(column);
    let ids = counted_ids(&counts);
    proof {
        assert(column@.contains(column@[0]));
        assert(ids@.contains(column@[0]));
        assert(ids@.contains(ids@[0]));
    }
    let mut best: i64 = ids[0];
    let mut most: usize = *counts.get(&best).unwrap();
    let mut t: usize = 1;
    while t < ids.len()
        invariant
            1 <= t <= ids@.len(),
            is_cluster_counts(column@, counts@),
            forall|id: i64| ids@.contains(id) <==> counts@.contains_key(id),
            counts@.contains_key(best),
            most == counts@[best],
            forall|u: int|
                0 <= u < t ==> counts@[#[trigger] ids@[u]] < most || (counts@[ids@[u]] == most
                    && best <= ids@[u]),
        decreases ids@.len() - t,
    {
        let id: i64 = ids[t];
        proof {
            assert(ids@.contains(ids@[t as int]));
        }
        let n: usize = *counts.get(&id).unwrap();
        if n > most || (n == most && id < best) {
            best = id;
            most = n;
        }
        t += 1;
    }
    proof {
        assert forall|m: int| 0 <= m < column@.len() implies occurrences(
            column@,
            #[trigger] column@[m],
        ) < occurrences(column@, best) || (occurrences(column@, column@[m]) == occurrences(
            column@,
            best,
        ) && best <= column@[m]) by {
            assert(column@.contains(column@[m]));
            assert(counts@.contains_key(column@[m]));
            assert(ids@.contains(column@[m]));
            let u = choose|u: int| 0 <= u < ids@.len() && ids@[u] == column@[m];
            assert(counts@[ids@[u]] < most || (counts@[ids@[u]] == most && best <= ids@[u]));
        }
    }
    best
}

/// The id of the largest cluster of a clusterized snapshot that holds at
/// least one atom; of several largest clusters the one with the smallest id.
pub fn get_max_cluster(snapshot: &DumpSnapshot) -> (id: i64)
    requires
        snapshot.wf(),
        snapshot@.keys.contains("cluster"@),
        snapshot@.atoms_count > 0,
    ensures
        is_max_cluster(snapshot@.columns[key_index(snapshot@.keys, "cluster"@)], id),
{
    proof {
        snapshot.lemma_view();
    }
    max_cluster(snapshot.get_property("cluster"))
}

} // verus!
