use crate::xyz::{in_cube, lemma_cutoff_in_cube, within_cutoff, Point3, XYZ};
use vstd::multiset::Multiset;
use vstd::prelude::*;

verus! {

/// A nearest-neighbour structure over a fixed list of points: a k-d tree
/// of the crate `kd_tree` that holds the points, each with the row it came
/// from. The verifier does not look inside; what the index holds is known
/// by [`index_points`] alone.
#[verifier::external_body]
pub struct SpatialIndex {
    tree: kd_tree::KdTree3<([i64; 3], usize)>,
}

/// The points that an index holds, each as often as it was given.
pub uninterp spec fn index_points(index: SpatialIndex) -> Multiset<XYZ>;

/// Whether `p` lies in the axis-aligned box between `lower` and `upper`, bounds included.
pub open spec fn in_box(p: Point3, lower: Point3, upper: Point3) -> bool {
    &&& lower.x <= p.x <= upper.x
    &&& lower.y <= p.y <= upper.y
    &&& lower.z <= p.z <= upper.z
}

/// `kd_tree::KdTree::build` on three integer coordinates per point: the tree
/// holds exactly the points given, in an order of its own.
#[verifier::external_body]
fn kd_build(points: &Vec<XYZ>) -> (tree: SpatialIndex)
    ensures
        index_points(tree) == points@.to_multiset(),
{
    SpatialIndex {
        tree: kd_tree::KdTree::build(
            points.iter().map(|p| ([p.coords.x, p.coords.y, p.coords.z], p.index)).collect(),
        ),
    }
}

/// `kd_tree::KdSliceN::within`: the points of the tree that lie in the box
/// between `lower` and `upper`, bounds included, each as often as the tree
/// holds it. The order of the result is left open.
#[verifier::external_body]
fn kd_within(
    tree: &SpatialIndex,
    lower: Point3,
    upper: Point3,
) -> (found: Vec<XYZ>)
    requires
        lower.x <= upper.x,
        lower.y <= upper.y,
        lower.z <= upper.z,
    ensures
        forall|p: XYZ| #[trigger]
            found@.to_multiset().count(p) == (if in_box(p.coords, lower, upper) {
                index_points(*tree).count(p)
            } else {
                0
            }),
{
    tree.tree.within(&[[lower.x, lower.y, lower.z], [upper.x, upper.y, upper.z]])
        .into_iter()
        .map(|item| XYZ { coords: Point3 { x: item.0[0], y: item.0[1], z: item.0[2] }, index: item.1 })
        .collect()
}

/// An empty sequence holds nothing.
proof fn lemma_empty_counts(s: Seq<XYZ>)
    requires
        s.len() == 0,
    ensures
        forall|p: XYZ| #[trigger] s.to_multiset().count(p) == 0,
{
    broadcast use vstd::seq_lib::to_multiset_len;

    assert(s.to_multiset().len() == 0);
    assert forall|p: XYZ| #[trigger] s.to_multiset().count(p) == 0 by {
        vstd::multiset::axiom_count_le_len(s.to_multiset(), p);
    }
}

/// `a - r`, held at the least `i64`.
fn lower_bound(a: i64, r: i64) -> (b: i64)
    requires
        r >= 0,
    ensures
        b == if a - r < i64::MIN { i64::MIN as int } else { a - r },
{
    let wide: i128 = a as i128 - r as i128;
    if wide < i64::MIN as i128 {
        i64::MIN
    } else {
        wide as i64
    }
}

/// `a + r`, held at the greatest `i64`.
fn upper_bound(a: i64, r: i64) -> (b: i64)
    requires
        r >= 0,
    ensures
        b == if a + r > i64::MAX { i64::MAX as int } else { a + r },
{
    let wide: i128 = a as i128 + r as i128;
    if wide > i64::MAX as i128 {
        i64::MAX
    } else {
        wide as i64
    }
}

impl SpatialIndex {
    /// The indexed points, each as often as it was given.
    pub open spec fn points(&self) -> Multiset<XYZ> {
        index_points(*self)
    }

    /// An index over `points`.
    pub fn build(points: &Vec<XYZ>) -> (index: Self)
        ensures
            index.points() == points@.to_multiset(),
    {
        kd_build(points)
    }

    /// The indexed points whose distance from `query` is at most `radius`,
    /// each as often as it was indexed, in no particular order.
    pub fn within_radius(&self, query: Point3, radius: i64) -> (found: Vec<XYZ>)
        requires
            radius >= 0,
        ensures
            forall|p: XYZ| #[trigger]
                found@.to_multiset().count(p) == (if within_cutoff(
                    p.coords,
                    query,
                    radius as int,
                ) {
                    self.points().count(p)
                } else {
                    0
                }),
    {
        let lower = Point3 {
            x: lower_bound(query.x, radius),
            y: lower_bound(query.y, radius),
            z: lower_bound(query.z, radius),
        };
        let upper = Point3 {
            x: upper_bound(query.x, radius),
            y: upper_bound(query.y, radius),
            z: upper_bound(query.z, radius),
        };
        let boxed = kd_within(self, lower, upper);
        let probe = XYZ::from(query, 0);
        let mut found: Vec<XYZ> = Vec::new();
        let mut k: usize = 0;
        proof {
            lemma_empty_counts(found@);
            lemma_empty_counts(boxed@.take(0));
        }
        while k < boxed.len()
            invariant
                k <= boxed@.len(),
                radius >= 0,
                probe.coords == query,
                forall|p: XYZ| #[trigger]
                    found@.to_multiset().count(p) == (if within_cutoff(
                        p.coords,
                        query,
                        radius as int,
                    ) {
                        boxed@.take(k as int).to_multiset().count(p)
                    } else {
                        0
                    }),
            decreases boxed@.len() - k,
        {
            let candidate = boxed[k];
            proof {
                broadcast use vstd::seq_lib::to_multiset_build;

                assert(boxed@.take(k + 1) =~= boxed@.take(k as int).push(candidate));
            }
            if XYZ::check_cutoff(candidate, probe, radius) {
                found.push(candidate);
            }
            k += 1;
        }
        proof {
            assert(boxed@.take(k as int) =~= boxed@);
            assert forall|p: XYZ| #[trigger]
                found@.to_multiset().count(p) == (if within_cutoff(
                    p.coords,
                    query,
                    radius as int,
                ) {
                    self.points().count(p)
                } else {
                    0
                }) by {
                if within_cutoff(p.coords, query, radius as int) {
                    lemma_cutoff_in_cube(p.coords, query, radius as int);
                    assert(in_box(p.coords, lower, upper));
                }
            }
        }
        found
    }
}

} // verus!
