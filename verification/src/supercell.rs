use crate::dump_snapshot::{SymBox, SymBoxView};
use crate::xyz::{Point3, XYZ};
use vstd::prelude::*;

verus! {

/// The step along the first axis to the neighbouring cell number `q` of the
/// 27 cells around and including a cell: -1, 0 or 1.
pub open spec fn period_x(q: int) -> int {
    q / 9 - 1
}

/// The step along the second axis to the neighbouring cell number `q`.
pub open spec fn period_y(q: int) -> int {
    (q / 3) % 3 - 1
}

/// The step along the third axis to the neighbouring cell number `q`.
pub open spec fn period_z(q: int) -> int {
    q % 3 - 1
}

/// Whether a coordinate `c` lies so near the side of the cell that `period`
/// points away from that its image in the next cell matters: within
/// `cutoff` of the lower side for 1, of the upper side for -1.
pub open spec fn near_side(c: int, lo: int, hi: int, cutoff: int, period: int) -> bool {
    if period == 1 {
        c < lo + cutoff
    } else if period == -1 {
        c > hi - cutoff
    } else {
        true
    }
}

/// Whether the point `p` has an image in the neighbouring cell `q`. Cell 13
/// is the cell itself.
pub open spec fn has_image(p: Point3, cell: SymBoxView, cutoff: int, q: int) -> bool {
    &&& q != 13
    &&& near_side(p.x as int, cell.lower.x as int, cell.upper.x as int, cutoff, period_x(q))
    &&& near_side(p.y as int, cell.lower.y as int, cell.upper.y as int, cutoff, period_y(q))
    &&& near_side(p.z as int, cell.lower.z as int, cell.upper.z as int, cutoff, period_z(q))
}

/// The first coordinate of the image of `p` in the neighbouring cell `q`.
pub open spec fn image_x(p: Point3, cell: SymBoxView, q: int) -> int {
    p.x + (cell.upper.x - cell.lower.x) * period_x(q)
}

/// The second coordinate of the image of `p` in the neighbouring cell `q`.
pub open spec fn image_y(p: Point3, cell: SymBoxView, q: int) -> int {
    p.y + (cell.upper.y - cell.lower.y) * period_y(q)
}

/// The third coordinate of the image of `p` in the neighbouring cell `q`.
pub open spec fn image_z(p: Point3, cell: SymBoxView, q: int) -> int {
    p.z + (cell.upper.z - cell.lower.z) * period_z(q)
}

/// The image of `p` in the neighbouring cell `q` has coordinates that fit.
pub open spec fn image_fits(p: Point3, cell: SymBoxView, q: int) -> bool {
    &&& i64::MIN <= image_x(p, cell, q) <= i64::MAX
    &&& i64::MIN <= image_y(p, cell, q) <= i64::MAX
    &&& i64::MIN <= image_z(p, cell, q) <= i64::MAX
}

/// Every image that the points have has coordinates that fit.
pub open spec fn images_fit(points: Seq<XYZ>, cell: SymBoxView, cutoff: int) -> bool {
    forall|a: int, q: int|
        0 <= a < points.len() && 0 <= q < 27 && #[trigger] has_image(
            points[a].coords,
            cell,
            cutoff,
            q,
        ) ==> image_fits(points[a].coords, cell, q)
}

/// The points with the images of the first `a` of them in all neighbouring
/// cells, and of point `a` in the first `q` cells, added behind them in that
/// order, each image numbered by its place in the list.
pub open spec fn supercell(
    points: Seq<XYZ>,
    cell: SymBoxView,
    cutoff: int,
    a: nat,
    q: nat,
) -> Seq<XYZ>
    decreases a, q,
{
    if q == 0 {
        if a == 0 {
            points
        } else {
            supercell(points, cell, cutoff, (a - 1) as nat, 27)
        }
    } else {
        let so_far = supercell(points, cell, cutoff, a, (q - 1) as nat);
        if has_image(points[a as int].coords, cell, cutoff, q - 1) {
            so_far.push(
                XYZ {
                    coords: Point3 {
                        x: image_x(points[a as int].coords, cell, q - 1) as i64,
                        y: image_y(points[a as int].coords, cell, q - 1) as i64,
                        z: image_z(points[a as int].coords, cell, q - 1) as i64,
                    },
                    index: so_far.len() as usize,
                },
            )
        } else {
            so_far
        }
    }
}

/// The list keeps its points in front and gains at most one image per
/// point and neighbouring cell.
pub proof fn lemma_supercell_len(points: Seq<XYZ>, cell: SymBoxView, cutoff: int, a: nat, q: nat)
    requires
        q <= 27,
    ensures
        points.len() <= supercell(points, cell, cutoff, a, q).len() <= points.len() + 27 * a + q,
        forall|k: int|
            0 <= k < points.len() ==> supercell(points, cell, cutoff, a, q)[k] == points[k],
    decreases a, q,
{
    if q == 0 {
        if a > 0 {
            lemma_supercell_len(points, cell, cutoff, (a - 1) as nat, 27);
        }
    } else {
        lemma_supercell_len(points, cell, cutoff, a, (q - 1) as nat);
    }
}

/// Decides whether a coordinate lies near the side that `period` points
/// away from.
fn is_near_side(c: i64, lo: i64, hi: i64, cutoff: i64, period: i64) -> (r: bool)
    ensures
        r == near_side(c as int, lo as int, hi as int, cutoff as int, period as int),
{
    if period == 1 {
        (c as i128) < lo as i128 + cutoff as i128
    } else if period == -1 {
        (c as i128) > hi as i128 - cutoff as i128
    } else {
        true
    }
}

/// The coordinate `c` moved by `period` cells of the width from `lo` to `hi`.
fn shifted(c: i64, lo: i64, hi: i64, period: i64) -> (r: i64)
    requires
        -1 <= period <= 1,
        i64::MIN <= c + (hi - lo) * period <= i64::MAX,
    ensures
        r == c + (hi - lo) * period,
{
    let width: i128 = hi as i128 - lo as i128;
    let moved: i128 = if period == 1 {
        c as i128 + width
    } else if period == -1 {
        c as i128 - width
    } else {
        c as i128
    };
    proof {
        assert((hi - lo) * 1 == hi - lo) by (nonlinear_arith);
        assert((hi - lo) * (-1) == -(hi - lo)) by (nonlinear_arith);
        assert((hi - lo) * 0 == 0) by (nonlinear_arith);
    }
    moved as i64
}

impl XYZ {
    /// Adds, behind the points given, the images of those points in the 26
    /// cells around the periodic cell `sym_box`, as far as an image lies
    /// within `cutoff` of the cell. The images of the first point come
    /// first, cell by cell, and each image is numbered by its place.
    pub fn get_supercell_coords(coords: &mut Vec<Self>, sym_box: &SymBox, cutoff: i64)
        requires
            old(coords)@.len() * 27 <= usize::MAX,
            images_fit(old(coords)@, sym_box@, cutoff as int),
        ensures
            final(coords)@ == supercell(
                old(coords)@,
                sym_box@,
                cutoff as int,
                old(coords)@.len(),
                0,
            ),
    {
        let ghost points = coords@;
        let ghost cell = sym_box@;
        let n: usize = coords.len();
        let lo = sym_box.lower;
        let hi = sym_box.upper;
        let mut a: usize = 0;
        while a < n
            invariant
                a <= n,
                n == points.len(),
                n * 27 <= usize::MAX,
                cell == sym_box@,
                lo == cell.lower,
                hi == cell.upper,
                images_fit(points, cell, cutoff as int),
                coords@ == supercell(points, cell, cutoff as int, a as nat, 0),
            decreases n - a,
        {
            let mut q: usize = 0;
            while q < 27
                invariant
                    q <= 27,
                    a < n,
                    n == points.len(),
                    n * 27 <= usize::MAX,
                    cell == sym_box@,
                    lo == cell.lower,
                    hi == cell.upper,
                    images_fit(points, cell, cutoff as int),
                    coords@ == supercell(points, cell, cutoff as int, a as nat, q as nat),
                decreases 27 - q,
            {
                proof {
                    lemma_supercell_len(points, cell, cutoff as int, a as nat, q as nat);
                }
                let atom = coords[a];
                let px: i64 = (q / 9) as i64 - 1;
                let py: i64 = ((q / 3) % 3) as i64 - 1;
                let pz: i64 = (q % 3) as i64 - 1;
                if q != 13 && is_near_side(atom.coords.x, lo.x, hi.x, cutoff, px) && is_near_side(
                    atom.coords.y,
                    lo.y,
                    hi.y,
                    cutoff,
                    py,
                ) && is_near_side(atom.coords.z, lo.z, hi.z, cutoff, pz) {
                    proof {
                        assert(has_image(points[a as int].coords, cell, cutoff as int, q as int));
                        assert(image_fits(points[a as int].coords, cell, q as int));
                    }
                    let image = Point3 {
                        x: shifted(atom.coords.x, lo.x, hi.x, px),
                        y: shifted(atom.coords.y, lo.y, hi.y, py),
                        z: shifted(atom.coords.z, lo.z, hi.z, pz),
                    };
                    let place: usize = coords.len();
                    coords.push(XYZ::from(image, place));
                }
                q += 1;
            }
            a += 1;
        }
    }
}

} // verus!
