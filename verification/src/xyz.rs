use vstd::prelude::*;

verus! {

/// A point of three-dimensional space, in integer length units.
#[derive(Debug, Clone, Copy, PartialEq, Eq, Hash, Structural)]
pub struct Point3 {
    pub x: i64,
    pub y: i64,
    pub z: i64,
}

/// A point together with the row of the snapshot that it was read from.
#[derive(Debug, Clone, Copy, PartialEq, Eq, Hash, Structural)]
pub struct XYZ {
    pub coords: Point3,
    pub index: usize,
}

/// The squared Euclidean distance between two points.
pub open spec fn distance_squared(a: Point3, b: Point3) -> int {
    (a.x - b.x) * (a.x - b.x) + (a.y - b.y) * (a.y - b.y) + (a.z - b.z) * (a.z - b.z)
}

/// Whether `a` and `b` lie at most `cutoff` apart, stated over squares.
pub open spec fn within_cutoff(a: Point3, b: Point3, cutoff: int) -> bool {
    distance_squared(a, b) <= cutoff * cutoff
}

/// Whether `p` lies in the axis-aligned cube of half-width `r` around `q`.
pub open spec fn in_cube(p: Point3, q: Point3, r: int) -> bool {
    &&& q.x - r <= p.x <= q.x + r
    &&& q.y - r <= p.y <= q.y + r
    &&& q.z - r <= p.z <= q.z + r
}

/// A point within distance `r` lies within the cube of half-width `r`.
pub proof fn lemma_cutoff_in_cube(p: Point3, q: Point3, r: int)
    requires
        r >= 0,
        within_cutoff(p, q, r),
    ensures
        in_cube(p, q, r),
{
    let dx = p.x - q.x;
    let dy = p.y - q.y;
    let dz = p.z - q.z;
    assert(dx * dx >= 0 && dy * dy >= 0 && dz * dz >= 0) by (nonlinear_arith);
    lemma_square_bound(dx, r);
    lemma_square_bound(dy, r);
    lemma_square_bound(dz, r);
}

/// A number whose square is at most `r * r` lies between `-r` and `r`.
pub proof fn lemma_square_bound(d: int, r: int)
    requires
        r >= 0,
        d * d <= r * r,
    ensures
        -r <= d <= r,
{
    assert(d > r ==> d * d > r * r) by (nonlinear_arith)
        requires
            r >= 0,
    ;
    assert(d < -r ==> d * d > r * r) by (nonlinear_arith)
        requires
            r >= 0,
    ;
}

/// The square of a number between `-r` and `r` is at most `r * r`.
pub proof fn lemma_bound_square(d: int, r: int)
    requires
        -r <= d <= r,
    ensures
        0 <= d * d <= r * r,
{
    assert(0 <= d * d <= r * r) by (nonlinear_arith)
        requires
            -r <= d <= r,
    ;
}

/// The absolute difference of two coordinates.
fn coordinate_gap(a: i64, b: i64) -> (d: u64)
    ensures
        d == if a >= b { a - b } else { b - a },
{
    if a >= b {
        let wide: i128 = a as i128 - b as i128;
        wide as u64
    } else {
        let wide: i128 = b as i128 - a as i128;
        wide as u64
    }
}

/// Coordinate number `i` of a point: 0 for `x`, 1 for `y`, 2 for `z`.
pub open spec fn coordinate(p: Point3, i: int) -> i64 {
    if i == 0 {
        p.x
    } else if i == 1 {
        p.y
    } else {
        p.z
    }
}

impl XYZ {
    /// Coordinate number `i` of the point.
    pub fn at(&self, i: usize) -> (r: i64)
        requires
            i < 3,
        ensures
            r == coordinate(self.coords, i as int),
    {
        if i == 0 {
            self.coords.x
        } else if i == 1 {
            self.coords.y
        } else {
            self.coords.z
        }
    }

    /// Pairs a point with the row it belongs to.
    pub fn from(coords: Point3, index: usize) -> (r: Self)
        ensures
            r.coords == coords,
            r.index == index,
    {
        XYZ { coords, index }
    }

    /// Decides whether two points lie at most `cutoff` apart.
    pub fn check_cutoff(a: Self, b: Self, cutoff: i64) -> (r: bool)
        requires
            cutoff >= 0,
        ensures
            r == within_cutoff(a.coords, b.coords, cutoff as int),
    {
        let dx: u64 = coordinate_gap(a.coords.x, b.coords.x);
        let dy: u64 = coordinate_gap(a.coords.y, b.coords.y);
        let dz: u64 = coordinate_gap(a.coords.z, b.coords.z);
        let r: u64 = cutoff as u64;
        proof {
            let gx = a.coords.x - b.coords.x;
            let gy = a.coords.y - b.coords.y;
            let gz = a.coords.z - b.coords.z;
            assert(gx * gx == dx * dx) by (nonlinear_arith)
                requires
                    dx == gx || dx == -gx,
            ;
            assert(gy * gy == dy * dy) by (nonlinear_arith)
                requires
                    dy == gy || dy == -gy,
            ;
            assert(gz * gz == dz * dz) by (nonlinear_arith)
                requires
                    dz == gz || dz == -gz,
            ;
            assert(gx * gx >= 0 && gy * gy >= 0 && gz * gz >= 0) by (nonlinear_arith);
            if dx > r {
                assert(dx * dx > r * r) by (nonlinear_arith)
                    requires
                        dx > r >= 0,
                ;
            }
            if dy > r {
                assert(dy * dy > r * r) by (nonlinear_arith)
                    requires
                        dy > r >= 0,
                ;
            }
            if dz > r {
                assert(dz * dz > r * r) by (nonlinear_arith)
                    requires
                        dz > r >= 0,
                ;
            }
        }
        if dx > r || dy > r || dz > r {
            return false;
        }
        proof {
            lemma_bound_square(dx as int, r as int);
            lemma_bound_square(dy as int, r as int);
            lemma_bound_square(dz as int, r as int);
            assert(r * r <= 0x7fff_ffff_ffff_ffff * 0x7fff_ffff_ffff_ffff) by (nonlinear_arith)
                requires
                    0 <= r <= 0x7fff_ffff_ffff_ffff,
            ;
        }
        let rr: u128 = (r as u128) * (r as u128);
        let sum: u128 = (dx as u128) * (dx as u128) + (dy as u128) * (dy as u128) + (dz as u128) * (
        dz as u128);
        sum <= rr
    }
}

} // verus!
