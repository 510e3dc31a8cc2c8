//! Positions, dimensions and locations of storage containers, with the
//! travel-cost heuristic used to compare candidate locations.

use vstd::prelude::*;

verus! {

/// A block position in the world.
#[derive(Clone, Copy, PartialEq, Eq, Hash, Debug, Structural)]
pub struct Vec3 {
    pub x: i32,
    pub y: i32,
    pub z: i32,
}

/// The closed set of world partitions.
#[derive(Clone, Copy, PartialEq, Eq, Hash, Debug, Structural)]
pub enum Dimension {
    TheNether,
    Overworld,
    TheEnd,
}

/// A storage container's place in the world: position plus dimension.
/// Used as an exact-match key.
#[derive(Clone, Copy, PartialEq, Eq, Hash, Debug, Structural)]
pub struct Location {
    pub vec3: Vec3,
    pub dim: Dimension,
}

/// Penalty returned for cross-dimension pairs: a constant worse than any
/// same-dimension distance found in practice.
pub const CROSS_DIMENSION_PENALTY: i32 = 1000;

/// The squared Euclidean distance between two positions, over the integers.
pub open spec fn sq_dist(a: Vec3, b: Vec3) -> int {
    (a.x - b.x) * (a.x - b.x) + (a.y - b.y) * (a.y - b.y) + (a.z - b.z) * (a.z - b.z)
}

/// `r` is the Euclidean distance truncated to an integer: the greatest
/// integer whose square does not exceed `n`.
pub open spec fn is_floor_sqrt(n: int, r: int) -> bool {
    0 <= r && r * r <= n && n < (r + 1) * (r + 1)
}

impl Location {
    /// Crude travel-cost model between two storage locations: a constant
    /// penalty across dimensions, otherwise the truncated Euclidean distance
    /// (saturated at `i32::MAX`, which no same-dimension pair reaches in
    /// practice).
    pub fn distance_heuristic(&self, other: &Location) -> (r: i32)
        ensures
            self.dim != other.dim ==> r == CROSS_DIMENSION_PENALTY,
            self.dim == other.dim ==> ({
                let n = sq_dist(self.vec3, other.vec3);
                if n < (i32::MAX + 1) * (i32::MAX + 1) {
                    is_floor_sqrt(n, r as int)
                } else {
                    r == i32::MAX
                }
            }),
    {
        if self.dim != other.dim {
            return CROSS_DIMENSION_PENALTY;
        }

        let dx: i128 = self.vec3.x as i128 - other.vec3.x as i128;
        let dy: i128 = self.vec3.y as i128 - other.vec3.y as i128;
        let dz: i128 = self.vec3.z as i128 - other.vec3.z as i128;
        proof {
            assert(dx * dx <= 0x1_0000_0000_0000_0000 && dx * dx >= 0) by (nonlinear_arith)
                requires -0x1_0000_0000 <= dx <= 0x1_0000_0000;
            assert(dy * dy <= 0x1_0000_0000_0000_0000 && dy * dy >= 0) by (nonlinear_arith)
                requires -0x1_0000_0000 <= dy <= 0x1_0000_0000;
            assert(dz * dz <= 0x1_0000_0000_0000_0000 && dz * dz >= 0) by (nonlinear_arith)
                requires -0x1_0000_0000 <= dz <= 0x1_0000_0000;
        }
        let sq: i128 = dx * dx + dy * dy + dz * dz;
        let n: u128 = sq as u128;
        let root: u128 = isqrt_u128(n);
        if root > i32::MAX as u128 {
            proof {
                assert((root as int) * (root as int) <= n);
                assert(2147483648 * 2147483648 <= (root as int) * (root as int))
                    by (nonlinear_arith)
                    requires 2147483648 <= root as int;
            }
            i32::MAX
        } else {
            proof {
                assert((root as int + 1) * (root as int + 1) <= 2147483648 * 2147483648)
                    by (nonlinear_arith)
                    requires 0 <= root as int && root as int + 1 <= 2147483648;
            }
            root as i32
        }
    }
}

/// The greatest `r` with `r * r <= n`, found by binary search.
fn isqrt_u128(n: u128) -> (r: u128)
    requires
        n < 0x4_0000_0000_0000_0000,
    ensures
        is_floor_sqrt(n as int, r as int),
{
    let mut lo: u128 = 0;
    let mut hi: u128 = 0x2_0000_0000;
    proof {
        assert(0x2_0000_0000 * 0x2_0000_0000 > n) by (nonlinear_arith)
            requires n < 0x4_0000_0000_0000_0000int;
    }
    while lo + 1 < hi
        invariant
            lo < hi <= 0x2_0000_0000,
            lo * lo <= n,
            n < hi * hi,
        decreases hi - lo,
    {
        let mid: u128 = lo + (hi - lo) / 2;
        proof {
            assert(mid * mid <= 0x2_0000_0000 * 0x2_0000_0000) by (nonlinear_arith)
                requires 0 <= mid <= 0x2_0000_0000u128;
        }
        if mid * mid <= n {
            lo = mid;
        } else {
            hi = mid;
        }
    }
    lo
}

impl Vec3 {
    /// Component-wise addition; callers keep the sums inside `i32`.
    pub fn add(&self, b: Vec3) -> (r: Vec3)
        requires
            i32::MIN <= self.x + b.x <= i32::MAX,
            i32::MIN <= self.y + b.y <= i32::MAX,
            i32::MIN <= self.z + b.z <= i32::MAX,
        ensures
            r.x == self.x + b.x,
            r.y == self.y + b.y,
            r.z == self.z + b.z,
    {
        Vec3 { x: self.x + b.x, y: self.y + b.y, z: self.z + b.z }
    }
}

/// A position projected onto the horizontal plane.
#[derive(Clone, Copy, PartialEq, Eq, Hash, Debug, Structural)]
pub struct Vec2 {
    pub x: i32,
    pub z: i32,
}

impl From<Vec3> for Vec2 {
    fn from(vec3: Vec3) -> (r: Vec2)
        ensures
            r == (Vec2 { x: vec3.x, z: vec3.z }),
    {
        Vec2 { x: vec3.x, z: vec3.z }
    }
}

impl vstd::std_specs::convert::FromSpecImpl<Vec3> for Vec2 {
    open spec fn obeys_from_spec() -> bool {
        true
    }

    open spec fn from_spec(vec3: Vec3) -> Vec2 {
        Vec2 { x: vec3.x, z: vec3.z }
    }
}

/// Whether `p` lies inside the axis-aligned rectangle spanned by `a` and `b`,
/// widened on every side by `margin`.
pub open spec fn spec_contained_by(p: Vec2, a: Vec2, b: Vec2, margin: int) -> bool {
    let min_x = vstd::math::min(a.x as int, b.x as int) - margin;
    let max_x = vstd::math::max(a.x as int, b.x as int) + margin;
    let min_z = vstd::math::min(a.z as int, b.z as int) - margin;
    let max_z = vstd::math::max(a.z as int, b.z as int) + margin;
    min_x <= p.x <= max_x && min_z <= p.z <= max_z
}

impl Vec2 {
    /// Rectangle-membership test used to tell whether a position falls inside
    /// a region, with a tolerance margin.
    pub fn contained_by(&self, a: Vec2, b: Vec2, margin: i32) -> (r: bool)
        ensures
            r == spec_contained_by(*self, a, b, margin as int),
    {
        let min_x: i64 = (if a.x < b.x { a.x } else { b.x }) as i64 - margin as i64;
        let max_x: i64 = (if a.x > b.x { a.x } else { b.x }) as i64 + margin as i64;
        let min_z: i64 = (if a.z < b.z { a.z } else { b.z }) as i64 - margin as i64;
        let max_z: i64 = (if a.z > b.z { a.z } else { b.z }) as i64 + margin as i64;

        if min_x > self.x as i64 || max_x < self.x as i64 || min_z > self.z as i64
            || max_z < self.z as i64 {
            return false;
        }

        true
    }
}

} // verus!
