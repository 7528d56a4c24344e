use vstd::prelude::*;

use std::cmp::Ordering;

verus! {

/// Largest coordinate magnitude on which the products below stay exact.
pub const COORD_LIMIT: i128 = 1152921504606846976;

/// Coordinates that differ by less than this many length units (a hundredth
/// of a cell) compare as equal.
pub const CMP_TOLERANCE: i128 = 5100;

/// A point or displacement in 3D, in integer length units.
#[derive(Clone, Copy, Debug, PartialEq, Eq, Structural)]
pub struct Vec3 {
    pub x: i128,
    pub y: i128,
    pub z: i128,
}

/// Square of the Euclidean distance between two points.
pub open spec fn dist_sq(a: Vec3, b: Vec3) -> int {
    (a.x - b.x) * (a.x - b.x) + (a.y - b.y) * (a.y - b.y) + (a.z - b.z) * (a.z - b.z)
}

/// Order of `a` against `b` where values closer than the tolerance tie.
pub open spec fn cmp_coord(a: int, b: int) -> Ordering {
    if a > b {
        Ordering::Greater
    } else if b - a < CMP_TOLERANCE {
        Ordering::Equal
    } else {
        Ordering::Less
    }
}

fn cmp_value(a: i128, b: i128) -> (r: Ordering)
    requires
        -COORD_LIMIT <= a <= COORD_LIMIT,
        -COORD_LIMIT <= b <= COORD_LIMIT,
    ensures
        r == cmp_coord(a as int, b as int),
{
    if a > b {
        Ordering::Greater
    } else if b - a < CMP_TOLERANCE {
        Ordering::Equal
    } else {
        Ordering::Less
    }
}

impl Vec3 {
    /// Every coordinate lies within `COORD_LIMIT`.
    pub open spec fn in_range(&self) -> bool {
        &&& -COORD_LIMIT <= self.x <= COORD_LIMIT
        &&& -COORD_LIMIT <= self.y <= COORD_LIMIT
        &&& -COORD_LIMIT <= self.z <= COORD_LIMIT
    }

    pub fn new(coords: (i128, i128, i128)) -> (r: Vec3)
        ensures
            r.x == coords.0 && r.y == coords.1 && r.z == coords.2,
    {
        Vec3 { x: coords.0, y: coords.1, z: coords.2 }
    }

    /// The coordinate at position `num` (0: x, 1: y, 2: z).
    pub fn index(&self, num: usize) -> (r: i128)
        requires
            num < 3,
        ensures
            r == (if num == 0 { self.x } else if num == 1 { self.y } else { self.z }),
    {
        match num {
            0 => self.x,
            1 => self.y,
            _ => self.z,
        }
    }

    /// Squared length.
    pub fn len_sq(&self) -> (r: u128)
        requires
            self.in_range(),
        ensures
            r == self.x * self.x + self.y * self.y + self.z * self.z,
    {
        let zero = Vec3 { x: 0, y: 0, z: 0 };
        self.distance_sq_to(&zero)
    }

    pub fn dot(&self, other: &Vec3) -> (r: i128)
        requires
            self.in_range(),
            other.in_range(),
        ensures
            r == self.x * other.x + self.y * other.y + self.z * other.z,
    {
        proof {
            lemma_product_bound(self.x as int, other.x as int);
            lemma_product_bound(self.y as int, other.y as int);
            lemma_product_bound(self.z as int, other.z as int);
        }
        self.x * other.x + self.y * other.y + self.z * other.z
    }

    pub fn cross(&self, other: &Vec3) -> (r: Vec3)
        requires
            self.in_range(),
            other.in_range(),
        ensures
            r.x == self.y * other.z - self.z * other.y,
            r.y == self.z * other.x - self.x * other.z,
            r.z == self.x * other.y - self.y * other.x,
    {
        proof {
            lemma_product_bound(self.y as int, other.z as int);
            lemma_product_bound(self.z as int, other.y as int);
            lemma_product_bound(self.z as int, other.x as int);
            lemma_product_bound(self.x as int, other.z as int);
            lemma_product_bound(self.x as int, other.y as int);
            lemma_product_bound(self.y as int, other.x as int);
        }
        Vec3::new(
            (
                self.y * other.z - self.z * other.y,
                self.z * other.x - self.x * other.z,
                self.x * other.y - self.y * other.x,
            ),
        )
    }

    /// Square of the distance to `other`.
    pub fn distance_sq_to(&self, other: &Vec3) -> (r: u128)
        requires
            self.in_range(),
            other.in_range(),
        ensures
            r == dist_sq(*self, *other),
    {
        let d = self.delta(other);
        proof {
            lemma_square_bound(d.x as int);
            lemma_square_bound(d.y as int);
            lemma_square_bound(d.z as int);
        }
        let sx = (d.x * d.x) as u128;
        let sy = (d.y * d.y) as u128;
        let sz = (d.z * d.z) as u128;
        sx + sy + sz
    }

    /// The displacement `self - other`.
    pub fn delta(&self, other: &Vec3) -> (r: Vec3)
        requires
            self.in_range(),
            other.in_range(),
        ensures
            r.x == self.x - other.x && r.y == self.y - other.y && r.z == self.z - other.z,
    {
        Vec3::new((self.x - other.x, self.y - other.y, self.z - other.z))
    }

    /// The sum `self + other`.
    pub fn add(&self, other: &Vec3) -> (r: Vec3)
        requires
            self.in_range(),
            other.in_range(),
        ensures
            r.x == self.x + other.x && r.y == self.y + other.y && r.z == self.z + other.z,
    {
        Vec3::new((self.x + other.x, self.y + other.y, self.z + other.z))
    }

    pub fn cmp_x(&self, other: &Vec3) -> (r: Ordering)
        requires
            self.in_range(),
            other.in_range(),
        ensures
            r == cmp_coord(self.x as int, other.x as int),
    {
        cmp_value(self.x, other.x)
    }

    pub fn cmp_y(&self, other: &Vec3) -> (r: Ordering)
        requires
            self.in_range(),
            other.in_range(),
        ensures
            r == cmp_coord(self.y as int, other.y as int),
    {
        cmp_value(self.y, other.y)
    }

    /// Order by `y`, then by `x`.
    pub fn cmp_xy(&self, other: &Vec3) -> (r: Ordering)
        requires
            self.in_range(),
            other.in_range(),
        ensures
            r == (match cmp_coord(self.y as int, other.y as int) {
                Ordering::Equal => cmp_coord(self.x as int, other.x as int),
                o => o,
            }),
    {
        match cmp_value(self.y, other.y) {
            Ordering::Equal => cmp_value(self.x, other.x),
            o => o,
        }
    }
}

/// Squared distances between points in range are below `12 * COORD_LIMIT²`.
pub proof fn lemma_dist_sq_bound(a: Vec3, b: Vec3)
    requires
        a.in_range(),
        b.in_range(),
    ensures
        0 <= dist_sq(a, b) <= 12 * COORD_LIMIT * COORD_LIMIT,
{
    lemma_square_bound(a.x - b.x);
    lemma_square_bound(a.y - b.y);
    lemma_square_bound(a.z - b.z);
}

proof fn lemma_product_bound(a: int, b: int)
    requires
        -COORD_LIMIT <= a <= COORD_LIMIT,
        -COORD_LIMIT <= b <= COORD_LIMIT,
    ensures
        -COORD_LIMIT * COORD_LIMIT <= a * b <= COORD_LIMIT * COORD_LIMIT,
{
    assert(-COORD_LIMIT * COORD_LIMIT <= a * b <= COORD_LIMIT * COORD_LIMIT) by (nonlinear_arith)
        requires
            -COORD_LIMIT <= a <= COORD_LIMIT,
            -COORD_LIMIT <= b <= COORD_LIMIT,
            COORD_LIMIT > 0;
}

proof fn lemma_square_bound(a: int)
    requires
        -2 * COORD_LIMIT <= a <= 2 * COORD_LIMIT,
    ensures
        0 <= a * a <= 4 * COORD_LIMIT * COORD_LIMIT,
{
    assert(0 <= a * a <= 4 * COORD_LIMIT * COORD_LIMIT) by (nonlinear_arith)
        requires
            -2 * COORD_LIMIT <= a <= 2 * COORD_LIMIT,
            COORD_LIMIT > 0;
}

} // verus!
