use vstd::prelude::*;

use crate::vec3::Vec3;

verus! {

/// A triangle of the mesh, by the flat indices of its three vertices.
#[derive(Clone, Copy, Debug)]
pub struct Face {
    pub verts: (usize, usize, usize),
}

/// The (unnormalised) normal of the triangle `a, b, c`: `(a - b) × (a - c)`.
pub open spec fn normal_of(a: Vec3, b: Vec3, c: Vec3) -> (int, int, int) {
    let (ux, uy, uz) = (a.x - b.x, a.y - b.y, a.z - b.z);
    let (vx, vy, vz) = (a.x - c.x, a.y - c.y, a.z - c.z);
    (uy * vz - uz * vy, uz * vx - ux * vz, ux * vy - uy * vx)
}

/// Coordinates small enough that the normal of a triangle stays exact.
pub open spec fn small(v: Vec3) -> bool {
    &&& -crate::vec3::COORD_LIMIT / 2 <= v.x <= crate::vec3::COORD_LIMIT / 2
    &&& -crate::vec3::COORD_LIMIT / 2 <= v.y <= crate::vec3::COORD_LIMIT / 2
    &&& -crate::vec3::COORD_LIMIT / 2 <= v.z <= crate::vec3::COORD_LIMIT / 2
}

impl Face {
    pub fn new(first: usize, second: usize, third: usize) -> (r: Face)
        ensures
            r.verts == (first, second, third),
    {
        Face { verts: (first, second, third) }
    }

    /// The face's normal over the vertex list, not normalised.
    pub fn compute_normal(&self, verts: &Vec<Vec3>) -> (r: Vec3)
        requires
            self.verts.0 < verts@.len(),
            self.verts.1 < verts@.len(),
            self.verts.2 < verts@.len(),
            small(verts@[self.verts.0 as int]),
            small(verts@[self.verts.1 as int]),
            small(verts@[self.verts.2 as int]),
        ensures
            (r.x as int, r.y as int, r.z as int) == normal_of(verts@[self.verts.0 as int], verts@[self.verts.1 as int], verts@[self.verts.2 as int]),
    {
        let a = &verts[self.verts.0];
        let b = &verts[self.verts.1];
        let c = &verts[self.verts.2];
        let ac = a.delta(b);
        let ab = a.delta(c);
        ac.cross(&ab)
    }
}

} // verus!
