//! Surface quads and the buffers that group them by face direction.
//!
//! A quad is an axis-aligned rectangle on the boundary between solid and
//! empty voxels.  The unmerged mesher emits unit quads, one per exposed face;
//! the greedy mesher emits merged quads with a width and height measured in
//! whole voxel faces.  Both group their output by the six face direction
//! indices, in the order -x, -y, -z, +x, +y, +z.

use vstd::prelude::*;

verus! {

use crate::voxel::GRID_SIZE;

/// A single exposed voxel face: the minimum corner of a unit quad.
#[derive(Clone, Copy, Eq, PartialEq, Debug)]
pub struct UnitQuad {
    pub minimum: [u32; 3],
}

/// A merged rectangle of exposed faces: a minimum corner and an extent.  The
/// width runs along the u axis of the face's slice plane and the height along
/// its v axis (see [`uvn`]).
#[derive(Clone, Copy, Eq, PartialEq, Debug)]
pub struct Quad {
    pub minimum: [u32; 3],
    pub width: u32,
    pub height: u32,
}

/// Maps world cell coordinates to slice coordinates (u, v, n) for direction
/// index d: n runs along the face's normal axis and (u, v) span the slice
/// plane, with x faces as (z, y, x), y faces as (z, x, y) and z faces as
/// (x, y, z).
pub open spec fn uvn(d: int, x: int, y: int, z: int) -> (int, int, int) {
    if d == 0 || d == 3 {
        (z, y, x)
    } else if d == 1 || d == 4 {
        (z, x, y)
    } else {
        (x, y, z)
    }
}

/// Whether quad q, emitted for direction index d, covers the face of cell
/// (x, y, z).
pub open spec fn quad_covers(d: int, q: Quad, x: int, y: int, z: int) -> bool {
    let c = uvn(d, x, y, z);
    let m = uvn(d, q.minimum[0] as int, q.minimum[1] as int, q.minimum[2] as int);
    &&& c.2 == m.2
    &&& m.0 <= c.0 < m.0 + q.width
    &&& m.1 <= c.1 < m.1 + q.height
}

/// Whether some quad of the group qs covers the face of cell (x, y, z) in
/// direction index d.
pub open spec fn covered_by(qs: Seq<Quad>, d: int, x: int, y: int, z: int) -> bool {
    exists|k: int| 0 <= k < qs.len() && quad_covers(d, qs[k], x, y, z)
}

/// No two quads of the group qs cover a common cell face.
pub open spec fn pairwise_disjoint(qs: Seq<Quad>, d: int) -> bool {
    forall|k1: int, k2: int, x: int, y: int, z: int|
        0 <= k1 < qs.len() && 0 <= k2 < qs.len() && k1 != k2 ==> !(#[trigger] quad_covers(
            d,
            qs[k1],
            x,
            y,
            z,
        ) && #[trigger] quad_covers(d, qs[k2], x, y, z))
}

/// The output of the unmerged mesher: one sequence of unit quads per face
/// direction index.
pub struct UnitQuadBuffer {
    pub groups: Vec<Vec<UnitQuad>>,
}

impl UnitQuadBuffer {
    /// Six groups, none larger than the cell count of the grid.
    pub open spec fn wf(self) -> bool {
        &&& self.groups@.len() == 6
        &&& forall|d: int| 0 <= d < 6 ==> (#[trigger] self.groups@[d])@.len() <= GRID_SIZE
    }

    /// The total number of quads over all six groups.
    pub open spec fn spec_num_quads(self) -> int {
        self.groups@[0]@.len() as int + self.groups@[1]@.len() + self.groups@[2]@.len()
            + self.groups@[3]@.len() + self.groups@[4]@.len() + self.groups@[5]@.len()
    }

    /// Counts the quads over all six groups.
    pub fn num_quads(&self) -> (n: usize)
        requires
            self.wf(),
        ensures
            n == self.spec_num_quads(),
    {
        self.groups[0].len() + self.groups[1].len() + self.groups[2].len() + self.groups[3].len()
            + self.groups[4].len() + self.groups[5].len()
    }
}

/// The output of the greedy mesher: one sequence of merged quads per face
/// direction index.
pub struct QuadBuffer {
    pub groups: Vec<Vec<Quad>>,
}

impl QuadBuffer {
    /// Six groups, none larger than the cell count of the grid.
    pub open spec fn wf(self) -> bool {
        &&& self.groups@.len() == 6
        &&& forall|d: int| 0 <= d < 6 ==> (#[trigger] self.groups@[d])@.len() <= GRID_SIZE
    }

    /// The total number of quads over all six groups.
    pub open spec fn spec_num_quads(self) -> int {
        self.groups@[0]@.len() as int + self.groups@[1]@.len() + self.groups@[2]@.len()
            + self.groups@[3]@.len() + self.groups@[4]@.len() + self.groups@[5]@.len()
    }

    /// Counts the quads over all six groups.
    pub fn num_quads(&self) -> (n: usize)
        requires
            self.wf(),
        ensures
            n == self.spec_num_quads(),
    {
        self.groups[0].len() + self.groups[1].len() + self.groups[2].len() + self.groups[3].len()
            + self.groups[4].len() + self.groups[5].len()
    }
}

} // verus!
