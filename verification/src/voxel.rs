//! The chunk volume: a fixed-size 3D grid of solid/empty voxels.
//!
//! The grid is two voxels wider than the meshed volume on every axis, so that
//! the outermost layer serves as halo padding: it takes part in visibility
//! tests but never produces faces of its own.

use vstd::prelude::*;

verus! {

use vstd::arithmetic::div_mod::{lemma_fundamental_div_mod, lemma_fundamental_div_mod_converse, lemma_mod_bound};

/// One cell of a chunk volume: `true` is a solid voxel, `false` an empty one.
#[derive(Clone, Copy, Eq, PartialEq, Structural, Debug)]
pub struct BoolVoxel(pub bool);

/// Binary visibility class of a voxel.  Empty cells are fully transparent,
/// solid cells fully opaque; there are no translucent voxels.
#[derive(Clone, Copy, Eq, PartialEq, Structural, Debug)]
pub enum Visibility {
    Empty,
    Opaque,
}

impl BoolVoxel {
    /// An empty voxel is invisible; a solid one is opaque.
    pub fn get_visibility(&self) -> (v: Visibility)
        ensures
            v == (if self.0 {
                Visibility::Opaque
            } else {
                Visibility::Empty
            }),
    {
        if self.0 {
            Visibility::Opaque
        } else {
            Visibility::Empty
        }
    }

    /// All solid voxels share one material, so a voxel merges as itself.
    pub fn merge_value(&self) -> (r: BoolVoxel)
        ensures
            r == *self,
    {
        *self
    }
}

/// Grid extent along x, including the two padding layers.
pub const GRID_X: usize = 18;

/// Grid extent along y.
pub const GRID_Y: usize = 130;

/// Grid extent along z, including the two padding layers.
pub const GRID_Z: usize = 18;

/// Number of cells in the whole grid.
pub const GRID_SIZE: usize = 18 * 130 * 18;

/// Whether (x, y, z) lies inside the grid.
pub open spec fn in_grid(x: int, y: int, z: int) -> bool {
    &&& 0 <= x < 18
    &&& 0 <= y < 130
    &&& 0 <= z < 18
}

/// Row-major linearization of a grid coordinate: x varies fastest, then y,
/// then z.
pub open spec fn spec_linearize(x: int, y: int, z: int) -> int {
    x + 18 * y + 2340 * z
}

/// The x coordinate encoded in linear index i.
pub open spec fn x_of(i: int) -> int {
    i % 18
}

/// The y coordinate encoded in linear index i.
pub open spec fn y_of(i: int) -> int {
    (i / 18) % 130
}

/// The z coordinate encoded in linear index i.
pub open spec fn z_of(i: int) -> int {
    i / 2340
}

/// Linearization and delinearization are mutually inverse, so the mapping
/// between grid coordinates and linear indices is a bijection.
pub proof fn lemma_linearize_delinearize(x: int, y: int, z: int)
    requires
        in_grid(x, y, z),
    ensures
        0 <= spec_linearize(x, y, z) < GRID_SIZE,
        x_of(spec_linearize(x, y, z)) == x,
        y_of(spec_linearize(x, y, z)) == y,
        z_of(spec_linearize(x, y, z)) == z,
{
    let i = spec_linearize(x, y, z);
    lemma_fundamental_div_mod_converse(i, 18, y + 130 * z, x);
    lemma_fundamental_div_mod_converse(y + 130 * z, 130, z, y);
    lemma_fundamental_div_mod_converse(i, 2340, z, x + 18 * y);
}

/// Every linear index decodes to an in-grid coordinate that encodes back to
/// the same index.
pub proof fn lemma_delinearize_linearize(i: int)
    requires
        0 <= i < GRID_SIZE,
    ensures
        in_grid(x_of(i), y_of(i), z_of(i)),
        spec_linearize(x_of(i), y_of(i), z_of(i)) == i,
{
    lemma_fundamental_div_mod(i, 18);
    lemma_fundamental_div_mod(i / 18, 130);
    lemma_mod_bound(i, 18);
    lemma_mod_bound(i / 18, 130);
    lemma_fundamental_div_mod_converse(i, 2340, (i / 18) / 130, i % 18 + 18 * ((i / 18) % 130));
    lemma_fundamental_div_mod(i, 2340);
    lemma_mod_bound(i, 2340);
}

/// Distinct in-grid coordinates have distinct linear indices.
pub proof fn lemma_linearize_injective(x1: int, y1: int, z1: int, x2: int, y2: int, z2: int)
    requires
        in_grid(x1, y1, z1),
        in_grid(x2, y2, z2),
        spec_linearize(x1, y1, z1) == spec_linearize(x2, y2, z2),
    ensures
        x1 == x2 && y1 == y2 && z1 == z2,
{
    lemma_linearize_delinearize(x1, y1, z1);
    lemma_linearize_delinearize(x2, y2, z2);
}

/// Exec counterpart of `spec_linearize`.
pub fn linearize(x: usize, y: usize, z: usize) -> (i: usize)
    requires
        x < GRID_X,
        y < GRID_Y,
        z < GRID_Z,
    ensures
        i == spec_linearize(x as int, y as int, z as int),
        i < GRID_SIZE,
{
    x + 18 * y + 2340 * z
}

/// Whether cell (x, y, z) of grid contents s is solid; coordinates outside
/// the grid count as empty, the designed edge policy for neighbor tests.
pub open spec fn solid_in(s: Seq<bool>, x: int, y: int, z: int) -> bool {
    in_grid(x, y, z) && s[spec_linearize(x, y, z)]
}

/// A fixed-size 3D array of voxels covering one chunk, indexed through the
/// row-major linearization.
pub struct VoxelGrid {
    pub data: Vec<BoolVoxel>,
}

impl View for VoxelGrid {
    type V = Seq<bool>;

    open spec fn view(&self) -> Seq<bool> {
        self.data@.map_values(|v: BoolVoxel| v.0)
    }
}

impl VoxelGrid {
    /// The grid holds exactly one voxel per cell of the fixed volume.
    pub open spec fn wf(self) -> bool {
        self.data@.len() == GRID_SIZE
    }

    /// Reads the solidity of cell (x, y, z).
    pub fn get(&self, x: usize, y: usize, z: usize) -> (b: bool)
        requires
            self.wf(),
            x < GRID_X,
            y < GRID_Y,
            z < GRID_Z,
        ensures
            b == solid_in(self@, x as int, y as int, z as int),
    {
        let i = linearize(x, y, z);
        self.data[i].0
    }
}

} // verus!
