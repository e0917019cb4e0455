//! Chunk generation: from chunk coordinates and a seed to surface quads.
//!
//! Every column of the grid is thresholded against a height sampled from a
//! deterministic gradient-noise field at the column's world position, so
//! adjacent chunks are seamless; the resulting voxel grid is handed to the
//! face mesher.

use vstd::prelude::*;

pub use crate::voxel::BoolVoxel;

verus! {

use crate::mesher::{chunk_quads, face_visible, mesh_greedy, mesh_visible_faces};
use crate::quads::{covered_by, pairwise_disjoint, QuadBuffer, UnitQuadBuffer};
use crate::voxel::{
    in_grid,
    lemma_linearize_delinearize,
    spec_linearize,
    x_of,
    y_of,
    z_of,
    VoxelGrid,
    GRID_SIZE,
};
use vstd::arithmetic::div_mod::lemma_fundamental_div_mod_converse;

/// Largest chunk coordinate magnitude accepted, so that world column
/// positions fit in a machine integer.
pub const CHUNK_COORD_BOUND: i32 = 100_000_000;

/// The height threshold of the world column at (wx, wz) for a given seed:
/// what the noise sampler returns for that column.  The value depends on the
/// seed and the column position alone.
pub uninterp spec fn column_height(seed: u32, wx: int, wz: int) -> u32;

/// Relies on noise::OpenSimplex through noise::NoiseFn::get: a gradient-noise
/// sampler whose permutation table is generated deterministically from the
/// seed ("Deterministically generates a new permutation table based on a u32
/// seed value"), so the sample is a pure function of the seed and the
/// position.  The fixed frequency divisor and the height scale and offset are
/// applied here, beside the call, because they are floating-point; the casts
/// go through noise::Constant because this crate names no floating-point
/// type.  The cast of the scaled sample saturates at zero, so the returned
/// height is at least the fixed vertical offset of 10.
#[verifier::external_body]
fn sample_column_height(seed: u32, wx: i32, wz: i32) -> (h: u32)
    ensures
        h == column_height(seed, wx as int, wz as int),
        h >= 10,
{
    let noise_fn = noise::OpenSimplex::new(seed);
    let ten = noise::Constant::new(10 as _).value;
    let px = noise::Constant::new(wx as _).value / ten;
    let pz = noise::Constant::new(wz as _).value / ten;
    let sample = noise::NoiseFn::get(&noise_fn, [px, pz]);
    (sample * ten) as u32 + 10
}

/// The solidity of the whole grid of chunk (cx, cz) for a given seed, in
/// linear cell order: a cell is solid exactly when its y index is at or
/// below the height of its world column.
pub open spec fn chunk_grid_seq(seed: u32, cx: int, cz: int) -> Seq<bool> {
    Seq::new(
        GRID_SIZE as nat,
        |i: int|
            y_of(i) <= column_height(seed, x_of(i) + cx * 16, z_of(i) + cz * 16) as int,
    )
}

/// Rasterizes the voxel grid of chunk (chunkx, chunkz): one noise sample per
/// column, thresholded per cell.
pub fn generate_voxels(chunkx: i32, chunkz: i32, seed: u32) -> (grid: VoxelGrid)
    requires
        -CHUNK_COORD_BOUND <= chunkx <= CHUNK_COORD_BOUND,
        -CHUNK_COORD_BOUND <= chunkz <= CHUNK_COORD_BOUND,
    ensures
        grid.wf(),
        grid@ == chunk_grid_seq(seed, chunkx as int, chunkz as int),
{
    let ghost cx = chunkx as int;
    let ghost cz = chunkz as int;
    let mut heights: Vec<u32> = Vec::new();
    let mut k: usize = 0;
    while k < 324
        invariant
            -CHUNK_COORD_BOUND <= chunkx <= CHUNK_COORD_BOUND,
            -CHUNK_COORD_BOUND <= chunkz <= CHUNK_COORD_BOUND,
            cx == chunkx as int,
            cz == chunkz as int,
            k <= 324,
            heights@.len() == k,
            forall|j: int|
                0 <= j < k ==> #[trigger] heights@[j] == column_height(
                    seed,
                    (j % 18) + cx * 16,
                    (j / 18) + cz * 16,
                ),
        decreases 324 - k,
    {
        let x = (k % 18) as i32;
        let z = (k / 18) as i32;
        let h = sample_column_height(seed, x + chunkx * 16, z + chunkz * 16);
        heights.push(h);
        k += 1;
    }
    let mut data: Vec<BoolVoxel> = Vec::new();
    let mut i: usize = 0;
    while i < GRID_SIZE
        invariant
            heights@.len() == 324,
            forall|j: int|
                0 <= j < 324 ==> #[trigger] heights@[j] == column_height(
                    seed,
                    (j % 18) + cx * 16,
                    (j / 18) + cz * 16,
                ),
            i <= GRID_SIZE,
            data@.len() == i,
            forall|j: int| 0 <= j < i ==> (#[trigger] data@[j]).0 == chunk_grid_seq(seed, cx, cz)[j],
        decreases GRID_SIZE - i,
    {
        let x = i % 18;
        let y = (i / 18) % 130;
        let z = i / 2340;
        proof {
            lemma_fundamental_div_mod_converse(x as int + 18 * (z as int), 18, z as int, x as int);
        }
        let h = heights[x + 18 * z];
        data.push(BoolVoxel((y as u32) <= h));
        i += 1;
    }
    let grid = VoxelGrid { data };
    proof {
        assert(grid@ =~= chunk_grid_seq(seed, cx, cz));
    }
    grid
}

/// What a generated chunk mesh looks like: six well-formed groups holding,
/// for each direction, exactly the unit quads of the visible faces of the
/// chunk's grid, in linear scan order.
pub open spec fn is_chunk_mesh(buffer: UnitQuadBuffer, seed: u32, cx: int, cz: int) -> bool {
    &&& buffer.wf()
    &&& forall|d: int|
        0 <= d < 6 ==> (#[trigger] buffer.groups@[d])@ == chunk_quads(
            chunk_grid_seq(seed, cx, cz),
            d,
        )
}

/// Generates the surface quads of chunk (chunkx, chunkz) for a given seed:
/// rasterizes the voxel grid and meshes it with the unmerged policy, one unit
/// quad per visible face, grouped by the six face direction indices.
pub fn genchunk(chunkx: i32, chunkz: i32, seed: u32) -> (buffer: UnitQuadBuffer)
    requires
        -CHUNK_COORD_BOUND <= chunkx <= CHUNK_COORD_BOUND,
        -CHUNK_COORD_BOUND <= chunkz <= CHUNK_COORD_BOUND,
    ensures
        is_chunk_mesh(buffer, seed, chunkx as int, chunkz as int),
{
    let grid = generate_voxels(chunkx, chunkz, seed);
    mesh_visible_faces(&grid)
}

/// Generates the surface quads of chunk (chunkx, chunkz) with the greedy
/// policy: coplanar adjacent visible faces of one direction are merged into
/// maximal rectangles.  Per direction, the merged quads cover exactly the
/// visible faces of the chunk's grid, without overlap.
pub fn genchunk_merged(chunkx: i32, chunkz: i32, seed: u32) -> (buffer: QuadBuffer)
    requires
        -CHUNK_COORD_BOUND <= chunkx <= CHUNK_COORD_BOUND,
        -CHUNK_COORD_BOUND <= chunkz <= CHUNK_COORD_BOUND,
    ensures
        buffer.wf(),
        forall|d: int, x: int, y: int, z: int|
            #![trigger face_visible(chunk_grid_seq(seed, chunkx as int, chunkz as int), d, x, y, z)]
            #![trigger covered_by(buffer.groups@[d]@, d, x, y, z)]
            0 <= d < 6 ==> (face_visible(
                chunk_grid_seq(seed, chunkx as int, chunkz as int),
                d,
                x,
                y,
                z,
            ) <==> covered_by(buffer.groups@[d]@, d, x, y, z)),
        forall|d: int| 0 <= d < 6 ==> pairwise_disjoint((#[trigger] buffer.groups@[d])@, d),
{
    let grid = generate_voxels(chunkx, chunkz, seed);
    mesh_greedy(&grid)
}

/// Determinism: the quads of a chunk are a function of the chunk coordinate
/// and the seed alone, so two invocations of `genchunk` on the same inputs
/// return buffers with identical groups.
pub proof fn lemma_genchunk_deterministic(
    b1: UnitQuadBuffer,
    b2: UnitQuadBuffer,
    seed: u32,
    cx: int,
    cz: int,
)
    requires
        is_chunk_mesh(b1, seed, cx, cz),
        is_chunk_mesh(b2, seed, cx, cz),
    ensures
        b1.groups@.len() == b2.groups@.len(),
        forall|d: int| 0 <= d < 6 ==> (#[trigger] b1.groups@[d])@ == (#[trigger] b2.groups@[d])@,
{
}

/// Heightmap terrain has no overhangs: within a column, every cell below a
/// solid cell is solid too.
pub proof fn lemma_columns_monotone(seed: u32, cx: int, cz: int, x: int, y1: int, y2: int, z: int)
    requires
        in_grid(x, y1, z),
        in_grid(x, y2, z),
        y1 <= y2,
        chunk_grid_seq(seed, cx, cz)[spec_linearize(x, y2, z)],
    ensures
        chunk_grid_seq(seed, cx, cz)[spec_linearize(x, y1, z)],
{
    lemma_linearize_delinearize(x, y1, z);
    lemma_linearize_delinearize(x, y2, z);
}

/// Boundary seam: two horizontally adjacent chunks agree on the solidity of
/// the two padding columns they share, because both sample the same world
/// columns; meshing the chunks independently therefore neither duplicates
/// nor loses quads at the seam.
pub proof fn lemma_boundary_seam(seed: u32, cx: int, cz: int, x: int, y: int, z: int)
    requires
        0 <= x < 2,
        0 <= y < 130,
        0 <= z < 18,
    ensures
        chunk_grid_seq(seed, cx, cz)[spec_linearize(x + 16, y, z)] == chunk_grid_seq(
            seed,
            cx + 1,
            cz,
        )[spec_linearize(x, y, z)],
{
    lemma_linearize_delinearize(x + 16, y, z);
    lemma_linearize_delinearize(x, y, z);
    assert((x + 16) + cx * 16 == x + (cx + 1) * 16) by (nonlinear_arith);
}

} // verus!
