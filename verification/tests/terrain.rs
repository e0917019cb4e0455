use goatland::mesh::{genchunk, generate_voxels, BoolVoxel};
use goatland::mesher::mesh_visible_faces;
use goatland::voxel::{Visibility, VoxelGrid, GRID_SIZE};

use block_mesh::ndshape::{ConstShape, ConstShape3u32};
use block_mesh::{visible_block_faces, UnitQuadBuffer, Voxel, VoxelVisibility, RIGHT_HANDED_Y_UP_CONFIG};

#[test]
fn test_mergevoxel() {
    assert_eq!(BoolVoxel(true).merge_value(), BoolVoxel(true));
}

#[test]
fn test_genchunk() {
    assert_eq!(genchunk(0, 0, 0).num_quads(), 375);
}

#[test]
fn test_genchunk_deterministic() {
    let a = genchunk(3, -2, 7);
    let b = genchunk(3, -2, 7);
    assert_eq!(a.num_quads(), b.num_quads());
    for d in 0..6 {
        assert_eq!(a.groups[d], b.groups[d]);
    }
}

#[test]
fn test_boundary_seam() {
    let left = generate_voxels(0, 0, 0);
    let right = generate_voxels(1, 0, 0);
    for x in 0..2 {
        for y in 0..130 {
            for z in 0..18 {
                assert_eq!(left.get(x + 16, y, z), right.get(x, y, z));
            }
        }
    }
}

fn empty_grid() -> VoxelGrid {
    VoxelGrid { data: vec![BoolVoxel(false); GRID_SIZE] }
}

fn set_solid(grid: &mut VoxelGrid, x: usize, y: usize, z: usize) {
    grid.data[x + 18 * y + 2340 * z] = BoolVoxel(true);
}

#[test]
fn test_single_voxel_has_six_faces() {
    let mut grid = empty_grid();
    set_solid(&mut grid, 5, 7, 9);
    let buffer = mesh_visible_faces(&grid);
    assert_eq!(buffer.num_quads(), 6);
    for d in 0..6 {
        assert_eq!(buffer.groups[d].len(), 1);
        assert_eq!(buffer.groups[d][0].minimum, [5, 7, 9]);
    }
}

#[test]
fn test_empty_grid_has_no_faces() {
    let buffer = mesh_visible_faces(&empty_grid());
    assert_eq!(buffer.num_quads(), 0);
}

#[test]
fn test_full_grid_has_no_faces() {
    // With the halo padding solid as well, every interior face borders a
    // solid neighbor, so nothing is exposed.
    let grid = VoxelGrid { data: vec![BoolVoxel(true); GRID_SIZE] };
    let buffer = mesh_visible_faces(&grid);
    assert_eq!(buffer.num_quads(), 0);
}

#[test]
fn test_padding_voxels_emit_no_faces() {
    // A solid voxel in the halo layer is neighbor data only.
    let mut grid = empty_grid();
    set_solid(&mut grid, 0, 0, 0);
    set_solid(&mut grid, 17, 129, 17);
    let buffer = mesh_visible_faces(&grid);
    assert_eq!(buffer.num_quads(), 0);
}

#[test]
fn test_two_adjacent_voxels_share_a_hidden_face() {
    let mut grid = empty_grid();
    set_solid(&mut grid, 5, 7, 9);
    set_solid(&mut grid, 6, 7, 9);
    let buffer = mesh_visible_faces(&grid);
    // Ten faces: six each, minus the two touching ones.
    assert_eq!(buffer.num_quads(), 10);
    // Direction 0 (-x) keeps only the face of the left voxel, direction 3
    // (+x) only the face of the right one.
    assert_eq!(buffer.groups[0].len(), 1);
    assert_eq!(buffer.groups[0][0].minimum, [5, 7, 9]);
    assert_eq!(buffer.groups[3].len(), 1);
    assert_eq!(buffer.groups[3][0].minimum, [6, 7, 9]);
}

#[derive(Clone, Copy, Eq, PartialEq)]
struct RefVoxel(bool);

impl Voxel for RefVoxel {
    fn get_visibility(&self) -> VoxelVisibility {
        if self.0 {
            VoxelVisibility::Opaque
        } else {
            VoxelVisibility::Empty
        }
    }
}

#[test]
fn test_matches_reference_mesher() {
    type ChunkShape = ConstShape3u32<18, 130, 18>;
    let grid = generate_voxels(0, 0, 0);
    let mut voxels = [RefVoxel(false); ChunkShape::SIZE as usize];
    for i in 0..GRID_SIZE {
        voxels[i] = RefVoxel(grid.data[i].0);
    }
    let mut reference = UnitQuadBuffer::new();
    visible_block_faces(
        &voxels,
        &ChunkShape {},
        [0; 3],
        [17, 129, 17],
        &RIGHT_HANDED_Y_UP_CONFIG.faces,
        &mut reference,
    );
    let buffer = mesh_visible_faces(&grid);
    for d in 0..6 {
        let mut ours: Vec<[u32; 3]> = buffer.groups[d].iter().map(|q| q.minimum).collect();
        let mut theirs: Vec<[u32; 3]> = reference.groups[d].iter().map(|q| q.minimum).collect();
        ours.sort();
        theirs.sort();
        assert_eq!(ours, theirs);
    }
}

#[test]
fn test_voxel_visibility() {
    assert_eq!(BoolVoxel(false).get_visibility(), Visibility::Empty);
    assert_eq!(BoolVoxel(true).get_visibility(), Visibility::Opaque);
}

#[test]
fn test_columns_are_monotone() {
    // Heightmap terrain: no overhangs, each column is solid from the bottom
    // up to its threshold.
    let grid = generate_voxels(0, 0, 7);
    for x in 0..18 {
        for z in 0..18 {
            for y in 1..130 {
                if grid.get(x, y, z) {
                    assert!(grid.get(x, y - 1, z));
                }
            }
        }
    }
}

#[test]
fn test_terrain_floor_is_solid() {
    // The vertical offset of the height formula keeps at least the lowest
    // layers of every column solid.
    let grid = generate_voxels(-3, 5, 123);
    for x in 0..18 {
        for z in 0..18 {
            for y in 0..=10 {
                assert!(grid.get(x, y, z));
            }
        }
    }
}
