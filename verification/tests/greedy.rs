use goatland::mesh::{genchunk, genchunk_merged, BoolVoxel};
use goatland::mesher::mesh_greedy;
use goatland::quads::Quad;
use goatland::voxel::{VoxelGrid, GRID_SIZE};

fn empty_grid() -> VoxelGrid {
    VoxelGrid { data: vec![BoolVoxel(false); GRID_SIZE] }
}

fn set_solid(grid: &mut VoxelGrid, x: usize, y: usize, z: usize) {
    grid.data[x + 18 * y + 2340 * z] = BoolVoxel(true);
}

/// The unit cells a merged quad covers: widths run along the u axis of the
/// direction's slice plane and heights along its v axis, with x faces as
/// (u, v) = (z, y), y faces as (z, x) and z faces as (x, y).
fn expand(d: usize, q: &Quad) -> Vec<[u32; 3]> {
    let mut cells = Vec::new();
    for du in 0..q.width {
        for dv in 0..q.height {
            let m = q.minimum;
            cells.push(match d {
                0 | 3 => [m[0], m[1] + dv, m[2] + du],
                1 | 4 => [m[0] + dv, m[1], m[2] + du],
                _ => [m[0] + du, m[1] + dv, m[2]],
            });
        }
    }
    cells
}

#[test]
fn test_greedy_merges_adjacent_faces() {
    let mut grid = empty_grid();
    set_solid(&mut grid, 5, 7, 9);
    set_solid(&mut grid, 6, 7, 9);
    let buffer = mesh_greedy(&grid);
    // Ten exposed faces collapse into six quads: the coplanar pairs of the
    // top, bottom, front and back faces each merge into one rectangle.
    assert_eq!(buffer.num_quads(), 6);
    for d in 0..6 {
        assert_eq!(buffer.groups[d].len(), 1);
    }
    // The touching faces are not emitted at all.
    assert_eq!(expand(0, &buffer.groups[0][0]), vec![[5, 7, 9]]);
    assert_eq!(expand(3, &buffer.groups[3][0]), vec![[6, 7, 9]]);
    // The merged top quad covers both cells.
    let mut top = expand(4, &buffer.groups[4][0]);
    top.sort();
    assert_eq!(top, vec![[5, 7, 9], [6, 7, 9]]);
}

#[test]
fn test_greedy_single_voxel() {
    let mut grid = empty_grid();
    set_solid(&mut grid, 3, 4, 5);
    let buffer = mesh_greedy(&grid);
    assert_eq!(buffer.num_quads(), 6);
    for d in 0..6 {
        assert_eq!(buffer.groups[d][0].width, 1);
        assert_eq!(buffer.groups[d][0].height, 1);
        assert_eq!(expand(d, &buffer.groups[d][0]), vec![[3, 4, 5]]);
    }
}

#[test]
fn test_merge_equivalence_on_chunk() {
    // The greedy mesh of a generated chunk covers exactly the cells whose
    // unit quads the unmerged mesh emits, without overlap, so the covered
    // area matches while the quad count shrinks.
    let unmerged = genchunk(0, 0, 0);
    let merged = genchunk_merged(0, 0, 0);
    assert!(merged.num_quads() <= unmerged.num_quads());
    let mut area = 0;
    for d in 0..6 {
        let mut unit: Vec<[u32; 3]> = unmerged.groups[d].iter().map(|q| q.minimum).collect();
        let mut covered: Vec<[u32; 3]> = Vec::new();
        for q in merged.groups[d].iter() {
            area += (q.width * q.height) as usize;
            covered.extend(expand(d, q));
        }
        let before = covered.len();
        covered.sort();
        covered.dedup();
        // No overlaps: expanding the merged quads repeats no cell.
        assert_eq!(covered.len(), before);
        unit.sort();
        assert_eq!(covered, unit);
    }
    assert_eq!(area, unmerged.num_quads());
}
