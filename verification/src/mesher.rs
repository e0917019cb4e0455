//! The face meshers: from a voxel grid to exposed surface quads.
//!
//! A face of a solid voxel is visible exactly when the neighboring cell in
//! that direction is empty.  Only the interior of the grid is meshed; the
//! outermost layer of cells is halo padding and serves as neighbor data, so
//! every neighbor access stays in bounds and faces at the true chunk boundary
//! reflect the neighboring columns.
//!
//! Two interchangeable policies are offered: [`mesh_visible_faces`] emits one
//! unit quad per visible face, and [`mesh_greedy`] merges coplanar adjacent
//! visible faces of one direction into maximal rectangles.  Both cover, per
//! direction, exactly the visible faces, with no gaps, overlaps or
//! duplicates.

use vstd::prelude::*;

verus! {

use crate::quads::{
    covered_by,
    pairwise_disjoint,
    quad_covers,
    uvn,
    Quad,
    QuadBuffer,
    UnitQuad,
    UnitQuadBuffer,
};
use vstd::arithmetic::div_mod::{lemma_fundamental_div_mod, lemma_fundamental_div_mod_converse, lemma_mod_bound};

use crate::voxel::{
    in_grid,
    lemma_delinearize_linearize,
    lemma_linearize_delinearize,
    lemma_linearize_injective,
    solid_in,
    spec_linearize,
    x_of,
    y_of,
    z_of,
    VoxelGrid,
    GRID_SIZE,
};

/// The x component of the outward normal of direction index d.
pub open spec fn dir_dx(d: int) -> int {
    if d == 0 {
        -1
    } else if d == 3 {
        1
    } else {
        0
    }
}

/// The y component of the outward normal of direction index d.
pub open spec fn dir_dy(d: int) -> int {
    if d == 1 {
        -1
    } else if d == 4 {
        1
    } else {
        0
    }
}

/// The z component of the outward normal of direction index d.
pub open spec fn dir_dz(d: int) -> int {
    if d == 2 {
        -1
    } else if d == 5 {
        1
    } else {
        0
    }
}

/// Whether (x, y, z) lies in the meshed interior of the grid, inside the
/// one-cell halo padding.
pub open spec fn in_interior(x: int, y: int, z: int) -> bool {
    &&& 1 <= x <= 16
    &&& 1 <= y <= 128
    &&& 1 <= z <= 16
}

/// Whether the face of cell (x, y, z) in direction index d is visible in grid
/// contents s: the cell is an interior solid voxel and its neighbor in that
/// direction is empty.
pub open spec fn face_visible(s: Seq<bool>, d: int, x: int, y: int, z: int) -> bool {
    &&& in_interior(x, y, z)
    &&& solid_in(s, x, y, z)
    &&& !solid_in(s, x + dir_dx(d), y + dir_dy(d), z + dir_dz(d))
}

/// Tests the visibility of one interior face.
fn is_face_visible(grid: &VoxelGrid, d: usize, x: usize, y: usize, z: usize) -> (r: bool)
    requires
        grid.wf(),
        d < 6,
        1 <= x <= 16,
        1 <= y <= 128,
        1 <= z <= 16,
    ensures
        r == face_visible(grid@, d as int, x as int, y as int, z as int),
{
    if !grid.get(x, y, z) {
        return false;
    }
    let visible = match d {
        0 => !grid.get(x - 1, y, z),
        1 => !grid.get(x, y - 1, z),
        2 => !grid.get(x, y, z - 1),
        3 => !grid.get(x + 1, y, z),
        4 => !grid.get(x, y + 1, z),
        _ => !grid.get(x, y, z + 1),
    };
    visible
}

/// The unit quad of the cell at linear scan index i.
pub open spec fn cell_quad(i: int) -> UnitQuad {
    UnitQuad { minimum: [x_of(i) as u32, y_of(i) as u32, z_of(i) as u32] }
}

/// What the scan of the unmerged mesher emits at linear index i: the cell's
/// unit quad if its face in direction d is visible, else nothing.
pub open spec fn scan_quad(s: Seq<bool>, d: int, i: int) -> Seq<UnitQuad> {
    if face_visible(s, d, x_of(i), y_of(i), z_of(i)) {
        seq![cell_quad(i)]
    } else {
        Seq::empty()
    }
}

/// The unit quads of direction d emitted by scanning the first n cells in
/// linear order.
pub open spec fn quads_upto(s: Seq<bool>, d: int, n: int) -> Seq<UnitQuad>
    decreases n,
{
    if n <= 0 {
        Seq::empty()
    } else {
        quads_upto(s, d, n - 1) + scan_quad(s, d, n - 1)
    }
}

/// The unit quads of direction d for the whole grid, in linear scan order.
pub open spec fn chunk_quads(s: Seq<bool>, d: int) -> Seq<UnitQuad> {
    quads_upto(s, d, GRID_SIZE as int)
}

/// The linear index of the cell a unit quad stands on.
pub open spec fn unit_quad_index(q: UnitQuad) -> int {
    spec_linearize(q.minimum[0] as int, q.minimum[1] as int, q.minimum[2] as int)
}

/// A scan prefix emits at most one quad per cell, every quad it emits stands
/// on a visible face of a cell already scanned, and the scan emits the quads
/// in strictly increasing cell order.
proof fn lemma_quads_upto_sound(s: Seq<bool>, d: int, n: int)
    requires
        0 <= n <= GRID_SIZE,
    ensures
        quads_upto(s, d, n).len() <= n,
        forall|j: int|
            0 <= j < quads_upto(s, d, n).len() ==> {
                let q = #[trigger] quads_upto(s, d, n)[j];
                &&& 0 <= unit_quad_index(q) < n
                &&& q == cell_quad(unit_quad_index(q))
                &&& face_visible(
                    s,
                    d,
                    q.minimum[0] as int,
                    q.minimum[1] as int,
                    q.minimum[2] as int,
                )
            },
        forall|j1: int, j2: int|
            0 <= j1 < j2 < quads_upto(s, d, n).len() ==> unit_quad_index(
                #[trigger] quads_upto(s, d, n)[j1],
            ) < unit_quad_index(#[trigger] quads_upto(s, d, n)[j2]),
    decreases n,
{
    if n > 0 {
        lemma_quads_upto_sound(s, d, n - 1);
        if face_visible(s, d, x_of(n - 1), y_of(n - 1), z_of(n - 1)) {
            lemma_delinearize_linearize(n - 1);
            assert(unit_quad_index(cell_quad(n - 1)) == n - 1);
        }
    }
}

/// A cell whose face is visible appears in the scan of every prefix that
/// reaches past it.
proof fn lemma_quads_upto_complete(s: Seq<bool>, d: int, n: int, i: int)
    requires
        0 <= i < n <= GRID_SIZE,
        face_visible(s, d, x_of(i), y_of(i), z_of(i)),
    ensures
        quads_upto(s, d, n).contains(cell_quad(i)),
    decreases n,
{
    if i == n - 1 {
        assert(scan_quad(s, d, n - 1)[0] == cell_quad(i));
        assert(quads_upto(s, d, n)[quads_upto(s, d, n - 1).len() as int] == cell_quad(i));
    } else {
        lemma_quads_upto_complete(s, d, n - 1, i);
        let j = choose|j: int|
            0 <= j < quads_upto(s, d, n - 1).len() && #[trigger] quads_upto(s, d, n - 1)[j]
                == cell_quad(i);
        assert(quads_upto(s, d, n)[j] == cell_quad(i));
    }
}

/// Coverage without gaps: the unmerged mesh of direction d holds the unit
/// quad of cell (x, y, z) exactly when that cell's face in direction d is
/// visible, so no exposed face is omitted and no interior face is emitted.
pub proof fn lemma_mesh_coverage(s: Seq<bool>, d: int, x: int, y: int, z: int)
    requires
        in_grid(x, y, z),
    ensures
        chunk_quads(s, d).contains(UnitQuad { minimum: [x as u32, y as u32, z as u32] })
            <==> face_visible(s, d, x, y, z),
{
    let q = UnitQuad { minimum: [x as u32, y as u32, z as u32] };
    let i = spec_linearize(x, y, z);
    lemma_linearize_delinearize(x, y, z);
    assert(cell_quad(i) == q);
    if face_visible(s, d, x, y, z) {
        lemma_quads_upto_complete(s, d, GRID_SIZE as int, i);
    }
    if chunk_quads(s, d).contains(q) {
        lemma_quads_upto_sound(s, d, GRID_SIZE as int);
        let j = choose|j: int|
            0 <= j < chunk_quads(s, d).len() && #[trigger] chunk_quads(s, d)[j] == q;
        assert(face_visible(s, d, q.minimum[0] as int, q.minimum[1] as int, q.minimum[2] as int));
    }
}

/// No duplicates: the unmerged mesh of direction d emits each unit quad at
/// most once.
pub proof fn lemma_mesh_no_duplicates(s: Seq<bool>, d: int)
    ensures
        forall|j1: int, j2: int|
            0 <= j1 < j2 < chunk_quads(s, d).len() ==> #[trigger] chunk_quads(s, d)[j1]
                != #[trigger] chunk_quads(s, d)[j2],
{
    lemma_quads_upto_sound(s, d, GRID_SIZE as int);
}

/// Every quad of the unmerged mesh stands on a visible face.
pub proof fn lemma_mesh_sound(s: Seq<bool>, d: int, j: int)
    requires
        0 <= j < chunk_quads(s, d).len(),
    ensures
        ({
            let q = chunk_quads(s, d)[j];
            face_visible(s, d, q.minimum[0] as int, q.minimum[1] as int, q.minimum[2] as int)
        }),
{
    lemma_quads_upto_sound(s, d, GRID_SIZE as int);
}

/// The unmerged mesher: emits one unit quad for every visible face of the
/// grid, grouped by the six face direction indices, each group in linear
/// scan order.
pub fn mesh_visible_faces(grid: &VoxelGrid) -> (buffer: UnitQuadBuffer)
    requires
        grid.wf(),
    ensures
        buffer.wf(),
        forall|d: int| 0 <= d < 6 ==> (#[trigger] buffer.groups@[d])@ == chunk_quads(grid@, d),
{
    let mut groups: Vec<Vec<UnitQuad>> = Vec::new();
    let mut d: usize = 0;
    while d < 6
        invariant
            grid.wf(),
            d <= 6,
            groups@.len() == d,
            forall|dd: int| 0 <= dd < d ==> (#[trigger] groups@[dd])@ == chunk_quads(grid@, dd),
            forall|dd: int| 0 <= dd < d ==> (#[trigger] groups@[dd])@.len() <= GRID_SIZE,
        decreases 6 - d,
    {
        let ghost s = grid@;
        let mut group: Vec<UnitQuad> = Vec::new();
        let mut i: usize = 0;
        while i < GRID_SIZE
            invariant
                grid.wf(),
                s == grid@,
                d < 6,
                i <= GRID_SIZE,
                group@ == quads_upto(s, d as int, i as int),
            decreases GRID_SIZE - i,
        {
            let x = i % 18;
            let y = (i / 18) % 130;
            let z = i / 2340;
            if 1 <= x && x <= 16 && 1 <= y && y <= 128 && 1 <= z && z <= 16 {
                if is_face_visible(grid, d, x, y, z) {
                    group.push(UnitQuad { minimum: [x as u32, y as u32, z as u32] });
                    proof {
                        assert(cell_quad(i as int) == UnitQuad {
                            minimum: [x as u32, y as u32, z as u32],
                        });
                        assert(group@ =~= quads_upto(s, d as int, i as int + 1));
                    }
                } else {
                    proof {
                        assert(group@ =~= quads_upto(s, d as int, i as int + 1));
                    }
                }
            } else {
                proof {
                    assert(!in_interior(x_of(i as int), y_of(i as int), z_of(i as int)));
                    assert(group@ =~= quads_upto(s, d as int, i as int + 1));
                }
            }
            i += 1;
        }
        proof {
            lemma_quads_upto_sound(s, d as int, GRID_SIZE as int);
        }
        groups.push(group);
        d += 1;
    }
    UnitQuadBuffer { groups }
}

/// A merged rectangle inside one 2D slice of visible faces, in 0-based slice
/// plane coordinates: it spans [u, u + w) along the u axis and [v, v + h)
/// along the v axis.
#[derive(Clone, Copy)]
struct Rect {
    u: usize,
    v: usize,
    w: usize,
    h: usize,
}

/// The index of slice plane cell (u, v) in a row-major mask of a nu-by-nv
/// slice plane.
spec fn cell(nu: int, nv: int, u: int, v: int) -> int {
    u + nu * v
}

/// The index of an in-plane cell lies inside the mask.
broadcast proof fn lemma_cell_in_range(nu: int, nv: int, u: int, v: int)
    requires
        0 < nu,
        0 <= u < nu,
        0 <= v < nv,
    ensures
        0 <= #[trigger] cell(nu, nv, u, v) < nu * nv,
{
    assert(0 <= u + nu * v < nu * nv) by (nonlinear_arith)
        requires
            0 < nu,
            0 <= u < nu,
            0 <= v < nv,
    ;
}

/// Distinct slice plane cells have distinct mask indices.
proof fn lemma_cell_injective(nu: int, nv: int, u1: int, v1: int, u2: int, v2: int)
    requires
        0 < nu,
        0 <= u1 < nu,
        0 <= u2 < nu,
        0 <= v1,
        0 <= v2,
        cell(nu, nv, u1, v1) == cell(nu, nv, u2, v2),
    ensures
        u1 == u2 && v1 == v2,
{
    lemma_fundamental_div_mod_converse(cell(nu, nv, u1, v1), nu, v1, u1);
    lemma_fundamental_div_mod_converse(cell(nu, nv, u2, v2), nu, v2, u2);
}

/// Whether rect r covers slice plane cell (u, v).
spec fn rect_covers(r: Rect, u: int, v: int) -> bool {
    &&& r.u <= u < r.u + r.w
    &&& r.v <= v < r.v + r.h
}

/// Whether some rect of rs covers slice plane cell (u, v).
spec fn covered_rects(rs: Seq<Rect>, u: int, v: int) -> bool {
    exists|k: int| 0 <= k < rs.len() && rect_covers(rs[k], u, v)
}

/// Whether rect r lies inside a nu-by-nv slice plane and is nonempty.
spec fn rect_wf(r: Rect, nu: int, nv: int) -> bool {
    &&& r.u + r.w <= nu
    &&& r.v + r.h <= nv
    &&& r.w >= 1
    &&& r.h >= 1
}

/// A vector of n false flags.
fn bool_vec(n: usize) -> (v: Vec<bool>)
    ensures
        v@.len() == n,
        forall|i: int| 0 <= i < n ==> !v@[i],
{
    let mut v: Vec<bool> = Vec::new();
    let mut i: usize = 0;
    while i < n
        invariant
            i <= n,
            v@.len() == i,
            forall|j: int| 0 <= j < i ==> !v@[j],
        decreases n - i,
    {
        v.push(false);
        i += 1;
    }
    v
}

/// Whether slice plane cell (u, v) is wanted by the mask and not yet
/// consumed.
fn cell_wanted(mask: &Vec<bool>, consumed: &Vec<bool>, nu: usize, nv: usize, u: usize, v: usize) -> (r:
    bool)
    requires
        mask@.len() == nu * nv,
        consumed@.len() == nu * nv,
        0 < nu,
        u < nu,
        v < nv,
    ensures
        r == (mask@[cell(nu as int, nv as int, u as int, v as int)] && !consumed@[cell(
            nu as int,
            nv as int,
            u as int,
            v as int,
        )]),
{
    let total = mask.len();
    proof {
        lemma_cell_in_range(nu as int, nv as int, u as int, v as int);
        assert(nu * v < total);
    }
    let idx = u + nu * v;
    mask[idx] && !consumed[idx]
}

/// Whether the whole row segment [u0, u0 + w) of row vv is wanted by the mask
/// and not yet consumed.
fn row_clear(
    mask: &Vec<bool>,
    consumed: &Vec<bool>,
    nu: usize,
    nv: usize,
    u0: usize,
    w: usize,
    vv: usize,
) -> (r: bool)
    requires
        mask@.len() == nu * nv,
        consumed@.len() == nu * nv,
        0 < nu,
        u0 + w <= nu,
        1 <= w,
        vv < nv,
    ensures
        r == forall|du: int|
            0 <= du < w ==> mask@[#[trigger] cell(nu as int, nv as int, u0 + du, vv as int)]
                && !consumed@[cell(nu as int, nv as int, u0 + du, vv as int)],
{
    let mut du: usize = 0;
    while du < w
        invariant
            mask@.len() == nu * nv,
            consumed@.len() == nu * nv,
            0 < nu,
            u0 + w <= nu,
            vv < nv,
            du <= w,
            forall|j: int|
                0 <= j < du ==> mask@[#[trigger] cell(nu as int, nv as int, u0 + j, vv as int)]
                    && !consumed@[cell(nu as int, nv as int, u0 + j, vv as int)],
        decreases w - du,
    {
        if !cell_wanted(mask, consumed, nu, nv, u0 + du, vv) {
            return false;
        }
        du += 1;
    }
    true
}

/// Greedy rectangle merge over a nu-by-nv mask of wanted cells: scans the
/// mask in row-major order and grows each unconsumed wanted cell first along
/// u, then along v, into a maximal rectangle of wanted, unconsumed cells.
/// The returned rectangles exactly cover the wanted cells, without overlap.
fn greedy_rects(mask: &Vec<bool>, nu: usize, nv: usize) -> (rects: Vec<Rect>)
    requires
        0 < nu <= 128,
        0 < nv <= 128,
        mask@.len() == nu * nv,
    ensures
        forall|u: int, v: int|
            0 <= u < nu && 0 <= v < nv ==> (mask@[#[trigger] cell(nu as int, nv as int, u, v)]
                <==> covered_rects(rects@, u, v)),
        forall|k: int| 0 <= k < rects@.len() ==> rect_wf(#[trigger] rects@[k], nu as int, nv as int),
        forall|k1: int, k2: int, u: int, v: int|
            0 <= k1 < rects@.len() && 0 <= k2 < rects@.len() && k1 != k2 ==> !(#[trigger] rect_covers(
                rects@[k1],
                u,
                v,
            ) && #[trigger] rect_covers(rects@[k2], u, v)),
        rects@.len() <= nu * nv,
{
    let ghost nui = nu as int;
    let ghost nvi = nv as int;
    let mut rects: Vec<Rect> = Vec::new();
    let total = mask.len();
    let mut consumed: Vec<bool> = bool_vec(total);
    proof {
        assert forall|u: int, v: int| 0 <= u < nui && 0 <= v < nvi implies !consumed@[
            #[trigger] cell(nui, nvi, u, v)] by {
            lemma_cell_in_range(nui, nvi, u, v);
        }
    }
    proof {
        assert(nu * nv <= 16384) by (nonlinear_arith)
            requires
                0 < nu <= 128,
                0 < nv <= 128,
        ;
    }
    let mut v0: usize = 0;
    while v0 < nv
        invariant
            0 < nu <= 128,
            0 < nv <= 128,
            nui == nu as int,
            nvi == nv as int,
            mask@.len() == nu * nv,
            mask@.len() <= 16384,
            consumed@.len() == nu * nv,
            v0 <= nv,
            rects@.len() <= nu * v0,
            forall|k: int| 0 <= k < rects@.len() ==> rect_wf(#[trigger] rects@[k], nui, nvi),
            forall|k1: int, k2: int, u: int, v: int|
                0 <= k1 < rects@.len() && 0 <= k2 < rects@.len() && k1 != k2 ==> !(
                #[trigger] rect_covers(rects@[k1], u, v) && #[trigger] rect_covers(
                    rects@[k2],
                    u,
                    v,
                )),
            forall|u: int, v: int|
                0 <= u < nui && 0 <= v < nvi ==> (consumed@[#[trigger] cell(nui, nvi, u, v)]
                    <==> covered_rects(rects@, u, v)),
            forall|u: int, v: int|
                0 <= u < nui && 0 <= v < nvi && consumed@[#[trigger] cell(nui, nvi, u, v)]
                    ==> mask@[cell(nui, nvi, u, v)],
            forall|u: int, v: int|
                0 <= u < nui && 0 <= v < v0 && mask@[#[trigger] cell(nui, nvi, u, v)]
                    ==> consumed@[cell(nui, nvi, u, v)],
        decreases nv - v0,
    {
        let mut u0: usize = 0;
        while u0 < nu
            invariant
                0 < nu <= 128,
                0 < nv <= 128,
                nui == nu as int,
                nvi == nv as int,
                mask@.len() == nu * nv,
                mask@.len() <= 16384,
            mask@.len() <= 16384,
                consumed@.len() == nu * nv,
                v0 < nv,
                u0 <= nu,
                rects@.len() <= nu * v0 + u0,
                forall|k: int| 0 <= k < rects@.len() ==> rect_wf(#[trigger] rects@[k], nui, nvi),
                forall|k1: int, k2: int, u: int, v: int|
                    0 <= k1 < rects@.len() && 0 <= k2 < rects@.len() && k1 != k2 ==> !(
                    #[trigger] rect_covers(rects@[k1], u, v) && #[trigger] rect_covers(
                        rects@[k2],
                        u,
                        v,
                    )),
                forall|u: int, v: int|
                    0 <= u < nui && 0 <= v < nvi ==> (consumed@[#[trigger] cell(nui, nvi, u, v)]
                        <==> covered_rects(rects@, u, v)),
                forall|u: int, v: int|
                    0 <= u < nui && 0 <= v < nvi && consumed@[#[trigger] cell(nui, nvi, u, v)]
                        ==> mask@[cell(nui, nvi, u, v)],
                forall|u: int, v: int|
                    0 <= u < nui && 0 <= v < nvi && (v < v0 || (v == v0 && u < u0)) && mask@[
                    #[trigger] cell(nui, nvi, u, v)] ==> consumed@[cell(nui, nvi, u, v)],
            decreases nu - u0,
        {
            if cell_wanted(mask, &consumed, nu, nv, u0, v0) {
                // Grow the rectangle along u.
                let mut w: usize = 1;
                while u0 + w < nu && cell_wanted(mask, &consumed, nu, nv, u0 + w, v0)
                    invariant
                        0 < nu <= 128,
                        0 < nv <= 128,
                        mask@.len() == nu * nv,
                        mask@.len() <= 16384,
                mask@.len() <= 16384,
            mask@.len() <= 16384,
                        consumed@.len() == nu * nv,
                        nui == nu as int,
                        nvi == nv as int,
                        v0 < nv,
                        u0 < nu,
                        1 <= w,
                        u0 + w <= nu,
                        forall|du: int|
                            0 <= du < w ==> mask@[#[trigger] cell(nui, nvi, u0 + du, v0 as int)]
                                && !consumed@[cell(nui, nvi, u0 + du, v0 as int)],
                    decreases nu - w,
                {
                    w += 1;
                }
                // Grow the rectangle along v.
                let mut h: usize = 1;
                while v0 + h < nv && row_clear(mask, &consumed, nu, nv, u0, w, v0 + h)
                    invariant
                        0 < nu <= 128,
                        0 < nv <= 128,
                        mask@.len() == nu * nv,
                        mask@.len() <= 16384,
                mask@.len() <= 16384,
            mask@.len() <= 16384,
                        consumed@.len() == nu * nv,
                        nui == nu as int,
                        nvi == nv as int,
                        v0 < nv,
                        u0 < nu,
                        1 <= w,
                        u0 + w <= nu,
                        1 <= h,
                        v0 + h <= nv,
                        forall|du: int, dv: int|
                            0 <= du < w && 0 <= dv < h ==> mask@[#[trigger] cell(
                                nui,
                                nvi,
                                u0 + du,
                                v0 + dv,
                            )] && !consumed@[cell(nui, nvi, u0 + du, v0 + dv)],
                    decreases nv - h,
                {
                    h += 1;
                }
                // Mark the rectangle's cells as consumed.
                let ghost pre = consumed@;
                let ghost old_rs = rects@;
                let mut dv: usize = 0;
                while dv < h
                    invariant
                        0 < nu <= 128,
                        0 < nv <= 128,
                        mask@.len() == nu * nv,
                        mask@.len() <= 16384,
                mask@.len() <= 16384,
            mask@.len() <= 16384,
                        consumed@.len() == nu * nv,
                        nui == nu as int,
                        nvi == nv as int,
                        v0 < nv,
                        u0 < nu,
                        1 <= w,
                        u0 + w <= nu,
                        1 <= h,
                        v0 + h <= nv,
                        dv <= h,
                        forall|u: int, v: int|
                            0 <= u < nui && 0 <= v < nvi ==> consumed@[#[trigger] cell(
                                nui,
                                nvi,
                                u,
                                v,
                            )] == (pre[cell(nui, nvi, u, v)] || (u0 <= u < u0 + w && v0 <= v < v0
                                + dv)),
                    decreases h - dv,
                {
                    let mut du: usize = 0;
                    while du < w
                        invariant
                            0 < nu <= 128,
                            0 < nv <= 128,
                            mask@.len() == nu * nv,
                            mask@.len() <= 16384,
                        mask@.len() <= 16384,
                mask@.len() <= 16384,
            mask@.len() <= 16384,
                            consumed@.len() == nu * nv,
                            nui == nu as int,
                            nvi == nv as int,
                            v0 < nv,
                            u0 < nu,
                            1 <= w,
                            u0 + w <= nu,
                            1 <= h,
                            v0 + h <= nv,
                            dv < h,
                            du <= w,
                            forall|u: int, v: int|
                                0 <= u < nui && 0 <= v < nvi ==> consumed@[#[trigger] cell(
                                    nui,
                                    nvi,
                                    u,
                                    v,
                                )] == (pre[cell(nui, nvi, u, v)] || (u0 <= u < u0 + w && v0 <= v
                                    < v0 + dv) || (v == v0 + dv && u0 <= u < u0 + du)),
                        decreases w - du,
                    {
                        proof {
                            lemma_cell_in_range(nui, nvi, u0 + du as int, v0 + dv as int);
                            assert(u0 + du + nui * (v0 + dv) < nu * nv);
                        }
                        let i3 = u0 + du + nu * (v0 + dv);
                        consumed.set(i3, true);
                        proof {
                            assert(i3 == cell(nui, nvi, u0 + du as int, v0 + dv as int));
                            assert forall|u: int, v: int|
                                0 <= u < nui && 0 <= v < nvi implies consumed@[#[trigger] cell(
                                nui,
                                nvi,
                                u,
                                v,
                            )] == (pre[cell(nui, nvi, u, v)] || (u0 <= u < u0 + w && v0 <= v < v0
                                + dv) || (v == v0 + dv && u0 <= u < u0 + du + 1)) by {
                                lemma_cell_in_range(nui, nvi, u, v);
                                if cell(nui, nvi, u, v) == i3 as int {
                                    lemma_cell_injective(
                                        nui,
                                        nvi,
                                        u,
                                        v,
                                        u0 + du as int,
                                        v0 + dv as int,
                                    );
                                }
                            }
                        }
                        du += 1;
                    }
                    dv += 1;
                }
                let r = Rect { u: u0, v: v0, w, h };
                rects.push(r);
                proof {
                    let rs = rects@;
                    assert(rs.len() == old_rs.len() + 1);
                    assert(rs[rs.len() - 1] == r);
                    assert(forall|k: int| 0 <= k < old_rs.len() ==> rs[k] == old_rs[k]);
                    // Coverage of the new sequence splits into old coverage
                    // and the new rectangle.
                    assert forall|u: int, v: int| #[trigger]
                        covered_rects(rs, u, v) == (covered_rects(old_rs, u, v) || rect_covers(
                        r,
                        u,
                        v,
                    )) by {
                        if covered_rects(old_rs, u, v) {
                            let k = choose|k: int|
                                0 <= k < old_rs.len() && #[trigger] rect_covers(old_rs[k], u, v);
                            assert(rect_covers(rs[k], u, v));
                        }
                        if rect_covers(r, u, v) {
                            assert(rect_covers(rs[rs.len() - 1], u, v));
                        }
                        if covered_rects(rs, u, v) {
                            let k = choose|k: int|
                                0 <= k < rs.len() && #[trigger] rect_covers(rs[k], u, v);
                            if k < old_rs.len() {
                                assert(rect_covers(old_rs[k], u, v));
                            }
                        }
                    }
                    // A cell of the new rectangle was wanted and unconsumed
                    // before the rectangle was marked.
                    assert forall|u: int, v: int| rect_covers(r, u, v) implies mask@[
                        #[trigger] cell(nui, nvi, u, v)] && !pre[cell(nui, nvi, u, v)] by {
                        assert(mask@[cell(nui, nvi, u0 + (u - r.u), v0 + (v - r.v))] && !pre[cell(
                            nui,
                            nvi,
                            u0 + (u - r.u),
                            v0 + (v - r.v),
                        )]);
                    }
                    // Disjointness: the new rectangle's cells were unconsumed,
                    // so no older rectangle covers them.
                    assert forall|k1: int, k2: int, u: int, v: int|
                        0 <= k1 < rs.len() && 0 <= k2 < rs.len() && k1 != k2 implies !(
                    #[trigger] rect_covers(rs[k1], u, v) && #[trigger] rect_covers(
                        rs[k2],
                        u,
                        v,
                    )) by {
                        if rect_covers(rs[k1], u, v) && rect_covers(rs[k2], u, v) {
                            if k1 < old_rs.len() && k2 < old_rs.len() {
                                assert(rect_covers(old_rs[k1], u, v));
                                assert(rect_covers(old_rs[k2], u, v));
                            } else {
                                let ko = if k1 < old_rs.len() {
                                    k1
                                } else {
                                    k2
                                };
                                assert(rect_covers(old_rs[ko], u, v));
                                assert(covered_rects(old_rs, u, v));
                                assert(rect_covers(r, u, v));
                                assert(0 <= u < nui && 0 <= v < nvi);
                                assert(pre[cell(nui, nvi, u, v)]);
                                assert(!pre[cell(nui, nvi, u, v)]);
                            }
                        }
                    }
                }
            }
            u0 += 1;
        }
        proof {
            assert(nu * (v0 + 1) == nu * v0 + nu) by (nonlinear_arith);
        }
        v0 += 1;
    }
    proof {
        assert(rects@.len() <= nu * nv) by (nonlinear_arith)
            requires
                rects@.len() <= nu as int * nv as int,
        ;
    }
    rects
}


/// The number of rows (v extent) of a slice plane of direction index d.
spec fn slice_nv(d: int) -> int {
    if d == 1 || d == 4 {
        16
    } else {
        128
    }
}

/// The number of slices along the normal axis of direction index d.
spec fn slice_ns(d: int) -> int {
    if d == 1 || d == 4 {
        128
    } else {
        16
    }
}

/// The world cell at slice coordinates (u, v, n) of direction index d: the
/// inverse of [`uvn`].
spec fn world_of(d: int, u: int, v: int, n: int) -> (int, int, int) {
    if d == 0 || d == 3 {
        (n, v, u)
    } else if d == 1 || d == 4 {
        (v, n, u)
    } else {
        (u, v, n)
    }
}

/// An interior cell lies inside the slice planes of every direction, and the
/// slice coordinates of any cell determine it.
proof fn lemma_interior_uvn(d: int, x: int, y: int, z: int)
    requires
        0 <= d < 6,
    ensures
        ({
            let c = uvn(d, x, y, z);
            &&& in_interior(x, y, z) <==> (1 <= c.0 <= 16 && 1 <= c.1 <= slice_nv(d) && 1 <= c.2
                <= slice_ns(d))
            &&& world_of(d, c.0, c.1, c.2) == (x, y, z)
        }),
{
}

/// Builds the visibility mask of one slice plane: entry (u, v) of the mask
/// says whether the face of the world cell at slice coordinates
/// (u + 1, v + 1, sl) is visible in direction d.
fn slice_mask(grid: &VoxelGrid, d: usize, sl: usize, nu: usize, nv: usize) -> (mask: Vec<bool>)
    requires
        grid.wf(),
        d < 6,
        nu == 16,
        nv as int == slice_nv(d as int),
        1 <= sl,
        sl as int <= slice_ns(d as int),
    ensures
        mask@.len() == nu * nv,
        forall|u: int, v: int|
            0 <= u < nu && 0 <= v < nv ==> mask@[#[trigger] cell(nu as int, nv as int, u, v)]
                == ({
                let p = world_of(d as int, u + 1, v + 1, sl as int);
                face_visible(grid@, d as int, p.0, p.1, p.2)
            }),
{
    let ghost nui = nu as int;
    let ghost nvi = nv as int;
    let mut mask: Vec<bool> = Vec::new();
    let mut vv: usize = 0;
    while vv < nv
        invariant
            grid.wf(),
            d < 6,
            nu == 16,
            nvi == slice_nv(d as int),
            nui == nu as int,
            nvi == nv as int,
            1 <= sl,
            sl as int <= slice_ns(d as int),
            vv <= nv,
            mask@.len() == nu * vv,
            forall|u: int, v: int|
                0 <= u < nui && 0 <= v < nvi && cell(nui, nvi, u, v) < mask@.len() ==> mask@[
                #[trigger] cell(nui, nvi, u, v)] == ({
                    let p = world_of(d as int, u + 1, v + 1, sl as int);
                    face_visible(grid@, d as int, p.0, p.1, p.2)
                }),
        decreases nv - vv,
    {
        let mut uu: usize = 0;
        while uu < nu
            invariant
                grid.wf(),
                d < 6,
                nu == 16,
                nvi == slice_nv(d as int),
                nui == nu as int,
                nvi == nv as int,
                1 <= sl,
                sl as int <= slice_ns(d as int),
                vv < nv,
                uu <= nu,
                mask@.len() == nu * vv + uu,
                forall|u: int, v: int|
                    0 <= u < nui && 0 <= v < nvi && cell(nui, nvi, u, v) < mask@.len() ==> mask@[
                    #[trigger] cell(nui, nvi, u, v)] == ({
                        let p = world_of(d as int, u + 1, v + 1, sl as int);
                        face_visible(grid@, d as int, p.0, p.1, p.2)
                    }),
            decreases nu - uu,
        {
            let u1 = uu + 1;
            let v1 = vv + 1;
            let visible = match d {
                0 | 3 => is_face_visible(grid, d, sl, v1, u1),
                1 | 4 => is_face_visible(grid, d, v1, sl, u1),
                _ => is_face_visible(grid, d, u1, v1, sl),
            };
            mask.push(visible);
            proof {
                assert(mask@.len() == nu * vv + uu + 1);
                assert(cell(nui, nvi, uu as int, vv as int) == nu * vv + uu);
                assert forall|u: int, v: int|
                    0 <= u < nui && 0 <= v < nvi && cell(nui, nvi, u, v) < mask@.len() implies mask@[
                #[trigger] cell(nui, nvi, u, v)] == ({
                    let p = world_of(d as int, u + 1, v + 1, sl as int);
                    face_visible(grid@, d as int, p.0, p.1, p.2)
                }) by {
                    if cell(nui, nvi, u, v) == nu * vv + uu {
                        lemma_cell_injective(nui, nvi, u, v, uu as int, vv as int);
                    }
                }
            }
            uu += 1;
        }
        proof {
            assert(nu * (vv + 1) == nu * vv + nu) by (nonlinear_arith);
        }
        vv += 1;
    }
    proof {
        assert forall|u: int, v: int| 0 <= u < nui && 0 <= v < nvi implies cell(nui, nvi, u, v)
            < mask@.len() by {
            lemma_cell_in_range(nui, nvi, u, v);
        }
    }
    mask
}

/// The merged quad that a slice plane rect stands for: its minimum corner is
/// the world cell at the rect's minimum, its width runs along the u axis and
/// its height along the v axis.
spec fn quad_of(d: int, sl: int, r: Rect) -> Quad {
    let p = world_of(d, r.u + 1, r.v + 1, sl);
    Quad {
        minimum: [p.0 as u32, p.1 as u32, p.2 as u32],
        width: r.w as u32,
        height: r.h as u32,
    }
}

/// The quad of a rect covers exactly the cells of slice sl whose slice plane
/// coordinates the rect covers.
proof fn lemma_quad_of_covers(d: int, sl: int, r: Rect, x: int, y: int, z: int)
    requires
        0 <= d < 6,
        1 <= sl <= slice_ns(d),
        rect_wf(r, 16, slice_nv(d)),
    ensures
        quad_covers(d, quad_of(d, sl, r), x, y, z) <==> ({
            let c = uvn(d, x, y, z);
            c.2 == sl && rect_covers(r, c.0 - 1, c.1 - 1)
        }),
{
}

/// The greedy mesher for one direction: merges the visible faces of every
/// slice along the direction's normal axis into maximal rectangles.  The
/// returned quads cover exactly the visible faces of direction d, without
/// overlap.
fn mesh_greedy_direction(grid: &VoxelGrid, d: usize) -> (group: Vec<Quad>)
    requires
        grid.wf(),
        d < 6,
    ensures
        forall|x: int, y: int, z: int|
            #![trigger face_visible(grid@, d as int, x, y, z)]
            #![trigger covered_by(group@, d as int, x, y, z)]
            face_visible(grid@, d as int, x, y, z) <==> covered_by(group@, d as int, x, y, z),
        pairwise_disjoint(group@, d as int),
        group@.len() <= GRID_SIZE,
{
    let ghost di = d as int;
    let ns: usize = if d == 1 || d == 4 {
        128
    } else {
        16
    };
    let nu: usize = 16;
    let nv: usize = if d == 1 || d == 4 {
        16
    } else {
        128
    };
    let mut group: Vec<Quad> = Vec::new();
    let mut sl: usize = 1;
    while sl <= ns
        invariant
            grid.wf(),
            d < 6,
            di == d as int,
            ns as int == slice_ns(di),
            nu == 16,
            nv as int == slice_nv(di),
            1 <= sl <= ns + 1,
            group@.len() <= (sl - 1) * (nu * nv),
            nu * nv <= 2048,
            forall|x: int, y: int, z: int|
                #![trigger face_visible(grid@, di, x, y, z)]
                #![trigger covered_by(group@, di, x, y, z)]
                (face_visible(grid@, di, x, y, z) && uvn(di, x, y, z).2 < sl) <==> covered_by(
                    group@,
                    di,
                    x,
                    y,
                    z,
                ),
            pairwise_disjoint(group@, di),
        decreases ns + 1 - sl,
    {
        let mask = slice_mask(grid, d, sl, nu, nv);
        let rects = greedy_rects(&mask, nu, nv);
        let ghost rs = rects@;
        let ghost pre_group = group@;
        let mut t: usize = 0;
        while t < rects.len()
            invariant
                grid.wf(),
                d < 6,
                di == d as int,
                ns as int == slice_ns(di),
                nu == 16,
                nv as int == slice_nv(di),
                1 <= sl <= ns,
                rects@ == rs,
                t <= rs.len(),
                rs.len() <= nu * nv,
                nu * nv <= 2048,
                forall|k: int| 0 <= k < rs.len() ==> rect_wf(#[trigger] rs[k], nu as int, nv as int),
                forall|k1: int, k2: int, u: int, v: int|
                    0 <= k1 < rs.len() && 0 <= k2 < rs.len() && k1 != k2 ==> !(
                    #[trigger] rect_covers(rs[k1], u, v) && #[trigger] rect_covers(rs[k2], u, v)),
                pre_group.len() <= (sl - 1) * (nu * nv),
                group@.len() == pre_group.len() + t,
                forall|k: int| 0 <= k < pre_group.len() ==> #[trigger] group@[k] == pre_group[k],
                forall|k: int|
                    pre_group.len() <= k < group@.len() ==> #[trigger] group@[k] == quad_of(
                        di,
                        sl as int,
                        rs[k - pre_group.len()],
                    ),
                forall|x: int, y: int, z: int|
                    #![trigger face_visible(grid@, di, x, y, z)]
                    #![trigger covered_by(group@, di, x, y, z)]
                    covered_by(group@, di, x, y, z) <==> ((face_visible(grid@, di, x, y, z) && uvn(
                        di,
                        x,
                        y,
                        z,
                    ).2 < sl) || ({
                        let c = uvn(di, x, y, z);
                        &&& c.2 == sl
                        &&& 1 <= c.0 <= nu
                        &&& 1 <= c.1 <= nv
                        &&& covered_rects(rs.take(t as int), c.0 - 1, c.1 - 1)
                    })),
                pairwise_disjoint(group@, di),
            decreases rs.len() - t,
        {
            let r = rects[t];
            let u1 = r.u + 1;
            let v1 = r.v + 1;
            let minimum: [u32; 3] = match d {
                0 | 3 => [sl as u32, v1 as u32, u1 as u32],
                1 | 4 => [v1 as u32, sl as u32, u1 as u32],
                _ => [u1 as u32, v1 as u32, sl as u32],
            };
            let q = Quad { minimum, width: r.w as u32, height: r.h as u32 };
            proof {
                assert(rect_wf(rs[t as int], nu as int, nv as int));
                assert(q == quad_of(di, sl as int, rs[t as int]));
            }
            let ghost old_group = group@;
            group.push(q);
            proof {
                let gs = group@;
                assert(gs.len() == old_group.len() + 1);
                assert(gs[gs.len() - 1] == q);
                assert(forall|k: int| 0 <= k < old_group.len() ==> gs[k] == old_group[k]);
                // Coverage of the extended group splits into the old group
                // and the new quad.
                assert forall|x: int, y: int, z: int| #[trigger]
                    covered_by(gs, di, x, y, z) == (covered_by(old_group, di, x, y, z)
                    || quad_covers(di, q, x, y, z)) by {
                    if covered_by(old_group, di, x, y, z) {
                        let k = choose|k: int|
                            0 <= k < old_group.len() && #[trigger] quad_covers(
                                di,
                                old_group[k],
                                x,
                                y,
                                z,
                            );
                        assert(quad_covers(di, gs[k], x, y, z));
                    }
                    if quad_covers(di, q, x, y, z) {
                        assert(quad_covers(di, gs[gs.len() - 1], x, y, z));
                    }
                    if covered_by(gs, di, x, y, z) {
                        let k = choose|k: int|
                            0 <= k < gs.len() && #[trigger] quad_covers(di, gs[k], x, y, z);
                        if k < old_group.len() {
                            assert(quad_covers(di, old_group[k], x, y, z));
                        }
                    }
                }
                // Prefix coverage of the rects splits the same way.
                assert forall|a: int, b: int| #[trigger]
                    covered_rects(rs.take(t + 1), a, b) == (covered_rects(rs.take(t as int), a, b)
                    || rect_covers(rs[t as int], a, b)) by {
                    if covered_rects(rs.take(t as int), a, b) {
                        let k = choose|k: int|
                            0 <= k < rs.take(t as int).len() && #[trigger] rect_covers(
                                rs.take(t as int)[k],
                                a,
                                b,
                            );
                        assert(rs.take(t + 1)[k] == rs.take(t as int)[k]);
                        assert(rect_covers(rs.take(t + 1)[k], a, b));
                    }
                    if rect_covers(rs[t as int], a, b) {
                        assert(rs.take(t + 1)[t as int] == rs[t as int]);
                        assert(rect_covers(rs.take(t + 1)[t as int], a, b));
                    }
                    if covered_rects(rs.take(t + 1), a, b) {
                        let k = choose|k: int|
                            0 <= k < rs.take(t + 1).len() && #[trigger] rect_covers(
                                rs.take(t + 1)[k],
                                a,
                                b,
                            );
                        if k < t {
                            assert(rs.take(t as int)[k] == rs.take(t + 1)[k]);
                            assert(rect_covers(rs.take(t as int)[k], a, b));
                        } else {
                            assert(rs.take(t + 1)[k] == rs[t as int]);
                        }
                    }
                }
                // The new quad covers exactly slice sl cells of its rect.
                assert forall|x: int, y: int, z: int| #[trigger]
                    quad_covers(di, q, x, y, z) == ({
                    let c = uvn(di, x, y, z);
                    c.2 == sl && rect_covers(rs[t as int], c.0 - 1, c.1 - 1)
                }) by {
                    lemma_quad_of_covers(di, sl as int, rs[t as int], x, y, z);
                }
                // Disjointness of the extended group.
                assert forall|k1: int, k2: int, x: int, y: int, z: int|
                    0 <= k1 < gs.len() && 0 <= k2 < gs.len() && k1 != k2 implies !(
                #[trigger] quad_covers(di, gs[k1], x, y, z) && #[trigger] quad_covers(
                    di,
                    gs[k2],
                    x,
                    y,
                    z,
                )) by {
                    if quad_covers(di, gs[k1], x, y, z) && quad_covers(di, gs[k2], x, y, z) {
                        if k1 < old_group.len() && k2 < old_group.len() {
                            assert(quad_covers(di, old_group[k1], x, y, z));
                            assert(quad_covers(di, old_group[k2], x, y, z));
                        } else {
                            let ko = if k1 < old_group.len() {
                                k1
                            } else {
                                k2
                            };
                            assert(ko < old_group.len());
                            assert(quad_covers(di, old_group[ko], x, y, z));
                            assert(covered_by(old_group, di, x, y, z));
                            lemma_quad_of_covers(di, sl as int, rs[t as int], x, y, z);
                            let c = uvn(di, x, y, z);
                            if ko < pre_group.len() {
                                // An earlier slice's quad: covers only n < sl.
                                assert(uvn(di, x, y, z).2 < sl);
                            } else {
                                // A quad of this slice: its rect is disjoint
                                // from the new quad's rect.
                                let kr = ko - pre_group.len();
                                assert(old_group[ko] == quad_of(di, sl as int, rs[kr]));
                                lemma_quad_of_covers(di, sl as int, rs[kr], x, y, z);
                                assert(rect_covers(rs[kr], c.0 - 1, c.1 - 1));
                                assert(rect_covers(rs[t as int], c.0 - 1, c.1 - 1));
                                assert(kr < t);
                            }
                        }
                    }
                }
            }
            t += 1;
        }
        proof {
            assert(rs.take(rs.len() as int) =~= rs);
            // After the whole slice is converted, coverage of slice sl agrees
            // with the visible faces of slice sl.
            assert forall|x: int, y: int, z: int|
                #![trigger face_visible(grid@, di, x, y, z)]
                #![trigger covered_by(group@, di, x, y, z)]
                (face_visible(grid@, di, x, y, z) && uvn(di, x, y, z).2 < sl + 1) <==> covered_by(
                    group@,
                    di,
                    x,
                    y,
                    z,
                ) by {
                let c = uvn(di, x, y, z);
                lemma_interior_uvn(di, x, y, z);
                if face_visible(grid@, di, x, y, z) && c.2 == sl {
                    assert(1 <= c.0 <= nu && 1 <= c.1 <= nv);
                    assert(mask@[cell(nu as int, nv as int, c.0 - 1, c.1 - 1)] == ({
                        let p = world_of(di, c.0, c.1, sl as int);
                        face_visible(grid@, di, p.0, p.1, p.2)
                    }));
                    assert(world_of(di, c.0, c.1, c.2) == (x, y, z));
                    assert(mask@[cell(nu as int, nv as int, c.0 - 1, c.1 - 1)]);
                    assert(covered_rects(rs, c.0 - 1, c.1 - 1));
                }
                if covered_by(group@, di, x, y, z) && !(face_visible(grid@, di, x, y, z) && c.2
                    < sl) {
                    assert(c.2 == sl && 1 <= c.0 <= nu && 1 <= c.1 <= nv && covered_rects(
                        rs,
                        c.0 - 1,
                        c.1 - 1,
                    ));
                    assert(mask@[cell(nu as int, nv as int, c.0 - 1, c.1 - 1)]);
                    assert(world_of(di, c.0, c.1, c.2) == (x, y, z));
                    assert(face_visible(grid@, di, x, y, z));
                }
            }
            assert((sl - 1) * (nu * nv) + nu * nv == sl * (nu * nv)) by (nonlinear_arith);
        }
        sl += 1;
    }
    proof {
        assert forall|x: int, y: int, z: int|
            #![trigger face_visible(grid@, di, x, y, z)]
            #![trigger covered_by(group@, di, x, y, z)]
            face_visible(grid@, di, x, y, z) <==> covered_by(group@, di, x, y, z) by {
            lemma_interior_uvn(di, x, y, z);
        }
        assert(group@.len() <= ns * (nu * nv));
        assert(ns * (nu * nv) <= GRID_SIZE) by (nonlinear_arith)
            requires
                ns as int == slice_ns(di),
                nu == 16,
                nv as int == slice_nv(di),
                0 <= di < 6,
        ;
    }
    group
}

/// The greedy mesher: merges coplanar adjacent visible faces of each
/// direction into maximal rectangles.  Per direction, the returned quads
/// cover exactly the visible faces, with no overlaps.
pub fn mesh_greedy(grid: &VoxelGrid) -> (buffer: QuadBuffer)
    requires
        grid.wf(),
    ensures
        buffer.wf(),
        forall|d: int, x: int, y: int, z: int|
            #![trigger face_visible(grid@, d, x, y, z)]
            #![trigger covered_by(buffer.groups@[d]@, d, x, y, z)]
            0 <= d < 6 ==> (face_visible(grid@, d, x, y, z) <==> covered_by(
                buffer.groups@[d]@,
                d,
                x,
                y,
                z,
            )),
        forall|d: int| 0 <= d < 6 ==> pairwise_disjoint((#[trigger] buffer.groups@[d])@, d),
{
    let mut groups: Vec<Vec<Quad>> = Vec::new();
    let mut d: usize = 0;
    while d < 6
        invariant
            grid.wf(),
            d <= 6,
            groups@.len() == d,
            forall|dd: int, x: int, y: int, z: int|
                #![trigger face_visible(grid@, dd, x, y, z)]
                #![trigger covered_by(groups@[dd]@, dd, x, y, z)]
                0 <= dd < d ==> (face_visible(grid@, dd, x, y, z) <==> covered_by(
                    groups@[dd]@,
                    dd,
                    x,
                    y,
                    z,
                )),
            forall|dd: int| 0 <= dd < d ==> pairwise_disjoint((#[trigger] groups@[dd])@, dd),
            forall|dd: int| 0 <= dd < d ==> (#[trigger] groups@[dd])@.len() <= GRID_SIZE,
        decreases 6 - d,
    {
        let group = mesh_greedy_direction(grid, d);
        groups.push(group);
        d += 1;
    }
    QuadBuffer { groups }
}

/// Merge equivalence: the set of exposed boundary cells covered by a greedy
/// merge equals the set of cells whose unit quads the unmerged mesh emits;
/// the quads differ, the covered faces do not.
pub proof fn lemma_merge_equivalence(
    s: Seq<bool>,
    d: int,
    merged: Seq<Quad>,
    x: int,
    y: int,
    z: int,
)
    requires
        0 <= d < 6,
        in_grid(x, y, z),
        forall|xx: int, yy: int, zz: int|
            #![trigger face_visible(s, d, xx, yy, zz)]
            #![trigger covered_by(merged, d, xx, yy, zz)]
            face_visible(s, d, xx, yy, zz) <==> covered_by(merged, d, xx, yy, zz),
    ensures
        chunk_quads(s, d).contains(UnitQuad { minimum: [x as u32, y as u32, z as u32] })
            <==> covered_by(merged, d, x, y, z),
{
    lemma_mesh_coverage(s, d, x, y, z);
}

/// The total covered area of a group of merged quads: the sum of their
/// width-times-height extents, in whole voxel faces.
pub open spec fn total_area(qs: Seq<Quad>) -> int
    decreases qs.len(),
{
    if qs.len() == 0 {
        0
    } else {
        total_area(qs.drop_last()) + qs.last().width * qs.last().height
    }
}

/// The number of cells among the first n of the linear scan whose face in
/// direction d some quad of qs covers.
spec fn covered_upto(qs: Seq<Quad>, d: int, n: int) -> int
    decreases n,
{
    if n <= 0 {
        0
    } else {
        covered_upto(qs, d, n - 1) + if covered_by(qs, d, x_of(n - 1), y_of(n - 1), z_of(n - 1)) {
            1int
        } else {
            0
        }
    }
}

/// The number of cells among the first n of the linear scan whose face in
/// direction d the single quad q covers.
spec fn quad_upto(q: Quad, d: int, n: int) -> int
    decreases n,
{
    if n <= 0 {
        0
    } else {
        quad_upto(q, d, n - 1) + if quad_covers(d, q, x_of(n - 1), y_of(n - 1), z_of(n - 1)) {
            1int
        } else {
            0
        }
    }
}

/// When coverage agrees pointwise with face visibility, the covered cell
/// count equals the length of the unmerged scan.
proof fn lemma_covered_count(s: Seq<bool>, d: int, qs: Seq<Quad>, n: int)
    requires
        0 <= n,
        forall|x: int, y: int, z: int|
            #![trigger face_visible(s, d, x, y, z)]
            #![trigger covered_by(qs, d, x, y, z)]
            face_visible(s, d, x, y, z) <==> covered_by(qs, d, x, y, z),
    ensures
        covered_upto(qs, d, n) == quads_upto(s, d, n).len(),
    decreases n,
{
    if n > 0 {
        lemma_covered_count(s, d, qs, n - 1);
    }
}

/// A group without quads covers nothing.
proof fn lemma_covered_upto_empty(qs: Seq<Quad>, d: int, n: int)
    requires
        0 <= n,
        qs.len() == 0,
    ensures
        covered_upto(qs, d, n) == 0,
    decreases n,
{
    if n > 0 {
        lemma_covered_upto_empty(qs, d, n - 1);
        assert(!covered_by(qs, d, x_of(n - 1), y_of(n - 1), z_of(n - 1)));
    }
}

/// A quad with an empty extent covers nothing.
proof fn lemma_quad_upto_degenerate(q: Quad, d: int, n: int)
    requires
        0 <= n,
        q.width * q.height == 0,
    ensures
        quad_upto(q, d, n) == 0,
    decreases n,
{
    if n > 0 {
        lemma_quad_upto_degenerate(q, d, n - 1);
        assert(q.width == 0 || q.height == 0) by (nonlinear_arith)
            requires
                q.width * q.height == 0,
        ;
        assert(!quad_covers(d, q, x_of(n - 1), y_of(n - 1), z_of(n - 1)));
    }
}

/// With pairwise disjoint quads, the covered cell count splits into the last
/// quad's count and the count of the rest.
proof fn lemma_covered_split(qs: Seq<Quad>, d: int, n: int)
    requires
        0 <= n,
        qs.len() >= 1,
        pairwise_disjoint(qs, d),
    ensures
        covered_upto(qs, d, n) == covered_upto(qs.drop_last(), d, n) + quad_upto(
            qs.last(),
            d,
            n,
        ),
    decreases n,
{
    if n > 0 {
        lemma_covered_split(qs, d, n - 1);
        let x = x_of(n - 1);
        let y = y_of(n - 1);
        let z = z_of(n - 1);
        let rest = qs.drop_last();
        let q = qs.last();
        assert(covered_by(qs, d, x, y, z) == (covered_by(rest, d, x, y, z) || quad_covers(
            d,
            q,
            x,
            y,
            z,
        ))) by {
            if covered_by(rest, d, x, y, z) {
                let k = choose|k: int|
                    0 <= k < rest.len() && #[trigger] quad_covers(d, rest[k], x, y, z);
                assert(quad_covers(d, qs[k], x, y, z));
            }
            if quad_covers(d, q, x, y, z) {
                assert(quad_covers(d, qs[qs.len() - 1], x, y, z));
            }
            if covered_by(qs, d, x, y, z) {
                let k = choose|k: int| 0 <= k < qs.len() && #[trigger] quad_covers(d, qs[k], x, y, z);
                if k < rest.len() {
                    assert(quad_covers(d, rest[k], x, y, z));
                }
            }
        }
        if covered_by(rest, d, x, y, z) && quad_covers(d, q, x, y, z) {
            let k = choose|k: int| 0 <= k < rest.len() && #[trigger] quad_covers(d, rest[k], x, y, z);
            assert(quad_covers(d, qs[k], x, y, z));
            assert(quad_covers(d, qs[qs.len() - 1], x, y, z));
            assert(false);
        }
    }
}

/// Every cell a quad covers lies inside the grid.
spec fn quad_cells_in_grid(d: int, q: Quad) -> bool {
    forall|x: int, y: int, z: int| #[trigger] quad_covers(d, q, x, y, z) ==> in_grid(x, y, z)
}

/// The world cell at plane offset j of quad q, counting row-major over the
/// quad's width.
spec fn quad_cell(d: int, q: Quad, j: int) -> (int, int, int) {
    let m = uvn(d, q.minimum[0] as int, q.minimum[1] as int, q.minimum[2] as int);
    world_of(d, m.0 + j % (q.width as int), m.1 + j / (q.width as int), m.2)
}

/// The linear scan index of the world cell at plane offset j of quad q.
spec fn quad_cell_index(d: int, q: Quad, j: int) -> int {
    let p = quad_cell(d, q, j);
    spec_linearize(p.0, p.1, p.2)
}

/// The scan indices of the first k cells of quad q.
spec fn quad_iset(d: int, q: Quad, k: int) -> Set<int>
    decreases k,
{
    if k <= 0 {
        Set::empty()
    } else {
        quad_iset(d, q, k - 1).insert(quad_cell_index(d, q, k - 1))
    }
}

/// The members of a set of scan indices below a bound n.
spec fn prefix_set(r: Set<int>, n: int) -> Set<int> {
    Set::new(|i: int| r.contains(i) && 0 <= i < n)
}

/// The cell at every plane offset of a quad is covered by the quad, and its
/// slice coordinates are the offset from the quad's minimum.
proof fn lemma_quad_cell_covers(d: int, q: Quad, j: int)
    requires
        0 <= d < 6,
        q.width >= 1,
        0 <= j < q.width * q.height,
    ensures
        ({
            let p = quad_cell(d, q, j);
            let m = uvn(d, q.minimum[0] as int, q.minimum[1] as int, q.minimum[2] as int);
            &&& quad_covers(d, q, p.0, p.1, p.2)
            &&& uvn(d, p.0, p.1, p.2) == (m.0 + j % (q.width as int), m.1 + j
                / (q.width as int), m.2)
        }),
{
    let w = q.width as int;
    let h = q.height as int;
    lemma_mod_bound(j, w);
    lemma_fundamental_div_mod(j, w);
    assert(0 <= j / w < h) by (nonlinear_arith)
        requires
            w >= 1,
            0 <= j < w * h,
            j == w * (j / w) + j % w,
            0 <= j % w < w,
    ;
}

/// Every covered cell of a quad is the cell at some plane offset.
proof fn lemma_covered_cell_rep(d: int, q: Quad, x: int, y: int, z: int)
    requires
        0 <= d < 6,
        q.width >= 1,
        quad_covers(d, q, x, y, z),
    ensures
        exists|j: int|
            0 <= j < q.width * q.height && #[trigger] quad_cell(d, q, j) == (x, y, z),
{
    let w = q.width as int;
    let h = q.height as int;
    let c = uvn(d, x, y, z);
    let m = uvn(d, q.minimum[0] as int, q.minimum[1] as int, q.minimum[2] as int);
    let du = c.0 - m.0;
    let dv = c.1 - m.1;
    let j = dv * w + du;
    lemma_fundamental_div_mod_converse(j, w, dv, du);
    assert(j < w * h) by (nonlinear_arith)
        requires
            w >= 1,
            j == dv * w + du,
            0 <= du < w,
            0 <= dv < h,
    ;
    lemma_interior_uvn(d, x, y, z);
    assert(quad_cell(d, q, j) == (x, y, z));
}

/// Distinct plane offsets of a quad name distinct world cells.
proof fn lemma_quad_cell_injective(d: int, q: Quad, j1: int, j2: int)
    requires
        0 <= d < 6,
        q.width >= 1,
        0 <= j1 < q.width * q.height,
        0 <= j2 < q.width * q.height,
        quad_cell(d, q, j1) == quad_cell(d, q, j2),
    ensures
        j1 == j2,
{
    let w = q.width as int;
    let p1 = quad_cell(d, q, j1);
    lemma_quad_cell_covers(d, q, j1);
    lemma_quad_cell_covers(d, q, j2);
    lemma_interior_uvn(d, p1.0, p1.1, p1.2);
    assert(j1 % w == j2 % w && j1 / w == j2 / w);
    lemma_fundamental_div_mod(j1, w);
    lemma_fundamental_div_mod(j2, w);
}

/// The scan index set of the first k cells of a quad is finite, has k
/// members, and holds exactly those cells' indices.
proof fn lemma_quad_iset_props(d: int, q: Quad, k: int)
    requires
        0 <= d < 6,
        q.width >= 1,
        quad_cells_in_grid(d, q),
        0 <= k <= q.width * q.height,
    ensures
        quad_iset(d, q, k).finite(),
        quad_iset(d, q, k).len() == k,
        forall|i: int|
            #[trigger] quad_iset(d, q, k).contains(i) <==> exists|j: int|
                0 <= j < k && i == quad_cell_index(d, q, j),
    decreases k,
{
    if k > 0 {
        lemma_quad_iset_props(d, q, k - 1);
        let prev = quad_iset(d, q, k - 1);
        let idx = quad_cell_index(d, q, k - 1);
        assert(!prev.contains(idx)) by {
            if prev.contains(idx) {
                let j = choose|j: int| 0 <= j < k - 1 && idx == quad_cell_index(d, q, j);
                lemma_quad_cell_covers(d, q, j);
                lemma_quad_cell_covers(d, q, k - 1);
                let pj = quad_cell(d, q, j);
                let pk = quad_cell(d, q, k - 1);
                assert(in_grid(pj.0, pj.1, pj.2));
                assert(in_grid(pk.0, pk.1, pk.2));
                lemma_linearize_injective(pj.0, pj.1, pj.2, pk.0, pk.1, pk.2);
                lemma_quad_cell_injective(d, q, j, k - 1);
            }
        }
        assert forall|i: int| #[trigger]
            quad_iset(d, q, k).contains(i) <==> exists|j: int|
                0 <= j < k && i == quad_cell_index(d, q, j) by {
            if quad_iset(d, q, k).contains(i) {
                if i == idx {
                    assert(0 <= k - 1 < k && i == quad_cell_index(d, q, k - 1));
                } else {
                    let j = choose|j: int| 0 <= j < k - 1 && i == quad_cell_index(d, q, j);
                    assert(0 <= j < k && i == quad_cell_index(d, q, j));
                }
            }
            if exists|j: int| 0 <= j < k && i == quad_cell_index(d, q, j) {
                let j = choose|j: int| 0 <= j < k && i == #[trigger] quad_cell_index(d, q, j);
                if j == k - 1 {
                    assert(quad_iset(d, q, k).contains(idx));
                } else {
                    assert(prev.contains(i));
                }
            }
        }
    }
}

/// The covered cell count of a quad up to scan position n is the number of
/// its cell indices below n.
proof fn lemma_quad_count(d: int, q: Quad, n: int)
    requires
        0 <= d < 6,
        q.width >= 1,
        quad_cells_in_grid(d, q),
        0 <= n <= GRID_SIZE,
    ensures
        prefix_set(quad_iset(d, q, q.width * q.height), n).finite(),
        quad_upto(q, d, n) == prefix_set(quad_iset(d, q, q.width * q.height), n).len(),
    decreases n,
{
    let r = quad_iset(d, q, q.width * q.height);
    lemma_quad_iset_props(d, q, q.width * q.height);
    if n == 0 {
        assert(prefix_set(r, 0) =~= Set::<int>::empty());
    } else {
        lemma_quad_count(d, q, n - 1);
        let i = n - 1;
        assert(quad_covers(d, q, x_of(i), y_of(i), z_of(i)) <==> r.contains(i)) by {
            if quad_covers(d, q, x_of(i), y_of(i), z_of(i)) {
                assert(in_grid(x_of(i), y_of(i), z_of(i)));
                lemma_covered_cell_rep(d, q, x_of(i), y_of(i), z_of(i));
                let j = choose|j: int|
                    0 <= j < q.width * q.height && #[trigger] quad_cell(d, q, j) == (
                    x_of(i),
                    y_of(i),
                    z_of(i),
                );
                lemma_delinearize_linearize(i);
                assert(quad_cell_index(d, q, j) == i);
            }
            if r.contains(i) {
                let j = choose|j: int|
                    0 <= j < q.width * q.height && i == #[trigger] quad_cell_index(d, q, j);
                lemma_quad_cell_covers(d, q, j);
                let p = quad_cell(d, q, j);
                assert(in_grid(p.0, p.1, p.2));
                lemma_linearize_delinearize(p.0, p.1, p.2);
                assert((x_of(i), y_of(i), z_of(i)) == p);
            }
        }
        if r.contains(i) {
            assert(prefix_set(r, n) =~= prefix_set(r, n - 1).insert(i));
            assert(!prefix_set(r, n - 1).contains(i));
        } else {
            assert(prefix_set(r, n) =~= prefix_set(r, n - 1));
        }
    }
}

/// The covered cell count of a whole quad is its area.
proof fn lemma_quad_area(d: int, q: Quad)
    requires
        0 <= d < 6,
        q.width >= 1,
        q.height >= 1,
        quad_cells_in_grid(d, q),
    ensures
        quad_upto(q, d, GRID_SIZE as int) == q.width * q.height,
{
    let r = quad_iset(d, q, q.width * q.height);
    lemma_quad_iset_props(d, q, q.width * q.height);
    lemma_quad_count(d, q, GRID_SIZE as int);
    assert(prefix_set(r, GRID_SIZE as int) =~= r) by {
        assert forall|i: int| r.contains(i) implies 0 <= i < GRID_SIZE by {
            let j = choose|j: int|
                0 <= j < q.width * q.height && i == #[trigger] quad_cell_index(d, q, j);
            lemma_quad_cell_covers(d, q, j);
            let p = quad_cell(d, q, j);
            assert(in_grid(p.0, p.1, p.2));
            lemma_linearize_delinearize(p.0, p.1, p.2);
        }
    }
}

/// With pairwise disjoint quads whose cells lie in the grid, the covered
/// cell count of the whole scan is the total area.
proof fn lemma_total_covered(qs: Seq<Quad>, d: int)
    requires
        0 <= d < 6,
        pairwise_disjoint(qs, d),
        forall|k: int| 0 <= k < qs.len() ==> quad_cells_in_grid(d, #[trigger] qs[k]),
    ensures
        covered_upto(qs, d, GRID_SIZE as int) == total_area(qs),
    decreases qs.len(),
{
    if qs.len() == 0 {
        lemma_covered_upto_empty(qs, d, GRID_SIZE as int);
    } else {
        let rest = qs.drop_last();
        let q = qs.last();
        assert(pairwise_disjoint(rest, d)) by {
            assert forall|k1: int, k2: int, x: int, y: int, z: int|
                0 <= k1 < rest.len() && 0 <= k2 < rest.len() && k1 != k2 implies !(
            #[trigger] quad_covers(d, rest[k1], x, y, z) && #[trigger] quad_covers(
                d,
                rest[k2],
                x,
                y,
                z,
            )) by {
                if quad_covers(d, rest[k1], x, y, z) && quad_covers(d, rest[k2], x, y, z) {
                    assert(quad_covers(d, qs[k1], x, y, z));
                    assert(quad_covers(d, qs[k2], x, y, z));
                }
            }
        }
        assert(forall|k: int| 0 <= k < rest.len() ==> quad_cells_in_grid(d, #[trigger] rest[k]))
            by {
            assert(forall|k: int| 0 <= k < rest.len() ==> rest[k] == qs[k]);
        }
        lemma_total_covered(rest, d);
        lemma_covered_split(qs, d, GRID_SIZE as int);
        if q.width >= 1 && q.height >= 1 {
            assert(quad_cells_in_grid(d, qs[qs.len() - 1]));
            lemma_quad_area(d, q);
        } else {
            assert(q.width * q.height == 0) by (nonlinear_arith)
                requires
                    q.width == 0 || q.height == 0,
            ;
            lemma_quad_upto_degenerate(q, d, GRID_SIZE as int);
        }
    }
}

/// Merge equivalence, counted: when the quads of a greedy merge cover
/// exactly the visible faces of direction d without overlap, their total
/// covered area equals the number of unit quads of the unmerged mesh.
pub proof fn lemma_merge_area(s: Seq<bool>, d: int, merged: Seq<Quad>)
    requires
        0 <= d < 6,
        forall|x: int, y: int, z: int|
            #![trigger face_visible(s, d, x, y, z)]
            #![trigger covered_by(merged, d, x, y, z)]
            face_visible(s, d, x, y, z) <==> covered_by(merged, d, x, y, z),
        pairwise_disjoint(merged, d),
    ensures
        total_area(merged) == chunk_quads(s, d).len(),
{
    assert forall|k: int| 0 <= k < merged.len() implies quad_cells_in_grid(
        d,
        #[trigger] merged[k],
    ) by {
        assert forall|x: int, y: int, z: int| #[trigger]
            quad_covers(d, merged[k], x, y, z) implies in_grid(x, y, z) by {
            assert(covered_by(merged, d, x, y, z));
            assert(face_visible(s, d, x, y, z));
        }
    }
    lemma_total_covered(merged, d);
    lemma_covered_count(s, d, merged, GRID_SIZE as int);
}

} // verus!
