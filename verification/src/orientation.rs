//! Orientation and placement of surface quads.
//!
//! Each of the six face direction indices carries a fixed outward normal; an
//! `Orientation` is derived from such a normal by a pure table lookup, and a
//! placement maps a quad's minimum corner and extent to the world-space
//! translation and rotation of a unit panel.
//!
//! Translations always land on multiples of one half, so they are carried as
//! integers counted in half units ([`HalfVec3`]); rotations are always a
//! quarter or half turn about a cardinal axis, so they are carried as whole
//! degrees ([`Rotation`]).  The surrounding shell divides by two and converts
//! degrees to radians when it builds renderable transforms.

use vstd::prelude::*;

verus! {

/// The six cardinal face orientations of an axis-aligned quad.
#[derive(Clone, Copy, Eq, PartialEq, Structural, Debug)]
pub enum Orientation {
    Top,
    Bottom,
    Left,
    Right,
    Back,
    Front,
}

/// A 3D vector whose components are counted in half units: a stored value v
/// stands for the world coordinate v / 2.
#[derive(Clone, Copy, Eq, PartialEq, Structural, Debug)]
pub struct HalfVec3 {
    pub x: i32,
    pub y: i32,
    pub z: i32,
}

/// An axis-aligned rotation, in whole degrees about the named axis.
#[derive(Clone, Copy, Eq, PartialEq, Structural, Debug)]
pub enum Rotation {
    Identity,
    AboutX(i32),
    AboutY(i32),
}

/// The fixed outward normal of face direction index d, in the order
/// -x, -y, -z, +x, +y, +z.
pub open spec fn spec_face_normal(d: int) -> (int, int, int) {
    if d == 0 {
        (-1, 0, 0)
    } else if d == 1 {
        (0, -1, 0)
    } else if d == 2 {
        (0, 0, -1)
    } else if d == 3 {
        (1, 0, 0)
    } else if d == 4 {
        (0, 1, 0)
    } else {
        (0, 0, 1)
    }
}

/// The orientation assigned to a normal vector, or None for any vector
/// outside the fixed table of the six canonical normals.
pub open spec fn spec_orientation_of(nx: int, ny: int, nz: int) -> Option<Orientation> {
    if nx == 0 && ny == 1 && nz == 0 {
        Some(Orientation::Top)
    } else if nx == 0 && ny == -1 && nz == 0 {
        Some(Orientation::Bottom)
    } else if nx == -1 && ny == 0 && nz == 0 {
        Some(Orientation::Left)
    } else if nx == 1 && ny == 0 && nz == 0 {
        Some(Orientation::Right)
    } else if nx == 0 && ny == 0 && nz == 1 {
        Some(Orientation::Front)
    } else if nx == 0 && ny == 0 && nz == -1 {
        Some(Orientation::Back)
    } else {
        None
    }
}

/// The orientation of face direction index d, through the fixed normal table.
pub open spec fn spec_orientation_of_dir(d: int) -> Option<Orientation> {
    spec_orientation_of(
        spec_face_normal(d).0,
        spec_face_normal(d).1,
        spec_face_normal(d).2,
    )
}

/// Every face direction index maps to an orientation.
pub proof fn lemma_face_normal_valid(d: int)
    requires
        0 <= d < 6,
    ensures
        spec_orientation_of_dir(d) is Some,
{
}

/// The face direction index whose fixed normal maps to orientation o: the
/// inverse of the index-to-orientation table.
pub open spec fn spec_dir_of(o: Orientation) -> int {
    match o {
        Orientation::Left => 0,
        Orientation::Bottom => 1,
        Orientation::Back => 2,
        Orientation::Right => 3,
        Orientation::Top => 4,
        Orientation::Front => 5,
    }
}

/// Orientation round trip: composing the fixed index-to-normal table with the
/// normal-to-orientation lookup is a bijection between the six face direction
/// indices and the six orientations, with `spec_dir_of` as its inverse; any
/// vector outside the normal table is rejected deterministically
/// (`spec_orientation_of` returns None).
pub proof fn lemma_orientation_round_trip()
    ensures
        forall|d: int| 0 <= d < 6 ==> #[trigger] spec_orientation_of_dir(d) is Some,
        forall|d1: int, d2: int|
            0 <= d1 < 6 && 0 <= d2 < 6 && d1 != d2 ==> #[trigger] spec_orientation_of_dir(d1)
                != #[trigger] spec_orientation_of_dir(d2),
        forall|o: Orientation|
            {
                &&& 0 <= #[trigger] spec_dir_of(o) < 6
                &&& spec_orientation_of_dir(spec_dir_of(o)) == Some(o)
            },
{
    assert(spec_orientation_of_dir(0) == Some(Orientation::Left));
    assert(spec_orientation_of_dir(1) == Some(Orientation::Bottom));
    assert(spec_orientation_of_dir(2) == Some(Orientation::Back));
    assert(spec_orientation_of_dir(3) == Some(Orientation::Right));
    assert(spec_orientation_of_dir(4) == Some(Orientation::Top));
    assert(spec_orientation_of_dir(5) == Some(Orientation::Front));
}

/// The normal that `parse_normal` looks up: the caller's override if one is
/// given, else the fixed normal of the direction index.
pub open spec fn spec_normal_used(d: int, custom: Option<[i32; 3]>) -> (int, int, int) {
    match custom {
        Some(c) => (c[0] as int, c[1] as int, c[2] as int),
        None => spec_face_normal(d),
    }
}

/// The fixed outward normal of face direction index d.
pub fn face_normal(index: usize) -> (n: [i32; 3])
    requires
        index < 6,
    ensures
        (n[0] as int, n[1] as int, n[2] as int) == spec_face_normal(index as int),
{
    match index {
        0 => [-1, 0, 0],
        1 => [0, -1, 0],
        2 => [0, 0, -1],
        3 => [1, 0, 0],
        4 => [0, 1, 0],
        _ => [0, 0, 1],
    }
}

/// Looks a normal vector up in the fixed table; None signals the invalid
/// normal failure for vectors outside it.
pub fn try_parse_normal(normal: [i32; 3]) -> (o: Option<Orientation>)
    ensures
        o == spec_orientation_of(normal[0] as int, normal[1] as int, normal[2] as int),
{
    let nx = normal[0];
    let ny = normal[1];
    let nz = normal[2];
    if nx == 0 && ny == 1 && nz == 0 {
        Some(Orientation::Top)
    } else if nx == 0 && ny == -1 && nz == 0 {
        Some(Orientation::Bottom)
    } else if nx == -1 && ny == 0 && nz == 0 {
        Some(Orientation::Left)
    } else if nx == 1 && ny == 0 && nz == 0 {
        Some(Orientation::Right)
    } else if nx == 0 && ny == 0 && nz == 1 {
        Some(Orientation::Front)
    } else if nx == 0 && ny == 0 && nz == -1 {
        Some(Orientation::Back)
    } else {
        None
    }
}

/// The orientation of face direction index, or of the caller-supplied
/// override normal when one is given.  An override outside the fixed normal
/// table is excluded by precondition; `try_parse_normal` reports such a
/// vector as None instead.
pub fn parse_normal(index: usize, custom: Option<[i32; 3]>) -> (o: Orientation)
    requires
        index < 6,
        custom matches Some(c) ==> spec_orientation_of(
            c[0] as int,
            c[1] as int,
            c[2] as int,
        ) is Some,
    ensures
        ({
            let n = spec_normal_used(index as int, custom);
            spec_orientation_of(n.0, n.1, n.2) == Some(o)
        }),
{
    let normal: [i32; 3] = match custom {
        Some(c) => c,
        None => face_normal(index),
    };
    proof {
        lemma_face_normal_valid(index as int);
    }
    match try_parse_normal(normal) {
        Some(o) => o,
        // excluded by the precondition and the normal table
        None => Orientation::Top,
    }
}

/// The rotation that turns a unit panel to face orientation o.
pub open spec fn spec_rotation(o: Orientation) -> Rotation {
    match o {
        Orientation::Top => Rotation::AboutX(-90i32),
        Orientation::Bottom => Rotation::AboutX(90i32),
        Orientation::Left => Rotation::AboutY(-90i32),
        Orientation::Right => Rotation::AboutY(90i32),
        Orientation::Front => Rotation::Identity,
        Orientation::Back => Rotation::AboutY(180i32),
    }
}

/// The world translation, in half units, that places a quad with the given
/// minimum corner (whole units) and extent (whole units) at orientation o:
/// the fixed corner-to-center offset (sx/2 - 1/2, sy/2 - 1/2, 1/2) plus a
/// per-orientation displacement.
pub open spec fn spec_translation(
    mx: int,
    my: int,
    mz: int,
    sx: int,
    sy: int,
    o: Orientation,
) -> (int, int, int) {
    let cx = sx - 1;
    let cy = sy - 1;
    match o {
        Orientation::Top => (2 * mx + cx, 2 * my + sy + cy, 2 * mz - sy + 1),
        Orientation::Bottom => (2 * mx + cx, 2 * my - sy + cy, 2 * mz + sy - 1),
        Orientation::Left => (2 * mx - sx + cx, 2 * my + cy, 2 * mz + sx - 1),
        Orientation::Right => (2 * mx - sx + 2 + cx, 2 * my + cy, 2 * mz - sx + 1),
        Orientation::Front => (2 * mx + cx, 2 * my + cy, 2 * mz + 1),
        Orientation::Back => (2 * mx - 2 * sx + 2 + cx, 2 * my + cy, 2 * mz - 1),
    }
}

/// Computes the placement of a quad: its world-space translation (in half
/// units) and rotation, from its minimum corner, its extent and its
/// orientation.
pub fn parse_orientation(minimum: [i32; 3], size: [i32; 2], orientation: &Orientation) -> (r: (
    HalfVec3,
    Rotation,
))
    requires
        forall|k: int| 0 <= k < 3 ==> -250_000_000 <= #[trigger] minimum[k] <= 250_000_000,
        forall|k: int| 0 <= k < 2 ==> -250_000_000 <= #[trigger] size[k] <= 250_000_000,
    ensures
        ({
            let t = spec_translation(
                minimum[0] as int,
                minimum[1] as int,
                minimum[2] as int,
                size[0] as int,
                size[1] as int,
                *orientation,
            );
            &&& r.0.x as int == t.0
            &&& r.0.y as int == t.1
            &&& r.0.z as int == t.2
            &&& r.1 == spec_rotation(*orientation)
        }),
{
    let mx = minimum[0];
    let my = minimum[1];
    let mz = minimum[2];
    let sx = size[0];
    let sy = size[1];
    let cx = sx - 1;
    let cy = sy - 1;
    match orientation {
        Orientation::Top => (
            HalfVec3 { x: 2 * mx + cx, y: 2 * my + sy + cy, z: 2 * mz - sy + 1 },
            Rotation::AboutX(-90),
        ),
        Orientation::Bottom => (
            HalfVec3 { x: 2 * mx + cx, y: 2 * my - sy + cy, z: 2 * mz + sy - 1 },
            Rotation::AboutX(90),
        ),
        Orientation::Left => (
            HalfVec3 { x: 2 * mx - sx + cx, y: 2 * my + cy, z: 2 * mz + sx - 1 },
            Rotation::AboutY(-90),
        ),
        Orientation::Right => (
            HalfVec3 { x: 2 * mx - sx + 2 + cx, y: 2 * my + cy, z: 2 * mz - sx + 1 },
            Rotation::AboutY(90),
        ),
        Orientation::Front => (
            HalfVec3 { x: 2 * mx + cx, y: 2 * my + cy, z: 2 * mz + 1 },
            Rotation::Identity,
        ),
        Orientation::Back => (
            HalfVec3 { x: 2 * mx - 2 * sx + 2 + cx, y: 2 * my + cy, z: 2 * mz - 1 },
            Rotation::AboutY(180),
        ),
    }
}

} // verus!
