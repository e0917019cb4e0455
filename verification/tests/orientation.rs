use goatland::orientation::{
    face_normal, parse_normal, parse_orientation, try_parse_normal, HalfVec3, Orientation,
    Rotation,
};

use std::f32::consts::PI;

use bevy_math::{Quat, Vec3};

#[test]
fn test_parse_normal() {
    assert_eq!(parse_normal(0, None), Orientation::Left);
    assert_eq!(parse_normal(1, None), Orientation::Bottom);
    assert_eq!(parse_normal(2, None), Orientation::Back);
    assert_eq!(parse_normal(3, None), Orientation::Right);
    assert_eq!(parse_normal(4, None), Orientation::Top);
    assert_eq!(parse_normal(5, None), Orientation::Front);
}

#[test]
fn test_parse_normal_custom_override() {
    assert_eq!(parse_normal(0, Some([0, 1, 0])), Orientation::Top);
    assert_eq!(parse_normal(5, Some([0, -1, 0])), Orientation::Bottom);
}

#[test]
fn test_invalid_normal_rejected() {
    assert_eq!(try_parse_normal([-1, 1, 0]), None);
    assert_eq!(try_parse_normal([0, 0, 0]), None);
    assert_eq!(try_parse_normal([2, 0, 0]), None);
    for index in 0..6 {
        assert!(try_parse_normal(face_normal(index)).is_some());
    }
}

fn deg_to_rad(deg: i32) -> f32 {
    deg as f32 * PI / 180.
}

fn to_vec3(h: HalfVec3) -> Vec3 {
    Vec3::new(h.x as f32 / 2., h.y as f32 / 2., h.z as f32 / 2.)
}

fn to_quat(r: Rotation) -> Quat {
    match r {
        Rotation::Identity => Quat::IDENTITY,
        Rotation::AboutX(deg) => Quat::from_rotation_x(deg_to_rad(deg)),
        Rotation::AboutY(deg) => Quat::from_rotation_y(deg_to_rad(deg)),
    }
}

#[test]
fn test_parse_orientation() {
    let cases = [
        (
            Orientation::Top,
            HalfVec3 { x: 1, y: 3, z: -1 },
            Rotation::AboutX(-90),
            (Vec3::new(0.5, 1.5, -0.5), Quat::from_rotation_x(-PI / 2.)),
        ),
        (
            Orientation::Bottom,
            HalfVec3 { x: 1, y: -1, z: 1 },
            Rotation::AboutX(90),
            (Vec3::new(0.5, -0.5, 0.5), Quat::from_rotation_x(PI / 2.)),
        ),
        (
            Orientation::Left,
            HalfVec3 { x: -1, y: 1, z: 1 },
            Rotation::AboutY(-90),
            (Vec3::new(-0.5, 0.5, 0.5), Quat::from_rotation_y(-PI / 2.)),
        ),
        (
            Orientation::Right,
            HalfVec3 { x: 1, y: 1, z: -1 },
            Rotation::AboutY(90),
            (Vec3::new(0.5, 0.5, -0.5), Quat::from_rotation_y(PI / 2.)),
        ),
        (
            Orientation::Front,
            HalfVec3 { x: 1, y: 1, z: 1 },
            Rotation::Identity,
            (Vec3::new(0.5, 0.5, 0.5), Quat::IDENTITY),
        ),
        (
            Orientation::Back,
            HalfVec3 { x: -1, y: 1, z: -1 },
            Rotation::AboutY(180),
            (Vec3::new(-0.5, 0.5, -0.5), Quat::from_rotation_y(PI)),
        ),
    ];
    for (orientation, expected_half, expected_rotation, expected_float) in cases {
        let (half, rotation) = parse_orientation([0, 0, 0], [2, 2], &orientation);
        assert_eq!(half, expected_half);
        assert_eq!(rotation, expected_rotation);
        assert_eq!((to_vec3(half), to_quat(rotation)), expected_float);
    }
}

#[test]
fn test_parse_orientation_offset_minimum() {
    // A unit quad at minimum (2, 3, 4): the translation is the minimum plus
    // the canonical unit displacement of the orientation.
    let (half, rotation) = parse_orientation([2, 3, 4], [1, 1], &Orientation::Front);
    assert_eq!(half, HalfVec3 { x: 4, y: 6, z: 9 });
    assert_eq!(rotation, Rotation::Identity);
    let (half, _) = parse_orientation([2, 3, 4], [1, 1], &Orientation::Top);
    assert_eq!(half, HalfVec3 { x: 4, y: 7, z: 8 });
}
