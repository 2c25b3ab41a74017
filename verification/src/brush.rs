//! Voxel brush module

use vstd::prelude::*;

verus! {

/// A point of the unit grid.
#[derive(Debug, Copy, Clone, PartialEq, Eq, Structural)]
pub struct Point {
    pub x: i32,
    pub y: i32,
    pub z: i32,
}

/// An axis-aligned box of the unit grid: the points from `min` up to, but
/// not including, `max` along every axis.
#[derive(Debug, Copy, Clone, PartialEq, Eq, Structural)]
pub struct Bounds {
    pub min: Point,
    pub max: Point,
}

/// The smaller of two numbers.
pub open spec fn lower(a: int, b: int) -> int {
    if a <= b {
        a
    } else {
        b
    }
}

/// The larger of two numbers.
pub open spec fn upper(a: int, b: int) -> int {
    if a >= b {
        a
    } else {
        b
    }
}

/// `collision::Aabb3::new` on two points of the unit grid, its `min` and
/// `max` handed back as plain points. The box that it makes has along each
/// axis the smaller of the two coordinates as its minimum and the larger as
/// its maximum.
#[verifier::external_body]
fn aabb_corners(one: Point, other: Point) -> (r: (Point, Point))
    ensures
        r.0.x == lower(one.x as int, other.x as int),
        r.0.y == lower(one.y as int, other.y as int),
        r.0.z == lower(one.z as int, other.z as int),
        r.1.x == upper(one.x as int, other.x as int),
        r.1.y == upper(one.y as int, other.y as int),
        r.1.z == upper(one.z as int, other.z as int),
{
    let aabb = collision::Aabb3::new(
        cgmath::Point3::new(one.x, one.y, one.z),
        cgmath::Point3::new(other.x, other.y, other.z),
    );
    (
        Point { x: aabb.min.x, y: aabb.min.y, z: aabb.min.z },
        Point { x: aabb.max.x, y: aabb.max.y, z: aabb.max.z },
    )
}

impl Bounds {
    /// The box spanned by two points, whichever way round they are given.
    pub fn new(one: Point, other: Point) -> (r: Bounds)
        ensures
            r.min.x == lower(one.x as int, other.x as int),
            r.min.y == lower(one.y as int, other.y as int),
            r.min.z == lower(one.z as int, other.z as int),
            r.max.x == upper(one.x as int, other.x as int),
            r.max.y == upper(one.y as int, other.y as int),
            r.max.z == upper(one.z as int, other.z as int),
    {
        let (min, max) = aabb_corners(one, other);
        Bounds { min, max }
    }
}

/// One edit of a tree: a box, what to fill it with, and how fine to go.
#[derive(Debug, Clone)]
pub struct T<Mosaic> {
    /// The bounds of this brush.
    pub bounds: Bounds,
    /// The mosaic that this brush will apply.
    pub mosaic: Mosaic,
    /// lg of the smallest voxel size this brush will touch.
    pub min_lg_size: i16,
}

} // verus!
