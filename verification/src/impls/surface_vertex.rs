//! A voxel implementation where each voxel stores a single mesh vertex and normal.

use vstd::prelude::*;
use vstd::std_specs::ops::NegSpecImpl;

verus! {

// NOTE: When voxel size and storage become an issue, this should be shrunk to
// be less than pointer-sized. It'll be easier to transfer to the GPU for
// whatever reasons, but also make it possible to shrink the SVO footprint by
// "flattening" the leaf contents and pointers into the same space (the
// low-order bits can be used to figure out which one it is, since pointers
// have three low-order bits set to zero).
/// A voxel that is all of one material, or holds a piece of the surface.
#[derive(Debug, Copy, Clone, PartialEq, Eq)]
pub enum T<Material> {
    /// The entire voxel is a single material.
    Volume(Material),
    /// The voxel crosses the surface of the volume.
    Surface(SurfaceStruct<Material>),
}

/// Every voxel keeps track of a single vertex, as well as whether its
/// lowest-coordinate corner is inside the volume.
/// Since we keep track of an "arbitrarily" large world of voxels, we don't
/// leave out any corners.
#[derive(Debug, Copy, Clone, PartialEq, Eq)]
pub struct SurfaceStruct<Material> {
    /// The position of a free-floating vertex on the surface.
    pub surface_vertex: Vertex,
    /// The surface normal at `surface_vertex`.
    pub normal: Normal,
    /// The material of the voxel's lowest corner.
    pub corner: Material,
}

/// Whether the voxel's material is there to be taken out.
pub open spec fn has_material<X>(voxel: T<Option<X>>) -> bool {
    match voxel {
        T::Volume(x) => x is Some,
        T::Surface(x) => x.corner is Some,
    }
}

/// The voxel with its material taken out of the `Option`.
pub open spec fn spec_unwrap<X>(voxel: T<Option<X>>) -> T<X> {
    match voxel {
        T::Volume(x) => T::Volume(x->0),
        T::Surface(x) => T::Surface(
            SurfaceStruct {
                surface_vertex: x.surface_vertex,
                normal: x.normal,
                corner: x.corner->0,
            },
        ),
    }
}

/// Take the material of a voxel out of its `Option`. There must be one.
pub fn unwrap<X>(voxel: T<Option<X>>) -> (r: T<X>)
    requires
        has_material(voxel),
    ensures
        r == spec_unwrap(voxel),
{
    match voxel {
        T::Volume(x) => T::Volume(x.unwrap()),
        T::Surface(x) => {
            T::Surface(
                SurfaceStruct {
                    surface_vertex: x.surface_vertex,
                    normal: x.normal,
                    corner: x.corner.unwrap(),
                },
            )
        },
    }
}

/// Vertex expressed using a fraction between voxel bounds.
#[derive(Debug, Copy, Clone, PartialEq, Eq)]
pub struct Vertex {
    pub x: Fracu8,
    pub y: Fracu8,
    pub z: Fracu8,
}

/// A compressed normal format.
#[derive(Debug, Copy, Clone, PartialEq, Eq)]
pub struct Normal {
    pub x: Fraci8,
    pub y: Fraci8,
    pub z: Fraci8,
}

/// `x` brought into `[-127, 127]`: the range that negation maps onto itself.
pub open spec fn clamped(x: int) -> int {
    if x < -127 {
        -127
    } else if x > 127 {
        127
    } else {
        x
    }
}

fn clamp(x: i32) -> (r: i8)
    ensures
        r == clamped(x as int),
{
    if x < -127 {
        -127
    } else if x > 127 {
        127
    } else {
        x as i8
    }
}

impl Normal {
    /// Pack a normal whose components were scaled so that 127 stands for 1.0.
    /// Components beyond `[-127, 127]` are clamped to it.
    pub fn of_scaled(x: i32, y: i32, z: i32) -> (r: Normal)
        ensures
            r.x.numerator == clamped(x as int),
            r.y.numerator == clamped(y as int),
            r.z.numerator == clamped(z as int),
    {
        Normal { x: Fraci8::of(clamp(x)), y: Fraci8::of(clamp(y)), z: Fraci8::of(clamp(z)) }
    }

    /// The normal that points the other way. A component of -128 counts as -127.
    pub open spec fn negated(self) -> Normal {
        Normal {
            x: Fraci8 { numerator: (-clamped(self.x.numerator as int)) as i8 },
            y: Fraci8 { numerator: (-clamped(self.y.numerator as int)) as i8 },
            z: Fraci8 { numerator: (-clamped(self.z.numerator as int)) as i8 },
        }
    }

    /// Whether no component is -128, the one value whose negation does not fit.
    pub open spec fn symmetric(self) -> bool {
        self.x.numerator >= -127 && self.y.numerator >= -127 && self.z.numerator >= -127
    }
}

impl core::ops::Neg for Normal {
    type Output = Normal;

    fn neg(self) -> (r: Normal) {
        Normal {
            x: Fraci8::of(-clamp(self.x.numerator as i32)),
            y: Fraci8::of(-clamp(self.y.numerator as i32)),
            z: Fraci8::of(-clamp(self.z.numerator as i32)),
        }
    }
}

impl NegSpecImpl for Normal {
    open spec fn obeys_neg_spec() -> bool {
        true
    }

    open spec fn neg_req(self) -> bool {
        true
    }

    open spec fn neg_spec(self) -> Normal {
        self.negated()
    }
}

/// Negating twice gives back every normal without a component of -128, and
/// so every normal that `of_scaled` packs.
pub proof fn law_negation_symmetric(n: Normal)
    requires
        n.symmetric(),
    ensures
        n.negated().negated() == n,
        n.negated().symmetric(),
{
}

/// Express a `[0,1)` fraction using a `u8`.
#[derive(Debug, Copy, Clone, PartialEq, Eq)]
pub struct Fracu8 {
    /// The numerator of a fraction over 1 << 8.
    pub numerator: u8,
}

impl Fracu8 {
    /// The fraction `numerator / 256`.
    pub fn of(numerator: u8) -> (r: Fracu8)
        ensures
            r.numerator == numerator,
    {
        Fracu8 { numerator: numerator }
    }
}

/// Express a `[-1,1)` fraction using a `i8`.
#[derive(Debug, Copy, Clone, PartialEq, Eq)]
pub struct Fraci8 {
    /// The numerator of a fraction over 1 << 7.
    pub numerator: i8,
}

impl Fraci8 {
    /// The fraction `numerator / 128`.
    pub fn of(numerator: i8) -> (r: Fraci8)
        ensures
            r.numerator == numerator,
    {
        Fraci8 { numerator: numerator }
    }
}

} // verus!
