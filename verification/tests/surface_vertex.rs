use voxel_data::impls::surface_vertex;
use voxel_data::impls::surface_vertex::{Fraci8, Fracu8, Normal, SurfaceStruct, Vertex};

#[test]
fn fractions_keep_their_numerators() {
    assert_eq!(Fracu8::of(0).numerator, 0);
    assert_eq!(Fracu8::of(255).numerator, 255);
    assert_eq!(Fraci8::of(-128).numerator, -128);
    assert_eq!(Fraci8::of(127).numerator, 127);
}

#[test]
fn unwrap_takes_the_material_out() {
    let vertex = Vertex { x: Fracu8::of(1), y: Fracu8::of(2), z: Fracu8::of(3) };
    let normal = Normal::of_scaled(0, 127, 0);
    assert_eq!(
        surface_vertex::unwrap(surface_vertex::T::Volume(Some(7))),
        surface_vertex::T::Volume(7)
    );
    assert_eq!(
        surface_vertex::unwrap(surface_vertex::T::Surface(SurfaceStruct {
            surface_vertex: vertex,
            normal,
            corner: Some('m'),
        })),
        surface_vertex::T::Surface(SurfaceStruct { surface_vertex: vertex, normal, corner: 'm' })
    );
}

#[test]
fn of_scaled_clamps_to_symmetric_range() {
    let n = Normal::of_scaled(127, -127, 0);
    assert_eq!((n.x.numerator, n.y.numerator, n.z.numerator), (127, -127, 0));
    let n = Normal::of_scaled(128, -128, 5);
    assert_eq!((n.x.numerator, n.y.numerator, n.z.numerator), (127, -127, 5));
    let n = Normal::of_scaled(i32::MAX, i32::MIN, -126);
    assert_eq!((n.x.numerator, n.y.numerator, n.z.numerator), (127, -127, -126));
}

#[test]
fn negation_is_symmetric() {
    let n = Normal::of_scaled(100, -127, 0);
    let m = -n;
    assert_eq!((m.x.numerator, m.y.numerator, m.z.numerator), (-100, 127, 0));
    assert_eq!(-m, n);
    // -128 has no negation in eight bits: it counts as -127.
    let edge = Normal { x: Fraci8::of(-128), y: Fraci8::of(127), z: Fraci8::of(1) };
    let back = -edge;
    assert_eq!((back.x.numerator, back.y.numerator, back.z.numerator), (127, -127, -1));
}
