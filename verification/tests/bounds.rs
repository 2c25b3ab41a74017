use voxel_data::bounds;

#[test]
fn new_keeps_its_arguments() {
    let b = bounds::new(3, -4, 5, -6);
    assert_eq!((b.x, b.y, b.z, b.lg_size), (3, -4, 5, -6));
    assert_eq!(b, bounds::T { x: 3, y: -4, z: 5, lg_size: -6 });
}

#[test]
fn contains_rounds_down() {
    let outer = bounds::new(-1, 0, 0, 2);
    assert!(outer.contains(&bounds::new(-1, 3, 0, 0)));
    assert!(outer.contains(&bounds::new(-4, 0, 3, 0)));
    assert!(!outer.contains(&bounds::new(-5, 0, 0, 0)));
    assert!(!outer.contains(&bounds::new(0, 0, 0, 0)));
    assert!(outer.contains(&outer));
}

#[test]
fn contains_nothing_larger() {
    let outer = bounds::new(-1, 0, 0, 2);
    assert!(!outer.contains(&bounds::new(-1, 0, 0, 3)));
    assert!(!outer.contains(&bounds::new(0, 0, 0, 3)));
}

#[test]
fn contains_across_every_exponent() {
    // Thirty-one levels and more apart, only the sign of a coordinate is left.
    let origin = bounds::new(0, 0, 0, 31);
    assert!(origin.contains(&bounds::new(i32::MAX, 0, 7, 0)));
    assert!(!origin.contains(&bounds::new(-1, 0, 0, 0)));
    let below = bounds::new(-1, -1, -1, 40);
    assert!(below.contains(&bounds::new(i32::MIN, -1, -5, 0)));
    assert!(!below.contains(&bounds::new(i32::MIN, 0, -5, 0)));
    let far = bounds::new(0, -1, 0, i16::MAX);
    assert!(far.contains(&bounds::new(12, -12, 12, i16::MIN)));
    assert!(!far.contains(&bounds::new(12, 12, 12, i16::MIN)));
    // Thirty levels apart the bits still count.
    let near = bounds::new(1, 0, 0, 30);
    assert!(near.contains(&bounds::new(1 << 30, 5, 5, 0)));
    assert!(!near.contains(&bounds::new((1 << 30) - 1, 5, 5, 0)));
}

#[test]
fn child_doubles_and_offsets() {
    let b = bounds::new(3, -2, 0, 1);
    assert_eq!(b.child(0), Some(bounds::new(6, -4, 0, 0)));
    assert_eq!(b.child(1), Some(bounds::new(6, -4, 1, 0)));
    assert_eq!(b.child(2), Some(bounds::new(6, -3, 0, 0)));
    assert_eq!(b.child(4), Some(bounds::new(7, -4, 0, 0)));
    assert_eq!(b.child(7), Some(bounds::new(7, -3, 1, 0)));
    for octant in 0..8 {
        assert!(b.contains(&b.child(octant).unwrap()));
    }
}

#[test]
fn child_stops_where_bounds_end() {
    assert_eq!(bounds::new(1 << 30, 0, 0, 0).child(0), None);
    assert_eq!(bounds::new(0, -(1 << 30) - 1, 0, 0).child(0), None);
    assert_eq!(bounds::new(0, 0, 0, i16::MIN).child(3), None);
    assert_eq!(
        bounds::new((1 << 30) - 1, -(1 << 30), 0, 0).child(7),
        Some(bounds::new(i32::MAX, i32::MIN + 1, 1, -1))
    );
}
