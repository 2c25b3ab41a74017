use cgmath::{Point3, Vector3};
use collision::Ray3;

use voxel_data::bounds;
use voxel_data::tree;
use voxel_data::tree::raycast::{step, Axis, Ray};
use voxel_data::tree::Inner;

type Floats = [f32; 3];

fn low_and_high(bounds: &bounds::T) -> (Floats, Floats) {
    let size = 2.0f32.powi(bounds.lg_size as i32);
    let low = [bounds.x as f32 * size, bounds.y as f32 * size, bounds.z as f32 * size];
    (low, [low[0] + size, low[1] + size, low[2] + size])
}

fn enters_high(o: Floats, d: Floats, bounds: &bounds::T) -> [bool; 3] {
    let (low, high) = low_and_high(bounds);
    let mut toi = 0.0f32;
    let mut through: Option<usize> = None;
    for a in 0..3 {
        if d[a] != 0.0 {
            let near = if d[a] > 0.0 { low[a] } else { high[a] };
            let t = (near - o[a]) / d[a];
            if t > toi {
                toi = t;
                through = Some(a);
            }
        }
    }
    let mut r = [false; 3];
    for a in 0..3 {
        r[a] = if through == Some(a) {
            d[a] < 0.0
        } else {
            o[a] + toi * d[a] >= (low[a] + high[a]) / 2.0
        };
    }
    r
}

fn exit_axis(o: Floats, d: Floats, bounds: &bounds::T) -> Axis {
    let (low, high) = low_and_high(bounds);
    let mut best = (f32::INFINITY, Axis::X);
    for (a, axis) in [Axis::X, Axis::Y, Axis::Z].into_iter().enumerate() {
        if d[a] != 0.0 {
            let far = if d[a] > 0.0 { high[a] } else { low[a] };
            let t = (far - o[a]) / d[a];
            if t < best.0 {
                best = (t, axis);
            }
        }
    }
    best.1
}

/// A ray in floating point, answering the tree by the slab method.
fn float_ray(
    ray: Ray3<f32>,
) -> Ray<impl Fn(&bounds::T) -> [bool; 3], impl Fn(&bounds::T) -> Axis> {
    let o = [ray.origin.x, ray.origin.y, ray.origin.z];
    let d = [ray.direction.x, ray.direction.y, ray.direction.z];
    Ray {
        starts_high: [o[0] >= 0.0, o[1] >= 0.0, o[2] >= 0.0],
        heads_high: [d[0] >= 0.0, d[1] >= 0.0, d[2] >= 0.0],
        enters_high: move |bounds: &bounds::T| enters_high(o, d, bounds),
        exit_axis: move |bounds: &bounds::T| exit_axis(o, d, bounds),
    }
}

#[test]
fn simple_cast_ray() {
    let mut tree: tree::T<i32> = tree::new();
    *tree.get_mut_or_create(&bounds::new(1, 1, 1, 0)) = Inner::leaf(Some(1));
    *tree.get_mut_or_create(&bounds::new(4, 4, 4, 0)) = Inner::leaf(Some(2));

    let actual = tree.cast_ray(
        &float_ray(Ray3::new(Point3::new(4.5, 3.0, 4.5), Vector3::new(0.1, 0.8, 0.1))),
        // Return the first voxel we hit.
        &mut |bounds, v| Some((bounds, v)),
    );

    assert_eq!(actual, Some((bounds::new(4, 4, 4, 0), &2)));
}

#[test]
fn cast_ray_visits_nearer_voxel_first() {
    let mut tree: tree::T<i32> = tree::new();
    *tree.get_mut_or_create(&bounds::new(2, 0, 0, 0)) = Inner::leaf(Some(1));
    *tree.get_mut_or_create(&bounds::new(5, 0, 0, 0)) = Inner::leaf(Some(2));
    *tree.get_mut_or_create(&bounds::new(-3, 0, 0, 0)) = Inner::leaf(Some(3));

    let ray = float_ray(Ray3::new(Point3::new(-7.5, 0.5, 0.5), Vector3::new(1.0, 0.0, 0.0)));

    let mut seen: Vec<i32> = Vec::new();
    let miss: Option<()> = tree.cast_ray(&ray, &mut |_, v| {
        seen.push(*v);
        None
    });
    assert_eq!(miss, None);
    assert_eq!(seen, vec![3, 1, 2]);

    let mut calls = 0;
    let first = tree.cast_ray(&ray, &mut |bounds, v| {
        calls += 1;
        Some((bounds, *v))
    });
    assert_eq!(first, Some((bounds::new(-3, 0, 0, 0), 3)));
    assert_eq!(calls, 1);
}

#[test]
fn cast_ray_misses_what_lies_beside_it() {
    let mut tree: tree::T<i32> = tree::new();
    *tree.get_mut_or_create(&bounds::new(2, 3, 0, 0)) = Inner::leaf(Some(1));
    let ray = float_ray(Ray3::new(Point3::new(-3.5, 0.5, 0.5), Vector3::new(1.0, 0.0, 0.0)));
    let hit = tree.cast_ray(&ray, &mut |bounds, v| Some((bounds, *v)));
    assert_eq!(hit, None);
}

#[test]
fn cast_ray_acts_on_coarse_payload_before_fine() {
    let mut tree: tree::T<i32> = tree::new();
    *tree.get_mut_or_create(&bounds::new(1, 0, 0, 1)) = Inner::leaf(Some(10));
    *tree.get_mut_or_create(&bounds::new(2, 0, 0, 0)) = Inner::leaf(Some(20));
    let ray = float_ray(Ray3::new(Point3::new(0.5, 0.5, 0.5), Vector3::new(1.0, 0.0, 0.0)));
    let mut seen: Vec<(bounds::T, i32)> = Vec::new();
    let miss: Option<()> = tree.cast_ray(&ray, &mut |bounds, v| {
        seen.push((bounds, *v));
        None
    });
    assert_eq!(miss, None);
    assert_eq!(seen, vec![(bounds::new(1, 0, 0, 1), 10), (bounds::new(2, 0, 0, 0), 20)]);
}

#[test]
fn cast_ray_follows_the_answers_of_the_ray() {
    let mut tree: tree::T<i32> = tree::new();
    *tree.get_mut_or_create(&bounds::new(-1, 0, 0, 0)) = Inner::leaf(Some(1));
    *tree.get_mut_or_create(&bounds::new(0, 0, 0, 0)) = Inner::leaf(Some(2));
    *tree.get_mut_or_create(&bounds::new(0, -1, 0, 0)) = Inner::leaf(Some(3));
    let mut seen: Vec<i32> = Vec::new();
    // A ray that starts low along x, heads up along x and down along y, and
    // leaves every voxel along x: it comes to (-1, 0, 0) and then to (0, 0, 0).
    let along_x = Ray {
        starts_high: [false, true, true],
        heads_high: [true, false, true],
        enters_high: |_: &bounds::T| [false, false, false],
        exit_axis: |_: &bounds::T| Axis::X,
    };
    let miss: Option<()> = tree.cast_ray(&along_x, &mut |_, v| {
        seen.push(*v);
        None
    });
    assert_eq!(miss, None);
    assert_eq!(seen, vec![1, 2]);
    // One that leaves along y comes from (0, 0, 0) down to (0, -1, 0).
    let down_y = Ray {
        starts_high: [true, true, true],
        heads_high: [true, false, true],
        enters_high: |_: &bounds::T| [false, false, false],
        exit_axis: |_: &bounds::T| Axis::Y,
    };
    let mut seen: Vec<i32> = Vec::new();
    let hit = tree.cast_ray(&down_y, &mut |b, v| {
        seen.push(*v);
        if *v == 3 { Some(b) } else { None }
    });
    assert_eq!(hit, Some(bounds::new(0, -1, 0, 0)));
    assert_eq!(seen, vec![2, 3]);
}

#[test]
fn step_moves_the_way_the_ray_heads() {
    let low = [false, false, false];
    let up = [true, true, true];
    assert_eq!(step(low, up, Axis::Y), Some([false, true, false]));
    assert_eq!(step([false, true, false], up, Axis::Y), None);
    assert_eq!(step([true, true, false], [false, true, true], Axis::X), Some([false, true, false]));
    assert_eq!(step([false, true, false], [false, true, true], Axis::X), None);
    assert_eq!(step([true, false, false], up, Axis::Z), Some([true, false, true]));
}
