//! Casting a ray through the nodes of a tree, nearest first.

use vstd::prelude::*;
use crate::bounds;
use crate::bounds::Cell;
use crate::tree::brushing::{lemma_top_cell_holds, top_cell};
use crate::tree::laws::lemma_top_of;
use crate::tree::paths::{below, lemma_below_unfold};
use crate::tree::traversal::{lemma_path_unfold, Walk};
use crate::tree::{Branches, Inner, T};

verus! {

/// One of the three axes.
#[derive(Debug, Copy, Clone, PartialEq, Eq, Structural)]
pub enum Axis {
    X,
    Y,
    Z,
}

/// A ray, as far as the tree needs to know it: on which side of the origin
/// it starts, which way it heads, and where it crosses a voxel. The
/// crossings are answered by two functions; a search is held to what they
/// answer, see [`Ray::course`].
pub struct Ray<Enter, Exit> {
    /// For each axis, whether the origin of the ray lies at or above zero.
    pub starts_high: [bool; 3],
    /// For each axis, whether the ray heads towards higher coordinates.
    pub heads_high: [bool; 3],
    /// For each axis, whether the ray is in the high half of a voxel where
    /// it comes into the voxel, or where it starts if it starts inside.
    pub enters_high: Enter,
    /// The axis along which the ray leaves a voxel.
    pub exit_axis: Exit,
}

/// What a ray may answer: the course that it takes through the voxels.
pub struct Course {
    /// For each axis, whether the ray heads towards higher coordinates.
    pub heads_high: [bool; 3],
    /// Whether the ray may come into the voxel in the given halves.
    pub enters: spec_fn(bounds::T, [bool; 3]) -> bool,
    /// Whether the ray may leave the voxel along the given axis.
    pub leaves: spec_fn(bounds::T, Axis) -> bool,
}

impl<Enter: Fn(&bounds::T) -> [bool; 3], Exit: Fn(&bounds::T) -> Axis> Ray<Enter, Exit> {
    /// The course of the ray: what `enters_high` and `exit_axis` may answer.
    pub open spec fn course(self) -> Course {
        Course {
            heads_high: self.heads_high,
            enters: |b: bounds::T, high: [bool; 3]| self.enters_high.ensures((&b,), high),
            leaves: |b: bounds::T, axis: Axis| self.exit_axis.ensures((&b,), axis),
        }
    }
}

/// What `act` may report on a payload and its bounds.
pub open spec fn verdicts<'a, Voxel, Act, R>(act: Act) -> spec_fn(
    bounds::T,
    Voxel,
    Option<R>,
) -> bool where Act: FnMut(bounds::T, &'a Voxel) -> Option<R>, Voxel: 'a {
    |b: bounds::T, voxel: Voxel, report: Option<R>| act.ensures((b, &voxel), report)
}

/// The index of the child in the given halves: x counts 4, y 2 and z 1.
pub open spec fn octant_of(high: [bool; 3]) -> int {
    (if high[0] { 4int } else { 0 }) + (if high[1] { 2int } else { 0 }) + (if high[2] {
        1int
    } else {
        0
    })
}

/// The place of an axis in an array of three.
pub open spec fn place(axis: Axis) -> int {
    match axis {
        Axis::X => 0,
        Axis::Y => 1,
        Axis::Z => 2,
    }
}

/// How many more steps a ray can take among the children of one node: the
/// number of axes along which it is not yet in the half that it heads for.
pub open spec fn steps_left(high: [bool; 3], heads_high: [bool; 3]) -> int {
    (if high[0] != heads_high[0] { 1int } else { 0 }) + (if high[1] != heads_high[1] {
        1int
    } else {
        0
    }) + (if high[2] != heads_high[2] { 1int } else { 0 })
}

/// The child that a ray comes to when it leaves the child in the halves
/// `high` along `axis`: the neighbour in the half that the ray heads for.
/// There is none where the ray is in that half already: it leaves the node.
pub open spec fn stepped(high: [bool; 3], heads_high: [bool; 3], axis: Axis) -> Option<[bool; 3]> {
    if high[place(axis)] == heads_high[place(axis)] {
        None
    } else {
        Some(
            [
                if axis == Axis::X { heads_high[0] } else { high[0] },
                if axis == Axis::Y { heads_high[1] } else { high[1] },
                if axis == Axis::Z { heads_high[2] } else { high[2] },
            ],
        )
    }
}

/// The child that a ray comes to when it leaves the child in the halves
/// `high` along `axis`; see [`stepped`].
pub fn step(high: [bool; 3], heads_high: [bool; 3], axis: Axis) -> (r: Option<[bool; 3]>)
    ensures
        r == stepped(high, heads_high, axis),
        match r {
            Some(next) => {
                &&& high[place(axis)] != heads_high[place(axis)]
                &&& next@ == high@.update(place(axis), heads_high[place(axis)])
                &&& steps_left(next, heads_high) == steps_left(high, heads_high) - 1
            },
            None => high[place(axis)] == heads_high[place(axis)],
        },
{
    let at: usize = match axis {
        Axis::X => 0,
        Axis::Y => 1,
        Axis::Z => 2,
    };
    if high[at] == heads_high[at] {
        None
    } else {
        let mut next = high;
        next[at] = heads_high[at];
        proof {
            let expected = stepped(high, heads_high, axis)->0;
            assert(next@ =~= expected@);
            assert(next =~= expected);
        }
        Some(next)
    }
}

/// The cube as many units higher along each axis as `octant` says.
pub open spec fn shifted(low: Cell, octant: int) -> Cell {
    Cell { x: low.x + octant / 4, y: low.y + (octant / 2) % 2, z: low.z + octant % 2, lg: low.lg }
}

/// Whether `voxel` is the payload stored for the cube `cell` in the subtree
/// `node`, which stands for the cube `at`.
pub open spec fn stored<Voxel>(node: Inner<Voxel>, at: Cell, cell: Cell, voxel: Voxel) -> bool {
    at.contains(cell) && node.payload_at(below(at, cell)) == Some(voxel)
}

/// Whether `voxel` is the payload stored for the cube `cell` under one of
/// the children of `branches`, the child at octant 0 standing for `low`.
pub open spec fn stored_below<Voxel>(
    branches: Branches<Voxel>,
    low: Cell,
    cell: Cell,
    voxel: Voxel,
) -> bool {
    exists|octant: int|
        0 <= octant < 8 && #[trigger] stored(
            branches.children[octant],
            shifted(low, octant),
            cell,
            voxel,
        )
}

/// What is stored under a child of a node is stored under the node.
proof fn lemma_stored_in_child<Voxel>(
    branches: Branches<Voxel>,
    at: Cell,
    octant: int,
    cell: Cell,
    voxel: Voxel,
)
    requires
        0 <= octant < 8,
        stored(branches.children[octant], at.child(octant), cell, voxel),
    ensures
        stored(Inner::Branches(Box::new(branches)), at, cell, voxel),
{
    crate::bounds::lemma_child_of(at, octant);
    crate::bounds::lemma_contains_transitive(at, at.child(octant), cell);
    lemma_below_unfold(at, cell);
    let first = below(at, cell)[0];
    crate::bounds::lemma_child_of(at, first);
    assert(at.child(first) == at.child(octant));
    assert(first == octant);
    let rest = below(at.child(octant), cell);
    assert((seq![octant] + rest).drop_first() =~= rest);
}

/// The bounds of the child in the halves `high`, where the child at octant
/// 0 has the bounds `low`.
pub open spec fn beside(low: bounds::T, high: [bool; 3]) -> bounds::T {
    shifted(low@, octant_of(high)).bounds()
}

/// Whether one of the eight children lies around the cube `cell`, where the
/// child at octant 0 stands for `low`.
pub open spec fn among(low: Cell, cell: Cell) -> bool {
    exists|octant: int| 0 <= octant < 8 && #[trigger] shifted(low, octant).contains(cell)
}

/// What a search through one node gives: whether `r` may come of casting a
/// ray with the given course through the subtree `node`, which stands for
/// `at`, where `verdict` says what may be reported on a payload.
///
/// An `Empty` node is left along an axis that the course has for its bounds.
/// At an allocated node the payload comes first: a hit that is reported on
/// it and its bounds is the result. Without a hit the search goes on among
/// the children, from the child in the halves that the course has for the
/// bounds; see [`casts_among`]. Where bounds cannot name the children, the
/// node is left like an `Empty` one.
pub open spec fn casts<Voxel, R>(
    node: Inner<Voxel>,
    course: Course,
    at: bounds::T,
    verdict: spec_fn(bounds::T, Voxel, Option<R>) -> bool,
    r: Result<R, Axis>,
) -> bool
    decreases at.lg_size - i16::MIN, 0int,
{
    match node {
        Inner::Empty => r matches Err(axis) && (course.leaves)(at, axis),
        Inner::Branches(branches) => {
            ||| branches.data matches Some(voxel) && r matches Ok(hit) && verdict(
                at,
                voxel,
                Some(hit),
            )
            ||| {
                &&& branches.data matches Some(voxel) ==> verdict(at, voxel, None::<R>)
                &&& if at@.child(0).addressable() {
                    exists|start: [bool; 3]| #[trigger]
                        (course.enters)(at, start) && casts_among(
                            *branches,
                            course,
                            start,
                            at@.child(0).bounds(),
                            verdict,
                            r,
                        )
                } else {
                    r matches Err(axis) && (course.leaves)(at, axis)
                }
            }
        },
    }
}

/// What a search among the children of one node gives: whether `r` may come
/// of casting a ray with the given course through the children of `this`,
/// from the child in the halves `high` on. The child at octant 0 has the
/// bounds `low`.
///
/// The search goes through that child; a hit there is the result. Without
/// one the ray leaves the child along one of the three axes, and the search
/// goes on in the neighbour that [`stepped`] names. Where there is none, the
/// ray leaves the node along that axis.
pub open spec fn casts_among<Voxel, R>(
    this: Branches<Voxel>,
    course: Course,
    high: [bool; 3],
    low: bounds::T,
    verdict: spec_fn(bounds::T, Voxel, Option<R>) -> bool,
    r: Result<R, Axis>,
) -> bool
    decreases low.lg_size - i16::MIN, 1 + steps_left(high, course.heads_high),
{
    let child = this.children[octant_of(high)];
    let at = beside(low, high);
    ||| r is Ok && casts(child, course, at, verdict, r)
    ||| casts(child, course, at, verdict, Err::<R, Axis>(Axis::X)) && match stepped(
        high,
        course.heads_high,
        Axis::X,
    ) {
        Some(next) => casts_among(this, course, next, low, verdict, r),
        None => r == Err::<R, Axis>(Axis::X),
    }
    ||| casts(child, course, at, verdict, Err::<R, Axis>(Axis::Y)) && match stepped(
        high,
        course.heads_high,
        Axis::Y,
    ) {
        Some(next) => casts_among(this, course, next, low, verdict, r),
        None => r == Err::<R, Axis>(Axis::Y),
    }
    ||| casts(child, course, at, verdict, Err::<R, Axis>(Axis::Z)) && match stepped(
        high,
        course.heads_high,
        Axis::Z,
    ) {
        Some(next) => casts_among(this, course, next, low, verdict, r),
        None => r == Err::<R, Axis>(Axis::Z),
    }
}

fn offset(low: &bounds::T, high: [bool; 3]) -> (r: bounds::T)
    requires
        low.x < i32::MAX,
        low.y < i32::MAX,
        low.z < i32::MAX,
    ensures
        r == beside(*low, high),
        r@ == shifted(low@, octant_of(high)),
{
    bounds::new(
        if high[0] { low.x + 1 } else { low.x },
        if high[1] { low.y + 1 } else { low.y },
        if high[2] { low.z + 1 } else { low.z },
        low.lg_size,
    )
}

fn index(high: [bool; 3]) -> (r: usize)
    ensures
        r == octant_of(high),
        r < 8,
{
    let x: usize = if high[0] { 4 } else { 0 };
    let y: usize = if high[1] { 2 } else { 0 };
    let z: usize = if high[2] { 1 } else { 0 };
    x + y + z
}

/// Cast a ray through the subtree `node`, which stands for `bounds`. The
/// payload of the node comes first, then the children that the ray crosses,
/// in the order in which it crosses them. The first hit that `act` reports
/// ends the search; without one, the result is the axis along which the ray
/// leaves the voxel. See [`casts`].
pub fn cast_ray<'a, Voxel, Enter, Exit, Act, R>(
    node: &'a Inner<Voxel>,
    ray: &Ray<Enter, Exit>,
    bounds: &bounds::T,
    act: &mut Act,
) -> (r: Result<R, Axis>) where
    Enter: Fn(&bounds::T) -> [bool; 3],
    Exit: Fn(&bounds::T) -> Axis,
    Act: FnMut(bounds::T, &'a Voxel) -> Option<R>,

    requires
        forall|b: bounds::T| #[trigger]
            bounds@.contains(b@) ==> ray.enters_high.requires((&b,)) && ray.exit_axis.requires(
                (&b,),
            ),
        forall|b: bounds::T, v: Voxel| #[trigger]
            stored(*node, bounds@, b@, v) ==> (*old(act)).requires((b, &v)),
    ensures
        casts(*node, ray.course(), *bounds, verdicts(*old(act)), r),
        r matches Ok(hit) ==> exists|b: bounds::T, v: Voxel| #[trigger]
            stored(*node, bounds@, b@, v) && (*old(act)).ensures((b, &v), Some(hit)),
        *final(act) == *old(act),
    decreases bounds.lg_size - i16::MIN, 1int,
{
    proof {
        crate::bounds::lemma_contains_reflexive(bounds@);
    }
    match node {
        Inner::Empty => Err((ray.exit_axis)(bounds)),
        Inner::Branches(branches) => {
            proof {
                assert(below(bounds@, bounds@) =~= Seq::<int>::empty());
            }
            match &branches.data {
                None => {},
                Some(voxel) => {
                    assert(stored(*node, bounds@, bounds@, *voxel));
                    match act(*bounds, voxel) {
                        Some(hit) => {
                            return Ok(hit);
                        },
                        None => {},
                    }
                },
            }
            match bounds.child(0) {
                None => Err((ray.exit_axis)(bounds)),
                Some(low) => {
                    let entry = (ray.enters_high)(bounds);
                    proof {
                        assert forall|octant: int, b: bounds::T, v: Voxel|
                            0 <= octant < 8 && #[trigger] stored(
                                branches.children[octant],
                                shifted(low@, octant),
                                b@,
                                v,
                            ) implies stored(*node, bounds@, b@, v) by {
                            assert(shifted(low@, octant) == bounds@.child(octant));
                            lemma_stored_in_child(**branches, bounds@, octant, b@, v);
                        }
                        assert forall|b: bounds::T| #[trigger] among(low@, b@) implies bounds@.contains(
                            b@,
                        ) by {
                            let octant = choose|octant: int|
                                0 <= octant < 8 && #[trigger] shifted(low@, octant).contains(b@);
                            assert(shifted(low@, octant) == bounds@.child(octant));
                            crate::bounds::lemma_child_of(bounds@, octant);
                            crate::bounds::lemma_contains_transitive(
                                bounds@,
                                bounds@.child(octant),
                                b@,
                            );
                        }
                    }
                    proof {
                        // The course has the entry that the ray gave.
                        assert((ray.course().enters)(*bounds, entry));
                    }
                    cast_ray_branches(branches, ray, entry, &low, act)
                },
            }
        },
    }
}

/// Cast a ray through the children of a node, starting at the child in the
/// halves `start`. The child at octant 0 stands for `low`. The ray goes from
/// child to child the way it heads, along the axis on which it leaves each,
/// until `act` reports a hit or the ray leaves the node. See [`casts_among`].
pub fn cast_ray_branches<'a, Voxel, Enter, Exit, Act, R>(
    this: &'a Branches<Voxel>,
    ray: &Ray<Enter, Exit>,
    start: [bool; 3],
    low: &bounds::T,
    act: &mut Act,
) -> (r: Result<R, Axis>) where
    Enter: Fn(&bounds::T) -> [bool; 3],
    Exit: Fn(&bounds::T) -> Axis,
    Act: FnMut(bounds::T, &'a Voxel) -> Option<R>,

    requires
        low.x < i32::MAX,
        low.y < i32::MAX,
        low.z < i32::MAX,
        forall|b: bounds::T| #[trigger]
            among(low@, b@) ==> ray.enters_high.requires((&b,)) && ray.exit_axis.requires((&b,)),
        forall|b: bounds::T, v: Voxel| #[trigger]
            stored_below(*this, low@, b@, v) ==> (*old(act)).requires((b, &v)),
    ensures
        casts_among(*this, ray.course(), start, *low, verdicts(*old(act)), r),
        r matches Ok(hit) ==> exists|b: bounds::T, v: Voxel| #[trigger]
            stored_below(*this, low@, b@, v) && (*old(act)).ensures((b, &v), Some(hit)),
        *final(act) == *old(act),
    decreases low.lg_size - i16::MIN, 2int,
{
    let mut coords = start;
    loop
        invariant
            low.x < i32::MAX,
            low.y < i32::MAX,
            low.z < i32::MAX,
            *act == *old(act),
            forall|b: bounds::T| #[trigger]
                among(low@, b@) ==> ray.enters_high.requires((&b,)) && ray.exit_axis.requires(
                    (&b,),
                ),
            forall|b: bounds::T, v: Voxel| #[trigger]
                stored_below(*this, low@, b@, v) ==> (*old(act)).requires((b, &v)),
            forall|r: Result<R, Axis>| #[trigger]
                casts_among(*this, ray.course(), coords, *low, verdicts(*old(act)), r)
                    ==> casts_among(*this, ray.course(), start, *low, verdicts(*old(act)), r),
        decreases steps_left(coords, ray.heads_high),
    {
        let bounds = offset(low, coords);
        let octant = index(coords);
        proof {
            assert forall|b: bounds::T, v: Voxel| #[trigger]
                stored(this.children[octant as int], bounds@, b@, v) implies stored_below(
                *this,
                low@,
                b@,
                v,
            ) by {
                assert(stored(this.children[octant as int], shifted(low@, octant as int), b@, v));
            }
            assert forall|b: bounds::T| #[trigger] bounds@.contains(b@) implies among(
                low@,
                b@,
            ) by {
                assert(shifted(low@, octant as int).contains(b@));
            }
        }
        let inner = cast_ray(&this.children[octant], ray, &bounds, act);
        match inner {
            Ok(hit) => {
                proof {
                    assert(casts_among(*this, ray.course(), coords, *low, verdicts(*old(act)), Ok::<R, Axis>(hit)));
                }
                return Ok(hit);
            },
            Err(axis) => {
                match step(coords, ray.heads_high, axis) {
                    Some(next) => {
                        proof {
                            assert forall|r: Result<R, Axis>| #[trigger]
                                casts_among(
                                    *this,
                                    ray.course(),
                                    next,
                                    *low,
                                    verdicts(*old(act)),
                                    r,
                                ) implies casts_among(*this, ray.course(), start, *low, verdicts(*old(act)), r) by {
                                assert(casts_among(*this, ray.course(), coords, *low, verdicts(*old(act)), r));
                            }
                        }
                        coords = next;
                    },
                    None => {
                        proof {
                            assert(casts_among(
                                *this,
                                ray.course(),
                                coords,
                                *low,
                                verdicts(*old(act)),
                                Err::<R, Axis>(axis),
                            ));
                        }
                        return Err(axis);
                    },
                }
            },
        }
    }
}

/// What is stored under a child of the root is stored in the tree.
proof fn lemma_stored_in_tree<Voxel>(tree: T<Voxel>, cell: Cell, voxel: Voxel)
    requires
        stored_below(
            tree.contents,
            Cell { x: -1, y: -1, z: -1, lg: tree.lg_size as int },
            cell,
            voxel,
        ),
    ensures
        tree.voxel_at(cell) == Some(voxel),
{
    let low = Cell { x: -1, y: -1, z: -1, lg: tree.lg_size as int };
    let octant = choose|octant: int|
        0 <= octant < 8 && #[trigger] stored(
            tree.contents.children[octant],
            shifted(low, octant),
            cell,
            voxel,
        );
    assert(shifted(low, octant) == top_cell(tree.lg_size as int, octant));
    lemma_top_cell_holds(tree.lg_size as nat, octant, cell);
    lemma_top_of(tree, cell);
    let side = tree.path(cell)[0];
    assert(top_cell(tree.lg_size as int, side) == top_cell(tree.lg_size as int, octant));
    assert(side == octant);
    lemma_path_unfold(Walk::start(tree.lg_size as nat, cell));
}

/// The bounds of the root's child at octant 0, in a tree with exponent
/// `lg_size`.
pub open spec fn top_low(lg_size: u8) -> bounds::T {
    bounds::T { x: -1i32, y: -1i32, z: -1i32, lg_size: lg_size as i16 }
}

impl<Voxel> T<Voxel> {
    /// What a search through the tree gives: whether `r` may come of casting
    /// `ray` through it. The search goes among the children of the root,
    /// from the child on the side where the ray starts; a hit there is the
    /// result, and there is none where the ray leaves the tree. See
    /// [`casts_among`].
    pub open spec fn cast<'a, Enter, Exit, Act, R>(
        self,
        ray: Ray<Enter, Exit>,
        act: Act,
        r: Option<R>,
    ) -> bool where
        Enter: Fn(&bounds::T) -> [bool; 3],
        Exit: Fn(&bounds::T) -> Axis,
        Act: FnMut(bounds::T, &'a Voxel) -> Option<R>,
        Voxel: 'a,
     {
        let low = top_low(self.lg_size);
        match r {
            Some(hit) => casts_among(
                self.contents,
                ray.course(),
                ray.starts_high,
                low,
                verdicts(act),
                Ok::<R, Axis>(hit),
            ),
            None => {
                ||| casts_among(
                    self.contents,
                    ray.course(),
                    ray.starts_high,
                    low,
                    verdicts(act),
                    Err::<R, Axis>(Axis::X),
                )
                ||| casts_among(
                    self.contents,
                    ray.course(),
                    ray.starts_high,
                    low,
                    verdicts(act),
                    Err::<R, Axis>(Axis::Y),
                )
                ||| casts_among(
                    self.contents,
                    ray.course(),
                    ray.starts_high,
                    low,
                    verdicts(act),
                    Err::<R, Axis>(Axis::Z),
                )
            },
        }
    }

    /// Cast a ray through the contents of this tree. The search starts in
    /// the child of the root on the side of the ray's origin, and visits the
    /// nodes that the ray crosses, nearest first. The first hit that `act`
    /// reports on a stored payload and its bounds is the result. See
    /// [`T::cast`].
    pub fn cast_ray<'a, Enter, Exit, Act, R>(
        &'a self,
        ray: &Ray<Enter, Exit>,
        act: &mut Act,
    ) -> (r: Option<R>) where
        Enter: Fn(&bounds::T) -> [bool; 3],
        Exit: Fn(&bounds::T) -> Axis,
        Act: FnMut(bounds::T, &'a Voxel) -> Option<R>,

        requires
            forall|b: bounds::T| #[trigger]
                self.holds(b@) ==> ray.enters_high.requires((&b,)) && ray.exit_axis.requires(
                    (&b,),
                ),
            forall|b: bounds::T, v: Voxel| #[trigger]
                self.stores(b, v) ==> (*old(act)).requires((b, &v)),
        ensures
            self.cast(*ray, *old(act), r),
            r matches Some(hit) ==> exists|b: bounds::T, v: Voxel| #[trigger]
                self.stores(b, v) && (*old(act)).ensures((b, &v), Some(hit)),
            *final(act) == *old(act),
    {
        // NB: The children are half the size of the tree itself,
        // but tree.lg_size=0 means it extends tree.lg_size=0 in *each direction*,
        // so the "actual" size of the tree as a voxel would be tree.lg_size+1.
        let low = bounds::new(-1, -1, -1, self.lg_size as i16);
        proof {
            assert forall|b: bounds::T, v: Voxel| #[trigger]
                stored_below(self.contents, low@, b@, v) implies self.stores(b, v) by {
                lemma_stored_in_tree(*self, b@, v);
            }
            assert forall|b: bounds::T| #[trigger] among(low@, b@) implies self.holds(b@) by {
                let octant = choose|octant: int|
                    0 <= octant < 8 && #[trigger] shifted(low@, octant).contains(b@);
                assert(shifted(low@, octant) == top_cell(self.lg_size as int, octant));
                lemma_top_cell_holds(self.lg_size as nat, octant, b@);
            }
        }
        proof {
            assert(low == top_low(self.lg_size));
        }
        let among = cast_ray_branches(&self.contents, ray, ray.starts_high, &low, act);
        match among {
            Ok(hit) => {
                proof {
                    let (b, v) = choose|b: bounds::T, v: Voxel| #[trigger]
                        stored_below(self.contents, low@, b@, v) && (*old(act)).ensures(
                            (b, &v),
                            Some(hit),
                        );
                    assert(self.stores(b, v));
                    assert(self.cast(*ray, *old(act), Some(hit)));
                }
                Some(hit)
            },
            Err(axis) => {
                proof {
                    assert(among == Err::<R, Axis>(axis));
                    assert(self.cast(*ray, *old(act), None::<R>));
                }
                None
            },
        }
    }
}

} // verus!
