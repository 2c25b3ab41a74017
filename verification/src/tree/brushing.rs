//! Applying a brush to the nodes of a tree.

use vstd::prelude::*;
use vstd::arithmetic::power2::{pow2, lemma_pow2_pos, lemma2_to64_rest, lemma2_to64};
use crate::bounds;
use crate::bounds::Cell;
use crate::brush;
use crate::scale::{floor_shift, lemma_floor_shift_sign, lemma_pow2_monotone, lemma_shl_is_pow2};
use crate::tree::{holds_at, lemma_half_width, Branches, Inner, T};

verus! {

/// Whether the cube and the box have a point in common. Where the cube is
/// at least a unit wide its corners are brought to the unit grid; where it is
/// finer, the corners of the box are brought to the grid of the cube.
pub open spec fn overlaps(cell: Cell, region: brush::Bounds) -> bool {
    if cell.lg >= 0 {
        let width = pow2(cell.lg as nat) as int;
        &&& cell.x * width < region.max.x
        &&& cell.y * width < region.max.y
        &&& cell.z * width < region.max.z
        &&& region.min.x < (cell.x + 1) * width
        &&& region.min.y < (cell.y + 1) * width
        &&& region.min.z < (cell.z + 1) * width
    } else {
        let per_unit = pow2((-cell.lg) as nat) as int;
        &&& cell.x < region.max.x * per_unit
        &&& cell.y < region.max.y * per_unit
        &&& cell.z < region.max.z * per_unit
        &&& region.min.x * per_unit <= cell.x
        &&& region.min.y * per_unit <= cell.y
        &&& region.min.z * per_unit <= cell.z
    }
}

/// `a * 2^k`, with the exponent capped at 32: far enough for the product to
/// compare with every 32-bit number as `a * 2^k` does.
pub open spec fn capped(a: int, k: nat) -> int {
    a * pow2(if k > 32 { 32 } else { k })
}

/// The capped product compares with every 32-bit number as the full one does.
proof fn lemma_capped(a: int, k: nat, b: int)
    requires
        i32::MIN <= b <= i32::MAX,
    ensures
        (capped(a, k) < b) == (a * pow2(k) < b),
        (capped(a, k) <= b) == (a * pow2(k) <= b),
{
    if k > 32 {
        lemma2_to64();
        lemma2_to64_rest();
        lemma_pow2_monotone(32, k);
        let p = pow2(k) as int;
        let q = pow2(32) as int;
        assert((a * p < b) == (a * q < b) && (a * p <= b) == (a * q <= b)) by (nonlinear_arith)
            requires
                p >= q,
                q == 0x1_0000_0000,
                -0x8000_0000 <= b <= 0x7fff_ffff,
        ;
    }
}

fn scaled(a: i64, k: u32) -> (r: i128)
    requires
        -0x8000_0000 <= a <= 0x8000_0000,
    ensures
        r == capped(a as int, k as nat),
{
    let shift: u32 = if k > 32 { 32 } else { k };
    proof {
        lemma_shl_is_pow2(shift);
        lemma_pow2_monotone(shift as nat, 32);
        lemma_pow2_pos(shift as nat);
        lemma2_to64();
        lemma2_to64_rest();
    }
    let factor: i64 = 1i64 << shift;
    assert(-0x8000_0000_0000_0000 <= a * factor <= 0x8000_0000_0000_0000) by (nonlinear_arith)
        requires
            -0x8000_0000 <= a <= 0x8000_0000,
            0 < factor <= 0x1_0000_0000,
    ;
    (a as i128) * (factor as i128)
}

/// Whether a voxel and the box of a brush have a point in common.
pub fn brush_overlaps(voxel: &bounds::T, brush: &brush::Bounds) -> (r: bool)
    ensures
        r == overlaps(voxel@, *brush),
{
    if voxel.lg_size >= 0 {
        let k: u32 = voxel.lg_size as u32;
        proof {
            lemma_capped(voxel.x as int, k as nat, brush.max.x as int);
            lemma_capped(voxel.y as int, k as nat, brush.max.y as int);
            lemma_capped(voxel.z as int, k as nat, brush.max.z as int);
            lemma_capped(voxel.x + 1, k as nat, brush.min.x as int);
            lemma_capped(voxel.y + 1, k as nat, brush.min.y as int);
            lemma_capped(voxel.z + 1, k as nat, brush.min.z as int);
        }
        scaled(voxel.x as i64, k) < brush.max.x as i128 && scaled(voxel.y as i64, k)
            < brush.max.y as i128 && scaled(voxel.z as i64, k) < brush.max.z as i128 && !(scaled(
            voxel.x as i64 + 1,
            k,
        ) <= brush.min.x as i128) && !(scaled(voxel.y as i64 + 1, k) <= brush.min.y as i128)
            && !(scaled(voxel.z as i64 + 1, k) <= brush.min.z as i128)
    } else {
        let k: u32 = (-(voxel.lg_size as i32)) as u32;
        proof {
            lemma_capped(brush.max.x as int, k as nat, voxel.x as int);
            lemma_capped(brush.max.y as int, k as nat, voxel.y as int);
            lemma_capped(brush.max.z as int, k as nat, voxel.z as int);
            lemma_capped(brush.min.x as int, k as nat, voxel.x as int);
            lemma_capped(brush.min.y as int, k as nat, voxel.y as int);
            lemma_capped(brush.min.z as int, k as nat, voxel.z as int);
        }
        !(scaled(brush.max.x as i64, k) <= voxel.x as i128) && !(scaled(brush.max.y as i64, k)
            <= voxel.y as i128) && !(scaled(brush.max.z as i64, k) <= voxel.z as i128) && scaled(
            brush.min.x as i64,
            k,
        ) <= voxel.x as i128 && scaled(brush.min.y as i64, k) <= voxel.y as i128 && scaled(
            brush.min.z as i64,
            k,
        ) <= voxel.z as i128
    }
}

/// Whether a brush with the given box and smallest exponent touches the
/// cube: bounds can name it, it has a point in common with the box, and it
/// is not finer than the brush goes.
pub open spec fn touched(cell: Cell, region: brush::Bounds, min_lg: int) -> bool {
    cell.addressable() && overlaps(cell, region) && cell.lg >= min_lg
}

/// What a brush leaves of a subtree: whether `after` may stand for the cube
/// `at` once a brush went over `before`. A node that the brush does not touch
/// stays as it is, with all below it. A node that it touches is allocated; it
/// keeps a payload if it had one, else it has one exactly if `generate` made
/// one for its bounds; and each of its children is what the brush leaves of
/// the child before.
pub open spec fn brushed<Voxel, Generate: FnMut(&bounds::T) -> Option<Voxel>>(
    before: Inner<Voxel>,
    after: Inner<Voxel>,
    at: Cell,
    region: brush::Bounds,
    min_lg: int,
    generate: Generate,
) -> bool
    decreases
        (if at.lg >= min_lg {
            at.lg - min_lg + 1
        } else {
            0
        }),
{
    if !touched(at, region, min_lg) {
        after == before
    } else {
        &&& after is Branches
        &&& before.payload() is Some ==> after.payload() is Some
        &&& before.payload() is None ==> exists|made: Option<Voxel>|
            generate.ensures((&at.bounds(),), made) && (made is Some <==> after.payload() is Some)
        &&& forall|octant: int|
            0 <= octant < 8 ==> brushed(
                #[trigger] before.forced().children[octant],
                after.forced().children[octant],
                at.child(octant),
                region,
                min_lg,
                generate,
            )
    }
}

#[verifier::loop_isolation(false)]
fn brush_node<Voxel, Mosaic, Generate, OnVoxelUpdate>(
    node: &mut Inner<Voxel>,
    bounds: &bounds::T,
    region: &brush::Bounds,
    min_lg_size: i16,
    brush: &mut brush::T<Mosaic>,
    generate: &mut Generate,
    on_voxel_update: &mut OnVoxelUpdate,
) where
    Voxel: crate::T<Mosaic>,
    Generate: FnMut(&bounds::T) -> Option<Voxel>,
    OnVoxelUpdate: FnMut(&Voxel, &bounds::T),

    requires
        forall|b: bounds::T|
            bounds@.contains(b@) && touched(b@, *region, min_lg_size as int) ==> (*old(
                generate,
            )).requires((&b,)),
        forall|v: Voxel, b: bounds::T|
            bounds@.contains(b@) && touched(b@, *region, min_lg_size as int) ==> (*old(
                on_voxel_update,
            )).requires((&v, &b)),
    ensures
        brushed(*old(node), *final(node), bounds@, *region, min_lg_size as int, *old(generate)),
        *final(generate) == *old(generate),
        *final(on_voxel_update) == *old(on_voxel_update),
    decreases
        (if bounds.lg_size >= min_lg_size {
            bounds.lg_size - min_lg_size + 1
        } else {
            0
        }),
{
    if !brush_overlaps(bounds, region) {
        return ;
    }
    if bounds.lg_size < min_lg_size {
        return ;
    }
    proof {
        crate::bounds::lemma_contains_reflexive(bounds@);
    }
    let ghost before = *node;

    let mut taken = Inner::Empty;
    core::mem::swap(node, &mut taken);
    let mut branches = match taken {
        Inner::Branches(branches) => branches,
        Inner::Empty => Box::new(Branches::empty()),
    };

    match branches.data.take() {
        None => {
            match generate(bounds) {
                None => {},
                Some(mut voxel) => {
                    <Voxel as crate::T<Mosaic>>::brush(&mut voxel, bounds, brush);
                    on_voxel_update(&voxel, bounds);
                    branches.data = Some(voxel);
                },
            }
        },
        Some(mut voxel) => {
            <Voxel as crate::T<Mosaic>>::brush(&mut voxel, bounds, brush);
            on_voxel_update(&voxel, bounds);
            branches.data = Some(voxel);
        },
    }

    let ghost painted = branches.data;
    proof {
        assert(bounds@.bounds() == *bounds);
        assert(before.payload() is Some ==> painted is Some);
        assert(before.payload() is None ==> exists|made: Option<Voxel>|
            (*old(generate)).ensures((&bounds@.bounds(),), made) && (made is Some
                <==> painted is Some));
    }
    let mut octant: usize = 0;
    while octant < 8
        invariant
            octant <= 8,
            branches.data == painted,
            bounds.lg_size >= min_lg_size,
            *generate == *old(generate),
            *on_voxel_update == *old(on_voxel_update),
            forall|b: bounds::T|
                bounds@.contains(b@) && touched(b@, *region, min_lg_size as int) ==> (*old(
                    generate,
                )).requires((&b,)),
            forall|v: Voxel, b: bounds::T|
                bounds@.contains(b@) && touched(b@, *region, min_lg_size as int) ==> (*old(
                    on_voxel_update,
                )).requires((&v, &b)),
            forall|i: int|
                0 <= i < octant ==> brushed(
                    #[trigger] before.forced().children[i],
                    branches.children[i],
                    bounds@.child(i),
                    *region,
                    min_lg_size as int,
                    *old(generate),
                ),
            forall|i: int|
                octant <= i < 8 ==> branches.children[i] == before.forced().children[i],
        decreases 8 - octant,
    {
        match bounds.child(octant) {
            Some(child) => {
                proof {
                    crate::bounds::lemma_child_of(bounds@, octant as int);
                    assert forall|b: bounds::T| child@.contains(b@) implies bounds@.contains(
                        b@,
                    ) by {
                        crate::bounds::lemma_contains_transitive(bounds@, child@, b@);
                    }
                }
                brush_node(
                    &mut branches.children[octant],
                    &child,
                    region,
                    min_lg_size,
                    brush,
                    generate,
                    on_voxel_update,
                );
            },
            None => {},
        }
        octant += 1;
    }
    *node = Inner::Branches(branches);
}

/// A box that reaches a cube reaches the cube around it.
pub proof fn lemma_overlaps_parent(cell: Cell, region: brush::Bounds)
    requires
        overlaps(cell, region),
    ensures
        overlaps(cell.ancestor(1), region),
{
    lemma_halves_overlap(cell.x, cell.lg, region.min.x as int, region.max.x as int);
    lemma_halves_overlap(cell.y, cell.lg, region.min.y as int, region.max.y as int);
    lemma_halves_overlap(cell.z, cell.lg, region.min.z as int, region.max.z as int);
}

/// Along one axis: whether the stretch of a cube and `[min, max)` meet.
spec fn meets(x: int, lg: int, min: int, max: int) -> bool {
    if lg >= 0 {
        x * pow2(lg as nat) < max && min < (x + 1) * pow2(lg as nat)
    } else {
        x < max * pow2((-lg) as nat) && min * pow2((-lg) as nat) <= x
    }
}

proof fn lemma_halves_overlap(x: int, lg: int, min: int, max: int)
    requires
        meets(x, lg, min, max),
    ensures
        meets(floor_shift(x, 1), lg + 1, min, max),
{
    lemma2_to64();
    let half = floor_shift(x, 1);
    assert(2 * half <= x <= 2 * half + 1);
    if lg >= 0 {
        let w = pow2(lg as nat) as int;
        let wide = pow2((lg + 1) as nat) as int;
        lemma_pow2_pos(lg as nat);
        vstd::arithmetic::power2::lemma_pow2_unfold((lg + 1) as nat);
        assert(half * wide < max && min < (half + 1) * wide) by (nonlinear_arith)
            requires
                w > 0,
                wide == 2 * w,
                2 * half <= x <= 2 * half + 1,
                x * w < max,
                min < (x + 1) * w,
        ;
    } else if lg == -1 {
        let two = pow2(1) as int;
        let one = pow2(0) as int;
        assert(half * one < max && min < (half + 1) * one) by (nonlinear_arith)
            requires
                two == 2,
                one == 1,
                2 * half <= x <= 2 * half + 1,
                x < max * two,
                min * two <= x,
        ;
    } else {
        let p = pow2((-lg - 1) as nat) as int;
        let fine = pow2((-lg) as nat) as int;
        lemma_pow2_pos((-lg - 1) as nat);
        vstd::arithmetic::power2::lemma_pow2_unfold((-lg) as nat);
        assert(half < max * p && min * p <= half) by (nonlinear_arith)
            requires
                p > 0,
                fine == 2 * p,
                2 * half <= x <= 2 * half + 1,
                x < max * fine,
                min * fine <= x,
        ;
    }
}

/// A brush that touches a cube touches the cubes around it, as far as
/// bounds can name them.
pub proof fn lemma_touched_ancestor(cell: Cell, n: nat, region: brush::Bounds, min_lg: int)
    requires
        touched(cell, region, min_lg),
        cell.lg + n <= i16::MAX,
    ensures
        touched(cell.ancestor(n), region, min_lg),
    decreases n,
{
    if n == 0 {
        crate::scale::lemma_floor_shift_zero(cell.x);
        crate::scale::lemma_floor_shift_zero(cell.y);
        crate::scale::lemma_floor_shift_zero(cell.z);
    } else {
        let m = (n - 1) as nat;
        lemma_touched_ancestor(cell, m, region, min_lg);
        let mid = cell.ancestor(m);
        lemma_overlaps_parent(mid, region);
        crate::scale::lemma_floor_shift_adds(cell.x, m, 1);
        crate::scale::lemma_floor_shift_adds(cell.y, m, 1);
        crate::scale::lemma_floor_shift_adds(cell.z, m, 1);
        lemma2_to64();
        assert(mid.ancestor(1) == cell.ancestor(n));
    }
}

/// The cube of the root's child at `octant`, in a tree with exponent
/// `lg_size`: one of the eight cubes of that exponent around the origin.
pub open spec fn top_cell(lg_size: int, octant: int) -> Cell {
    Cell { x: octant / 4 - 1, y: (octant / 2) % 2 - 1, z: octant % 2 - 1, lg: lg_size }
}

/// A tree holds what lies inside the cubes of its root's children.
pub proof fn lemma_top_cell_holds(lg_size: nat, octant: int, cell: Cell)
    requires
        0 <= octant < 8,
        top_cell(lg_size as int, octant).contains(cell),
    ensures
        holds_at(lg_size, cell),
{
    let d = (lg_size - cell.lg) as nat;
    lemma_half_width(lg_size, cell.lg);
    lemma_floor_shift_sign(cell.x, d);
    lemma_floor_shift_sign(cell.y, d);
    lemma_floor_shift_sign(cell.z, d);
}

impl<Voxel> T<Voxel> {
    /// What a brush leaves of a tree: whether `after` may be this tree once a
    /// brush went over it. The tree keeps its size, and each child of the root
    /// is what the brush leaves of the child before; see [`brushed`].
    pub open spec fn brushed_to<Generate: FnMut(&bounds::T) -> Option<Voxel>>(
        self,
        after: T<Voxel>,
        region: brush::Bounds,
        min_lg: int,
        generate: Generate,
    ) -> bool {
        &&& after.lg_size == self.lg_size
        &&& after.contents.data == self.contents.data
        &&& forall|octant: int|
            0 <= octant < 8 ==> brushed(
                #[trigger] self.contents.children[octant],
                after.contents.children[octant],
                top_cell(self.lg_size as int, octant),
                region,
                min_lg,
                generate,
            )
    }

    /// Apply a voxel brush to the contents of this tree: to each child of
    /// the root in turn. See [`Inner::brush`].
    pub fn brush<Mosaic, Generate, OnVoxelUpdate>(
        &mut self,
        brush: &mut brush::T<Mosaic>,
        generate: &mut Generate,
        on_voxel_update: &mut OnVoxelUpdate,
    ) where
        Voxel: crate::T<Mosaic>,
        Generate: FnMut(&bounds::T) -> Option<Voxel>,
        OnVoxelUpdate: FnMut(&Voxel, &bounds::T),

        requires
            forall|b: bounds::T|
                old(self).holds(b@) && touched(
                    b@,
                    old(brush).bounds,
                    old(brush).min_lg_size as int,
                ) ==> (*old(generate)).requires((&b,)),
            forall|v: Voxel, b: bounds::T|
                old(self).holds(b@) && touched(
                    b@,
                    old(brush).bounds,
                    old(brush).min_lg_size as int,
                ) ==> (*old(on_voxel_update)).requires((&v, &b)),
        ensures
            old(self).brushed_to(
                *final(self),
                old(brush).bounds,
                old(brush).min_lg_size as int,
                *old(generate),
            ),
            *final(generate) == *old(generate),
            *final(on_voxel_update) == *old(on_voxel_update),
    {
        let region = brush.bounds;
        let min_lg_size = brush.min_lg_size;
        let mut octant: usize = 0;
        while octant < 8
            invariant
                octant <= 8,
                self.lg_size == old(self).lg_size,
                self.contents.data == old(self).contents.data,
                *generate == *old(generate),
                *on_voxel_update == *old(on_voxel_update),
                forall|b: bounds::T|
                    old(self).holds(b@) && touched(b@, region, min_lg_size as int) ==> (*old(
                        generate,
                    )).requires((&b,)),
                forall|v: Voxel, b: bounds::T|
                    old(self).holds(b@) && touched(b@, region, min_lg_size as int) ==> (*old(
                        on_voxel_update,
                    )).requires((&v, &b)),
                forall|i: int|
                    0 <= i < octant ==> brushed(
                        #[trigger] old(self).contents.children[i],
                        self.contents.children[i],
                        top_cell(self.lg_size as int, i),
                        region,
                        min_lg_size as int,
                        *old(generate),
                    ),
                forall|i: int|
                    octant <= i < 8 ==> self.contents.children[i] == old(
                        self,
                    ).contents.children[i],
            decreases 8 - octant,
        {
            let bounds = bounds::new(
                (octant / 4) as i32 - 1,
                ((octant / 2) % 2) as i32 - 1,
                (octant % 2) as i32 - 1,
                self.lg_size as i16,
            );
            proof {
                assert(bounds@ == top_cell(self.lg_size as int, octant as int));
                assert forall|b: bounds::T| bounds@.contains(b@) implies old(self).holds(b@) by {
                    lemma_top_cell_holds(self.lg_size as nat, octant as int, b@);
                }
            }
            brush_node(
                &mut self.contents.children[octant],
                &bounds,
                &region,
                min_lg_size,
                brush,
                generate,
                on_voxel_update,
            );
            octant += 1;
        }
    }
}

impl<Voxel> Inner<Voxel> {
    /// Apply a brush to this subtree, which stands for `bounds`: to the node
    /// itself, then to each of its children. The brush touches the nodes that
    /// its box reaches, down to its smallest exponent, as both stand when the
    /// call is made; see [`brushed`] for what it leaves. On a touched node
    /// without payload it calls `generate`; on the payload that is there
    /// then, the voxel's own `brush`, and after that `on_voxel_update`.
    pub fn brush<Mosaic, Generate, OnVoxelUpdate>(
        &mut self,
        bounds: &bounds::T,
        brush: &mut brush::T<Mosaic>,
        generate: &mut Generate,
        on_voxel_update: &mut OnVoxelUpdate,
    ) where
        Voxel: crate::T<Mosaic>,
        Generate: FnMut(&bounds::T) -> Option<Voxel>,
        OnVoxelUpdate: FnMut(&Voxel, &bounds::T),

        requires
            forall|b: bounds::T|
                bounds@.contains(b@) && touched(
                    b@,
                    old(brush).bounds,
                    old(brush).min_lg_size as int,
                ) ==> (*old(generate)).requires((&b,)),
            forall|v: Voxel, b: bounds::T|
                bounds@.contains(b@) && touched(
                    b@,
                    old(brush).bounds,
                    old(brush).min_lg_size as int,
                ) ==> (*old(on_voxel_update)).requires((&v, &b)),
        ensures
            brushed(
                *old(self),
                *final(self),
                bounds@,
                old(brush).bounds,
                old(brush).min_lg_size as int,
                *old(generate),
            ),
            *final(generate) == *old(generate),
            *final(on_voxel_update) == *old(on_voxel_update),
    {
        let region = brush.bounds;
        let min_lg_size = brush.min_lg_size;
        brush_node(self, bounds, &region, min_lg_size, brush, generate, on_voxel_update);
    }
}

} // verus!
