//! Voxel bounds: cubes of width `2^lg_size` on the grid of that width.

use vstd::prelude::*;
use crate::scale::{floor_shift, bit, lemma_shr_is_floor_shift, lemma_floor_shift_sign, lemma_pow2_beyond_i32, lemma_floor_shift_double, lemma_floor_shift_adds, lemma_floor_shift_zero};

verus! {

/// A cube in exact integers: the cube of width `2^lg` whose low corner is
/// `(x, y, z) * 2^lg`. It is what a [`T`] stands for, freed from machine widths.
pub struct Cell {
    pub x: int,
    pub y: int,
    pub z: int,
    pub lg: int,
}

impl Cell {
    /// Whether 32-bit coordinates and a 16-bit exponent can name the cube.
    pub open spec fn addressable(self) -> bool {
        &&& i32::MIN <= self.x <= i32::MAX
        &&& i32::MIN <= self.y <= i32::MAX
        &&& i32::MIN <= self.z <= i32::MAX
        &&& i16::MIN <= self.lg <= i16::MAX
    }

    /// The bounds that name the cube, where it is addressable.
    pub open spec fn bounds(self) -> T {
        T { x: self.x as i32, y: self.y as i32, z: self.z as i32, lg_size: self.lg as i16 }
    }

    /// The cube of `n` levels up that this cube lies in.
    pub open spec fn ancestor(self, n: nat) -> Cell {
        Cell {
            x: floor_shift(self.x, n),
            y: floor_shift(self.y, n),
            z: floor_shift(self.z, n),
            lg: self.lg + n,
        }
    }

    /// One of the eight cubes of half the width that make up this cube.
    /// Bit 2 of `octant` picks the high half along x, bit 1 along y, bit 0 along z.
    pub open spec fn child(self, octant: int) -> Cell {
        Cell {
            x: 2 * self.x + octant / 4,
            y: 2 * self.y + (octant / 2) % 2,
            z: 2 * self.z + octant % 2,
            lg: self.lg - 1,
        }
    }

    /// Which child of its parent this cube is.
    pub open spec fn octant(self) -> int {
        4 * bit(self.x, 0) + 2 * bit(self.y, 0) + bit(self.z, 0)
    }

    /// Whether `other` is this cube or a finer cube inside it.
    pub open spec fn contains(self, other: Cell) -> bool {
        &&& other.lg <= self.lg
        &&& floor_shift(other.x, (self.lg - other.lg) as nat) == self.x
        &&& floor_shift(other.y, (self.lg - other.lg) as nat) == self.y
        &&& floor_shift(other.z, (self.lg - other.lg) as nat) == self.z
    }
}

/// Every cube contains itself.
pub proof fn lemma_contains_reflexive(c: Cell)
    ensures
        c.contains(c),
{
    lemma_floor_shift_zero(c.x);
    lemma_floor_shift_zero(c.y);
    lemma_floor_shift_zero(c.z);
}

/// Containment carries over from cube to cube.
pub proof fn lemma_contains_transitive(a: Cell, b: Cell, c: Cell)
    requires
        a.contains(b),
        b.contains(c),
    ensures
        a.contains(c),
{
    let j = (b.lg - c.lg) as nat;
    let k = (a.lg - b.lg) as nat;
    lemma_floor_shift_adds(c.x, j, k);
    lemma_floor_shift_adds(c.y, j, k);
    lemma_floor_shift_adds(c.z, j, k);
}

/// A child lies in its parent, at the octant it was made for.
pub proof fn lemma_child_of(c: Cell, octant: int)
    requires
        0 <= octant < 8,
    ensures
        c.child(octant).ancestor(1) == c,
        c.child(octant).octant() == octant,
        c.contains(c.child(octant)),
        forall|n: nat| #[trigger] c.child(octant).ancestor(n + 1) == c.ancestor(n),
{
    let k = c.child(octant);
    lemma_floor_shift_double(c.x, octant / 4, 0);
    lemma_floor_shift_double(c.y, (octant / 2) % 2, 0);
    lemma_floor_shift_double(c.z, octant % 2, 0);
    lemma_floor_shift_zero(c.x);
    lemma_floor_shift_zero(c.y);
    lemma_floor_shift_zero(c.z);
    assert forall|n: nat| #[trigger] k.ancestor(n + 1) == c.ancestor(n) by {
        lemma_floor_shift_double(c.x, octant / 4, n);
        lemma_floor_shift_double(c.y, (octant / 2) % 2, n);
        lemma_floor_shift_double(c.z, octant % 2, n);
    }
}

/// The input coordinates are counted in units of `2^lg_size`: divide world
/// coordinates by that width to get them.
#[derive(Debug, Copy, Clone, PartialEq, Eq, Structural, Hash)]
pub struct T {
    pub x: i32,
    pub y: i32,
    pub z: i32,
    /// The log_2 of the voxel's size.
    pub lg_size: i16,
}

impl View for T {
    type V = Cell;

    open spec fn view(&self) -> Cell {
        Cell { x: self.x as int, y: self.y as int, z: self.z as int, lg: self.lg_size as int }
    }
}

/// The bounds with the given coordinates and exponent.
#[inline]
pub fn new(x: i32, y: i32, z: i32, lg_size: i16) -> (ret: T)
    ensures
        ret == (T { x, y, z, lg_size }),
{
    T { x, y, z, lg_size }
}

/// A coordinate shifted to a grid `by` levels coarser, rounding down.
fn coarsen(x: i32, by: u32) -> (r: i32)
    ensures
        r == floor_shift(x as int, by as nat),
{
    if by >= 31 {
        proof {
            lemma_pow2_beyond_i32(by as nat);
            lemma_floor_shift_sign(x as int, by as nat);
        }
        if x < 0 {
            -1
        } else {
            0
        }
    } else {
        proof {
            lemma_shr_is_floor_shift(x, by);
        }
        x >> by
    }
}

impl T {
    /// Check whether this voxel contains another one: `other` is no larger, and
    /// its coordinates, brought to this voxel's grid by rounding down, are this
    /// voxel's coordinates.
    #[inline]
    pub fn contains(&self, other: &T) -> (r: bool)
        ensures
            r == self@.contains(other@),
    {
        if other.lg_size > self.lg_size {
            return false;
        }
        // Convert `other`'s coordinates to be in terms of `self`'s lg_size.
        // This rounds down, so any voxels inside `self` will end up equal to self.
        let lg_ratio: u32 = (self.lg_size as i32 - other.lg_size as i32) as u32;
        coarsen(other.x, lg_ratio) == self.x && coarsen(other.y, lg_ratio) == self.y && coarsen(
            other.z,
            lg_ratio,
        ) == self.z
    }

    /// The child voxel at `octant`, where 32-bit coordinates can still name it.
    pub fn child(&self, octant: usize) -> (r: Option<T>)
        requires
            octant < 8,
        ensures
            r == if self@.child(octant as int).addressable() {
                Some(self@.child(octant as int).bounds())
            } else {
                None
            },
            r matches Some(child) ==> child@ == self@.child(octant as int),
    {
        let x: i64 = 2 * (self.x as i64) + (octant / 4) as i64;
        let y: i64 = 2 * (self.y as i64) + ((octant / 2) % 2) as i64;
        let z: i64 = 2 * (self.z as i64) + (octant % 2) as i64;
        if self.lg_size == i16::MIN || x < i32::MIN as i64 || x > i32::MAX as i64 || y
            < i32::MIN as i64 || y > i32::MAX as i64 || z < i32::MIN as i64 || z
            > i32::MAX as i64 {
            None
        } else {
            Some(T { x: x as i32, y: y as i32, z: z as i32, lg_size: self.lg_size - 1 })
        }
    }
}

} // verus!
