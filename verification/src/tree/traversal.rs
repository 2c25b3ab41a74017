//! Walking from the root of a tree to the node of a voxel.

use vstd::prelude::*;
use vstd::arithmetic::power2::pow2;
use crate::bounds;
use crate::bounds::Cell;
use crate::scale::{bit, lemma_shr_is_floor_shift, lemma_floor_shift_sign, lemma_floor_shift_step, lemma_pow2_beyond_i32};
use crate::tree::{half_width, lemma_half_width, valid_path, Branches, Inner, T};
use crate::tree::lemmas::{lemma_descend_concat, lemma_descend_empty, lemma_put_concat, lemma_put_same, lemma_with_child};

verus! {

/// Where a walk stands: the cube it heads for, the mask by its bit length,
/// and whether its first step is still to come.
pub struct Walk {
    pub target: Cell,
    /// The bit length of the mask: the mask is `2^(bits - 1)`, and zero where
    /// `bits` is zero.
    pub bits: nat,
    pub first: bool,
}

/// The half that a step picks along an axis, for the target's coordinate
/// `x` on it: by the sign of `x` at the first step, then by the bit of `x`
/// that a mask of bit length `bits` points at.
pub open spec fn pick(x: int, bits: nat, first: bool) -> int {
    if first {
        if x >= 0 { 1 } else { 0 }
    } else if bits == 0 {
        0
    } else {
        bit(x, (bits - 1) as nat)
    }
}

impl Walk {
    /// A walk from the root of a tree with exponent `lg_size` to `target`. Its
    /// mask is the tree's half width on the grid of `target`.
    pub open spec fn start(lg_size: nat, target: Cell) -> Walk {
        Walk {
            target,
            bits: if target.lg <= lg_size { (lg_size - target.lg + 1) as nat } else { 0 },
            first: true,
        }
    }

    /// The mask: one bit, which halves with each step, or zero.
    pub open spec fn mask(self) -> nat {
        if self.bits == 0 {
            0
        } else {
            pow2((self.bits - 1) as nat)
        }
    }

    /// The half that the next step picks along an axis, for the target's
    /// coordinate `x` on it.
    pub open spec fn select(self, x: int) -> int {
        pick(x, self.bits, self.first)
    }

    /// The child that the next step picks.
    pub open spec fn octant(self) -> int {
        4 * self.select(self.target.x) + 2 * self.select(self.target.y) + self.select(
            self.target.z,
        )
    }

    /// The walk after `n` steps.
    pub open spec fn after(self, n: nat) -> Walk {
        Walk {
            target: self.target,
            bits: if n >= self.bits { 0 } else { (self.bits - n) as nat },
            first: self.first && n == 0,
        }
    }

    /// The number of steps until the mask is zero; there is always one.
    pub open spec fn steps(self) -> nat {
        if self.bits == 0 {
            1
        } else {
            self.bits
        }
    }

    /// The children that the walk picks, from the root down.
    pub open spec fn path(self) -> Seq<int> {
        Seq::new(self.steps(), |j: int| self.after(j as nat).octant())
    }
}

/// The mask of a walk starts at the half width of the tree on the grid of
/// the target, and halves with every step, down to zero.
pub proof fn law_mask_halves(lg_size: nat, target: Cell, walk: Walk)
    ensures
        Walk::start(lg_size, target).mask() == half_width(lg_size, target.lg),
        walk.after(1).mask() == walk.mask() / 2,
        walk.after(walk.steps()).mask() == 0,
{
    lemma_half_width(lg_size, target.lg);
    if walk.bits > 1 {
        vstd::arithmetic::power2::lemma_pow2_unfold((walk.bits - 1) as nat);
    } else {
        vstd::arithmetic::power2::lemma2_to64();
    }
}

/// A walk picks one of the eight children at every step.
pub proof fn lemma_octant_range(walk: Walk)
    ensures
        0 <= walk.octant() < 8,
        0 <= walk.select(walk.target.x) <= 1,
        0 <= walk.select(walk.target.y) <= 1,
        0 <= walk.select(walk.target.z) <= 1,
{
}

/// The path of a walk is its next step, and then the path of what is left.
pub proof fn lemma_path_unfold(walk: Walk)
    ensures
        walk.path().len() == walk.steps(),
        walk.path()[0] == walk.octant(),
        walk.bits <= 1 ==> walk.path() == seq![walk.octant()],
        walk.bits > 1 ==> walk.path().drop_first() == walk.after(1).path(),
        crate::tree::valid_path(walk.path()),
{
    assert(walk.after(0) == walk);
    if walk.bits <= 1 {
        assert(walk.path() =~= seq![walk.octant()]);
    } else {
        let rest = walk.after(1);
        assert forall|j: int| 0 <= j < rest.steps() implies walk.path().drop_first()[j]
            == rest.path()[j] by {
            assert(rest.after(j as nat) == walk.after((j + 1) as nat));
        }
        assert(walk.path().drop_first() =~= rest.path());
    }
    assert forall|j: int| 0 <= j < walk.path().len() implies 0 <= #[trigger] walk.path()[j]
        < 8 by {
        lemma_octant_range(walk.after(j as nat));
    }
}

/// The bit length of the mask that a walk to `bounds` starts with.
fn to_voxel_mask<Voxel>(tree: &T<Voxel>, bounds: &bounds::T) -> (r: u32)
    ensures
        r == Walk::start(tree.lg_size as nat, bounds@).bits,
{
    // When we compare the voxel position to octree bounds to choose subtrees
    // for insertion, we'll be comparing voxel position to values of 2^n and
    // -2^n, so we can just use the position bits to branch directly.
    // This actually works for negative values too, without much wrestling:
    // we need to branch on the sign bit up front, but after that, two's
    // complement magic means the branching on bits works regardless of sign.
    if bounds.lg_size as i32 > tree.lg_size as i32 {
        0
    } else {
        (tree.lg_size as i32 - bounds.lg_size as i32 + 1) as u32
    }
}

fn select(x: i32, mask_bits: u32, first: bool) -> (r: usize)
    ensures
        r == pick(x as int, mask_bits as nat, first),
        r <= 1,
{
    if first {
        if x >= 0 { 1 } else { 0 }
    } else if mask_bits == 0 {
        0
    } else {
        let k: u32 = mask_bits - 1;
        proof {
            lemma_floor_shift_step(x as int, k as nat);
        }
        if k >= 31 {
            proof {
                lemma_pow2_beyond_i32(k as nat);
                lemma_floor_shift_sign(x as int, k as nat);
            }
            if x < 0 { 1 } else { 0 }
        } else {
            let shifted: i32 = x >> k;
            proof {
                lemma_shr_is_floor_shift(x, k);
                lemma_shr_is_floor_shift(x, (k + 1) as u32);
                assert(shifted == 2 * (shifted >> 1u32) + (shifted & 1) && (shifted & 1 == 0
                    || shifted & 1 == 1)) by (bit_vector);
            }
            if shifted & 1 != 0 { 1 } else { 0 }
        }
    }
}

/// A walk from the root of `tree` to the node of `bounds`, for writing.
pub fn to_voxel_mut<Voxel>(tree: &T<Voxel>, bounds: &bounds::T) -> (r: ToVoxelMut)
    ensures
        r@ == Walk::start(tree.lg_size as nat, bounds@),
{
    ToVoxelMut { target: *bounds, mask_bits: to_voxel_mask(tree, bounds), first: true }
}

/// A walk from the root of `tree` to the node of `bounds`.
pub fn to_voxel<Voxel>(tree: &T<Voxel>, bounds: &bounds::T) -> (r: ToVoxel)
    ensures
        r@ == Walk::start(tree.lg_size as nat, bounds@),
{
    ToVoxel { target: *bounds, mask_bits: to_voxel_mask(tree, bounds), first: true }
}

/// A node that a walk came to.
pub enum Step<N> {
    /// A node on the way.
    Step(N),
    /// The node of the target.
    Last(N),
}

impl<N> Step<N> {
    /// The node, on the way or at its end.
    pub open spec fn node(self) -> N {
        match self {
            Step::Step(node) => node,
            Step::Last(node) => node,
        }
    }
}

/// A walk through a tree that is only read.
pub struct ToVoxel {
    target: bounds::T,
    mask_bits: u32,
    first: bool,
}

impl View for ToVoxel {
    type V = Walk;

    closed spec fn view(&self) -> Walk {
        Walk { target: self.target@, bits: self.mask_bits as nat, first: self.first }
    }
}

impl ToVoxel {
    fn select(&self, x: i32) -> (r: usize)
        ensures
            r == self@.select(x as int),
            r <= 1,
    {
        select(x, self.mask_bits, self.first)
    }

    /// Take one step from `tree`: to the child on the side of the target.
    pub fn next<'a, Voxel>(&mut self, tree: &'a Branches<Voxel>) -> (r: Step<&'a Inner<Voxel>>)
        ensures
            final(self)@ == old(self)@.after(1),
            *r.node() == tree.children[old(self)@.octant()],
            r is Last <==> old(self)@.bits <= 1,
    {
        let octant = 4 * self.select(self.target.x) + 2 * self.select(self.target.y) + self.select(
            self.target.z,
        );
        let branch = &tree.children[octant];
        self.first = false;
        if self.mask_bits > 0 {
            self.mask_bits = self.mask_bits - 1;
        }
        // We've reached the voxel.
        if self.mask_bits == 0 {
            Step::Last(branch)
        } else {
            Step::Step(branch)
        }
    }

    /// Walk from `tree` to the node of the target. There is none where the
    /// walk comes to an `Empty` node before its last step.
    pub fn last<'a, Voxel>(&mut self, tree: &'a Branches<Voxel>) -> (r: Option<&'a Inner<Voxel>>)
        ensures
            match r {
                Some(node) => tree.descend(old(self)@.path()) == Some(*node),
                None => tree.descend(old(self)@.path()) is None,
            },
            final(self)@ == old(self)@.after(tree.reach(old(self)@.path())),
    {
        let mut at = tree;
        let ghost taken: nat = 0;
        loop
            invariant
                self@ == old(self)@.after(taken),
                tree.descend(old(self)@.path()) == at.descend(self@.path()),
                tree.reach(old(self)@.path()) == taken + at.reach(self@.path()),
            decreases self@.bits,
        {
            proof {
                lemma_path_unfold(self@);
                crate::tree::lemma_walk_unfold(*at, self@.path());
                taken = taken + 1;
            }
            match self.next(at) {
                Step::Last(x) => {
                    return Some(x);
                },
                Step::Step(node) => {
                    match node {
                        Inner::Empty => {
                            return None;
                        },
                        Inner::Branches(new_tree) => {
                            at = new_tree;
                        },
                    }
                },
            }
        }
    }
}

/// A walk through a tree that may be written at its end.
pub struct ToVoxelMut {
    target: bounds::T,
    mask_bits: u32,
    first: bool,
}

impl View for ToVoxelMut {
    type V = Walk;

    closed spec fn view(&self) -> Walk {
        Walk { target: self.target@, bits: self.mask_bits as nat, first: self.first }
    }
}

impl ToVoxelMut {
    fn select(&self, x: i32) -> (r: usize)
        ensures
            r == self@.select(x as int),
            r <= 1,
    {
        select(x, self.mask_bits, self.first)
    }

    /// Take one step from `tree`: to the child on the side of the target.
    pub fn next<'a, Voxel>(&mut self, tree: &'a mut Branches<Voxel>) -> (r: Step<
        &'a mut Inner<Voxel>,
    >)
        ensures
            final(self)@ == old(self)@.after(1),
            r is Last <==> old(self)@.bits <= 1,
            *r.node() == old(tree).children[old(self)@.octant()],
            *final(tree) == old(tree).with_child(old(self)@.octant(), *final(r.node())),
    {
        let octant = 4 * self.select(self.target.x) + 2 * self.select(self.target.y) + self.select(
            self.target.z,
        );
        let ghost whole = tree;
        let branch = &mut tree.children[octant];
        self.first = false;
        if self.mask_bits > 0 {
            self.mask_bits = self.mask_bits - 1;
        }
        proof {
            let expected = old(tree).with_child(octant as int, *final(branch));
            assert(final(whole).children@ =~= expected.children@);
            assert(final(whole).children =~= expected.children);
        }
        // We've reached the voxel.
        if self.mask_bits == 0 {
            Step::Last(branch)
        } else {
            Step::Step(branch)
        }
    }

    /// Walk from `tree` to the node of the target, and hand it out for
    /// writing. There is none where the walk comes to an `Empty` node before
    /// its last step; the tree is then left as it was.
    #[verifier::loop_isolation(false)]
    pub fn last<'a, Voxel>(&mut self, tree: &'a mut Branches<Voxel>) -> (r: Option<
        &'a mut Inner<Voxel>,
    >)
        ensures
            match r {
                Some(node) => {
                    &&& old(tree).descend(old(self)@.path()) == Some(*node)
                    &&& *final(tree) == old(tree).put(old(self)@.path(), *final(node))
                },
                None => {
                    &&& old(tree).descend(old(self)@.path()) is None
                    &&& *final(tree) == *old(tree)
                },
            },
            final(self)@ == old(self)@.after(old(tree).reach(old(self)@.path())),
    {
        let ghost whole = tree;
        let ghost root = Inner::Branches(Box::new(*tree));
        let ghost done: Seq<int> = Seq::empty();
        proof {
            assert(done + self@.path() =~= self@.path());
            assert(*final(whole) == *final(tree));
        }
        let mut at = tree;
        loop
            invariant
                root == Inner::Branches(Box::new(*old(tree))),
                self@ == old(self)@.after(done.len()),
                old(self)@.path() == done + self@.path(),
                valid_path(done),
                root.descend(done) == Some(Inner::Branches(Box::new(*at))),
                Inner::Branches(Box::new(*final(whole))) == root.put(
                    done,
                    Inner::Branches(Box::new(*final(at))),
                ),
                old(tree).reach(old(self)@.path()) == done.len() + at.reach(self@.path()),
            decreases self@.bits,
        {
            let ghost here = *at;
            let ghost octant = self@.octant();
            let ghost rest = self@.path();
            proof {
                lemma_path_unfold(self@);
                crate::tree::lemma_walk_unfold(*at, rest);
                lemma_descend_concat(root, done, rest);
                lemma_descend_concat(root, done, seq![octant]);
                assert(seq![octant].drop_first() =~= Seq::<int>::empty());
            }
            let old_tree = at;
            match self.next(old_tree) {
                Step::Last(x) => {
                    proof {
                        assert(done + rest =~= done + seq![octant]);
                        lemma_put_concat(root, done, seq![octant], *final(x));
                        assert(here.children[octant].put(seq![octant].drop_first(), *final(x))
                            == *final(x));
                        assert(Inner::Branches(Box::new(here)).put(seq![octant], *final(x))
                            == Inner::Branches(Box::new(here.with_child(octant, *final(x)))));
                    }
                    return Some(x);
                },
                Step::Step(node) => {
                    match node {
                        Inner::Empty => {
                            proof {
                                lemma_with_child(here, octant, Inner::Empty);
                                lemma_put_same(root, done);
                                lemma_descend_empty::<Voxel>(rest.drop_first());
                            }
                            return None;
                        },
                        Inner::Branches(new_tree) => {
                            proof {
                                let below = Inner::Branches(*final(new_tree));
                                lemma_put_concat(root, done, seq![octant], below);
                                assert(here.children[octant].put(seq![octant].drop_first(), below)
                                    == below);
                                assert(Inner::Branches(Box::new(here)).put(seq![octant], below)
                                    == Inner::Branches(Box::new(here.with_child(octant, below))));
                                assert(here.children[octant].descend(seq![octant].drop_first())
                                    == Some(here.children[octant]));
                                let ghost before = done;
                                done = before.push(octant);
                                assert(done + rest.drop_first() =~= before + rest);
                                assert(done =~= before + seq![octant]);
                            }
                            at = new_tree;
                        },
                    }
                },
            }
        }
    }
}

} // verus!
