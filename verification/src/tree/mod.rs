//! Voxel octree

use vstd::prelude::*;
use vstd::arithmetic::power2::{pow2, lemma_pow2_pos, lemma_pow2_adds};
use crate::bounds;
use crate::bounds::Cell;
use crate::scale::{lemma_shl_is_pow2, lemma_pow2_beyond_i32, lemma_pow2_monotone};
use crate::tree::lemmas::{lemma_descend_empty, lemma_put_concat, lemma_slot_concat};
use crate::tree::traversal::{lemma_octant_range, lemma_path_unfold, Walk};

pub mod brushing;
pub mod laws;
pub mod lemmas;
pub mod paths;
pub mod raycast;
pub mod traversal;

verus! {

/// A voxel octree; a voxel stored at a given level is the size of the entire subtree.
#[derive(Debug)]
pub struct T<Voxel> {
    /// The tree extends 2^lg_size in each direction.
    /// i.e. the total width is 2^(lg_size + 1).
    pub lg_size: u8,
    /// Force the top level to always be branches;
    /// it saves a branch in the grow logic.
    pub contents: Branches<Voxel>,
}

/// A node's payload and its eight children, in xyz order: bit 2 of a child's
/// index picks the high half along x, bit 1 along y, bit 0 along z.
#[derive(Debug, PartialEq, Eq)]
pub struct Branches<Voxel> {
    pub data: Option<Voxel>,
    pub children: [Inner<Voxel>; 8],
}

/// The main, recursive, tree-y part of the voxel tree.
#[derive(Debug, PartialEq, Eq)]
pub enum Inner<Voxel> {
    /// Nothing was ever stored here or below.
    Empty,
    Branches(Box<Branches<Voxel>>),
}

/// Whether every step of `path` names one of the eight children.
pub open spec fn valid_path(path: Seq<int>) -> bool {
    forall|i: int| 0 <= i < path.len() ==> 0 <= #[trigger] path[i] < 8
}

/// A walk from a node starts at one of its children.
pub proof fn lemma_walk_unfold<Voxel>(branches: Branches<Voxel>, path: Seq<int>)
    requires
        path.len() > 0,
    ensures
        branches.descend(path) == branches.children[path[0]].descend(path.drop_first()),
        path.len() == 1 ==> branches.descend(path) == Some(branches.children[path[0]]),
        path.len() == 1 ==> branches.reach(path) == 1,
        path.len() > 1 ==> branches.reach(path) == match branches.children[path[0]] {
            Inner::Empty => 1,
            Inner::Branches(below) => 1 + below.reach(path.drop_first()),
        },
{
}

impl<Voxel> Branches<Voxel> {
    /// The node without payload or children.
    pub open spec fn spec_empty() -> Branches<Voxel> {
        Branches {
            data: None,
            children: [
                Inner::Empty,
                Inner::Empty,
                Inner::Empty,
                Inner::Empty,
                Inner::Empty,
                Inner::Empty,
                Inner::Empty,
                Inner::Empty,
            ],
        }
    }

    /// This node with the child at `octant` replaced by `node`.
    pub open spec fn with_child(self, octant: int, node: Inner<Voxel>) -> Branches<Voxel> {
        Branches {
            data: self.data,
            children: [
                if octant == 0 { node } else { self.children[0] },
                if octant == 1 { node } else { self.children[1] },
                if octant == 2 { node } else { self.children[2] },
                if octant == 3 { node } else { self.children[3] },
                if octant == 4 { node } else { self.children[4] },
                if octant == 5 { node } else { self.children[5] },
                if octant == 6 { node } else { self.children[6] },
                if octant == 7 { node } else { self.children[7] },
            ],
        }
    }

    /// The node reached from this one by taking the children that `path` names
    /// in turn, if no `Empty` node stands in the way.
    pub open spec fn descend(self, path: Seq<int>) -> Option<Inner<Voxel>> {
        Inner::Branches(Box::new(self)).descend(path)
    }

    /// How many nodes a walk along `path` comes to: all of them, or those up
    /// to the first `Empty` node before the last.
    pub open spec fn reach(self, path: Seq<int>) -> nat
        decreases path.len(),
    {
        if path.len() <= 1 {
            path.len()
        } else {
            match self.children[path[0]] {
                Inner::Empty => 1,
                Inner::Branches(branches) => 1 + branches.reach(path.drop_first()),
            }
        }
    }

    /// This node with `node` put at the end of `path`; see [`Inner::put`].
    pub open spec fn put(self, path: Seq<int>, node: Inner<Voxel>) -> Branches<Voxel> {
        Inner::Branches(Box::new(self)).put(path, node).forced()
    }

    /// A node without payload or children.
    pub fn empty() -> (r: Branches<Voxel>)
        ensures
            r == Self::spec_empty(),
    {
        let r = Branches {
            data: None,
            children: [
                Inner::Empty,
                Inner::Empty,
                Inner::Empty,
                Inner::Empty,
                Inner::Empty,
                Inner::Empty,
                Inner::Empty,
                Inner::Empty,
            ],
        };
        assert(r.children@ =~= Self::spec_empty().children@);
        r
    }

    /// The eight children, indexed by `(x_octant << 2) | (y_octant << 1) | z_octant`.
    pub fn as_flat_array(&self) -> (r: &[Inner<Voxel>; 8])
        ensures
            *r == self.children,
    {
        &self.children
    }

    /// The eight children by their halves: `[x][y][z]`, 0 for the low half
    /// and 1 for the high one.
    pub fn as_array(&self) -> (r: [[[&Inner<Voxel>; 2]; 2]; 2])
        ensures
            forall|x: int, y: int, z: int|
                0 <= x < 2 && 0 <= y < 2 && 0 <= z < 2 ==> *(#[trigger] r[x][y][z])
                    == self.children[4 * x + 2 * y + z],
    {
        let c = &self.children;
        [[[&c[0], &c[1]], [&c[2], &c[3]]], [[&c[4], &c[5]], [&c[6], &c[7]]]]
    }

    /// The eight children, for writing.
    pub fn as_flat_array_mut(&mut self) -> (r: &mut [Inner<Voxel>; 8])
        ensures
            *r == old(self).children,
            *final(self) == (Branches { data: old(self).data, children: *final(r) }),
    {
        &mut self.children
    }
}

impl<Voxel> Inner<Voxel> {
    /// The payload stored at this node.
    pub open spec fn payload(self) -> Option<Voxel> {
        match self {
            Inner::Branches(branches) => branches.data,
            Inner::Empty => None,
        }
    }

    /// The branch data of this node, an `Empty` node counting as one without
    /// payload or children.
    pub open spec fn forced(self) -> Branches<Voxel> {
        match self {
            Inner::Branches(branches) => *branches,
            Inner::Empty => Branches::spec_empty(),
        }
    }

    /// The node reached from this one by taking the children that `path` names
    /// in turn, if no `Empty` node stands in the way.
    pub open spec fn descend(self, path: Seq<int>) -> Option<Inner<Voxel>>
        decreases path.len(),
    {
        if path.len() == 0 {
            Some(self)
        } else {
            match self {
                Inner::Empty => None,
                Inner::Branches(branches) => branches.children[path[0]].descend(path.drop_first()),
            }
        }
    }

    /// What stands at the end of `path`: the node there, or `Empty` where an
    /// `Empty` node lies on the way.
    pub open spec fn slot(self, path: Seq<int>) -> Inner<Voxel> {
        match self.descend(path) {
            Some(node) => node,
            None => Inner::Empty,
        }
    }

    /// The payload at the end of `path`.
    pub open spec fn payload_at(self, path: Seq<int>) -> Option<Voxel> {
        match self.descend(path) {
            Some(node) => node.payload(),
            None => None,
        }
    }

    /// This subtree with `node` put at the end of `path`. Every `Empty` node on
    /// the way there becomes a node without payload; nothing off the way changes.
    pub open spec fn put(self, path: Seq<int>, node: Inner<Voxel>) -> Inner<Voxel>
        decreases path.len(),
    {
        if path.len() == 0 {
            node
        } else {
            let branches = self.forced();
            Inner::Branches(
                Box::new(
                    branches.with_child(
                        path[0],
                        branches.children[path[0]].put(path.drop_first(), node),
                    ),
                ),
            )
        }
    }

    /// The node with the given payload and no children.
    pub open spec fn spec_leaf(voxel: Option<Voxel>) -> Inner<Voxel> {
        Inner::Branches(
            Box::new(Branches { data: voxel, children: Branches::<Voxel>::spec_empty().children }),
        )
    }

    /// Create a tree leaf.
    pub fn leaf(voxel: Option<Voxel>) -> (r: Inner<Voxel>)
        ensures
            r == Self::spec_leaf(voxel),
    {
        let mut branches = Branches::empty();
        branches.data = voxel;
        Inner::Branches(Box::new(branches))
    }

    /// Return the `Branches` data from this subtree. If none exists, create empty branch data.
    pub fn force_branches(&mut self) -> (r: &mut Branches<Voxel>)
        ensures
            *r == old(self).forced(),
            *final(self) == Inner::Branches(Box::new(*final(r))),
    {
        if let Inner::Empty = self {
            *self = Self::leaf(None);
        }
        match self {
            Inner::Branches(branches) => &mut **branches,
            Inner::Empty => vstd::pervasive::unreached(),
        }
    }

    /// The payload stored at this node.
    pub fn voxel(&self) -> (r: Option<&Voxel>)
        ensures
            match r {
                Some(voxel) => self.payload() == Some(*voxel),
                None => self.payload() is None,
            },
    {
        match self {
            Inner::Branches(branches) => branches.data.as_ref(),
            Inner::Empty => None,
        }
    }

    /// The payload stored at this node, for writing.
    pub fn voxel_mut(&mut self) -> (r: Option<&mut Voxel>)
        ensures
            match r {
                Some(voxel) => {
                    &&& old(self).payload() == Some(*voxel)
                    &&& *final(self) == Inner::Branches(
                        Box::new(
                            Branches {
                                data: Some(*final(voxel)),
                                children: old(self).forced().children,
                            },
                        ),
                    )
                },
                None => old(self).payload() is None && *final(self) == *old(self),
            },
    {
        match self {
            Inner::Branches(branches) => match &mut branches.data {
                Some(voxel) => Some(voxel),
                None => None,
            },
            Inner::Empty => None,
        }
    }
}

/// The extent of a tree with exponent `lg_size` in each direction, counted in
/// cubes of exponent `lg`: `2^lg_size` shifted right by `lg`, or left by `-lg`
/// where `lg` is negative.
pub open spec fn half_width(lg_size: nat, lg: int) -> int {
    if lg >= 0 {
        (pow2(lg_size) / pow2(lg as nat)) as int
    } else {
        (pow2(lg_size) * pow2((-lg) as nat)) as int
    }
}

/// The half width is `2^(lg_size - lg)`, and nothing where the cubes are
/// larger than the tree's own octants.
pub proof fn lemma_half_width(lg_size: nat, lg: int)
    ensures
        lg <= lg_size ==> half_width(lg_size, lg) == pow2((lg_size - lg) as nat),
        lg > lg_size ==> half_width(lg_size, lg) == 0,
{
    if lg >= 0 {
        let l = lg as nat;
        lemma_pow2_pos(l);
        lemma_pow2_pos(lg_size);
        let p = pow2(l) as int;
        let n = pow2(lg_size) as int;
        if l <= lg_size {
            let d = (lg_size - l) as nat;
            lemma_pow2_adds(d, l);
            lemma_pow2_pos(d);
            let q = pow2(d) as int;
            assert(n / p == q) by (nonlinear_arith)
                requires
                    n == q * p,
                    p > 0,
            ;
        } else {
            vstd::arithmetic::power2::lemma_pow2_strictly_increases(lg_size, l);
            assert(n / p == 0) by (nonlinear_arith)
                requires
                    0 <= n < p,
            ;
        }
    } else {
        lemma_pow2_adds(lg_size, (-lg) as nat);
    }
}

/// An empty tree that extends one unit from the origin in each direction.
pub fn new<Voxel>() -> (r: T<Voxel>)
    ensures
        r.lg_size == 0,
        r.contents == Branches::<Voxel>::spec_empty(),
{
    T { lg_size: 0, contents: Branches::<Voxel>::empty() }
}

/// Whether the cube lies within a tree with exponent `lg_size`: each of its
/// coordinates lies in `[-H, H)`, where `H` is the tree's half width on the
/// cube's own grid.
pub open spec fn holds_at(lg_size: nat, cell: Cell) -> bool {
    let high = half_width(lg_size, cell.lg);
    &&& -high <= cell.x < high
    &&& -high <= cell.y < high
    &&& -high <= cell.z < high
}

/// Whether a tree can grow to hold the cube: the largest tree, with exponent
/// 255, holds it. That is so of all bounds up to exponent 224.
pub open spec fn within_reach(cell: Cell) -> bool {
    cell.lg <= 224 || holds_at(255, cell)
}

/// A larger tree holds what a smaller one holds.
pub proof fn lemma_holds_monotone(small: nat, large: nat, cell: Cell)
    requires
        small <= large,
        holds_at(small, cell),
    ensures
        holds_at(large, cell),
{
    lemma_half_width(small, cell.lg);
    lemma_half_width(large, cell.lg);
    if cell.lg <= small {
        lemma_pow2_monotone((small - cell.lg) as nat, (large - cell.lg) as nat);
    }
}

/// The largest tree holds the bounds that are within reach.
pub proof fn lemma_within_reach(cell: Cell)
    requires
        cell.addressable(),
        within_reach(cell),
    ensures
        holds_at(255, cell),
{
    if cell.lg <= 224 {
        lemma_half_width(255, cell.lg);
        lemma_pow2_beyond_i32((255 - cell.lg) as nat);
    }
}

/// A node whose only child, at `octant`, is `child`.
pub open spec fn around<Voxel>(child: Inner<Voxel>, octant: int) -> Inner<Voxel> {
    Inner::Branches(Box::new(Branches::spec_empty().with_child(octant, child)))
}

fn wrap<Voxel>(child: Inner<Voxel>, octant: usize) -> (r: Inner<Voxel>)
    requires
        octant < 8,
    ensures
        r == around(child, octant as int),
{
    let mut branches = Branches::empty();
    branches.children[octant] = child;
    proof {
        let expected = Branches::spec_empty().with_child(octant as int, child);
        assert(branches.children@ =~= expected.children@);
        assert(branches.children =~= expected.children);
    }
    Inner::Branches(Box::new(branches))
}

/// Move a child out of its slot, which is left `Empty`.
fn take<Voxel>(children: &mut [Inner<Voxel>; 8], octant: usize) -> (r: Inner<Voxel>)
    requires
        octant < 8,
    ensures
        r == old(children)[octant as int],
        final(children)@ == old(children)@.update(octant as int, Inner::Empty),
{
    let mut child = Inner::Empty;
    core::mem::swap(&mut children[octant], &mut child);
    child
}

impl<Voxel> T<Voxel> {
    /// Whether the cube lies within the tree: see [`holds_at`].
    pub open spec fn holds(self, cell: Cell) -> bool {
        holds_at(self.lg_size as nat, cell)
    }

    /// The tree of twice the width with the same content. Each child of the
    /// old root becomes, in the child of the new root on its side, the child
    /// that lies towards the origin: the diagonally opposite one.
    pub open spec fn doubled(self) -> T<Voxel> {
        T {
            lg_size: (self.lg_size + 1) as u8,
            contents: Branches {
                data: None,
                children: [
                    around(self.contents.children[0], 7),
                    around(self.contents.children[1], 6),
                    around(self.contents.children[2], 5),
                    around(self.contents.children[3], 4),
                    around(self.contents.children[4], 3),
                    around(self.contents.children[5], 2),
                    around(self.contents.children[6], 1),
                    around(self.contents.children[7], 0),
                ],
            },
        }
    }

    /// The tree doubled until it holds `cell`.
    pub open spec fn grown(self, cell: Cell) -> T<Voxel>
        decreases 255 - self.lg_size,
    {
        if self.holds(cell) || self.lg_size >= 255 {
            self
        } else {
            self.doubled().grown(cell)
        }
    }

    /// The children to take from the root to come to the node of `cell`.
    pub open spec fn path(self, cell: Cell) -> Seq<int> {
        Walk::start(self.lg_size as nat, cell).path()
    }

    /// The node that stands for `cell`, if the tree holds the cube and no
    /// `Empty` node lies on the way to it.
    pub open spec fn node_at(self, cell: Cell) -> Option<Inner<Voxel>> {
        if self.holds(cell) {
            self.contents.descend(self.path(cell))
        } else {
            None
        }
    }

    /// What stands in the place of `cell`: its node, or `Empty` where an
    /// `Empty` node lies on the way to it.
    pub open spec fn slot_at(self, cell: Cell) -> Inner<Voxel> {
        Inner::Branches(Box::new(self.contents)).slot(self.path(cell))
    }

    /// The payload stored for `cell`.
    pub open spec fn voxel_at(self, cell: Cell) -> Option<Voxel> {
        match self.node_at(cell) {
            Some(node) => node.payload(),
            None => None,
        }
    }

    /// Whether `voxel` is the payload stored for `bounds`.
    pub open spec fn stores(self, bounds: bounds::T, voxel: Voxel) -> bool {
        self.voxel_at(bounds@) == Some(voxel)
    }

    /// The tree with `node` standing for `cell`. Every `Empty` node on the way
    /// there becomes a node without payload; nothing off the way changes.
    pub open spec fn with_node(self, cell: Cell, node: Inner<Voxel>) -> T<Voxel> {
        T { lg_size: self.lg_size, contents: self.contents.put(self.path(cell), node) }
    }

    /// Is this voxel (non-strictly) within an origin-centered voxel with
    /// width `2^(lg_size + 1)`?
    pub fn contains_bounds(&self, voxel: &bounds::T) -> (r: bool)
        ensures
            r == self.holds(voxel@),
    {
        proof {
            lemma_half_width(self.lg_size as nat, voxel.lg_size as int);
        }
        if voxel.lg_size as i32 > self.lg_size as i32 {
            return false;
        }
        let shift: u32 = (self.lg_size as i32 - voxel.lg_size as i32) as u32;
        if shift >= 31 {
            proof {
                lemma_pow2_beyond_i32(shift as nat);
            }
            return true;
        }
        proof {
            lemma_shl_is_pow2(shift);
            lemma_pow2_monotone(shift as nat, 30);
            vstd::arithmetic::power2::lemma2_to64();
        }
        let high: i64 = 1i64 << shift;
        let low: i64 = -high;
        (voxel.x as i64) < high && (voxel.y as i64) < high && (voxel.z as i64) < high
            && voxel.x as i64 >= low && voxel.y as i64 >= low && voxel.z as i64 >= low
    }

    /// Ensure that this tree can hold the provided voxel.
    pub fn grow_to_hold(&mut self, voxel: &bounds::T)
        requires
            within_reach(voxel@),
        ensures
            *final(self) == old(self).grown(voxel@),
            final(self).holds(voxel@),
    {
        proof {
            lemma_within_reach(voxel@);
        }
        while !self.contains_bounds(voxel)
            invariant
                holds_at(255, voxel@),
                self.grown(voxel@) == old(self).grown(voxel@),
            decreases 255 - self.lg_size,
        {
            proof {
                if self.lg_size == 255 {
                    assert(self.holds(voxel@));
                }
            }
            // Double the bounds in every direction.
            self.lg_size += 1;

            // Pull out `self.contents` so we can move out of it.
            let mut contents = Branches::<Voxel>::empty();
            core::mem::swap(&mut self.contents, &mut contents);

            // We re-construct the tree with bounds twice the size (but still centered
            // around the origin) by deconstructing the top level of branches,
            // creating a new doubly-sized top level, and moving the old branches back
            // in as the new top level's children. e.g. in 2D:
            //
            //                      ---------------------------
            //                      |     |     |0|     |     |
            //                      |     |     |0|     |     |
            // ---------------      ------------|0|------------
            // |  1  |0|  2  |      |     |  1  |0|  2  |     |
            // |     |0|     |      |     |     |0|     |     |
            // |------0------|      |------------0------------|
            // 000000000000000  ==> |0000000000000000000000000|
            // |------0------|      |------------0------------|
            // |     |0|     |      |     |     |0|     |     |
            // |  3  |0|  4  |      |     |  3  |0|  4  |     |
            // ---------------      |------------0------------|
            //                      |     |     |0|     |     |
            //                      |     |     |0|     |     |
            //                      ---------------------------
            let mut old_children = contents.children;
            self.contents = Branches {
                data: None,
                children: [
                    wrap(take(&mut old_children, 0), 7),
                    wrap(take(&mut old_children, 1), 6),
                    wrap(take(&mut old_children, 2), 5),
                    wrap(take(&mut old_children, 3), 4),
                    wrap(take(&mut old_children, 4), 3),
                    wrap(take(&mut old_children, 5), 2),
                    wrap(take(&mut old_children, 6), 1),
                    wrap(take(&mut old_children, 7), 0),
                ],
            };
        }
    }

    /// Find a voxel inside this tree.
    /// If it doesn't exist, it will be created as empty: the tree grows to
    /// hold the voxel, and every `Empty` node on the way to it, and at its
    /// place, becomes a node without payload.
    #[inline(never)]
    #[verifier::loop_isolation(false)]
    pub fn get_mut_or_create<'a>(&'a mut self, voxel: &bounds::T) -> (r: &'a mut Inner<Voxel>)
        requires
            within_reach(voxel@),
        ensures
            *r == Inner::Branches(Box::new(old(self).grown(voxel@).slot_at(voxel@).forced())),
            *final(self) == old(self).grown(voxel@).with_node(voxel@, *final(r)),
    {
        self.grow_to_hold(voxel);

        let mut traversal = traversal::to_voxel_mut(self, voxel);
        let ghost start = traversal@;
        let ghost grown = *self;
        let ghost root = Inner::Branches(Box::new(self.contents));
        let ghost done: Seq<int> = Seq::empty();
        let ghost me = self;
        let mut tree = &mut self.contents;
        let ghost whole = tree;
        proof {
            assert(done + traversal@.path() =~= traversal@.path());
            assert(*final(me) == (T { lg_size: grown.lg_size, contents: *final(whole) }));
        }
        loop
            invariant
                traversal@ == start.after(done.len()),
                start.path() == done + traversal@.path(),
                valid_path(done),
                *tree == root.slot(done).forced(),
                Inner::Branches(Box::new(*final(whole))) == root.put(
                    done,
                    Inner::Branches(Box::new(*final(tree))),
                ),
            decreases traversal@.bits,
        {
            let ghost here = *tree;
            let ghost octant = traversal@.octant();
            let ghost rest = traversal@.path();
            proof {
                lemma_path_unfold(traversal@);
                lemma_slot_concat(root, done, seq![octant]);
                assert(seq![octant].drop_first() =~= Seq::<int>::empty());
                lemma_octant_range(traversal@);
                match root.slot(done) {
                    Inner::Empty => {
                        lemma_descend_empty::<Voxel>(seq![octant]);
                    },
                    Inner::Branches(branches) => {
                        assert(branches.children[octant].descend(seq![octant].drop_first())
                            == Some(branches.children[octant]));
                    },
                }
                assert(root.slot(done).slot(seq![octant]) == here.children[octant]);
            }
            let old_tree = tree;
            match traversal.next(old_tree) {
                traversal::Step::Step(new_tree) => {
                    tree = new_tree.force_branches();
                    proof {
                        let below = Inner::Branches(Box::new(*final(tree)));
                        lemma_put_concat(root, done, seq![octant], below);
                        assert(root.slot(done).forced().children[octant].put(
                            seq![octant].drop_first(),
                            below,
                        ) == below);
                        let ghost before = done;
                        done = before.push(octant);
                        assert(done + rest.drop_first() =~= before + rest);
                        assert(done =~= before + seq![octant]);
                    }
                },
                traversal::Step::Last(branch) => {
                    let _ = branch.force_branches();
                    proof {
                        assert(done + rest =~= done + seq![octant]);
                        lemma_put_concat(root, done, seq![octant], *final(branch));
                        assert(root.slot(done).forced().children[octant].put(
                            seq![octant].drop_first(),
                            *final(branch),
                        ) == *final(branch));
                    }
                    return branch;
                },
            }
        }
    }

    /// Find a voxel inside this tree.
    pub fn get<'a>(&'a self, voxel: &bounds::T) -> (r: Option<&'a Voxel>)
        ensures
            match r {
                Some(payload) => self.voxel_at(voxel@) == Some(*payload),
                None => self.voxel_at(voxel@) is None,
            },
    {
        if !self.contains_bounds(voxel) {
            return None;
        }
        match traversal::to_voxel(self, voxel).last(&self.contents) {
            None => None,
            Some(branch) => branch.voxel(),
        }
    }

    /// Find the node of a voxel inside this tree.
    pub fn get_pointer<'a>(&'a self, voxel: &bounds::T) -> (r: Option<&'a Inner<Voxel>>)
        ensures
            match r {
                Some(node) => self.node_at(voxel@) == Some(*node),
                None => self.node_at(voxel@) is None,
            },
    {
        if !self.contains_bounds(voxel) {
            return None;
        }
        traversal::to_voxel(self, voxel).last(&self.contents)
    }

    /// Find a voxel inside this tree, for writing.
    pub fn get_mut<'a>(&'a mut self, voxel: &bounds::T) -> (r: Option<&'a mut Voxel>)
        ensures
            match r {
                Some(payload) => {
                    &&& old(self).voxel_at(voxel@) == Some(*payload)
                    &&& *final(self) == old(self).with_node(
                        voxel@,
                        Inner::Branches(
                            Box::new(
                                Branches {
                                    data: Some(*final(payload)),
                                    children: old(self).node_at(voxel@)->0.forced().children,
                                },
                            ),
                        ),
                    )
                },
                None => old(self).voxel_at(voxel@) is None && *final(self) == *old(self),
            },
    {
        if !self.contains_bounds(voxel) {
            return None;
        }
        proof {
            lemma_path_unfold(Walk::start(self.lg_size as nat, voxel@));
            if self.node_at(voxel@) is Some {
                crate::tree::lemmas::lemma_put_same(
                    Inner::Branches(Box::new(self.contents)),
                    self.path(voxel@),
                );
            }
        }
        match traversal::to_voxel_mut(self, voxel).last(&mut self.contents) {
            None => None,
            Some(branch) => branch.voxel_mut(),
        }
    }

    /// Find the node of a voxel inside this tree, for writing.
    pub fn get_mut_pointer<'a>(&'a mut self, voxel: &bounds::T) -> (r: Option<
        &'a mut Inner<Voxel>,
    >)
        ensures
            match r {
                Some(node) => {
                    &&& old(self).node_at(voxel@) == Some(*node)
                    &&& *final(self) == old(self).with_node(voxel@, *final(node))
                },
                None => old(self).node_at(voxel@) is None && *final(self) == *old(self),
            },
    {
        if !self.contains_bounds(voxel) {
            return None;
        }
        traversal::to_voxel_mut(self, voxel).last(&mut self.contents)
    }
}

} // verus!
