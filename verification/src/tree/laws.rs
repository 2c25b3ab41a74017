//! What holds of reading, writing and growing a tree.

use vstd::prelude::*;
use crate::bounds;
use crate::bounds::Cell;
use crate::brush;
use crate::scale::{lemma_floor_shift_sign, lemma_floor_shift_zero};
use crate::tree::brushing::{brushed, lemma_touched_ancestor, top_cell, touched};
use crate::tree::paths::{below, lemma_below_unfold, lemma_path_split};
use crate::tree::{around, holds_at, lemma_holds_monotone, lemma_within_reach, lemma_half_width, within_reach, Branches, Inner, T};
use crate::tree::lemmas::{is_prefix, lemma_descend_concat, lemma_descend_empty, lemma_put_descend, lemma_put_frame};
use crate::tree::paths::{lemma_holds_inside, lemma_path_beyond, lemma_path_doubled, lemma_path_inside, lemma_prefix_inside, lemma_path_top};
use crate::tree::traversal::{lemma_octant_range, lemma_path_unfold, Walk};

verus! {

/// A tree grows to hold whatever is within reach, and no further: it stays
/// as it is where it holds the cube already, and no tree between the old
/// and the new size holds the cube.
pub proof fn law_growth_is_least<Voxel>(tree: T<Voxel>, cell: Cell)
    requires
        cell.addressable(),
        within_reach(cell),
    ensures
        tree.grown(cell).holds(cell),
        tree.grown(cell).lg_size >= tree.lg_size,
        tree.holds(cell) ==> tree.grown(cell) == tree,
        forall|lg_size: nat|
            tree.lg_size <= lg_size < tree.grown(cell).lg_size ==> !holds_at(lg_size, cell),
    decreases 255 - tree.lg_size,
{
    lemma_within_reach(cell);
    if !tree.holds(cell) && tree.lg_size < 255 {
        law_growth_is_least(tree.doubled(), cell);
    }
}

/// Nothing is stored in a tree without nodes.
pub proof fn law_empty_tree<Voxel>(tree: T<Voxel>, cell: Cell)
    requires
        tree.contents == Branches::<Voxel>::spec_empty(),
    ensures
        tree.voxel_at(cell) is None,
{
    let path = tree.path(cell);
    lemma_path_unfold(Walk::start(tree.lg_size as nat, cell));
    lemma_descend_empty::<Voxel>(path.drop_first());
}

/// Doubling a tree changes no payload: every cube has afterwards the payload
/// that it had before.
pub proof fn law_doubling_transparent<Voxel>(tree: T<Voxel>, cell: Cell)
    requires
        tree.lg_size < 255,
    ensures
        tree.doubled().voxel_at(cell) == tree.voxel_at(cell),
{
    let lg_size = tree.lg_size as nat;
    let big = tree.doubled();
    let old_walk = Walk::start(lg_size, cell);
    let new_walk = Walk::start(lg_size + 1, cell);
    let new_path = new_walk.path();
    lemma_path_unfold(old_walk);
    lemma_path_unfold(new_walk);
    let side = new_path[0];
    let moved = around(tree.contents.children[side], 7 - side);
    assert(big.contents.children[side] == moved);
    if tree.holds(cell) {
        // The way goes through the child that was moved, and on as before.
        lemma_holds_monotone(lg_size, lg_size + 1, cell);
        lemma_path_doubled(lg_size, cell);
        let rest = old_walk.path().drop_first();
        assert(new_path.drop_first() =~= seq![7 - side] + rest);
        assert((seq![7 - side] + rest).drop_first() =~= rest);
        assert(big.contents.descend(new_path) == moved.descend(new_path.drop_first()));
    } else if big.holds(cell) && cell.lg <= lg_size {
        // The way does not turn back: it passes the moved child by.
        lemma_path_beyond(lg_size, cell);
        lemma_descend_empty::<Voxel>(new_path.drop_first().drop_first());
    }
}

/// Growth transparency: growing a tree changes no payload, whatever it grows
/// to hold.
pub proof fn law_growth_transparent<Voxel>(tree: T<Voxel>, target: Cell, cell: Cell)
    ensures
        tree.grown(target).voxel_at(cell) == tree.voxel_at(cell),
    decreases 255 - tree.lg_size,
{
    if !tree.holds(target) && tree.lg_size < 255 {
        law_doubling_transparent(tree, cell);
        law_growth_transparent(tree.doubled(), target, cell);
    }
}

/// A node that was put in the place of a cube that the tree holds is the
/// node found there, and its payload the payload read there.
pub proof fn law_read_after_write<Voxel>(tree: T<Voxel>, cell: Cell, node: Inner<Voxel>)
    requires
        tree.holds(cell),
    ensures
        tree.with_node(cell, node).node_at(cell) == Some(node),
        tree.with_node(cell, node).voxel_at(cell) == node.payload(),
{
    lemma_path_unfold(Walk::start(tree.lg_size as nat, cell));
    lemma_put_descend(Inner::Branches(Box::new(tree.contents)), tree.path(cell), node);
}

/// What is written through `get_mut_or_create` is read back: after the tree
/// has grown to hold the cube and the node was put in its place, the cube has
/// the node's payload.
pub proof fn law_read_after_create<Voxel>(tree: T<Voxel>, cell: Cell, node: Inner<Voxel>)
    requires
        cell.addressable(),
        within_reach(cell),
    ensures
        tree.grown(cell).with_node(cell, node).voxel_at(cell) == node.payload(),
{
    law_growth_is_least(tree, cell);
    law_read_after_write(tree.grown(cell), cell, node);
}

/// Writing the node of one cube leaves the payload of every cube that does
/// not lie inside it: of the cubes elsewhere, and of the larger cubes around it.
pub proof fn law_write_elsewhere<Voxel>(
    tree: T<Voxel>,
    written: Cell,
    node: Inner<Voxel>,
    read: Cell,
)
    requires
        tree.holds(written),
        !written.contains(read),
    ensures
        tree.with_node(written, node).voxel_at(read) == tree.voxel_at(read),
{
    let lg_size = tree.lg_size as nat;
    if tree.holds(read) {
        lemma_path_unfold(Walk::start(lg_size, written));
        lemma_path_unfold(Walk::start(lg_size, read));
        if is_prefix(tree.path(written), tree.path(read)) {
            lemma_prefix_inside(lg_size, written, read);
        }
        lemma_put_frame(
            Inner::Branches(Box::new(tree.contents)),
            tree.path(written),
            tree.path(read),
            node,
        );
    }
}

/// Writing the node of one cube puts, in the place of every cube inside it,
/// what the written node has there.
pub proof fn law_write_inside<Voxel>(tree: T<Voxel>, written: Cell, node: Inner<Voxel>, read: Cell)
    requires
        tree.holds(written),
        written.contains(read),
    ensures
        tree.with_node(written, node).node_at(read) == node.descend(
            tree.path(read).skip(tree.path(written).len() as int),
        ),
{
    let lg_size = tree.lg_size as nat;
    let short = tree.path(written);
    let long = tree.path(read);
    lemma_half_width(lg_size, written.lg);
    lemma_holds_inside(lg_size, written, read);
    lemma_path_inside(lg_size, written, read);
    lemma_path_unfold(Walk::start(lg_size, written));
    lemma_path_unfold(Walk::start(lg_size, read));
    let root = Inner::Branches(Box::new(tree.contents));
    lemma_put_descend(root, short, node);
    assert(long =~= short + long.skip(short.len() as int));
    lemma_descend_concat(root.put(short, node), short, long.skip(short.len() as int));
}

/// Resolution exactness: after a leaf was written for a cube, a cube with
/// the same coordinates and another exponent has no payload where it lies
/// inside the written cube, and elsewhere the payload that it had before.
pub proof fn law_resolution_exact<Voxel>(
    tree: T<Voxel>,
    written: Cell,
    payload: Option<Voxel>,
    read: Cell,
)
    requires
        tree.holds(written),
        read.x == written.x,
        read.y == written.y,
        read.z == written.z,
        read.lg != written.lg,
    ensures
        tree.with_node(written, Inner::spec_leaf(payload)).voxel_at(read) == if written.contains(
            read,
        ) {
            None
        } else {
            tree.voxel_at(read)
        },
{
    let node = Inner::spec_leaf(payload);
    if written.contains(read) {
        let lg_size = tree.lg_size as nat;
        lemma_half_width(lg_size, written.lg);
        law_write_inside(tree, written, node, read);
        lemma_path_unfold(Walk::start(lg_size, written));
        lemma_path_unfold(Walk::start(lg_size, read));
        let below = tree.path(read).skip(tree.path(written).len() as int);
        assert(0 <= below[0] < 8);
        lemma_descend_empty::<Voxel>(below.drop_first());
    } else {
        law_write_elsewhere(tree, written, node, read);
    }
}

/// A cube that a tree holds lies inside the cube of the root's child on
/// its side, and the path to it starts there.
pub proof fn lemma_top_of<Voxel>(tree: T<Voxel>, cell: Cell)
    requires
        tree.holds(cell),
    ensures
        0 <= tree.path(cell)[0] < 8,
        top_cell(tree.lg_size as int, tree.path(cell)[0]).contains(cell),
        tree.path(cell) == seq![tree.path(cell)[0]] + below(
            top_cell(tree.lg_size as int, tree.path(cell)[0]),
            cell,
        ),
        tree.slot_at(cell) == tree.contents.children[tree.path(cell)[0]].slot(
            below(top_cell(tree.lg_size as int, tree.path(cell)[0]), cell),
        ),
{
    let lg_size = tree.lg_size as nat;
    let walk = Walk::start(lg_size, cell);
    lemma_half_width(lg_size, cell.lg);
    lemma_path_unfold(walk);
    lemma_octant_range(walk);
    let side = walk.octant();
    let top = top_cell(lg_size as int, side);
    let d = (lg_size - cell.lg) as nat;
    lemma_floor_shift_sign(cell.x, d);
    lemma_floor_shift_sign(cell.y, d);
    lemma_floor_shift_sign(cell.z, d);
    assert(top.contains(cell));
    lemma_path_top(lg_size, top);
    lemma_path_split(lg_size, top, cell);
    assert(Walk::start(lg_size, top).octant() == side);
    let rest = below(top, cell);
    assert((seq![side] + rest).drop_first() =~= rest);
}

/// Under a node that a brush went over, what it does not touch is as before.
pub proof fn lemma_brush_spares<Voxel, Generate: FnMut(&bounds::T) -> Option<Voxel>>(
    before: Inner<Voxel>,
    after: Inner<Voxel>,
    at: Cell,
    region: brush::Bounds,
    min_lg: int,
    generate: Generate,
    cell: Cell,
)
    requires
        brushed(before, after, at, region, min_lg, generate),
        at.contains(cell),
        !touched(cell, region, min_lg),
    ensures
        after.slot(below(at, cell)) == before.slot(below(at, cell)),
    decreases at.lg - cell.lg,
{
    if touched(at, region, min_lg) {
        if at.lg == cell.lg {
            lemma_floor_shift_zero(cell.x);
            lemma_floor_shift_zero(cell.y);
            lemma_floor_shift_zero(cell.z);
        } else {
            lemma_below_unfold(at, cell);
            let octant = below(at, cell)[0];
            let rest = below(at.child(octant), cell);
            lemma_brush_spares(
                before.forced().children[octant],
                after.forced().children[octant],
                at.child(octant),
                region,
                min_lg,
                generate,
                cell,
            );
            lemma_descend_empty::<Voxel>(rest);
            assert((seq![octant] + rest).drop_first() =~= rest);
        }
    }
}

/// Under a node that a brush went over, the node of a cube that it touches
/// is there, and is what the brush leaves of the node before.
pub proof fn lemma_brush_reaches<Voxel, Generate: FnMut(&bounds::T) -> Option<Voxel>>(
    before: Inner<Voxel>,
    after: Inner<Voxel>,
    at: Cell,
    region: brush::Bounds,
    min_lg: int,
    generate: Generate,
    cell: Cell,
)
    requires
        brushed(before, after, at, region, min_lg, generate),
        at.contains(cell),
        at.lg <= i16::MAX,
        touched(cell, region, min_lg),
    ensures
        after.descend(below(at, cell)) is Some,
        brushed(
            before.slot(below(at, cell)),
            after.slot(below(at, cell)),
            cell,
            region,
            min_lg,
            generate,
        ),
    decreases at.lg - cell.lg,
{
    if at.lg == cell.lg {
        lemma_floor_shift_zero(cell.x);
        lemma_floor_shift_zero(cell.y);
        lemma_floor_shift_zero(cell.z);
        assert(below(at, cell) =~= Seq::<int>::empty());
    } else {
        lemma_touched_ancestor(cell, (at.lg - cell.lg) as nat, region, min_lg);
        lemma_below_unfold(at, cell);
        let octant = below(at, cell)[0];
        let rest = below(at.child(octant), cell);
        lemma_brush_reaches(
            before.forced().children[octant],
            after.forced().children[octant],
            at.child(octant),
            region,
            min_lg,
            generate,
            cell,
        );
        lemma_descend_empty::<Voxel>(rest);
        assert((seq![octant] + rest).drop_first() =~= rest);
    }
}

/// Brush pruning: a brush leaves what it does not touch. Of a cube that its
/// box does not reach, or that is finer than it goes, the tree has after
/// the brush the payload that it had before and, where it holds the cube,
/// the node with all below it.
pub proof fn law_brush_spares<Voxel, Generate: FnMut(&bounds::T) -> Option<Voxel>>(
    before: T<Voxel>,
    after: T<Voxel>,
    region: brush::Bounds,
    min_lg: int,
    generate: Generate,
    cell: Cell,
)
    requires
        before.brushed_to(after, region, min_lg, generate),
        !touched(cell, region, min_lg),
    ensures
        before.holds(cell) ==> after.slot_at(cell) == before.slot_at(cell),
        after.voxel_at(cell) == before.voxel_at(cell),
{
    if before.holds(cell) {
        lemma_top_of(before, cell);
        lemma_top_of(after, cell);
        let side = before.path(cell)[0];
        lemma_brush_spares(
            before.contents.children[side],
            after.contents.children[side],
            top_cell(before.lg_size as int, side),
            region,
            min_lg,
            generate,
            cell,
        );
    }
}

/// A brush reaches what it touches. Of a cube that the tree holds and the
/// brush touches, the node is allocated after the brush and is what the
/// brush leaves of the node before: it keeps a payload if it had one.
pub proof fn law_brush_reaches<Voxel, Generate: FnMut(&bounds::T) -> Option<Voxel>>(
    before: T<Voxel>,
    after: T<Voxel>,
    region: brush::Bounds,
    min_lg: int,
    generate: Generate,
    cell: Cell,
)
    requires
        before.brushed_to(after, region, min_lg, generate),
        before.holds(cell),
        touched(cell, region, min_lg),
    ensures
        after.node_at(cell) is Some,
        after.slot_at(cell) is Branches,
        brushed(before.slot_at(cell), after.slot_at(cell), cell, region, min_lg, generate),
        before.voxel_at(cell) is Some ==> after.voxel_at(cell) is Some,
{
    lemma_top_of(before, cell);
    lemma_top_of(after, cell);
    let side = before.path(cell)[0];
    let rest = below(top_cell(before.lg_size as int, side), cell);
    lemma_brush_reaches(
        before.contents.children[side],
        after.contents.children[side],
        top_cell(before.lg_size as int, side),
        region,
        min_lg,
        generate,
        cell,
    );
    assert((seq![side] + rest).drop_first() =~= rest);
}

} // verus!
