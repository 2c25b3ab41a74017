//! How the path to a cube follows from its coordinates.

use vstd::prelude::*;
use vstd::arithmetic::power2::{pow2, lemma_pow2_pos, lemma_pow2_unfold};
use crate::bounds::{lemma_child_of, Cell};
use crate::scale::{bit, floor_shift, lemma_floor_shift_double, lemma_floor_shift_sign, lemma_floor_shift_step, lemma_floor_shift_unique, lemma_floor_shift_zero, lemma_floor_shift_adds, lemma_floor_shift_bounds};
use crate::tree::{holds_at, lemma_half_width};
use crate::tree::lemmas::is_prefix;
use crate::tree::traversal::{lemma_path_unfold, Walk};

verus! {

/// The path to a cube at the level of the root's children is one step long.
pub proof fn lemma_path_top(lg_size: nat, cell: Cell)
    requires
        cell.lg >= lg_size,
    ensures
        Walk::start(lg_size, cell).path() == seq![Walk::start(lg_size, cell).octant()],
{
    lemma_path_unfold(Walk::start(lg_size, cell));
}

/// The path to a child is the path to its parent and then the child's octant.
pub proof fn lemma_path_child(lg_size: nat, cell: Cell, octant: int)
    requires
        cell.lg <= lg_size,
        0 <= octant < 8,
    ensures
        Walk::start(lg_size, cell.child(octant)).path() == Walk::start(lg_size, cell).path().push(
            octant,
        ),
{
    let parent = Walk::start(lg_size, cell);
    let child = Walk::start(lg_size, cell.child(octant));
    let d = (lg_size - cell.lg) as nat;
    assert forall|j: int| 0 <= j < child.steps() implies child.path()[j] == parent.path().push(
        octant,
    )[j] by {
        if j == 0 {
        } else if j <= d {
            let below = (d - j) as nat;
            lemma_floor_shift_double(cell.x, octant / 4, below);
            lemma_floor_shift_double(cell.y, (octant / 2) % 2, below);
            lemma_floor_shift_double(cell.z, octant % 2, below);
        } else {
            lemma_floor_shift_double(cell.x, octant / 4, 0);
            lemma_floor_shift_double(cell.y, (octant / 2) % 2, 0);
            lemma_floor_shift_double(cell.z, octant % 2, 0);
        }
    }
    assert(child.path() =~= parent.path().push(octant));
}

/// Every cube is the child of its parent at its octant.
pub proof fn lemma_child_of_parent(cell: Cell)
    ensures
        cell.ancestor(1).child(cell.octant()) == cell,
        0 <= cell.octant() < 8,
{
    lemma_floor_shift_zero(cell.x);
    lemma_floor_shift_zero(cell.y);
    lemma_floor_shift_zero(cell.z);
    lemma_floor_shift_step(cell.x, 0);
    lemma_floor_shift_step(cell.y, 0);
    lemma_floor_shift_step(cell.z, 0);
}

/// A tree that holds a cube holds the cubes around it, up to the level of
/// the root's children.
pub proof fn lemma_holds_ancestor(lg_size: nat, cell: Cell, n: nat)
    requires
        holds_at(lg_size, cell),
        cell.lg + n <= lg_size,
    ensures
        holds_at(lg_size, cell.ancestor(n)),
{
    lemma_half_width(lg_size, cell.lg);
    lemma_half_width(lg_size, cell.lg + n);
    let d = (lg_size - cell.lg) as nat;
    let e = (d - n) as nat;
    vstd::arithmetic::power2::lemma_pow2_adds(n, e);
    lemma_pow2_pos(n);
    lemma_pow2_pos(e);
    lemma_ancestor_range(cell.x, n, e);
    lemma_ancestor_range(cell.y, n, e);
    lemma_ancestor_range(cell.z, n, e);
}

proof fn lemma_ancestor_range(x: int, n: nat, e: nat)
    requires
        -(pow2(n) * pow2(e)) <= x < pow2(n) * pow2(e),
    ensures
        -pow2(e) <= floor_shift(x, n) < pow2(e),
{
    lemma_pow2_pos(n);
    lemma_pow2_pos(e);
    lemma_floor_shift_bounds(x, n);
    let p = pow2(n) as int;
    let h = pow2(e) as int;
    let q = floor_shift(x, n);
    assert(-h <= q < h) by (nonlinear_arith)
        requires
            p > 0,
            h > 0,
            q * p <= x < (q + 1) * p,
            -(p * h) <= x < p * h,
    ;
}

/// A tree that holds a cube holds the cubes inside it.
pub proof fn lemma_holds_inside(lg_size: nat, outer: Cell, inner: Cell)
    requires
        holds_at(lg_size, outer),
        outer.contains(inner),
    ensures
        holds_at(lg_size, inner),
{
    lemma_half_width(lg_size, outer.lg);
    lemma_half_width(lg_size, inner.lg);
    let n = (outer.lg - inner.lg) as nat;
    let e = (lg_size - outer.lg) as nat;
    vstd::arithmetic::power2::lemma_pow2_adds(n, e);
    lemma_pow2_pos(n);
    lemma_pow2_pos(e);
    lemma_descendant_range(inner.x, n, e);
    lemma_descendant_range(inner.y, n, e);
    lemma_descendant_range(inner.z, n, e);
}

proof fn lemma_descendant_range(x: int, n: nat, e: nat)
    requires
        -pow2(e) <= floor_shift(x, n) < pow2(e),
    ensures
        -(pow2(n) * pow2(e)) <= x < pow2(n) * pow2(e),
{
    lemma_pow2_pos(n);
    lemma_pow2_pos(e);
    lemma_floor_shift_bounds(x, n);
    let p = pow2(n) as int;
    let h = pow2(e) as int;
    let q = floor_shift(x, n);
    assert(-(p * h) <= x < p * h) by (nonlinear_arith)
        requires
            p > 0,
            h > 0,
            q * p <= x < (q + 1) * p,
            -h <= q < h,
    ;
}

/// The path to a cube inside another begins with the path to that other.
pub proof fn lemma_path_inside(lg_size: nat, outer: Cell, inner: Cell)
    requires
        outer.lg <= lg_size,
        outer.contains(inner),
    ensures
        is_prefix(Walk::start(lg_size, outer).path(), Walk::start(lg_size, inner).path()),
    decreases outer.lg - inner.lg,
{
    let long = Walk::start(lg_size, inner).path();
    if inner.lg == outer.lg {
        lemma_floor_shift_zero(inner.x);
        lemma_floor_shift_zero(inner.y);
        lemma_floor_shift_zero(inner.z);
        assert(long.subrange(0, long.len() as int) =~= long);
    } else {
        let parent = inner.ancestor(1);
        let up = (outer.lg - inner.lg - 1) as nat;
        lemma_floor_shift_adds(inner.x, 1, up);
        lemma_floor_shift_adds(inner.y, 1, up);
        lemma_floor_shift_adds(inner.z, 1, up);
        lemma_path_inside(lg_size, outer, parent);
        lemma_child_of_parent(inner);
        lemma_path_child(lg_size, parent, inner.octant());
        let short = Walk::start(lg_size, outer).path();
        let mid = Walk::start(lg_size, parent).path();
        assert(long.subrange(0, short.len() as int) =~= mid.subrange(0, short.len() as int));
    }
}

/// Two cubes of one size that a tree holds, with one path, are one cube.
pub proof fn lemma_path_injective(lg_size: nat, a: Cell, b: Cell)
    requires
        holds_at(lg_size, a),
        holds_at(lg_size, b),
        a.lg == b.lg,
        Walk::start(lg_size, a).path() == Walk::start(lg_size, b).path(),
    ensures
        a == b,
    decreases lg_size - a.lg,
{
    lemma_half_width(lg_size, a.lg);
    let wa = Walk::start(lg_size, a);
    let wb = Walk::start(lg_size, b);
    lemma_path_unfold(wa);
    lemma_path_unfold(wb);
    if a.lg == lg_size {
        vstd::arithmetic::power2::lemma2_to64();
        assert(wa.path()[0] == wa.octant());
        assert(wb.path()[0] == wb.octant());
    } else {
        lemma_holds_ancestor(lg_size, a, 1);
        lemma_holds_ancestor(lg_size, b, 1);
        lemma_child_of_parent(a);
        lemma_child_of_parent(b);
        let pa = a.ancestor(1);
        let pb = b.ancestor(1);
        lemma_path_child(lg_size, pa, a.octant());
        lemma_path_child(lg_size, pb, b.octant());
        let qa = Walk::start(lg_size, pa).path();
        let qb = Walk::start(lg_size, pb).path();
        assert(qa =~= qa.push(a.octant()).drop_last());
        assert(qb =~= qb.push(b.octant()).drop_last());
        assert(qa.push(a.octant()).last() == a.octant());
        assert(qb.push(b.octant()).last() == b.octant());
        lemma_path_injective(lg_size, pa, pb);
    }
}

/// Where the path to one cube that a tree holds begins with the path to
/// another, the one lies inside the other.
pub proof fn lemma_prefix_inside(lg_size: nat, outer: Cell, inner: Cell)
    requires
        holds_at(lg_size, outer),
        holds_at(lg_size, inner),
        is_prefix(Walk::start(lg_size, outer).path(), Walk::start(lg_size, inner).path()),
    ensures
        outer.contains(inner),
    decreases lg_size - inner.lg,
{
    lemma_half_width(lg_size, outer.lg);
    lemma_half_width(lg_size, inner.lg);
    let short = Walk::start(lg_size, outer).path();
    let long = Walk::start(lg_size, inner).path();
    if inner.lg == outer.lg {
        assert(long.subrange(0, long.len() as int) =~= long);
        lemma_path_injective(lg_size, outer, inner);
        crate::bounds::lemma_contains_reflexive(outer);
    } else {
        let parent = inner.ancestor(1);
        lemma_holds_ancestor(lg_size, inner, 1);
        lemma_child_of_parent(inner);
        lemma_path_child(lg_size, parent, inner.octant());
        let mid = Walk::start(lg_size, parent).path();
        assert(mid.subrange(0, short.len() as int) =~= long.subrange(0, short.len() as int));
        lemma_prefix_inside(lg_size, outer, parent);
        lemma_child_of(parent, inner.octant());
        crate::bounds::lemma_contains_transitive(outer, parent, inner);
    }
}

/// The children to take from the node of `outer` to come to the node of
/// `inner`, a cube inside it: the octants of the cubes around `inner`, from
/// the child of `outer` down to `inner` itself.
pub open spec fn below(outer: Cell, inner: Cell) -> Seq<int> {
    Seq::new(
        (outer.lg - inner.lg) as nat,
        |j: int| inner.ancestor((outer.lg - inner.lg - 1 - j) as nat).octant(),
    )
}

/// The way to a cube inside another starts at the child that it lies in,
/// and goes on from there.
pub proof fn lemma_below_unfold(outer: Cell, inner: Cell)
    requires
        outer.contains(inner),
        outer.lg > inner.lg,
    ensures
        0 <= below(outer, inner)[0] < 8,
        outer.child(below(outer, inner)[0]).contains(inner),
        outer.child(below(outer, inner)[0]) == inner.ancestor((outer.lg - inner.lg - 1) as nat),
        below(outer, inner) == seq![below(outer, inner)[0]] + below(
            outer.child(below(outer, inner)[0]),
            inner,
        ),
        crate::tree::valid_path(below(outer, inner)),
{
    let n = (outer.lg - inner.lg) as nat;
    let up = (n - 1) as nat;
    let mid = inner.ancestor(up);
    lemma_child_of_parent(mid);
    lemma_floor_shift_adds(inner.x, up, 1);
    lemma_floor_shift_adds(inner.y, up, 1);
    lemma_floor_shift_adds(inner.z, up, 1);
    assert(mid.ancestor(1) == outer);
    let first = below(outer, inner)[0];
    assert(first == mid.octant());
    assert(below(outer, inner) =~= seq![first] + below(outer.child(first), inner));
    assert forall|j: int| 0 <= j < below(outer, inner).len() implies 0 <= #[trigger] below(
        outer,
        inner,
    )[j] < 8 by {
        lemma_child_of_parent(inner.ancestor((n - 1 - j) as nat));
    }
}

/// The path to a cube inside another is the path to that other, and then
/// the way from there.
pub proof fn lemma_path_split(lg_size: nat, outer: Cell, inner: Cell)
    requires
        outer.lg <= lg_size,
        outer.contains(inner),
    ensures
        Walk::start(lg_size, inner).path() == Walk::start(lg_size, outer).path() + below(
            outer,
            inner,
        ),
    decreases outer.lg - inner.lg,
{
    let short = Walk::start(lg_size, outer).path();
    if inner.lg == outer.lg {
        lemma_floor_shift_zero(inner.x);
        lemma_floor_shift_zero(inner.y);
        lemma_floor_shift_zero(inner.z);
        assert(short + below(outer, inner) =~= short);
    } else {
        let n = (outer.lg - inner.lg) as nat;
        let parent = inner.ancestor(1);
        let up = (n - 1) as nat;
        lemma_floor_shift_adds(inner.x, 1, up);
        lemma_floor_shift_adds(inner.y, 1, up);
        lemma_floor_shift_adds(inner.z, 1, up);
        lemma_path_split(lg_size, outer, parent);
        lemma_child_of_parent(inner);
        lemma_path_child(lg_size, parent, inner.octant());
        assert forall|j: int| 0 <= j < n implies below(outer, inner)[j] == below(
            outer,
            parent,
        ).push(inner.octant())[j] by {
            if j < n - 1 {
                let m = (n - 2 - j) as nat;
                lemma_floor_shift_adds(inner.x, 1, m);
                lemma_floor_shift_adds(inner.y, 1, m);
                lemma_floor_shift_adds(inner.z, 1, m);
                assert(parent.ancestor(m) == inner.ancestor(m + 1));
            } else {
                lemma_floor_shift_zero(inner.x);
                lemma_floor_shift_zero(inner.y);
                lemma_floor_shift_zero(inner.z);
            }
        }
        assert(below(outer, inner) =~= below(outer, parent).push(inner.octant()));
        assert(short + below(outer, parent).push(inner.octant()) =~= (short + below(
            outer,
            parent,
        )).push(inner.octant()));
    }
}

/// In a tree of twice the width, the path to a cube that the tree held
/// before begins on the same side and then turns back towards the origin.
pub proof fn lemma_path_doubled(lg_size: nat, cell: Cell)
    requires
        holds_at(lg_size, cell),
    ensures
        Walk::start(lg_size + 1, cell).path() == seq![
            Walk::start(lg_size, cell).octant(),
            7 - Walk::start(lg_size, cell).octant(),
        ] + Walk::start(lg_size, cell).path().drop_first(),
{
    lemma_half_width(lg_size, cell.lg);
    let old = Walk::start(lg_size, cell);
    let new = Walk::start(lg_size + 1, cell);
    let d = (lg_size - cell.lg) as nat;
    let joined = seq![old.octant(), 7 - old.octant()] + old.path().drop_first();
    lemma_floor_shift_sign(cell.x, d);
    lemma_floor_shift_sign(cell.y, d);
    lemma_floor_shift_sign(cell.z, d);
    assert forall|j: int| 0 <= j < new.steps() implies new.path()[j] == joined[j] by {
        if j >= 2 {
            assert(new.after(j as nat) == old.after((j - 1) as nat));
        }
    }
    assert(new.path() =~= joined);
}

/// In a tree of twice the width, the path to a cube that the tree did not
/// hold before does not turn back towards the origin.
pub proof fn lemma_path_beyond(lg_size: nat, cell: Cell)
    requires
        cell.lg <= lg_size,
        !holds_at(lg_size, cell),
        holds_at(lg_size + 1, cell),
    ensures
        Walk::start(lg_size + 1, cell).path().len() >= 2,
        Walk::start(lg_size + 1, cell).path()[1] != 7 - Walk::start(lg_size + 1, cell).path()[0],
{
    lemma_half_width(lg_size, cell.lg);
    lemma_half_width(lg_size + 1, cell.lg);
    let new = Walk::start(lg_size + 1, cell);
    let d = (lg_size - cell.lg) as nat;
    lemma_pow2_unfold(d + 1);
    lemma_pow2_pos(d);
    assert(new.after(0) == new);
    lemma_far_bit(cell.x, d);
    lemma_far_bit(cell.y, d);
    lemma_far_bit(cell.z, d);
    lemma_floor_shift_sign(cell.x, d);
    lemma_floor_shift_sign(cell.y, d);
    lemma_floor_shift_sign(cell.z, d);
}

proof fn lemma_far_bit(x: int, d: nat)
    ensures
        pow2(d) <= x < 2 * pow2(d) ==> bit(x, d) == 1,
        -2 * pow2(d) <= x < -pow2(d) ==> bit(x, d) == 0,
        0 <= bit(x, d) <= 1,
{
    lemma_pow2_pos(d);
    if pow2(d) <= x < 2 * pow2(d) {
        lemma_floor_shift_unique(x, d, 1);
    }
    if -2 * pow2(d) <= x < -pow2(d) {
        lemma_floor_shift_unique(x, d, -2);
    }
}

} // verus!
