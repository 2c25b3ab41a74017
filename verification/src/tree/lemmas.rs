//! What `descend` and `put` do to one another.

use vstd::prelude::*;
use crate::tree::{valid_path, Branches, Inner};

verus! {

/// Replacing a child changes that child and nothing else.
pub proof fn lemma_with_child<Voxel>(branches: Branches<Voxel>, octant: int, node: Inner<Voxel>)
    requires
        0 <= octant < 8,
    ensures
        branches.with_child(octant, node).data == branches.data,
        branches.with_child(octant, node).children[octant] == node,
        forall|i: int|
            0 <= i < 8 && i != octant ==> #[trigger] branches.with_child(octant, node).children[i]
                == branches.children[i],
        branches.with_child(octant, branches.children[octant]) == branches,
{
    let same = branches.with_child(octant, branches.children[octant]);
    assert(same.children@ =~= branches.children@);
    assert(same.children =~= branches.children);
}

/// Nothing is reached from an `Empty` node but the node itself.
pub proof fn lemma_descend_empty<Voxel>(path: Seq<int>)
    ensures
        path.len() > 0 ==> Inner::<Voxel>::Empty.descend(path) is None,
        Inner::<Voxel>::Empty.payload_at(path) is None,
{
}

/// Walking two paths in a row is walking them joined.
pub proof fn lemma_descend_concat<Voxel>(node: Inner<Voxel>, p: Seq<int>, q: Seq<int>)
    ensures
        node.descend(p + q) == match node.descend(p) {
            Some(mid) => mid.descend(q),
            None => None,
        },
    decreases p.len(),
{
    if p.len() == 0 {
        assert(p + q =~= q);
    } else {
        assert((p + q).drop_first() =~= p.drop_first() + q);
        match node {
            Inner::Empty => {},
            Inner::Branches(branches) => {
                lemma_descend_concat(branches.children[p[0]], p.drop_first(), q);
            },
        }
    }
}

/// What was put at the end of a path is found there.
pub proof fn lemma_put_descend<Voxel>(node: Inner<Voxel>, path: Seq<int>, new: Inner<Voxel>)
    requires
        valid_path(path),
    ensures
        node.put(path, new).descend(path) == Some(new),
    decreases path.len(),
{
    if path.len() > 0 {
        let branches = node.forced();
        lemma_put_descend(branches.children[path[0]], path.drop_first(), new);
        lemma_with_child(
            branches,
            path[0],
            branches.children[path[0]].put(path.drop_first(), new),
        );
    }
}

/// Putting back what is there changes nothing.
pub proof fn lemma_put_same<Voxel>(node: Inner<Voxel>, path: Seq<int>)
    requires
        valid_path(path),
        node.descend(path) is Some,
    ensures
        node.put(path, node.descend(path)->0) == node,
    decreases path.len(),
{
    if path.len() > 0 {
        match node {
            Inner::Empty => {},
            Inner::Branches(branches) => {
                lemma_put_same(branches.children[path[0]], path.drop_first());
                lemma_with_child(*branches, path[0], branches.children[path[0]]);
            },
        }
    }
}

/// What stands at the end of two joined paths stands at the end of the
/// second, seen from the end of the first.
pub proof fn lemma_slot_concat<Voxel>(node: Inner<Voxel>, p: Seq<int>, q: Seq<int>)
    ensures
        node.slot(p + q) == node.slot(p).slot(q),
{
    lemma_descend_concat(node, p, q);
    lemma_descend_empty::<Voxel>(q);
}

/// Putting at the end of two joined paths is putting, at the end of the first,
/// what stands there with the new node put at the end of the second.
pub proof fn lemma_put_concat<Voxel>(
    node: Inner<Voxel>,
    p: Seq<int>,
    q: Seq<int>,
    new: Inner<Voxel>,
)
    requires
        valid_path(p),
    ensures
        node.put(p + q, new) == node.put(p, node.slot(p).put(q, new)),
    decreases p.len(),
{
    if p.len() == 0 {
        assert(p + q =~= q);
    } else {
        assert((p + q).drop_first() =~= p.drop_first() + q);
        lemma_descend_empty::<Voxel>(p.drop_first());
        lemma_put_concat(node.forced().children[p[0]], p.drop_first(), q, new);
    }
}

/// `p` is the beginning of `q`, or all of it.
pub open spec fn is_prefix(p: Seq<int>, q: Seq<int>) -> bool {
    p.len() <= q.len() && q.subrange(0, p.len() as int) == p
}

/// Putting a node at the end of one path leaves the payload at the end of
/// every path that does not begin with it.
pub proof fn lemma_put_frame<Voxel>(
    node: Inner<Voxel>,
    p: Seq<int>,
    q: Seq<int>,
    new: Inner<Voxel>,
)
    requires
        valid_path(p),
        valid_path(q),
        !is_prefix(p, q),
    ensures
        node.put(p, new).payload_at(q) == node.payload_at(q),
    decreases p.len(),
{
    if p.len() == 0 {
        assert(q.subrange(0, 0) =~= p);
    } else if q.len() == 0 {
        lemma_with_child(
            node.forced(),
            p[0],
            node.forced().children[p[0]].put(p.drop_first(), new),
        );
    } else {
        let branches = node.forced();
        let below = branches.children[p[0]].put(p.drop_first(), new);
        lemma_with_child(branches, p[0], below);
        lemma_descend_empty::<Voxel>(q.drop_first());
        if p[0] == q[0] {
            if is_prefix(p.drop_first(), q.drop_first()) {
                assert(q.subrange(0, p.len() as int) =~= seq![q[0]] + q.drop_first().subrange(
                    0,
                    p.len() - 1,
                ));
                assert(p =~= seq![p[0]] + p.drop_first());
            }
            lemma_put_frame(branches.children[p[0]], p.drop_first(), q.drop_first(), new);
        }
    }
}

} // verus!
