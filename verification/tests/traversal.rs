use voxel_data::bounds;
use voxel_data::tree;
use voxel_data::tree::traversal::{to_voxel, to_voxel_mut, Step};
use voxel_data::tree::{Branches, Inner};

fn numbered() -> Branches<usize> {
    let mut branches = Branches::empty();
    for (i, child) in branches.children.iter_mut().enumerate() {
        *child = Inner::leaf(Some(i));
    }
    branches
}

fn tree_of(lg_size: u8) -> tree::T<usize> {
    tree::T { lg_size, contents: Branches::empty() }
}

#[test]
fn first_step_goes_by_sign() {
    let root = numbered();
    let picks = [
        ((-1, -1, -1), 0),
        ((-1, -1, 0), 1),
        ((-1, 0, -1), 2),
        ((0, -1, -1), 4),
        ((0, 0, 0), 7),
        ((-4, 3, -4), 2),
        ((3, 3, -1), 6),
    ];
    for ((x, y, z), octant) in picks {
        let mut walk = to_voxel(&tree_of(2), &bounds::new(x, y, z, 0));
        match walk.next(&root) {
            Step::Step(node) => assert_eq!(node.voxel(), Some(&octant)),
            Step::Last(_) => panic!("the walk ended two levels early"),
        }
    }
}

#[test]
fn later_steps_go_by_bits() {
    let root = numbered();
    // In a tree of exponent 2 a unit voxel lies three steps down: the sign,
    // then bit 1, then bit 0 of each coordinate.
    let mut walk = to_voxel(&tree_of(2), &bounds::new(2, -3, 1, 0));
    assert!(matches!(walk.next(&root), Step::Step(n) if n.voxel() == Some(&5)));
    // 2 = 0b10, -3 = ..101, 1 = 0b01: bit 1 is (1, 0, 0).
    assert!(matches!(walk.next(&root), Step::Step(n) if n.voxel() == Some(&4)));
    // Bit 0 is (0, 1, 1).
    assert!(matches!(walk.next(&root), Step::Last(n) if n.voxel() == Some(&3)));
    // A walk that has ended stays at the low corner.
    assert!(matches!(walk.next(&root), Step::Last(n) if n.voxel() == Some(&0)));
}

#[test]
fn walk_ends_at_the_exact_resolution() {
    let root = numbered();
    for lg_size in 0..6u8 {
        for lg in -3..=(lg_size as i16) {
            let mut walk = to_voxel(&tree_of(lg_size), &bounds::new(0, 0, 0, lg));
            let mut steps = 1;
            while let Step::Step(_) = walk.next(&root) {
                steps += 1;
            }
            assert_eq!(steps, lg_size as i16 - lg + 1);
        }
    }
}

#[test]
fn walk_to_larger_voxel_is_one_step() {
    let root = numbered();
    let mut walk = to_voxel(&tree_of(1), &bounds::new(-1, 0, 0, 5));
    assert!(matches!(walk.next(&root), Step::Last(n) if n.voxel() == Some(&3)));
}

#[test]
fn last_finds_the_node_or_nothing() {
    let mut root: Branches<usize> = Branches::empty();
    root.children[7] = Inner::leaf(None);
    if let Inner::Branches(top) = &mut root.children[7] {
        top.children[2] = Inner::leaf(Some(42));
    }
    let tree = tree_of(1);
    let found = to_voxel(&tree, &bounds::new(0, 1, 0, 0)).last(&root);
    assert_eq!(found.and_then(|n| n.voxel()), Some(&42));
    // The neighbour's place is there, and empty.
    let beside = to_voxel(&tree, &bounds::new(1, 1, 0, 0)).last(&root);
    assert_eq!(beside, Some(&Inner::Empty));
    // Below an empty place there is nothing.
    let under = to_voxel(&tree, &bounds::new(-1, -1, -1, 0)).last(&root);
    assert_eq!(under, None);
    let deeper = to_voxel(&tree, &bounds::new(2, 2, 0, -1)).last(&root);
    assert_eq!(deeper, None);
}

#[test]
fn last_mut_hands_out_the_node_for_writing() {
    let mut root: Branches<usize> = Branches::empty();
    root.children[0] = Inner::leaf(Some(1));
    let tree = tree_of(1);
    {
        let slot = to_voxel_mut(&tree, &bounds::new(-2, -1, -2, 0)).last(&mut root).unwrap();
        assert_eq!(*slot, Inner::Empty);
        *slot = Inner::leaf(Some(9));
    }
    let found = to_voxel(&tree, &bounds::new(-2, -1, -2, 0)).last(&root);
    assert_eq!(found.and_then(|n| n.voxel()), Some(&9));
    assert_eq!(root.children[0].voxel(), Some(&1));
    // Nothing is made on the way to a place below an empty one.
    assert!(to_voxel_mut(&tree, &bounds::new(1, 1, 1, 0)).last(&mut root).is_none());
    assert_eq!(root.children[7], Inner::Empty);
}

#[test]
fn next_mut_steps_like_next() {
    let mut root = numbered();
    let tree = tree_of(1);
    let mut walk = to_voxel_mut(&tree, &bounds::new(1, -2, 0, 0));
    match walk.next(&mut root) {
        Step::Step(node) => {
            assert_eq!(node.voxel(), Some(&5));
            *node = Inner::leaf(Some(50));
        },
        Step::Last(_) => panic!("the walk ended one level early"),
    }
    assert!(matches!(walk.next(&mut root), Step::Last(n) if n.voxel() == Some(&4)));
    assert_eq!(root.children[5].voxel(), Some(&50));
}
