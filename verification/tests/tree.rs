use voxel_data::bounds;
use voxel_data::tree;
use voxel_data::tree::{Branches, Inner, T};

#[test]
fn simple_lookup() {
    let tree: T<i32> = T {
        lg_size: 0,
        contents: Branches {
            data: None,
            children: [
                Inner::leaf(Some(0)),
                Inner::leaf(Some(1)),
                Inner::leaf(Some(2)),
                Inner::leaf(Some(3)),
                Inner::leaf(Some(4)),
                Inner::leaf(Some(5)),
                Inner::leaf(Some(6)),
                Inner::leaf(Some(7)),
            ],
        },
    };

    assert_eq!(tree.get(&bounds::new(-1, -1, -1, 0)), Some(&0));
    assert_eq!(tree.get(&bounds::new(-1, -1, 0, 0)), Some(&1));
    assert_eq!(tree.get(&bounds::new(-1, 0, -1, 0)), Some(&2));
    assert_eq!(tree.get(&bounds::new(-1, 0, 0, 0)), Some(&3));
    assert_eq!(tree.get(&bounds::new(0, -1, -1, 0)), Some(&4));
    assert_eq!(tree.get(&bounds::new(0, -1, 0, 0)), Some(&5));
    assert_eq!(tree.get(&bounds::new(0, 0, -1, 0)), Some(&6));
    assert_eq!(tree.get(&bounds::new(0, 0, 0, 0)), Some(&7));
}

#[test]
fn insert_and_lookup() {
    let mut tree: T<i32> = tree::new();
    *tree.get_mut_or_create(&bounds::new(1, 1, 1, 0)) = Inner::leaf(Some(1));
    *tree.get_mut_or_create(&bounds::new(8, -8, 4, 0)) = Inner::leaf(Some(2));
    *tree.get_mut_or_create(&bounds::new(2, 0, 4, 4)) = Inner::leaf(Some(3));
    *tree.get_mut_or_create(&bounds::new(9, 0, 16, 2)) = Inner::leaf(Some(4));
    *tree.get_mut_or_create(&bounds::new(9, 0, 16, 2)) = Inner::leaf(Some(5));

    assert_eq!(tree.get(&bounds::new(1, 1, 1, 0)), Some(&1));
    assert_eq!(tree.get(&bounds::new(8, -8, 4, 0)), Some(&2));
    assert_eq!(tree.get(&bounds::new(9, 0, 16, 2)), Some(&5));

    // Bigger LOD encompassing smaller LODs
    assert_eq!(tree.get(&bounds::new(2, 0, 4, 4)), Some(&3));
}

#[test]
fn wrong_voxel_size_is_not_found() {
    let mut tree: T<i32> = tree::new();
    *tree.get_mut_or_create(&bounds::new(4, 4, -4, 1)) = Inner::leaf(Some(1));
    assert_eq!(tree.get(&bounds::new(4, 4, -4, 0)), None);
    assert_eq!(tree.get(&bounds::new(4, 4, -4, 2)), None);
}

#[test]
fn grow_is_transparent() {
    let mut tree: T<i32> = tree::new();
    *tree.get_mut_or_create(&bounds::new(1, 1, 1, 0)) = Inner::leaf(Some(1));
    tree.grow_to_hold(&bounds::new(0, 0, 0, 1));
    tree.grow_to_hold(&bounds::new(0, 0, 0, 2));
    tree.grow_to_hold(&bounds::new(-32, 32, -128, 3));

    assert_eq!(tree.get(&bounds::new(1, 1, 1, 0)), Some(&1));
}

#[test]
fn new_tree_is_empty() {
    let tree: T<i32> = tree::new();
    assert_eq!(tree.lg_size, 0);
    assert_eq!(tree.contents, Branches::empty());
    assert_eq!(tree.get(&bounds::new(0, 0, 0, 0)), None);
    assert_eq!(tree.get_pointer(&bounds::new(-1, 0, -1, 0)), Some(&Inner::Empty));
    assert_eq!(tree.get_pointer(&bounds::new(0, 0, 0, -1)), None);
}

#[test]
fn contains_bounds_is_symmetric_about_the_origin() {
    let mut tree: T<i32> = tree::new();
    tree.lg_size = 3;
    // At the tree's own exponent the half width is one voxel.
    assert!(tree.contains_bounds(&bounds::new(-1, 0, -1, 3)));
    assert!(!tree.contains_bounds(&bounds::new(1, 0, 0, 3)));
    assert!(!tree.contains_bounds(&bounds::new(0, -2, 0, 3)));
    // At exponent 0 it is 8.
    assert!(tree.contains_bounds(&bounds::new(7, -8, 0, 0)));
    assert!(!tree.contains_bounds(&bounds::new(8, 0, 0, 0)));
    assert!(!tree.contains_bounds(&bounds::new(0, -9, 0, 0)));
    assert!(!tree.contains_bounds(&bounds::new(0, 0, 8, 0)));
    // At exponent -2 it is 32.
    assert!(tree.contains_bounds(&bounds::new(31, -32, 0, -2)));
    assert!(!tree.contains_bounds(&bounds::new(32, 0, 0, -2)));
    assert!(!tree.contains_bounds(&bounds::new(0, 0, -33, -2)));
    // Larger voxels than the tree's children do not fit.
    assert!(!tree.contains_bounds(&bounds::new(0, 0, 0, 4)));
    assert!(!tree.contains_bounds(&bounds::new(-1, -1, -1, 4)));
}

#[test]
fn contains_bounds_at_every_exponent() {
    let mut tree: T<i32> = tree::new();
    tree.lg_size = 30;
    assert!(tree.contains_bounds(&bounds::new((1 << 30) - 1, -(1 << 30), 0, 0)));
    assert!(!tree.contains_bounds(&bounds::new(1 << 30, 0, 0, 0)));
    assert!(!tree.contains_bounds(&bounds::new(0, -(1 << 30) - 1, 0, 0)));
    tree.lg_size = 31;
    assert!(tree.contains_bounds(&bounds::new(i32::MAX, i32::MIN, 0, 0)));
    assert!(tree.contains_bounds(&bounds::new((1 << 30) - 1, -(1 << 30), 0, 1)));
    assert!(!tree.contains_bounds(&bounds::new(1 << 30, 0, 0, 1)));
    tree.lg_size = 255;
    assert!(tree.contains_bounds(&bounds::new(i32::MAX, i32::MIN, 0, i16::MIN)));
    assert!(tree.contains_bounds(&bounds::new(0, -1, 0, 255)));
    assert!(!tree.contains_bounds(&bounds::new(0, 1, 0, 255)));
    assert!(!tree.contains_bounds(&bounds::new(0, 0, 0, 256)));
    tree.lg_size = 0;
    assert!(tree.contains_bounds(&bounds::new(1, -2, 0, -1)));
    assert!(!tree.contains_bounds(&bounds::new(2, 0, 0, -1)));
    assert!(tree.contains_bounds(&bounds::new(i32::MAX, i32::MIN, 0, -31)));
    assert!(!tree.contains_bounds(&bounds::new(1 << 30, 0, 0, -30)));
}

#[test]
fn grow_to_hold_grows_no_further_than_needed() {
    let mut tree: T<i32> = tree::new();
    tree.grow_to_hold(&bounds::new(0, -1, 0, 0));
    assert_eq!(tree.lg_size, 0);
    tree.grow_to_hold(&bounds::new(1, 0, 0, 0));
    assert_eq!(tree.lg_size, 1);
    tree.grow_to_hold(&bounds::new(0, 0, -8, 0));
    assert_eq!(tree.lg_size, 3);
    tree.grow_to_hold(&bounds::new(0, 0, -9, 0));
    assert_eq!(tree.lg_size, 4);
    tree.grow_to_hold(&bounds::new(0, 0, 0, 6));
    assert_eq!(tree.lg_size, 6);
    tree.grow_to_hold(&bounds::new(5, 5, 5, -3));
    assert_eq!(tree.lg_size, 6);
    tree.grow_to_hold(&bounds::new(0, 1, 0, 200));
    assert_eq!(tree.lg_size, 201);
}

#[test]
fn growth_moves_children_towards_the_origin() {
    let mut tree: T<i32> = T {
        lg_size: 0,
        contents: Branches {
            data: None,
            children: [
                Inner::leaf(Some(0)),
                Inner::leaf(Some(1)),
                Inner::leaf(Some(2)),
                Inner::leaf(Some(3)),
                Inner::leaf(Some(4)),
                Inner::leaf(Some(5)),
                Inner::leaf(Some(6)),
                Inner::leaf(Some(7)),
            ],
        },
    };
    tree.grow_to_hold(&bounds::new(1, 1, 1, 0));
    assert_eq!(tree.lg_size, 1);
    for octant in 0..8usize {
        match &tree.contents.children[octant] {
            Inner::Empty => panic!("no child on side {}", octant),
            Inner::Branches(side) => {
                assert_eq!(side.data, None);
                for inner in 0..8usize {
                    if inner == 7 - octant {
                        assert_eq!(side.children[inner].voxel(), Some(&(octant as i32)));
                    } else {
                        assert_eq!(side.children[inner], Inner::Empty);
                    }
                }
            },
        }
    }
    assert_eq!(tree.get(&bounds::new(-1, -1, -1, 0)), Some(&0));
    assert_eq!(tree.get(&bounds::new(0, -1, 0, 0)), Some(&5));
    assert_eq!(tree.get(&bounds::new(0, 0, 0, 0)), Some(&7));
    assert_eq!(tree.get(&bounds::new(1, 1, 1, 0)), None);
    assert_eq!(tree.get(&bounds::new(0, 0, 0, 1)), None);
}

#[test]
fn writes_are_read_back_through_growth() {
    let mut tree: T<i32> = tree::new();
    let written = [
        bounds::new(1, 1, 1, 0),
        bounds::new(-1, 0, -1, 0),
        bounds::new(8, -8, 4, 0),
        bounds::new(-3, 2, 0, -2),
        bounds::new(9, 0, 16, 2),
        bounds::new(-1, -1, -1, 7),
        bounds::new(100, -100, 100, 0),
        bounds::new(5, 5, 5, -1),
    ];
    for (i, b) in written.iter().enumerate() {
        *tree.get_mut_or_create(b) = Inner::leaf(Some(i as i32));
        // Everything written so far is still there.
        for (j, earlier) in written.iter().enumerate().take(i + 1) {
            assert_eq!(tree.get(earlier), Some(&(j as i32)));
        }
    }
    assert_eq!(tree.lg_size, 7);
    tree.grow_to_hold(&bounds::new(0, 0, 0, 40));
    assert_eq!(tree.lg_size, 40);
    for (j, b) in written.iter().enumerate() {
        assert_eq!(tree.get(b), Some(&(j as i32)));
    }
}

#[test]
fn writing_a_leaf_clears_what_lay_inside() {
    let mut tree: T<i32> = tree::new();
    *tree.get_mut_or_create(&bounds::new(2, 2, 2, 0)) = Inner::leaf(Some(1));
    *tree.get_mut_or_create(&bounds::new(4, 0, 0, 0)) = Inner::leaf(Some(2));
    *tree.get_mut_or_create(&bounds::new(1, 1, 1, 1)) = Inner::leaf(Some(3));
    assert_eq!(tree.get(&bounds::new(1, 1, 1, 1)), Some(&3));
    assert_eq!(tree.get(&bounds::new(2, 2, 2, 0)), None);
    assert_eq!(tree.get(&bounds::new(4, 0, 0, 0)), Some(&2));
}

#[test]
fn same_coordinates_at_other_resolutions_are_other_voxels() {
    let mut tree: T<i32> = tree::new();
    *tree.get_mut_or_create(&bounds::new(5, 5, 5, 0)) = Inner::leaf(Some(1));
    *tree.get_mut_or_create(&bounds::new(5, 5, 5, 2)) = Inner::leaf(Some(2));
    *tree.get_mut_or_create(&bounds::new(5, 5, 5, -1)) = Inner::leaf(Some(3));
    assert_eq!(tree.get(&bounds::new(5, 5, 5, 0)), Some(&1));
    assert_eq!(tree.get(&bounds::new(5, 5, 5, 2)), Some(&2));
    assert_eq!(tree.get(&bounds::new(5, 5, 5, -1)), Some(&3));
    assert_eq!(tree.get(&bounds::new(5, 5, 5, 1)), None);
    assert_eq!(tree.get(&bounds::new(5, 5, 5, -2)), None);
    // (0, 0, 0) lies inside itself at every coarser resolution.
    *tree.get_mut_or_create(&bounds::new(0, 0, 0, -2)) = Inner::leaf(Some(4));
    *tree.get_mut_or_create(&bounds::new(0, 0, 0, 0)) = Inner::leaf(Some(5));
    assert_eq!(tree.get(&bounds::new(0, 0, 0, -2)), None);
    assert_eq!(tree.get(&bounds::new(0, 0, 0, -1)), None);
    assert_eq!(tree.get(&bounds::new(0, 0, 0, 1)), None);
}

#[test]
fn smallest_tree_holds_finer_voxels() {
    let mut tree: T<i32> = tree::new();
    *tree.get_mut_or_create(&bounds::new(1, -2, 0, -1)) = Inner::leaf(Some(1));
    assert_eq!(tree.lg_size, 0);
    assert_eq!(tree.get(&bounds::new(1, -2, 0, -1)), Some(&1));
    assert_eq!(tree.get(&bounds::new(0, -1, 0, 0)), None);
    assert_eq!(tree.get(&bounds::new(0, -2, 0, -1)), None);
    assert!(matches!(tree.get_pointer(&bounds::new(0, -1, 0, 0)), Some(Inner::Branches(_))));
}

#[test]
fn get_mut_or_create_hands_out_an_allocated_node() {
    let mut tree: T<i32> = tree::new();
    {
        let node = tree.get_mut_or_create(&bounds::new(3, -3, 0, 0));
        assert_eq!(*node, Inner::leaf(None));
    }
    assert_eq!(tree.lg_size, 2);
    assert_eq!(tree.get(&bounds::new(3, -3, 0, 0)), None);
    assert_eq!(tree.get_pointer(&bounds::new(3, -3, 0, 0)), Some(&Inner::leaf(None)));
    // The nodes on the way are allocated without payload; nothing beside them is.
    assert!(matches!(tree.get_pointer(&bounds::new(1, -2, 0, 1)), Some(Inner::Branches(_))));
    assert_eq!(tree.get(&bounds::new(1, -2, 0, 1)), None);
    assert_eq!(tree.get_pointer(&bounds::new(2, -3, 0, 0)), Some(&Inner::Empty));
    assert_eq!(tree.get_pointer(&bounds::new(1, -1, 0, 1)), Some(&Inner::Empty));
    // A second call finds what the first one made, and keeps what was written.
    *tree.get_mut_or_create(&bounds::new(3, -3, 0, 0)) = Inner::leaf(Some(8));
    assert_eq!(*tree.get_mut_or_create(&bounds::new(3, -3, 0, 0)), Inner::leaf(Some(8)));
}

#[test]
fn get_mut_writes_the_payload_in_place() {
    let mut tree: T<i32> = tree::new();
    *tree.get_mut_or_create(&bounds::new(2, 0, -1, 0)) = Inner::leaf(Some(1));
    *tree.get_mut_or_create(&bounds::new(4, 0, 0, -1)) = Inner::leaf(Some(2));
    *tree.get_mut(&bounds::new(2, 0, -1, 0)).unwrap() = 10;
    assert_eq!(tree.get(&bounds::new(2, 0, -1, 0)), Some(&10));
    assert_eq!(tree.get(&bounds::new(4, 0, 0, -1)), Some(&2));
    // Only payloads that are there can be written.
    assert!(tree.get_mut(&bounds::new(1, 0, -1, 1)).is_none());
    assert!(tree.get_mut(&bounds::new(3, 0, 0, 0)).is_none());
    assert!(tree.get_mut(&bounds::new(64, 0, 0, 0)).is_none());
    assert_eq!(tree.lg_size, 2);
}

#[test]
fn get_mut_pointer_replaces_nodes() {
    let mut tree: T<i32> = tree::new();
    *tree.get_mut_or_create(&bounds::new(2, 2, 2, 0)) = Inner::leaf(Some(1));
    *tree.get_mut_or_create(&bounds::new(3, 2, 2, 0)) = Inner::leaf(Some(2));
    // The node around both goes, and both with it.
    *tree.get_mut_pointer(&bounds::new(1, 1, 1, 1)).unwrap() = Inner::Empty;
    assert_eq!(tree.get(&bounds::new(2, 2, 2, 0)), None);
    assert_eq!(tree.get(&bounds::new(3, 2, 2, 0)), None);
    assert_eq!(tree.get_pointer(&bounds::new(1, 1, 1, 1)), Some(&Inner::Empty));
    assert_eq!(tree.get_pointer(&bounds::new(2, 2, 2, 0)), None);
    // Nothing is made for a node that is not there, or outside the tree.
    assert!(tree.get_mut_pointer(&bounds::new(2, 2, 2, 0)).is_none());
    assert!(tree.get_mut_pointer(&bounds::new(4, 0, 0, 0)).is_none());
    assert_eq!(tree.get_pointer(&bounds::new(1, 1, 1, 1)), Some(&Inner::Empty));
}

#[test]
fn deep_trees_are_walked_to_the_end() {
    let mut tree: T<i32> = tree::new();
    tree.grow_to_hold(&bounds::new(0, 0, 0, 60));
    *tree.get_mut_or_create(&bounds::new(-7, 3, i32::MAX, 0)) = Inner::leaf(Some(1));
    *tree.get_mut_or_create(&bounds::new(i32::MIN, -1, 0, -20)) = Inner::leaf(Some(2));
    assert_eq!(tree.lg_size, 60);
    assert_eq!(tree.get(&bounds::new(-7, 3, i32::MAX, 0)), Some(&1));
    assert_eq!(tree.get(&bounds::new(i32::MIN, -1, 0, -20)), Some(&2));
    assert_eq!(tree.get(&bounds::new(-7, 3, i32::MAX - 1, 0)), None);
    assert_eq!(tree.get(&bounds::new(i32::MIN + 1, -1, 0, -20)), None);
    assert_eq!(tree.get(&bounds::new(-1, 0, 0, 60)), None);
}

#[test]
fn nodes_force_branches_and_give_out_payloads() {
    let mut node: Inner<i32> = Inner::Empty;
    assert_eq!(node.voxel(), None);
    assert_eq!(node.voxel_mut(), None);
    assert_eq!(node, Inner::Empty);
    {
        let branches = node.force_branches();
        assert_eq!(*branches, Branches::empty());
        branches.data = Some(4);
    }
    assert_eq!(node, Inner::leaf(Some(4)));
    assert_eq!(node.voxel(), Some(&4));
    *node.voxel_mut().unwrap() = 5;
    assert_eq!(node.force_branches().data, Some(5));
    node.force_branches().children[3] = Inner::leaf(Some(6));
    assert_eq!(node.force_branches().children[3].voxel(), Some(&6));
    assert_eq!(node.voxel(), Some(&5));
    let bare: Inner<i32> = Inner::leaf(None);
    assert_eq!(bare.voxel(), None);
    assert!(bare != Inner::Empty);
}

#[test]
fn children_are_indexed_in_xyz_order() {
    let mut branches: Branches<usize> = Branches::empty();
    for (i, child) in branches.as_flat_array_mut().iter_mut().enumerate() {
        *child = Inner::leaf(Some(i));
    }
    let flat = branches.as_flat_array();
    let cube = branches.as_array();
    for x in 0..2 {
        for y in 0..2 {
            for z in 0..2 {
                assert_eq!(flat[(x << 2) | (y << 1) | z].voxel(), Some(&(4 * x + 2 * y + z)));
                assert_eq!(cube[x][y][z].voxel(), Some(&(4 * x + 2 * y + z)));
            }
        }
    }
}
