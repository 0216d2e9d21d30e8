use voxel_octree::{Branches, TreeBody, VoxelBounds, VoxelTree};

#[test]
fn simple_test() {
    let mut tree: VoxelTree<i32> = VoxelTree::new();
    tree.get_mut_or_create(VoxelBounds::new(1, 1, 1, 0), TreeBody::Leaf(1));
    tree.get_mut_or_create(VoxelBounds::new(8, -8, 4, 0), TreeBody::Leaf(2));
    tree.get_mut_or_create(VoxelBounds::new(2, 0, 4, 4), TreeBody::Leaf(3));
    tree.get_mut_or_create(VoxelBounds::new(9, 0, 16, 2), TreeBody::Leaf(4));
    tree.get_mut_or_create(VoxelBounds::new(9, 0, 16, 2), TreeBody::Leaf(5));

    assert_eq!(tree.get(VoxelBounds::new(1, 1, 1, 0)), Some(&1));
    assert_eq!(tree.get(VoxelBounds::new(8, -8, 4, 0)), Some(&2));
    assert_eq!(tree.get(VoxelBounds::new(9, 0, 16, 2)), Some(&5));

    assert_eq!(tree.get(VoxelBounds::new(2, 0, 4, 4)), None);
}

#[test]
fn wrong_voxel_size_is_not_found() {
    let mut tree: VoxelTree<i32> = VoxelTree::new();
    tree.get_mut_or_create(VoxelBounds::new(4, 4, -4, 1), TreeBody::Leaf(1));
    assert_eq!(tree.get(VoxelBounds::new(4, 4, -4, 0)), None);
    assert_eq!(tree.get(VoxelBounds::new(4, 4, -4, 2)), None);
}

#[test]
fn grow_is_transparent() {
    let mut tree: VoxelTree<i32> = VoxelTree::new();
    tree.get_mut_or_create(VoxelBounds::new(1, 1, 1, 0), TreeBody::Leaf(1));
    tree.grow_to_hold(VoxelBounds::new(0, 0, 0, 1));
    tree.grow_to_hold(VoxelBounds::new(0, 0, 0, 2));
    tree.grow_to_hold(VoxelBounds::new(-32, 32, -128, 3));

    assert_eq!(tree.get(VoxelBounds::new(1, 1, 1, 0)), Some(&1));
}

#[test]
fn empty_tree_finds_nothing() {
    let tree: VoxelTree<i32> = VoxelTree::new();
    assert_eq!(tree.get(VoxelBounds::new(0, 0, 0, 0)), None);
    assert_eq!(tree.get(VoxelBounds::new(-1, 2, 3, 1)), None);
    assert_eq!(tree.get(VoxelBounds::new(1, 1, 1, -2)), None);
}

#[test]
fn last_write_wins_at_identical_bounds() {
    let mut tree: VoxelTree<u64> = VoxelTree::new();
    let b = VoxelBounds::new(-3, 5, 7, 0);
    tree.get_mut_or_create(b, TreeBody::Leaf(10));
    assert_eq!(tree.get(b), Some(&10));
    tree.get_mut_or_create(b, TreeBody::Leaf(11));
    assert_eq!(tree.get(b), Some(&11));
}

#[test]
fn containment_boundary_is_symmetric() {
    let mut tree: VoxelTree<i32> = VoxelTree::new();
    // Grow until the covered cube is [-8, 8) per axis (size exponent 3).
    tree.grow_to_hold(VoxelBounds::new(7, 0, 0, 0));
    assert!(tree.contains_bounds(VoxelBounds::new(7, 0, 0, 0)));
    assert!(!tree.contains_bounds(VoxelBounds::new(8, 0, 0, 0)));
    assert!(tree.contains_bounds(VoxelBounds::new(-7, 0, 0, 0)));
    assert!(!tree.contains_bounds(VoxelBounds::new(-8, 0, 0, 0)));
    assert!(tree.contains_bounds(VoxelBounds::new(0, 7, -7, 0)));
    assert!(!tree.contains_bounds(VoxelBounds::new(0, 8, 0, 0)));
    assert!(!tree.contains_bounds(VoxelBounds::new(0, 0, -8, 0)));
    // Sub-unit bounds are always considered containable.
    assert!(tree.contains_bounds(VoxelBounds::new(1000, -1000, 0, -1)));
}

#[test]
fn coarse_insert_erases_covered_fine_leaf() {
    let mut tree: VoxelTree<i32> = VoxelTree::new();
    // (2, 2, 2, 0) lies inside (1, 1, 1, 1).
    tree.get_mut_or_create(VoxelBounds::new(2, 2, 2, 0), TreeBody::Leaf(1));
    assert_eq!(tree.get(VoxelBounds::new(2, 2, 2, 0)), Some(&1));
    tree.get_mut_or_create(VoxelBounds::new(1, 1, 1, 1), TreeBody::Leaf(2));
    assert_eq!(tree.get(VoxelBounds::new(2, 2, 2, 0)), None);
    assert_eq!(tree.get(VoxelBounds::new(1, 1, 1, 1)), Some(&2));
}

#[test]
fn fine_insert_erases_covering_coarse_leaf() {
    let mut tree: VoxelTree<i32> = VoxelTree::new();
    tree.get_mut_or_create(VoxelBounds::new(1, 1, 1, 1), TreeBody::Leaf(2));
    assert_eq!(tree.get(VoxelBounds::new(1, 1, 1, 1)), Some(&2));
    tree.get_mut_or_create(VoxelBounds::new(2, 2, 2, 0), TreeBody::Leaf(1));
    assert_eq!(tree.get(VoxelBounds::new(1, 1, 1, 1)), None);
    assert_eq!(tree.get(VoxelBounds::new(2, 2, 2, 0)), Some(&1));
}

#[test]
fn sub_unit_bounds_round_trip() {
    let mut tree: VoxelTree<i32> = VoxelTree::new();
    let b = VoxelBounds::new(1, -1, 0, -2);
    tree.get_mut_or_create(b, TreeBody::Leaf(42));
    assert_eq!(tree.get(b), Some(&42));
    assert_eq!(tree.get(VoxelBounds::new(1, -1, 0, -1)), None);
    assert_eq!(tree.get(VoxelBounds::new(1, -1, 0, 0)), None);
}

#[test]
fn insert_then_clear_with_empty_node() {
    let mut tree: VoxelTree<i32> = VoxelTree::new();
    let b = VoxelBounds::new(3, 3, 3, 0);
    tree.get_mut_or_create(b, TreeBody::Leaf(9));
    assert_eq!(tree.get(b), Some(&9));
    tree.get_mut_or_create(b, TreeBody::Empty);
    assert_eq!(tree.get(b), None);
}

#[test]
fn distant_insert_keeps_near_content() {
    let mut tree: VoxelTree<i32> = VoxelTree::new();
    tree.get_mut_or_create(VoxelBounds::new(1, 1, 1, 0), TreeBody::Leaf(7));
    // Force many doublings.
    tree.get_mut_or_create(VoxelBounds::new(100000, -100000, 54321, 0), TreeBody::Leaf(8));
    assert_eq!(tree.get(VoxelBounds::new(1, 1, 1, 0)), Some(&7));
    assert_eq!(tree.get(VoxelBounds::new(100000, -100000, 54321, 0)), Some(&8));
}

#[test]
fn empty_branches_hold_nothing() {
    let b: Branches<i32> = Branches::empty();
    for x in 0..2usize {
        for y in 0..2usize {
            for z in 0..2usize {
                assert!(matches!(b.get(x, y, z), TreeBody::Empty));
            }
        }
    }
}

#[test]
fn deep_sub_unit_scale_round_trip() {
    let mut tree: VoxelTree<i32> = VoxelTree::new();
    let b = VoxelBounds::new(1, 0, -1, -20);
    tree.get_mut_or_create(b, TreeBody::Leaf(13));
    assert_eq!(tree.get(b), Some(&13));
    assert_eq!(tree.get(VoxelBounds::new(1, 0, -1, -19)), None);
}

#[test]
fn largest_coordinate_round_trip() {
    let mut tree: VoxelTree<i32> = VoxelTree::new();
    let b = VoxelBounds::new((1 << 30) - 1, -(1 << 30) + 1, 0, 0);
    tree.get_mut_or_create(b, TreeBody::Leaf(21));
    assert_eq!(tree.get(b), Some(&21));
    assert_eq!(tree.get(VoxelBounds::new((1 << 30) - 2, -(1 << 30) + 1, 0, 0)), None);
}

#[test]
fn coarse_scale_round_trip() {
    let mut tree: VoxelTree<i32> = VoxelTree::new();
    let b = VoxelBounds::new(1, -1, 0, 10);
    tree.get_mut_or_create(b, TreeBody::Leaf(3));
    assert_eq!(tree.get(b), Some(&3));
    assert_eq!(tree.get(VoxelBounds::new(1, -1, 0, 9)), None);
    assert_eq!(tree.get(VoxelBounds::new(1, -1, 0, 11)), None);
}

#[test]
fn bounds_fields_are_kept() {
    let b = VoxelBounds::new(-5, 6, -7, 3);
    assert_eq!(b.x, -5);
    assert_eq!(b.y, 6);
    assert_eq!(b.z, -7);
    assert_eq!(b.lg_size, 3);
    assert_eq!(b, VoxelBounds::new(-5, 6, -7, 3));
    assert!(b != VoxelBounds::new(-5, 6, -7, 2));
}
