use sparse_voxel_octree::Node;
use sparse_voxel_octree::SparseVoxelOctree;
use sparse_voxel_octree::Voxel;
use sparse_voxel_octree::VoxelCounter;

fn leaf(index: u32) -> Node {
    Node::Leaf(Some(Voxel { index }))
}

fn branch(children: [Node; 8]) -> Node {
    Node::Branch { children: Box::new(children) }
}

fn empty() -> Node {
    Node::Leaf(None)
}

#[test]
fn insert() {
    let mut counter = VoxelCounter::new();
    let mut tree = SparseVoxelOctree::new(1, &mut counter);

    assert_eq!(tree.get(1, 1, 1), Some(&Voxel { index: 7 }));

    tree.insert(0, 0, 0, Node::Leaf(Some(Voxel { index: 9999 })), 3);

    println!("{:?}", tree.root());
}

#[test]
fn new_tree_of_depth_zero_is_one_leaf() {
    let mut counter = VoxelCounter::new();
    let tree = SparseVoxelOctree::new(0, &mut counter);
    assert_eq!(tree.max_depth(), 0);
    assert_eq!(tree.root(), &leaf(0));
    assert_eq!(tree.get(0, 0, 0), Some(&Voxel { index: 0 }));
    assert_eq!(counter.peek(), 1);
}

#[test]
fn new_tree_covers_every_cell_with_its_own_identity() {
    let mut counter = VoxelCounter::new();
    let tree = SparseVoxelOctree::new(2, &mut counter);
    assert_eq!(tree.max_depth(), 2);
    assert_eq!(counter.peek(), 64);
    let mut seen = vec![false; 64];
    for x in 0..4 {
        for y in 0..4 {
            for z in 0..4 {
                let voxel = tree.get(x, y, z).expect("every cell of a new tree is present");
                assert!(voxel.index < 64);
                assert!(!seen[voxel.index as usize]);
                seen[voxel.index as usize] = true;
            }
        }
    }
    assert!(seen.iter().all(|&hit| hit));
}

#[test]
fn new_tree_numbers_cells_in_octant_order() {
    let mut counter = VoxelCounter::new();
    let tree = SparseVoxelOctree::new(2, &mut counter);
    assert_eq!(tree.get(0, 0, 0), Some(&Voxel { index: 0 }));
    assert_eq!(tree.get(1, 0, 0), Some(&Voxel { index: 1 }));
    assert_eq!(tree.get(3, 0, 0), Some(&Voxel { index: 9 }));
    assert_eq!(tree.get(1, 2, 3), Some(&Voxel { index: 53 }));
    assert_eq!(tree.get(3, 3, 3), Some(&Voxel { index: 63 }));
}

#[test]
fn new_tree_continues_from_the_counter() {
    let mut counter = VoxelCounter::starting_at(100);
    let first = SparseVoxelOctree::new(1, &mut counter);
    let second = SparseVoxelOctree::new(1, &mut counter);
    assert_eq!(first.get(0, 0, 0), Some(&Voxel { index: 100 }));
    assert_eq!(first.get(1, 1, 1), Some(&Voxel { index: 107 }));
    assert_eq!(second.get(0, 0, 0), Some(&Voxel { index: 108 }));
    assert_eq!(second.get(1, 1, 1), Some(&Voxel { index: 115 }));
    assert_eq!(counter.peek(), 116);
}

#[test]
fn depth_one_tree_follows_the_octant_numbers() {
    let mut counter = VoxelCounter::new();
    let tree = SparseVoxelOctree::new(1, &mut counter);
    for x in 0..2 {
        for y in 0..2 {
            for z in 0..2 {
                assert_eq!(tree.get(x, y, z), Some(&Voxel { index: x + 2 * y + 4 * z }));
            }
        }
    }
    assert_eq!(
        tree.root(),
        &branch([leaf(0), leaf(1), leaf(2), leaf(3), leaf(4), leaf(5), leaf(6), leaf(7)])
    );
}

#[test]
fn insert_then_get_returns_the_payload() {
    let mut counter = VoxelCounter::new();
    let mut tree = SparseVoxelOctree::new(2, &mut counter);
    tree.insert(3, 1, 2, leaf(4242), 2);
    assert_eq!(tree.get(3, 1, 2), Some(&Voxel { index: 4242 }));
    assert_eq!(tree.max_depth(), 2);
}

#[test]
fn insert_at_depth_one_replaces_one_cell_only() {
    let mut counter = VoxelCounter::new();
    let mut tree = SparseVoxelOctree::new(1, &mut counter);
    let before = *tree.get(1, 1, 1).unwrap();
    tree.insert(0, 0, 0, leaf(9999), 1);
    assert_eq!(tree.get(0, 0, 0), Some(&Voxel { index: 9999 }));
    assert_eq!(tree.get(1, 1, 1), Some(&before));
    for index in 1..8 {
        assert_eq!(tree.get(index % 2, (index / 2) % 2, index / 4), Some(&Voxel { index }));
    }
}

#[test]
fn insert_above_unit_depth_fills_the_whole_sub_cube() {
    let mut counter = VoxelCounter::new();
    let mut tree = SparseVoxelOctree::new(2, &mut counter);
    tree.insert(2, 0, 3, leaf(500), 1);
    for x in 0..4 {
        for y in 0..4 {
            for z in 0..4 {
                let found = tree.get(x, y, z).unwrap().index;
                if x >= 2 && y < 2 && z >= 2 {
                    assert_eq!(found, 500);
                } else {
                    assert_ne!(found, 500);
                }
            }
        }
    }
}

#[test]
fn insert_at_depth_zero_replaces_the_root() {
    let mut counter = VoxelCounter::new();
    let mut tree = SparseVoxelOctree::new(2, &mut counter);
    tree.insert(1, 2, 3, leaf(77), 0);
    assert_eq!(tree.root(), &leaf(77));
    assert_eq!(tree.max_depth(), 2);
    assert_eq!(tree.get(0, 0, 0), Some(&Voxel { index: 77 }));
    assert_eq!(tree.get(3, 3, 3), Some(&Voxel { index: 77 }));
}

#[test]
fn insert_of_an_empty_leaf_clears_the_cell() {
    let mut counter = VoxelCounter::new();
    let mut tree = SparseVoxelOctree::new(1, &mut counter);
    tree.insert(1, 0, 1, empty(), 1);
    assert_eq!(tree.get(1, 0, 1), None);
    assert_eq!(tree.get(0, 0, 1), Some(&Voxel { index: 4 }));
}

#[test]
fn insert_of_a_branch_replaces_the_subtree() {
    let mut counter = VoxelCounter::new();
    let mut tree = SparseVoxelOctree::new(2, &mut counter);
    let subtree = Node::new(1, &mut counter);
    tree.insert(0, 0, 0, subtree, 1);
    assert_eq!(tree.get(0, 0, 0), Some(&Voxel { index: 64 }));
    assert_eq!(tree.get(1, 1, 1), Some(&Voxel { index: 71 }));
    assert_eq!(tree.get(2, 0, 0), Some(&Voxel { index: 8 }));
}

#[test]
fn subdivision_preserves_siblings() {
    let mut counter = VoxelCounter::new();
    let mut tree = SparseVoxelOctree::new(2, &mut counter);
    tree.insert(2, 2, 0, leaf(300), 1);
    tree.insert(3, 2, 1, leaf(301), 2);
    for x in 2..4 {
        for y in 2..4 {
            for z in 0..2 {
                let expected = if (x, y, z) == (3, 2, 1) { 301 } else { 300 };
                assert_eq!(tree.get(x, y, z), Some(&Voxel { index: expected }));
            }
        }
    }
    assert_eq!(tree.get(0, 0, 0), Some(&Voxel { index: 0 }));
    assert_eq!(tree.get(1, 3, 3), Some(&Voxel { index: 55 }));
}

#[test]
fn subdivision_materialises_one_branch_per_level() {
    let mut counter = VoxelCounter::new();
    let mut tree = SparseVoxelOctree::new(2, &mut counter);
    tree.insert(0, 0, 0, empty(), 0);
    tree.insert(3, 0, 0, leaf(5), 2);
    let inner = branch([empty(), leaf(5), empty(), empty(), empty(), empty(), empty(), empty()]);
    let expected =
        branch([empty(), inner, empty(), empty(), empty(), empty(), empty(), empty()]);
    assert_eq!(tree.root(), &expected);
}

#[test]
fn inserting_twice_is_inserting_once() {
    let mut counter = VoxelCounter::new();
    let mut once = SparseVoxelOctree::new(2, &mut counter);
    let mut counter = VoxelCounter::new();
    let mut twice = SparseVoxelOctree::new(2, &mut counter);
    once.insert(0, 0, 0, leaf(1), 1);
    twice.insert(0, 0, 0, leaf(1), 1);
    once.insert(1, 0, 1, leaf(2), 2);
    twice.insert(1, 0, 1, leaf(2), 2);
    twice.insert(1, 0, 1, leaf(2), 2);
    assert_eq!(once.root(), twice.root());
    assert_eq!(once.max_depth(), twice.max_depth());
    for x in 0..4 {
        for y in 0..4 {
            for z in 0..4 {
                assert_eq!(once.get(x, y, z), twice.get(x, y, z));
            }
        }
    }
}

#[test]
fn coordinates_wrap_around_the_side() {
    let mut counter = VoxelCounter::new();
    let mut tree = SparseVoxelOctree::new(1, &mut counter);
    assert_eq!(tree.get(2, 0, 0), Some(&Voxel { index: 0 }));
    assert_eq!(tree.get(3, 2, 5), Some(&Voxel { index: 5 }));
    assert_eq!(tree.get(u32::MAX, u32::MAX, u32::MAX), Some(&Voxel { index: 7 }));
    tree.insert(5, 4, 2, leaf(88), 1);
    assert_eq!(tree.get(1, 0, 0), Some(&Voxel { index: 88 }));
    assert_eq!(tree.get(0, 0, 0), Some(&Voxel { index: 0 }));
}

#[test]
fn insert_below_the_tree_grows_it() {
    let mut counter = VoxelCounter::new();
    let mut tree = SparseVoxelOctree::new(1, &mut counter);
    tree.insert(0, 0, 0, leaf(9999), 3);
    assert_eq!(tree.max_depth(), 3);
    assert_eq!(tree.get(0, 0, 0), Some(&Voxel { index: 9999 }));
    assert_eq!(tree.get(1, 0, 0), Some(&Voxel { index: 1 }));
    assert_eq!(tree.get(1, 1, 1), Some(&Voxel { index: 7 }));
    assert_eq!(tree.get(2, 0, 0), None);
    assert_eq!(tree.get(4, 4, 4), None);
    assert_eq!(tree.get(7, 7, 7), None);
    assert_eq!(tree.get(8, 8, 8), Some(&Voxel { index: 9999 }));
}

#[test]
fn insert_below_the_tree_writes_into_the_new_room() {
    let mut counter = VoxelCounter::new();
    let mut tree = SparseVoxelOctree::new(1, &mut counter);
    tree.insert(5, 6, 7, leaf(1234), 3);
    assert_eq!(tree.max_depth(), 3);
    assert_eq!(tree.get(5, 6, 7), Some(&Voxel { index: 1234 }));
    assert_eq!(tree.get(5, 6, 6), None);
    for index in 0..8 {
        assert_eq!(tree.get(index % 2, (index / 2) % 2, index / 4), Some(&Voxel { index }));
    }
}

#[test]
fn grow_wraps_the_root_as_octant_zero() {
    let mut counter = VoxelCounter::new();
    let mut tree = SparseVoxelOctree::new(0, &mut counter);
    tree.grow();
    assert_eq!(tree.max_depth(), 1);
    assert_eq!(
        tree.root(),
        &branch([leaf(0), empty(), empty(), empty(), empty(), empty(), empty(), empty()])
    );
    assert_eq!(tree.get(0, 0, 0), Some(&Voxel { index: 0 }));
    assert_eq!(tree.get(1, 0, 0), None);
}

#[test]
fn deepest_tree_side_fits_the_coordinates() {
    let mut counter = VoxelCounter::new();
    let mut tree = SparseVoxelOctree::new(0, &mut counter);
    tree.insert(u32::MAX, 0, 1 << 30, leaf(3), 31);
    assert_eq!(tree.max_depth(), 31);
    assert_eq!(tree.get(u32::MAX, 0, 1 << 30), Some(&Voxel { index: 3 }));
    assert_eq!(tree.get(u32::MAX - (1 << 31), 0, 1 << 30), Some(&Voxel { index: 3 }));
    assert_eq!(tree.get(0, 0, 0), Some(&Voxel { index: 0 }));
    assert_eq!(tree.get(1, 0, 0), None);
}

#[test]
fn insert_of_a_branch_at_a_unit_cell_leaves_the_cell_without_room() {
    let mut counter = VoxelCounter::new();
    let mut tree = SparseVoxelOctree::new(1, &mut counter);
    let subtree = Node::new(1, &mut counter);
    tree.insert(1, 1, 0, subtree, 1);
    assert_eq!(tree.max_depth(), 1);
    assert_eq!(tree.get(1, 1, 0), None);
    assert_eq!(tree.get(0, 1, 0), Some(&Voxel { index: 2 }));
    assert_eq!(tree.get(1, 1, 1), Some(&Voxel { index: 7 }));
}

#[test]
fn grow_up_to_the_deepest_tree() {
    let mut counter = VoxelCounter::new();
    let mut tree = SparseVoxelOctree::new(1, &mut counter);
    while tree.max_depth() < 31 {
        tree.grow();
    }
    assert_eq!(tree.max_depth(), 31);
    assert_eq!(tree.get(1, 0, 1), Some(&Voxel { index: 5 }));
    assert_eq!(tree.get(2, 0, 1), None);
    assert_eq!(tree.get((1 << 31) - 1, 0, 0), None);
    assert_eq!(tree.get(1 << 31, 0, 0), Some(&Voxel { index: 0 }));
}
