use sparse_voxel_octree::grid::octant_index;
use sparse_voxel_octree::grid::side_length;
use sparse_voxel_octree::Node;
use sparse_voxel_octree::Voxel;
use sparse_voxel_octree::VoxelCounter;

fn payload(index: u32) -> Node {
    Node::Leaf(Some(Voxel { index }))
}

fn octants(children: [Node; 8]) -> Node {
    Node::Branch { children: Box::new(children) }
}

fn vacant() -> Node {
    Node::Leaf(None)
}

#[test]
fn counter_starts_at_zero_and_steps_by_one() {
    let mut counter = VoxelCounter::new();
    assert_eq!(counter.peek(), 0);
    assert_eq!(Voxel::new(&mut counter), Voxel { index: 0 });
    assert_eq!(Voxel::new(&mut counter), Voxel { index: 1 });
    assert_eq!(Voxel::new(&mut counter), Voxel { index: 2 });
    assert_eq!(counter.peek(), 3);
}

#[test]
fn counter_can_start_anywhere() {
    let mut counter = VoxelCounter::starting_at(u32::MAX - 1);
    assert_eq!(Voxel::new(&mut counter), Voxel { index: u32::MAX - 1 });
    assert_eq!(counter.peek(), u32::MAX);
}

#[test]
fn counter_knows_whether_a_full_tree_has_room() {
    assert!(VoxelCounter::new().has_room(0));
    assert!(VoxelCounter::new().has_room(10));
    assert!(!VoxelCounter::new().has_room(11));
    assert!(!VoxelCounter::new().has_room(21));
    assert!(!VoxelCounter::new().has_room(u32::MAX));
    assert!(VoxelCounter::starting_at(u32::MAX - 1).has_room(0));
    assert!(!VoxelCounter::starting_at(u32::MAX).has_room(0));
    assert!(VoxelCounter::starting_at(u32::MAX - 8).has_room(1));
    assert!(!VoxelCounter::starting_at(u32::MAX - 7).has_room(1));
    assert!(VoxelCounter::starting_at(u32::MAX - (1 << 30)).has_room(10));
    assert!(!VoxelCounter::starting_at(u32::MAX - (1 << 30) + 1).has_room(10));
}

#[test]
fn voxel_is_copied_by_value() {
    let first = Voxel { index: 5 };
    let mut copy = first;
    copy.index = 6;
    assert_eq!(first, Voxel { index: 5 });
    assert_eq!(copy, Voxel { index: 6 });
}

#[test]
fn side_length_is_a_power_of_two() {
    assert_eq!(side_length(0), 1);
    assert_eq!(side_length(1), 2);
    assert_eq!(side_length(5), 32);
    assert_eq!(side_length(31), 2147483648);
}

#[test]
fn octant_index_sets_one_bit_per_axis() {
    assert_eq!(octant_index(0, 0, 0, 2), 0);
    assert_eq!(octant_index(1, 0, 0, 2), 1);
    assert_eq!(octant_index(0, 1, 0, 2), 2);
    assert_eq!(octant_index(1, 1, 0, 2), 3);
    assert_eq!(octant_index(0, 0, 1, 2), 4);
    assert_eq!(octant_index(1, 0, 1, 2), 5);
    assert_eq!(octant_index(0, 1, 1, 2), 6);
    assert_eq!(octant_index(1, 1, 1, 2), 7);
}

#[test]
fn octant_index_compares_with_the_half_side() {
    assert_eq!(octant_index(3, 4, 7, 8), 6);
    assert_eq!(octant_index(4, 3, 0, 8), 1);
    assert_eq!(octant_index(8, 12, 9, 8), 2);
    assert_eq!(octant_index(2, 3, 5, 6), 6);
}

#[test]
fn node_new_of_depth_zero_is_a_leaf() {
    let mut counter = VoxelCounter::starting_at(9);
    assert_eq!(Node::new(0, &mut counter), payload(9));
    assert_eq!(counter.peek(), 10);
}

#[test]
fn node_new_expands_every_level() {
    let mut counter = VoxelCounter::new();
    let node = Node::new(2, &mut counter);
    assert_eq!(counter.peek(), 64);
    match &node {
        Node::Branch { children } => {
            for (i, child) in children.iter().enumerate() {
                let first = 8 * i as u32;
                assert_eq!(
                    child,
                    &octants([
                        payload(first),
                        payload(first + 1),
                        payload(first + 2),
                        payload(first + 3),
                        payload(first + 4),
                        payload(first + 5),
                        payload(first + 6),
                        payload(first + 7),
                    ])
                );
            }
        }
        Node::Leaf(_) => panic!("a tree of depth 2 starts with a branch"),
    }
}

#[test]
fn node_get_on_a_leaf_ignores_the_cell() {
    let node = payload(3);
    assert_eq!(node.get(0, 0, 0, 8), Some(&Voxel { index: 3 }));
    assert_eq!(node.get(7, 2, 5, 8), Some(&Voxel { index: 3 }));
    assert_eq!(vacant().get(1, 1, 1, 2), None);
}

#[test]
fn node_get_descends_by_octant() {
    let mut counter = VoxelCounter::new();
    let node = Node::new(3, &mut counter);
    assert_eq!(node.get(0, 0, 0, 8), Some(&Voxel { index: 0 }));
    assert_eq!(node.get(7, 7, 7, 8), Some(&Voxel { index: 511 }));
    assert_eq!(node.get(4, 0, 0, 8), Some(&Voxel { index: 64 }));
    assert_eq!(node.get(5, 2, 1, 8), Some(&Voxel { index: 64 + 16 + 5 }));
}

#[test]
fn node_get_accepts_a_side_that_is_no_power_of_two() {
    let mut counter = VoxelCounter::new();
    let node = Node::new(1, &mut counter);
    assert_eq!(node.get(2, 0, 0, 6), Some(&Voxel { index: 0 }));
    assert_eq!(node.get(3, 0, 0, 6), Some(&Voxel { index: 1 }));
    assert_eq!(node.get(5, 5, 2, 6), Some(&Voxel { index: 3 }));
    assert_eq!(node.get(6, 0, 0, 6), Some(&Voxel { index: 0 }));
}

#[test]
fn node_insert_at_depth_zero_replaces_the_node() {
    let mut counter = VoxelCounter::new();
    let mut node = Node::new(2, &mut counter);
    node.insert(3, 3, 3, payload(1), 4, 0);
    assert_eq!(node, payload(1));
    node.insert(0, 0, 0, vacant(), 0, 0);
    assert_eq!(node, vacant());
}

#[test]
fn node_insert_splits_a_leaf_on_the_way_down() {
    let mut node = payload(10);
    node.insert(1, 0, 0, payload(11), 2, 1);
    assert_eq!(
        node,
        octants([
            payload(10),
            payload(11),
            payload(10),
            payload(10),
            payload(10),
            payload(10),
            payload(10),
            payload(10),
        ])
    );
}

#[test]
fn node_insert_splits_an_empty_leaf_into_empty_leaves() {
    let mut node = vacant();
    node.insert(0, 1, 1, payload(1), 4, 2);
    let inner =
        octants([vacant(), vacant(), vacant(), vacant(), vacant(), vacant(), payload(1), vacant()]);
    assert_eq!(
        node,
        octants([inner, vacant(), vacant(), vacant(), vacant(), vacant(), vacant(), vacant()])
    );
    assert_eq!(node.get(0, 1, 1, 4), Some(&Voxel { index: 1 }));
    assert_eq!(node.get(1, 1, 1, 4), None);
}

#[test]
fn node_insert_into_a_branch_touches_one_child() {
    let mut counter = VoxelCounter::new();
    let mut node = Node::new(1, &mut counter);
    node.insert(0, 1, 1, vacant(), 2, 1);
    assert_eq!(
        node,
        octants([
            payload(0),
            payload(1),
            payload(2),
            payload(3),
            payload(4),
            payload(5),
            vacant(),
            payload(7),
        ])
    );
}

#[test]
fn node_insert_wraps_coordinates() {
    let mut node = vacant();
    node.insert(9, 4, 6, payload(2), 4, 2);
    assert_eq!(node.get(1, 0, 2, 4), Some(&Voxel { index: 2 }));
    assert_eq!(node.get(0, 0, 2, 4), None);
}

#[test]
fn node_get_on_a_branch_without_room_finds_nothing() {
    let mut counter = VoxelCounter::new();
    let node = Node::new(1, &mut counter);
    assert_eq!(node.get(0, 0, 0, 1), None);
    assert_eq!(node.get(0, 0, 0, 0), None);
    assert_eq!(payload(4).get(0, 0, 0, 0), Some(&Voxel { index: 4 }));
    let deep = Node::new(2, &mut counter);
    assert_eq!(deep.get(1, 1, 1, 2), None);
}
