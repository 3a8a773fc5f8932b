use voxel_life::byte_tree::{get_child, set_child, CompleteByteOctree};
use voxel_life::cursor::{get_octant, node_key, tree_len, LevelCursor, TreeCursor};
use voxel_life::octree::{Octree, OctreeInner};
use voxel_life::vector::UVec3;

#[test]
fn tree_len_matches_geometric_sum() {
    let mut expected = 0;
    let mut nodes_at_level = 1;

    for depth in 0..=8 {
        expected += nodes_at_level;
        assert_eq!(tree_len(depth), expected);
        nodes_at_level *= 8;
    }
}

#[test]
fn cursor_descend_and_ascend_are_inverses() {
    for depth in 1..=8 {
        let root = TreeCursor::root(depth);
        let pos = UVec3::new(0, 0, 0);
        let mut level = LevelCursor::root(depth, &pos);
        level.descend();

        for octant in 0..8 {
            level.octant = octant;
            let mut cursor = root;
            cursor.descend(&level);
            assert_eq!(cursor.tree_len, tree_len(depth - 1));
            assert_eq!(cursor.index, 1 + octant * tree_len(depth - 1));
            cursor.ascend(&level);
            assert_eq!(cursor, root);
        }
    }
}

fn visit(cursor: TreeCursor, depth: u32, indexes: &mut Vec<u32>) {
    indexes.push(cursor.index);
    if depth == 0 {
        return;
    }

    for octant in 0..8 {
        let pos = UVec3::new(
            (octant & 1) << (depth - 1),
            ((octant >> 1) & 1) << (depth - 1),
            ((octant >> 2) & 1) << (depth - 1),
        );
        let child = LevelCursor::root(depth, &pos).descended();
        visit(cursor.descended(&child), depth - 1, indexes);
    }
}

#[test]
fn cursor_indexes_all_nodes_once() {
    for depth in 0..=5 {
        let mut indexes = Vec::new();
        visit(TreeCursor::root(depth), depth, &mut indexes);
        indexes.sort_unstable();
        assert_eq!(indexes, (0..tree_len(depth)).collect::<Vec<_>>());
    }
}

#[test]
fn complete_byte_octree_indexes_are_independent() {
    let mut tree = CompleteByteOctree::new(2, 0);
    let root = TreeCursor::root(2);
    let pos3 = UVec3::new(2, 2, 0);
    let pos5 = UVec3::new(0, 2, 2);
    let child3 = LevelCursor::root(2, &pos3).descended();
    let child5 = LevelCursor::root(2, &pos5).descended();

    tree.set_child(root, child3, true);
    tree.set_child(root, child5, true);

    assert!(tree.get_child(root, child3));
    assert!(tree.get_child(root, child5));
    assert!(!tree.get_child(root, LevelCursor::root(2, &UVec3::new(0, 0, 0)).descended()));
    assert!(!tree.get_child(root, LevelCursor::root(2, &UVec3::new(0, 2, 0)).descended()));
}

#[test]
fn metadata_trees_have_expected_depths() {
    let inner = OctreeInner::<u8>::new(3);

    assert_eq!(inner.children_have_children.vec.len(), tree_len(1) as usize);
    assert_eq!(inner.children_inherit_this.vec.len(), tree_len(2) as usize);
}

#[test]
fn octree_get_returns_root_and_set_values() {
    let mut tree = Octree::<u8, 3>::new(0);
    let first = UVec3::new(0, 0, 0);
    let second = UVec3::new(7, 3, 5);

    assert_eq!(*tree.get(first), 0);
    assert_eq!(*tree.get(second), 0);

    tree.set(first, 1);
    tree.set(second, 2);

    assert_eq!(*tree.get(first), 1);
    assert_eq!(*tree.get(second), 2);
}

#[test]
fn octree_preserves_values_for_all_octants() {
    let mut tree = Octree::<u8, 3>::new(0);

    for octant in 0..8 {
        let pos = UVec3::new(
            (octant & 1) * 4,
            ((octant >> 1) & 1) * 4,
            ((octant >> 2) & 1) * 4,
        );
        tree.set(pos, octant as u8 + 1);
    }

    for octant in 0..8 {
        let pos = UVec3::new(
            (octant & 1) * 4,
            ((octant >> 1) & 1) * 4,
            ((octant >> 2) & 1) * 4,
        );
        assert_eq!(*tree.get(pos), octant as u8 + 1);
    }
}

#[test]
fn octree_round_trips_deterministic_random_volume() {
    let mut tree = Octree::<u8, 3>::new(0);
    let mut expected = [0u8; 64];
    let mut state = 0x9e37_79b9u32;

    for value in &mut expected {
        state = state.wrapping_mul(1_664_525).wrapping_add(1_013_904_223);
        *value = (state % 11) as u8;
    }

    for (index, &value) in expected.iter().enumerate() {
        let pos = UVec3::new(
            (index % 4) as u32,
            ((index / 4) % 4) as u32,
            (index / 16) as u32,
        );
        tree.set(pos, value);
    }

    let mut round_trip = [0u8; 64];
    for (index, value) in round_trip.iter_mut().enumerate() {
        let pos = UVec3::new(
            (index % 4) as u32,
            ((index / 4) % 4) as u32,
            (index / 16) as u32,
        );
        *value = *tree.get(pos);
    }

    assert_eq!(round_trip, expected);
}

#[test]
fn octree_set_exercises_merge_transitions() {
    let mut tree = Octree::<u8, 3>::new(0);
    let a = UVec3::new(0, 0, 0);
    let b = UVec3::new(0, 0, 1);
    let c = UVec3::new(0, 1, 0);
    let d = UVec3::new(0, 1, 1);

    tree.set(a, 1);
    assert_eq!(*tree.get(a), 1);

    tree.set(b, 2);
    assert_eq!(*tree.get(a), 1);
    assert_eq!(*tree.get(b), 2);

    tree.set(b, 1);
    assert_eq!(*tree.get(a), 1);
    assert_eq!(*tree.get(b), 1);

    tree.set(c, 3);
    tree.set(d, 3);
    assert_eq!(*tree.get(c), 3);
    assert_eq!(*tree.get(d), 3);

    tree.set(c, 1);
    assert_eq!(*tree.get(c), 1);
    assert_eq!(*tree.get(d), 3);

    tree.set(a, 0);
    tree.set(b, 0);
    assert_eq!(*tree.get(a), 0);
    assert_eq!(*tree.get(b), 0);
    assert_eq!(*tree.get(c), 1);
    assert_eq!(*tree.get(d), 3);
}

#[test]
fn octree_of_depth_two_holds_every_cell() {
    let mut tree = Octree::<u8, 2>::new(7);
    for x in 0..4 {
        for y in 0..4 {
            for z in 0..4 {
                tree.set(UVec3::new(x, y, z), (x + 4 * y + 16 * z) as u8);
            }
        }
    }
    for x in 0..4 {
        for y in 0..4 {
            for z in 0..4 {
                assert_eq!(*tree.get(UVec3::new(x, y, z)), (x + 4 * y + 16 * z) as u8);
            }
        }
    }
}

#[test]
fn resetting_every_cell_restores_the_root_value() {
    let mut tree = Octree::<u8, 3>::new(5);
    let cells = [UVec3::new(0, 0, 0), UVec3::new(7, 7, 7), UVec3::new(3, 4, 5), UVec3::new(3, 4, 4)];
    for (i, c) in cells.iter().enumerate() {
        tree.set(*c, i as u8);
    }
    for c in cells.iter() {
        tree.set(*c, 5);
    }
    for x in 0..8 {
        for y in 0..8 {
            for z in 0..8 {
                assert_eq!(*tree.get(UVec3::new(x, y, z)), 5);
            }
        }
    }
}

#[test]
fn writes_in_either_order_agree() {
    let p = UVec3::new(1, 2, 3);
    let q = UVec3::new(6, 0, 2);
    let mut a = Octree::<u8, 3>::new(0);
    a.set(p, 4);
    a.set(q, 9);
    let mut b = Octree::<u8, 3>::new(0);
    b.set(q, 9);
    b.set(p, 4);
    for x in 0..8 {
        for y in 0..8 {
            for z in 0..8 {
                let c = UVec3::new(x, y, z);
                assert_eq!(*a.get(c), *b.get(c));
            }
        }
    }
}

#[test]
fn last_write_wins_and_write_back_restores() {
    let p = UVec3::new(2, 2, 2);
    let mut tree = Octree::<u8, 3>::new(1);
    tree.set(p, 3);
    tree.set(p, 8);
    assert_eq!(*tree.get(p), 8);
    tree.set(p, 1);
    assert_eq!(*tree.get(p), 1);
    assert_eq!(*tree.get(UVec3::new(2, 2, 3)), 1);
}

#[test]
fn cloned_octree_keeps_its_cells() {
    let mut tree = Octree::<u8, 3>::new(0);
    tree.set(UVec3::new(1, 1, 1), 6);
    let copy = tree.clone();
    tree.set(UVec3::new(1, 1, 1), 2);
    assert_eq!(*copy.get(UVec3::new(1, 1, 1)), 6);
    assert_eq!(*copy.get(UVec3::new(0, 1, 1)), 0);
    assert_eq!(*tree.get(UVec3::new(1, 1, 1)), 2);
}

#[test]
fn octants_and_keys() {
    let pos = UVec3::new(5, 2, 7);
    assert_eq!(get_octant(pos, 0), 1 | 0 << 1 | 1 << 2);
    assert_eq!(get_octant(pos, 1), 0 | 1 << 1 | 1 << 2);
    assert_eq!(get_octant(pos, 2), 1 | 0 << 1 | 1 << 2);
    assert_eq!(node_key(pos, 1), (2, 1, 3, 1));
    assert_eq!(node_key(pos, 0), (5, 2, 7, 0));
}

#[test]
fn child_flags_of_a_byte() {
    let mut byte = 0b0000_0000u8;
    set_child(&mut byte, 3, true);
    set_child(&mut byte, 6, true);
    assert_eq!(byte, 0b0100_1000);
    assert!(get_child(&byte, 3));
    assert!(!get_child(&byte, 4));
    set_child(&mut byte, 3, false);
    assert_eq!(byte, 0b0100_0000);
}

#[test]
fn resetting_the_only_changed_cell_leaves_a_bare_root() {
    let bare = format!("{:?}", Octree::<u8, 3>::new(0));
    let mut tree = Octree::<u8, 3>::new(0);
    tree.set(UVec3::new(0, 0, 0), 1);
    assert_ne!(format!("{:?}", tree), bare);
    tree.set(UVec3::new(0, 0, 0), 0);
    assert_eq!(format!("{:?}", tree), bare);
    assert_eq!(*tree.get(UVec3::new(0, 0, 0)), 0);

    let mut tree = Octree::<u8, 4>::new(9);
    tree.set(UVec3::new(15, 3, 8), 2);
    tree.set(UVec3::new(15, 3, 8), 9);
    assert_eq!(format!("{:?}", tree), format!("{:?}", Octree::<u8, 4>::new(9)));
}

#[test]
fn writing_the_value_a_cell_holds_changes_nothing() {
    let mut tree = Octree::<u8, 3>::new(0);
    tree.set(UVec3::new(1, 2, 3), 4);
    let before = format!("{:?}", tree);
    tree.set(UVec3::new(1, 2, 3), 4);
    tree.set(UVec3::new(5, 5, 5), 0);
    assert_eq!(format!("{:?}", tree), before);
}

#[test]
fn a_depth_first_walk_visits_each_index_once_in_order() {
    for depth in 0..5u32 {
        let mut indexes = Vec::new();
        visit(TreeCursor::root(depth), depth, &mut indexes);
        let expected: Vec<u32> = (0..tree_len(depth)).collect();
        assert_eq!(indexes, expected);
    }
}

#[test]
fn keys_name_one_node_on_one_level() {
    // cells of one node on level 2 share its key
    assert_eq!(node_key(UVec3::new(4, 8, 12), 2), node_key(UVec3::new(7, 11, 15), 2));
    // neighbouring nodes do not
    assert_ne!(node_key(UVec3::new(4, 8, 12), 2), node_key(UVec3::new(8, 8, 12), 2));
    // the same coordinates on two levels give two keys
    assert_ne!(node_key(UVec3::new(0, 0, 0), 0), node_key(UVec3::new(0, 0, 0), 1));
    assert_eq!(node_key(UVec3::new(255, 255, 255), 8), (0, 0, 0, 8));
}
