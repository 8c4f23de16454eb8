use b_tree::common_node::CommonNode;
use b_tree::errors::BTreeCreateError;
use b_tree::leaf_node::LeafNode;
use b_tree::order::binary_search;
use b_tree::types::{InsertType, TreeNode};
use b_tree::BTree;

fn leaf_of(tree: &BTree<i32, i32>, id: usize) -> &LeafNode<i32, i32> {
    match tree.get_node(id) {
        Some(TreeNode::Leaf(leaf)) => leaf,
        _ => unreachable!("unreachable"),
    }
}

fn common_of(tree: &BTree<i32, i32>, id: usize) -> &CommonNode<i32> {
    match tree.get_node(id) {
        Some(TreeNode::Common(node)) => node,
        _ => unreachable!("unreachable"),
    }
}

#[test]
fn it_should_create_new_tree() {
    let b_tree: BTree<i32, i32> = BTree::new(2, 3).unwrap();
    let (common_degree, leaf_degree) = b_tree.get_settings();

    assert_eq!(leaf_degree, 2);
    assert_eq!(common_degree, 3);
}

#[test]
fn it_should_search_in_empty_tree() {
    let b_tree: BTree<i32, i32> = BTree::new(2, 3).unwrap();

    assert_eq!(b_tree.search(&10), None);
}

#[test]
fn it_should_search_in_tree_with_single_value() {
    let mut b_tree: BTree<i32, i32> = BTree::new(2, 3).unwrap();

    b_tree.insert(&10, &110);
    assert_eq!(b_tree.search(&10), Some(110));
}

#[test]
fn test_search_multiple_values() {
    let mut b_tree: BTree<i32, i32> = BTree::new(2, 3).unwrap();

    b_tree.insert(&1, &11);
    b_tree.insert(&2, &12);
    b_tree.insert(&3, &13);
    b_tree.insert(&4, &14);

    assert_eq!(b_tree.search(&1), Some(11));
    assert_eq!(b_tree.search(&2), Some(12));
    assert_eq!(b_tree.search(&3), Some(13));
    assert_eq!(b_tree.search(&4), Some(14));
}

#[test]
fn it_should_store_all_values_correctly_for_1_leaf_node_degree_2() {
    let mut b_tree: BTree<i32, i32> = BTree::new(2, 3).unwrap();

    b_tree.insert(&10, &110);
    b_tree.insert(&20, &120);

    match b_tree.get_root() {
        TreeNode::Leaf(ref root_node) => {
            assert_eq!(*root_node.get_keys(), vec![10, 20]);
            assert_eq!(*root_node.get_values(), vec![110, 120]);
        }
        _ => unreachable!("Root should be a leaf node"),
    };
}

#[test]
fn it_should_store_all_values_correctly_for_leaf_degree_2_common_degree_3() {
    let mut b_tree: BTree<i32, i32> = BTree::new(2, 3).unwrap();

    b_tree.insert(&10, &110);
    b_tree.insert(&20, &120);
    b_tree.insert(&5, &15);
    b_tree.insert(&6, &16);
    b_tree.insert(&12, &112);
    b_tree.insert(&30, &130);
    b_tree.insert(&7, &17);
    b_tree.insert(&4, &14);

    match b_tree.get_root() {
        TreeNode::Common(ref root_node) => {
            assert_eq!(*root_node.get_keys(), vec![6, 10, 20]);

            let child_node_0 = root_node.get_childs()[0];
            match b_tree.get_node(child_node_0).unwrap() {
                TreeNode::Leaf(ref child) => {
                    assert_eq!(*child.get_keys(), vec![4, 5]);
                    assert_eq!(*child.get_values(), vec![14, 15]);
                }
                _ => unreachable!("unreachable"),
            };

            let child_node_1 = root_node.get_childs()[1];
            match b_tree.get_node(child_node_1).unwrap() {
                TreeNode::Leaf(ref child) => {
                    assert_eq!(*child.get_keys(), vec![6, 7]);
                    assert_eq!(*child.get_values(), vec![16, 17]);
                }
                _ => unreachable!("unreachable"),
            };

            let child_node_2 = root_node.get_childs()[2];
            match b_tree.get_node(child_node_2).unwrap() {
                TreeNode::Leaf(ref child) => {
                    assert_eq!(*child.get_keys(), vec![10, 12]);
                    assert_eq!(*child.get_values(), vec![110, 112]);
                }
                _ => unreachable!("unreachable"),
            };

            let child_node_3 = root_node.get_childs()[3];
            match b_tree.get_node(child_node_3).unwrap() {
                TreeNode::Leaf(ref child) => {
                    assert_eq!(*child.get_keys(), vec![20, 30]);
                    assert_eq!(*child.get_values(), vec![120, 130]);
                }
                _ => unreachable!("unreachable"),
            };
        }
        _ => unreachable!("Root should be a common node"),
    }
}

#[test]
fn it_should_correctly_store_all_values_after_left_move() {
    let mut b_tree: BTree<i32, i32> = BTree::new(2, 2).unwrap();

    b_tree.insert(&6, &16);
    b_tree.insert(&8, &18);
    b_tree.insert(&10, &110);
    b_tree.insert(&12, &112);
    b_tree.insert(&14, &114);
    b_tree.insert(&4, &14);
    b_tree.insert(&16, &116);
    b_tree.insert(&11, &111);

    match b_tree.get_root() {
        TreeNode::Common(ref root) => {
            assert_eq!(*root.get_keys(), vec![11]);

            let child_node_0 = root.get_childs()[0];
            match b_tree.get_node(child_node_0).unwrap() {
                TreeNode::Common(ref child) => {
                    assert_eq!(*child.get_keys(), vec![8]);

                    let child_node_0 = child.get_childs()[0];
                    match b_tree.get_node(child_node_0).unwrap() {
                        TreeNode::Leaf(ref child) => {
                            assert_eq!(*child.get_keys(), vec![4, 6]);
                            assert_eq!(*child.get_values(), vec![14, 16]);
                        }
                        _ => unreachable!("unreachable"),
                    };

                    let child_node_1 = child.get_childs()[1];
                    match b_tree.get_node(child_node_1).unwrap() {
                        TreeNode::Leaf(ref child) => {
                            assert_eq!(*child.get_keys(), vec![8, 10]);
                            assert_eq!(*child.get_values(), vec![18, 110]);
                        }
                        _ => unreachable!("unreachable"),
                    };
                }
                _ => unreachable!("unreachable"),
            };

            let child_node_1 = root.get_childs()[1];
            match b_tree.get_node(child_node_1).unwrap() {
                TreeNode::Common(ref child) => {
                    assert_eq!(*child.get_keys(), vec![14]);

                    let child_node_0 = child.get_childs()[0];
                    match b_tree.get_node(child_node_0).unwrap() {
                        TreeNode::Leaf(ref child) => {
                            assert_eq!(*child.get_keys(), vec![11, 12]);
                            assert_eq!(*child.get_values(), vec![111, 112]);
                        }
                        _ => unreachable!("unreachable"),
                    };

                    let child_node_1 = child.get_childs()[1];
                    match b_tree.get_node(child_node_1).unwrap() {
                        TreeNode::Leaf(ref child) => {
                            assert_eq!(*child.get_keys(), vec![14, 16]);
                            assert_eq!(*child.get_values(), vec![114, 116]);
                        }
                        _ => unreachable!("unreachable"),
                    };
                }
                _ => unreachable!("unreachable"),
            };
        }
        _ => unreachable!("Root should be a common node"),
    };
}

#[test]
fn new_rejects_a_leaf_degree_of_zero() {
    let r: Result<BTree<i32, i32>, BTreeCreateError> = BTree::new(0, 3);
    assert_eq!(r.err(), Some(BTreeCreateError::ZeroLeafNodeDegree));
    // the leaf degree is looked at first
    let r: Result<BTree<i32, i32>, BTreeCreateError> = BTree::new(0, 0);
    assert_eq!(r.err(), Some(BTreeCreateError::ZeroLeafNodeDegree));
}

#[test]
fn new_rejects_a_common_degree_below_two() {
    let r: Result<BTree<i32, i32>, BTreeCreateError> = BTree::new(1, 1);
    assert_eq!(r.err(), Some(BTreeCreateError::WrongCommonNodeDegree));
    let r: Result<BTree<i32, i32>, BTreeCreateError> = BTree::new(1, 0);
    assert_eq!(r.err(), Some(BTreeCreateError::WrongCommonNodeDegree));
    let r: Result<BTree<i32, i32>, BTreeCreateError> = BTree::new(1, 2);
    assert!(r.is_ok());
}

#[test]
fn create_errors_have_their_messages() {
    assert_eq!(
        BTreeCreateError::ZeroLeafNodeDegree.message(),
        "The leaf node degree could not be equal to 0"
    );
    assert_eq!(
        BTreeCreateError::WrongCommonNodeDegree.message(),
        "The common node degree should be greater than 1"
    );
}

#[test]
fn a_new_tree_is_one_empty_leaf() {
    let b_tree: BTree<i32, i32> = BTree::new(2, 3).unwrap();
    assert_eq!(b_tree.node_count(), 1);
    match b_tree.get_root() {
        TreeNode::Leaf(root) => {
            assert!(root.get_keys().is_empty());
            assert!(root.get_values().is_empty());
            assert_eq!(root.get_left_node(), None);
            assert_eq!(root.get_right_node(), None);
        }
        _ => unreachable!("unreachable"),
    }
    assert!(b_tree.get_node(1).is_none());
}

#[test]
fn inserting_a_key_twice_stores_two_entries() {
    let mut b_tree: BTree<i32, i32> = BTree::new(3, 3).unwrap();
    b_tree.insert(&10, &110);
    b_tree.insert(&10, &210);
    match b_tree.get_root() {
        TreeNode::Leaf(root) => {
            // the later entry stands in front of the earlier one
            assert_eq!(*root.get_keys(), vec![10, 10]);
            assert_eq!(*root.get_values(), vec![210, 110]);
        }
        _ => unreachable!("unreachable"),
    }
    assert_eq!(b_tree.search(&10), Some(210));
}

#[test]
fn a_repeated_separator_key_goes_left_and_is_searched_right() {
    let mut b_tree: BTree<i32, i32> = BTree::new(2, 3).unwrap();
    b_tree.insert(&10, &110);
    b_tree.insert(&20, &120);
    b_tree.insert(&30, &130);
    // leaves [10] and [20, 30] under the separator 20
    b_tree.insert(&20, &220);
    let root = match b_tree.get_root() {
        TreeNode::Common(root) => root,
        _ => unreachable!("unreachable"),
    };
    assert_eq!(*root.get_keys(), vec![20]);
    let left = leaf_of(&b_tree, root.get_childs()[0]);
    let right = leaf_of(&b_tree, root.get_childs()[1]);
    assert_eq!(*left.get_keys(), vec![10, 20]);
    assert_eq!(*left.get_values(), vec![110, 220]);
    assert_eq!(*right.get_keys(), vec![20, 30]);
    assert_eq!(*right.get_values(), vec![120, 130]);
    // the search follows the separator to the right and finds the older entry
    assert_eq!(b_tree.search(&20), Some(120));
}

#[test]
fn a_leaf_split_copies_the_middle_key_up() {
    let mut b_tree: BTree<i32, i32> = BTree::new(2, 3).unwrap();
    b_tree.insert(&10, &110);
    b_tree.insert(&20, &120);
    b_tree.insert(&30, &130);
    let root = match b_tree.get_root() {
        TreeNode::Common(root) => root,
        _ => unreachable!("unreachable"),
    };
    // three entries: the middle index is 1, the left half keeps one entry
    assert_eq!(*root.get_keys(), vec![20]);
    assert_eq!(root.get_childs().len(), 2);
    let left_id = root.get_childs()[0];
    let right_id = root.get_childs()[1];
    let left = leaf_of(&b_tree, left_id);
    let right = leaf_of(&b_tree, right_id);
    assert_eq!(*left.get_keys(), vec![10]);
    assert_eq!(*right.get_keys(), vec![20, 30]);
    assert_eq!(left.get_left_node(), None);
    assert_eq!(left.get_right_node(), Some(right_id));
    assert_eq!(right.get_left_node(), Some(left_id));
    assert_eq!(right.get_right_node(), None);
    assert_eq!(b_tree.node_count(), 3);
}

#[test]
fn a_full_leaf_gives_its_last_entry_to_the_right() {
    let mut b_tree: BTree<i32, i32> = BTree::new(3, 3).unwrap();
    for k in [10, 20, 30, 40] {
        b_tree.insert(&k, &(k + 100));
    }
    // leaves [10, 20] and [30, 40] under 30
    b_tree.insert(&15, &115);
    // the left leaf is full now: [10, 15, 20]
    b_tree.insert(&12, &112);
    let root = match b_tree.get_root() {
        TreeNode::Common(root) => root,
        _ => unreachable!("unreachable"),
    };
    assert_eq!(*root.get_keys(), vec![20]);
    let left = leaf_of(&b_tree, root.get_childs()[0]);
    let right = leaf_of(&b_tree, root.get_childs()[1]);
    assert_eq!(*left.get_keys(), vec![10, 12, 15]);
    assert_eq!(*left.get_values(), vec![110, 112, 115]);
    assert_eq!(*right.get_keys(), vec![20, 30, 40]);
    assert_eq!(*right.get_values(), vec![120, 130, 140]);
    assert_eq!(b_tree.node_count(), 3);
    for k in [10, 12, 15, 20, 30, 40] {
        assert_eq!(b_tree.search(&k), Some(k + 100));
    }
}

#[test]
fn a_full_leaf_gives_its_first_entry_to_the_left() {
    let mut b_tree: BTree<i32, i32> = BTree::new(3, 3).unwrap();
    for k in [10, 20, 30, 40] {
        b_tree.insert(&k, &(k + 100));
    }
    b_tree.insert(&50, &150);
    // leaves [10, 20] and [30, 40, 50] under 30
    b_tree.insert(&35, &135);
    let root = match b_tree.get_root() {
        TreeNode::Common(root) => root,
        _ => unreachable!("unreachable"),
    };
    assert_eq!(*root.get_keys(), vec![35]);
    let left = leaf_of(&b_tree, root.get_childs()[0]);
    let right = leaf_of(&b_tree, root.get_childs()[1]);
    assert_eq!(*left.get_keys(), vec![10, 20, 30]);
    assert_eq!(*right.get_keys(), vec![35, 40, 50]);
    assert_eq!(*right.get_values(), vec![135, 140, 150]);
    assert_eq!(b_tree.node_count(), 3);
}

#[test]
fn an_internal_split_moves_the_middle_key_up() {
    let mut b_tree: BTree<i32, i32> = BTree::new(1, 2).unwrap();
    for k in [10, 20, 30, 40] {
        b_tree.insert(&k, &(k + 100));
    }
    // with leaves of one entry every insertion splits a leaf; the root
    // got the separators 20, 30, 40 and was split at 30
    let root = match b_tree.get_root() {
        TreeNode::Common(root) => root,
        _ => unreachable!("unreachable"),
    };
    assert_eq!(*root.get_keys(), vec![30]);
    let left = common_of(&b_tree, root.get_childs()[0]);
    let right = common_of(&b_tree, root.get_childs()[1]);
    assert_eq!(*left.get_keys(), vec![20]);
    assert_eq!(*right.get_keys(), vec![40]);
    assert_eq!(*leaf_of(&b_tree, left.get_childs()[0]).get_keys(), vec![10]);
    assert_eq!(*leaf_of(&b_tree, left.get_childs()[1]).get_keys(), vec![20]);
    assert_eq!(*leaf_of(&b_tree, right.get_childs()[0]).get_keys(), vec![30]);
    assert_eq!(*leaf_of(&b_tree, right.get_childs()[1]).get_keys(), vec![40]);
}

fn depth(tree: &BTree<i32, i32>) -> usize {
    let mut id = tree.get_root_id();
    let mut levels = 0;
    loop {
        match tree.get_node(id).unwrap() {
            TreeNode::Leaf(_) => return levels,
            TreeNode::Common(node) => {
                id = node.get_childs()[0];
                levels += 1;
            }
        }
    }
}

fn check_shape(tree: &BTree<i32, i32>) -> Vec<(i32, i32)> {
    let (common_degree, leaf_degree) = tree.get_settings();
    // every node is within its capacity, and has one child more than keys
    for id in 0..tree.node_count() {
        match tree.get_node(id).unwrap() {
            TreeNode::Leaf(leaf) => {
                assert!(leaf.get_keys().len() <= leaf_degree);
                assert_eq!(leaf.get_keys().len(), leaf.get_values().len());
            }
            TreeNode::Common(node) => {
                assert!(node.get_keys().len() <= common_degree);
                assert_eq!(node.get_childs().len(), node.get_keys().len() + 1);
            }
        }
    }
    // walk right from the first leaf, then back
    let mut id = tree.get_root_id();
    loop {
        match tree.get_node(id).unwrap() {
            TreeNode::Leaf(_) => break,
            TreeNode::Common(node) => id = node.get_childs()[0],
        }
    }
    let first = id;
    assert_eq!(leaf_of(tree, first).get_left_node(), None);
    let mut entries = Vec::new();
    let mut leaves = 0;
    loop {
        let leaf = leaf_of(tree, id);
        for i in 0..leaf.get_keys().len() {
            entries.push((leaf.get_keys()[i], leaf.get_values()[i]));
        }
        leaves += 1;
        match leaf.get_right_node() {
            Some(next) => {
                assert_eq!(leaf_of(tree, next).get_left_node(), Some(id));
                id = next;
            }
            None => break,
        }
    }
    let mut back = 1;
    while let Some(prev) = leaf_of(tree, id).get_left_node() {
        assert_eq!(leaf_of(tree, prev).get_right_node(), Some(id));
        id = prev;
        back += 1;
    }
    assert_eq!(id, first);
    assert_eq!(back, leaves);
    for i in 1..entries.len() {
        assert!(entries[i - 1].0 <= entries[i].0);
    }
    entries
}

#[test]
fn many_insertions_keep_the_tree_in_shape() {
    for (leaf_degree, common_degree) in [(1, 2), (2, 2), (2, 3), (3, 2), (4, 5)] {
        let mut b_tree: BTree<i32, i32> = BTree::new(leaf_degree, common_degree).unwrap();
        let mut expected: Vec<(i32, i32)> = Vec::new();
        let mut last_depth = 0;
        let mut k: i32 = 7;
        for _ in 0..200 {
            k = (k * 37 + 11) % 1009;
            b_tree.insert(&k, &(k + 1000));
            expected.push((k, k + 1000));
            let now = depth(&b_tree);
            assert!(now >= last_depth);
            assert!(now <= last_depth + 1);
            last_depth = now;
        }
        let entries = check_shape(&b_tree);
        expected.sort();
        assert_eq!(entries, expected);
        for (key, value) in expected.iter() {
            assert_eq!(b_tree.search(key), Some(*value));
        }
        assert_eq!(b_tree.search(&-1), None);
        assert_eq!(b_tree.search(&2000), None);
    }
}

#[test]
fn distinct_keys_are_all_found_with_their_values() {
    let mut b_tree: BTree<i32, i32> = BTree::new(2, 2).unwrap();
    let keys = [50, 10, 90, 30, 70, 20, 80, 40, 60, 0, 100, 55, 45, 35, 65, 5, 95];
    for (i, k) in keys.iter().enumerate() {
        b_tree.insert(k, &(k * 2));
        for earlier in keys[..=i].iter() {
            assert_eq!(b_tree.search(earlier), Some(earlier * 2));
        }
        for later in keys[i + 1..].iter() {
            assert_eq!(b_tree.search(later), None);
        }
        check_shape(&b_tree);
    }
}

#[test]
fn other_integer_keys_are_ordered_as_integers_are() {
    let mut b_tree: BTree<u8, bool> = BTree::new(2, 2).unwrap();
    for k in [200u8, 3, 255, 0, 128, 127, 64] {
        b_tree.insert(&k, &(k % 2 == 0));
    }
    assert_eq!(b_tree.search(&255), Some(false));
    assert_eq!(b_tree.search(&0), Some(true));
    assert_eq!(b_tree.search(&128), Some(true));
    assert_eq!(b_tree.search(&1), None);
    let mut b_tree: BTree<i64, usize> = BTree::new(1, 2).unwrap();
    for (i, k) in [i64::MAX, -1, i64::MIN, 0, 1].iter().enumerate() {
        b_tree.insert(k, &i);
    }
    assert_eq!(b_tree.search(&i64::MIN), Some(2));
    assert_eq!(b_tree.search(&i64::MAX), Some(0));
    assert_eq!(b_tree.search(&-1), Some(1));
    assert_eq!(b_tree.search(&2), None);
}

#[test]
fn the_ordered_search_finds_the_first_of_equal_keys() {
    let keys = vec![1, 3, 3, 3, 5, 7];
    assert_eq!(binary_search(&keys, &3), Ok(1));
    assert_eq!(binary_search(&keys, &1), Ok(0));
    assert_eq!(binary_search(&keys, &7), Ok(5));
    assert_eq!(binary_search(&keys, &0), Err(0));
    assert_eq!(binary_search(&keys, &4), Err(4));
    assert_eq!(binary_search(&keys, &8), Err(6));
    assert_eq!(binary_search(&Vec::<i32>::new(), &8), Err(0));
}

#[test]
fn nodes_are_made_with_what_they_are_given() {
    let leaf: LeafNode<i32, i32> = LeafNode::new(4, Some(vec![1, 2]), Some(vec![10, 20]));
    assert_eq!(*leaf.get_keys(), vec![1, 2]);
    assert_eq!(*leaf.get_values(), vec![10, 20]);
    assert_eq!(leaf.get_left_node(), None);
    assert_eq!(leaf.get_right_node(), None);
    let leaf: LeafNode<i32, i32> = LeafNode::new(4, None, None);
    assert!(leaf.get_keys().is_empty());
    assert!(leaf.get_values().is_empty());
    let node: CommonNode<i32> = CommonNode::new(3, Some(vec![5]), Some(vec![0, 1]));
    assert_eq!(*node.get_keys(), vec![5]);
    assert_eq!(*node.get_childs(), vec![0, 1]);
    let node: CommonNode<i32> = CommonNode::new(3, None, None);
    assert!(node.get_keys().is_empty());
    assert!(node.get_childs().is_empty());
}

#[test]
fn a_leaf_in_an_arena_takes_entries_and_splits() {
    let mut nodes: Vec<TreeNode<i32, i32>> = vec![TreeNode::Leaf(LeafNode::new(2, None, None))];
    assert!(matches!(LeafNode::insert(&mut nodes, 0, &5, &50), InsertType::Normal));
    assert!(matches!(LeafNode::insert(&mut nodes, 0, &3, &30), InsertType::Normal));
    match LeafNode::insert(&mut nodes, 0, &4, &40) {
        InsertType::Split(median, left, right) => {
            assert_eq!((median, left, right), (4, 0, 1));
        }
        _ => unreachable!("unreachable"),
    }
    assert_eq!(nodes.len(), 2);
    match (&nodes[0], &nodes[1]) {
        (TreeNode::Leaf(left), TreeNode::Leaf(right)) => {
            assert_eq!(*left.get_keys(), vec![3]);
            assert_eq!(*left.get_values(), vec![30]);
            assert_eq!(*right.get_keys(), vec![4, 5]);
            assert_eq!(*right.get_values(), vec![40, 50]);
            assert_eq!(left.get_right_node(), Some(1));
            assert_eq!(right.get_left_node(), Some(0));
        }
        _ => unreachable!("unreachable"),
    }
    // with room on the left, the right leaf gives its first entry away
    assert!(matches!(LeafNode::insert(&mut nodes, 1, &6, &60), InsertType::LeftMove(5)));
    match (&nodes[0], &nodes[1]) {
        (TreeNode::Leaf(left), TreeNode::Leaf(right)) => {
            assert_eq!(*left.get_keys(), vec![3, 4]);
            assert_eq!(*right.get_keys(), vec![5, 6]);
        }
        _ => unreachable!("unreachable"),
    }
}

#[test]
fn an_internal_node_in_an_arena_is_split_around_its_middle_key() {
    let mut nodes: Vec<TreeNode<i32, i32>> = vec![TreeNode::Common(CommonNode::new(
        2,
        Some(vec![10, 20, 30]),
        Some(vec![1, 2, 3, 4]),
    ))];
    let (median, left, right) = CommonNode::split(&mut nodes, 0);
    assert_eq!((median, left, right), (20, 0, 1));
    match (&nodes[0], &nodes[1]) {
        (TreeNode::Common(left), TreeNode::Common(right)) => {
            assert_eq!(*left.get_keys(), vec![10]);
            assert_eq!(*left.get_childs(), vec![1, 2]);
            assert_eq!(*right.get_keys(), vec![30]);
            assert_eq!(*right.get_childs(), vec![3, 4]);
        }
        _ => unreachable!("unreachable"),
    }
}
