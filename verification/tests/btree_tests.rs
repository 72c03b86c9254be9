use btree_index::node::BTreeNode;
use btree_index::tree::BTree;

// Value codes used across the tests, standing in for the payloads the
// tree carries (the key-to-value association is what matters).
const FOO: u64 = 1;
const ABC: u64 = 2;
const BLUB: u64 = 3;
const BAR: u64 = 4;
const ABE: u64 = 5;
const BIF: u64 = 6;

fn sample_data() -> Vec<(u64, u64)> {
    vec![(1, FOO), (3, ABC), (6, BLUB), (8, BAR), (9, ABE), (10, BIF)]
}

fn build_tree(data: &[(u64, u64)]) -> BTree {
    let mut b = BTree::new(2);
    for (key, value) in data.iter() {
        assert!(b.lookup(key).is_none());
        b.insert(*key, *value);
    }
    b
}

fn collect_leaf_depths(node: &BTreeNode, depth: usize, out: &mut Vec<usize>) {
    if node.children.is_empty() {
        out.push(depth);
    } else {
        for child in node.children.iter() {
            collect_leaf_depths(child, depth + 1, out);
        }
    }
}

fn max_node_keys(node: &BTreeNode) -> usize {
    let mut m = node.keys.len();
    for child in node.children.iter() {
        let c = max_node_keys(child);
        if c > m {
            m = c;
        }
    }
    m
}

fn assert_invariants(b: &BTree, capacity: usize) {
    // Balance: every leaf at the same depth.
    let mut depths = Vec::new();
    collect_leaf_depths(&b.root, 0, &mut depths);
    for d in depths.iter() {
        assert_eq!(*d, depths[0]);
    }
    // Capacity: no node over the configured size.
    assert!(max_node_keys(&b.root) <= capacity);
    // Order: in-order traversal strictly ascending.
    let keys = b.keys_in_order();
    for w in keys.windows(2) {
        assert!(w[0] < w[1]);
    }
}

#[test]
fn insert_forward_then_lookup() {
    let b = build_tree(&sample_data());
    assert_eq!(b.lookup(&3), Some(ABC));
    assert_eq!(b.lookup(&10), Some(BIF));
    assert_eq!(b.lookup(&0), None);
    assert_eq!(b.lookup(&7), None);
}

#[test]
fn insert_reverse_then_lookup() {
    let mut data = sample_data();
    data.reverse();
    let mut b = BTree::new(2);
    for (i, (key, value)) in data.iter().enumerate() {
        b.insert(*key, *value);
        for (seen, _) in data[..i + 1].iter() {
            assert!(b.lookup(seen).is_some());
        }
    }
    assert_eq!(b.lookup(&3), Some(ABC));
    assert_eq!(b.lookup(&10), Some(BIF));
    assert_eq!(b.lookup(&0), None);
    assert_eq!(b.lookup(&2), None);
    assert_eq!(b.lookup(&7), None);
    assert_eq!(b.lookup(&100), None);
}

#[test]
fn prebuilt_two_level_tree() {
    let b = BTree {
        root: BTreeNode {
            node_size: 2,
            keys: vec![3, 8],
            values: vec![32, 82],
            children: vec![
                BTreeNode { node_size: 2, keys: vec![1], values: vec![12], children: vec![] },
                BTreeNode { node_size: 2, keys: vec![6], values: vec![62], children: vec![] },
                BTreeNode {
                    node_size: 2,
                    keys: vec![9, 10],
                    values: vec![92, 102],
                    children: vec![],
                },
            ],
        },
    };
    assert_eq!(b.lookup(&1), Some(12));
    assert_eq!(b.lookup(&8), Some(82));
    assert_eq!(b.lookup(&6), Some(62));
    assert_eq!(b.lookup(&10), Some(102));
    assert_eq!(b.lookup(&100), None);
}

#[test]
fn seventh_key_splits_again() {
    let mut b = build_tree(&sample_data());
    assert_invariants(&b, 2);
    let depth_before = {
        let mut depths = Vec::new();
        collect_leaf_depths(&b.root, 0, &mut depths);
        depths[0]
    };
    b.insert(7, 7777);
    assert_invariants(&b, 2);
    let depth_after = {
        let mut depths = Vec::new();
        collect_leaf_depths(&b.root, 0, &mut depths);
        depths[0]
    };
    assert!(depth_after >= depth_before);
    for (key, value) in sample_data().iter() {
        assert_eq!(b.lookup(key), Some(*value));
    }
    assert_eq!(b.lookup(&7), Some(7777));
}

#[test]
fn new_tree_root_is_empty_leaf() {
    let b = BTree::new(2);
    assert!(b.root.keys.is_empty());
    assert!(b.root.values.is_empty());
    assert!(b.root.children.is_empty());
    assert_eq!(b.root.node_size, 2);
}

#[test]
fn root_growth_yields_one_key_two_child_root() {
    let mut b = BTree::new(2);
    b.insert(1, 10);
    b.insert(2, 20);
    assert!(b.root.children.is_empty());
    // The third key overflows the full root; the tree grows one level.
    b.insert(3, 30);
    assert_eq!(b.root.keys.len(), 1);
    assert_eq!(b.root.values.len(), 1);
    assert_eq!(b.root.children.len(), 2);
    assert_eq!(b.lookup(&1), Some(10));
    assert_eq!(b.lookup(&2), Some(20));
    assert_eq!(b.lookup(&3), Some(30));
}

#[test]
fn empty_tree_lookup_not_found() {
    let b = BTree::new(2);
    assert_eq!(b.lookup(&0), None);
    assert_eq!(b.lookup(&42), None);
    assert_eq!(b.lookup(&u64::MAX), None);
}

#[test]
fn round_trip_any_insertion_order() {
    let orders: [[u64; 6]; 4] = [
        [1, 3, 6, 8, 9, 10],
        [10, 9, 8, 6, 3, 1],
        [6, 1, 10, 3, 9, 8],
        [8, 10, 1, 9, 6, 3],
    ];
    for order in orders.iter() {
        let mut b = BTree::new(2);
        for key in order.iter() {
            b.insert(*key, key * 100);
        }
        for key in order.iter() {
            assert_eq!(b.lookup(key), Some(key * 100));
        }
    }
}

#[test]
fn absent_keys_stay_absent() {
    let b = build_tree(&sample_data());
    for key in [0, 2, 4, 5, 7, 11, 100, u64::MAX].iter() {
        assert_eq!(b.lookup(key), None);
    }
}

#[test]
fn traversal_ascending_after_shuffled_inserts() {
    let mut b = BTree::new(2);
    for key in [5, 1, 9, 3, 7, 2, 8, 6, 4, 10].iter() {
        b.insert(*key, *key);
    }
    let keys = b.keys_in_order();
    assert_eq!(keys, vec![1, 2, 3, 4, 5, 6, 7, 8, 9, 10]);
}

#[test]
fn leaves_all_at_same_depth() {
    let mut b = BTree::new(2);
    for key in 1..=20u64 {
        b.insert(key, key + 1000);
        let mut depths = Vec::new();
        collect_leaf_depths(&b.root, 0, &mut depths);
        for d in depths.iter() {
            assert_eq!(*d, depths[0]);
        }
    }
}

#[test]
fn capacity_respected_after_every_insert() {
    let mut b = BTree::new(3);
    for key in (1..=30u64).rev() {
        b.insert(key, key);
        assert!(max_node_keys(&b.root) <= 3);
    }
}

#[test]
fn lookup_twice_same_result() {
    let b = build_tree(&sample_data());
    assert_eq!(b.lookup(&6), b.lookup(&6));
    assert_eq!(b.lookup(&7), b.lookup(&7));
    let first = b.lookup(&9);
    let second = b.lookup(&9);
    assert_eq!(first, Some(ABE));
    assert_eq!(second, Some(ABE));
}
