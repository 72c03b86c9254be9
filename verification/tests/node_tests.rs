use btree_index::node::BTreeNode;

fn leaf(node_size: usize, keys: Vec<u64>, values: Vec<u64>) -> BTreeNode {
    BTreeNode { node_size, keys, values, children: vec![] }
}

#[test]
fn new_node_is_empty() {
    let n = BTreeNode::new(4);
    assert_eq!(n.node_size, 4);
    assert!(n.keys.is_empty());
    assert!(n.values.is_empty());
    assert!(n.children.is_empty());
}

#[test]
fn next_index_absent_gives_insertion_point() {
    let keys: Vec<u64> = vec![10, 20, 30, 40];
    assert_eq!(BTreeNode::next_index(&keys, &5), 0);
    assert_eq!(BTreeNode::next_index(&keys, &15), 1);
    assert_eq!(BTreeNode::next_index(&keys, &35), 3);
    assert_eq!(BTreeNode::next_index(&keys, &45), 4);
    let empty: Vec<u64> = vec![];
    assert_eq!(BTreeNode::next_index(&empty, &7), 0);
}

#[test]
fn next_index_found_is_sign_encoded() {
    let keys: Vec<u64> = vec![10, 20, 30, 40];
    assert_eq!(BTreeNode::next_index(&keys, &10), -1);
    assert_eq!(BTreeNode::next_index(&keys, &20), -2);
    assert_eq!(BTreeNode::next_index(&keys, &30), -3);
    assert_eq!(BTreeNode::next_index(&keys, &40), -4);
}

#[test]
fn split_moves_upper_half() {
    let mut n = leaf(2, vec![1, 2, 3], vec![10, 20, 30]);
    let frag = n.split();
    assert_eq!(n.keys, vec![1]);
    assert_eq!(n.values, vec![10]);
    assert_eq!(frag.keys, vec![2, 3]);
    assert_eq!(frag.values, vec![20, 30]);
    assert!(frag.children.is_empty());
}

#[test]
fn split_even_run_at_floor_midpoint() {
    let mut n = leaf(3, vec![1, 2, 3, 4], vec![10, 20, 30, 40]);
    let frag = n.split();
    assert_eq!(n.keys, vec![1, 2]);
    assert_eq!(n.values, vec![10, 20]);
    assert_eq!(frag.keys, vec![3, 4]);
    assert_eq!(frag.values, vec![30, 40]);
}

#[test]
fn split_internal_partitions_children() {
    let n = BTreeNode {
        node_size: 2,
        keys: vec![2, 4, 6],
        values: vec![20, 40, 60],
        children: vec![
            leaf(2, vec![1], vec![10]),
            leaf(2, vec![3], vec![30]),
            leaf(2, vec![5], vec![50]),
            leaf(2, vec![7], vec![70]),
        ],
    };
    let mut n = n;
    let frag = n.split();
    assert_eq!(n.keys, vec![2]);
    assert_eq!(n.children.len(), 2);
    assert_eq!(n.children[0].keys, vec![1]);
    assert_eq!(n.children[1].keys, vec![3]);
    assert_eq!(frag.keys, vec![4, 6]);
    assert_eq!(frag.children.len(), 2);
    assert_eq!(frag.children[0].keys, vec![5]);
    assert_eq!(frag.children[1].keys, vec![7]);
}

#[test]
fn insert_recursive_leaf_no_overflow() {
    let mut n = leaf(2, vec![5], vec![50]);
    let r = n.insert_recursive(3, 30);
    assert!(r.is_none());
    assert_eq!(n.keys, vec![3, 5]);
    assert_eq!(n.values, vec![30, 50]);
}

#[test]
fn insert_recursive_overflow_returns_fragment() {
    let mut n = leaf(2, vec![2, 6], vec![20, 60]);
    let r = n.insert_recursive(4, 40);
    let frag = r.expect("an overfull leaf must split");
    assert_eq!(n.keys, vec![2]);
    assert_eq!(frag.keys, vec![4, 6]);
    assert_eq!(frag.values, vec![40, 60]);
}

#[test]
fn lookup_path_deepest_index_first() {
    let b = BTreeNode {
        node_size: 2,
        keys: vec![3, 8],
        values: vec![32, 82],
        children: vec![
            leaf(2, vec![1], vec![12]),
            leaf(2, vec![6], vec![62]),
            leaf(2, vec![9, 10], vec![92, 102]),
        ],
    };
    // A key found in this node itself: a one-step path to its slot.
    assert_eq!(b.lookup_path(&3), vec![0]);
    assert_eq!(b.lookup_path(&8), vec![1]);
    // A key in a child: its slot there, then the child index taken.
    assert_eq!(b.lookup_path(&6), vec![0, 1]);
    assert_eq!(b.lookup_path(&10), vec![1, 2]);
    // An absent key: the empty path.
    assert_eq!(b.lookup_path(&7), Vec::<usize>::new());
    assert_eq!(b.lookup_path(&100), Vec::<usize>::new());
}

#[test]
fn node_lookup_finds_values() {
    let b = BTreeNode {
        node_size: 2,
        keys: vec![3, 8],
        values: vec![32, 82],
        children: vec![
            leaf(2, vec![1], vec![12]),
            leaf(2, vec![6], vec![62]),
            leaf(2, vec![9, 10], vec![92, 102]),
        ],
    };
    assert_eq!(b.lookup(&1), Some(12));
    assert_eq!(b.lookup(&3), Some(32));
    assert_eq!(b.lookup(&9), Some(92));
    assert_eq!(b.lookup(&2), None);
}

#[test]
fn node_keys_in_order() {
    let b = BTreeNode {
        node_size: 2,
        keys: vec![3, 8],
        values: vec![32, 82],
        children: vec![
            leaf(2, vec![1], vec![12]),
            leaf(2, vec![6], vec![62]),
            leaf(2, vec![9, 10], vec![92, 102]),
        ],
    };
    assert_eq!(b.keys_in_order(), vec![1, 3, 6, 8, 9, 10]);
}
