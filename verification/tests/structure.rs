use btree_set::btree::dummy::DummyBTreeSet;
use btree_set::btree::dummy::Root;
use btree_set::btree::node::Node;
use btree_set::btree::reference::ReferenceBTreeSet;
use btree_set::BTreeSet;
use btree_set::Error;

fn shape<const B: usize>(node: &Node<i32, B>) -> String {
    let keys: Vec<String> = node.keys.iter().map(|k| format!("{}", k)).collect();
    if node.is_leaf {
        assert!(node.children.is_empty());
        format!("[{}]", keys.join(" "))
    } else {
        let children: Vec<String> = node.children.iter().map(|c| shape(c)).collect();
        format!("({} | {})", keys.join(" "), children.join(" "))
    }
}

fn tree_shape<const B: usize>(tree: &DummyBTreeSet<i32, B>) -> String {
    match &tree.root {
        Some(root) => shape(&root.node),
        None => format!("none"),
    }
}

fn inorder<const B: usize>(node: &Node<i32, B>, out: &mut Vec<i32>) {
    if node.is_leaf {
        out.extend(node.keys.iter().copied());
    } else {
        for i in 0..node.keys.len() {
            inorder(&node.children[i], out);
            out.push(node.keys[i]);
        }
        inorder(&node.children[node.keys.len()], out);
    }
}

/// Walks the subtree, fails where a node is out of order or out of bounds,
/// and gives the depth at which its leaves lie.
fn check_node<const B: usize>(node: &Node<i32, B>, root: bool, low: Option<i32>, high: Option<i32>) -> usize {
    assert!(node.keys.len() <= 2 * B - 1);
    if !root {
        assert!(node.keys.len() >= B - 1);
    }
    for pair in node.keys.windows(2) {
        assert!(pair[0] < pair[1]);
    }
    for key in &node.keys {
        if let Some(low) = low {
            assert!(low < *key);
        }
        if let Some(high) = high {
            assert!(*key < high);
        }
    }
    if node.is_leaf {
        assert!(node.children.is_empty());
        0
    } else {
        assert!(root || !node.keys.is_empty());
        assert_eq!(node.children.len(), node.keys.len() + 1);
        let mut depth = None;
        for (i, child) in node.children.iter().enumerate() {
            let below = if i == 0 { low } else { Some(node.keys[i - 1]) };
            let above = if i == node.keys.len() { high } else { Some(node.keys[i]) };
            let d = check_node(child, false, below, above);
            match depth {
                None => depth = Some(d),
                Some(first) => assert_eq!(first, d),
            }
        }
        depth.unwrap() + 1
    }
}

fn check_tree<const B: usize>(tree: &DummyBTreeSet<i32, B>) -> (usize, Vec<i32>) {
    match &tree.root {
        Some(root) => {
            assert!(root.node.is_leaf || !root.node.keys.is_empty());
            let height = check_node(&root.node, true, None, None);
            let mut keys = Vec::new();
            inorder(&root.node, &mut keys);
            for pair in keys.windows(2) {
                assert!(pair[0] < pair[1]);
            }
            (height, keys)
        },
        None => (0, Vec::new()),
    }
}

fn height<const B: usize>(tree: &DummyBTreeSet<i32, B>) -> usize {
    check_tree(tree).0
}

#[test]
fn twelfth_key_splits_the_root_once() {
    let mut tree = DummyBTreeSet::<i32, 6>::new();
    assert_eq!(tree.max_keys(), 11);
    for i in 0..11 {
        tree.insert(i).unwrap();
    }
    for i in 0..11 {
        assert!(tree.contains(&i));
    }
    assert_eq!(tree_shape(&tree), "[0 1 2 3 4 5 6 7 8 9 10]");
    assert_eq!(height(&tree), 0);

    tree.insert(11).unwrap();
    assert_eq!(tree_shape(&tree), "(5 | [0 1 2 3 4] [6 7 8 9 10 11])");
    assert_eq!(height(&tree), 1);
    for i in 0..12 {
        assert!(tree.contains(&i));
    }
}

#[test]
fn no_key_is_lost_while_the_tree_grows() {
    let mut tree = DummyBTreeSet::<i32, 6>::new();
    let count = 11 * 11 * 11 * 11;
    for i in 0..count {
        assert_eq!(tree.insert(i), Ok(()));
        assert!(tree.contains(&i));
        assert!(!tree.contains(&(i + 1)));
        if i % 1000 == 999 || i == count - 1 {
            for j in 0..=i {
                assert!(tree.contains(&j));
            }
            let (_, keys) = check_tree(&tree);
            assert_eq!(keys, (0..=i).collect::<Vec<i32>>());
        }
    }
}

#[test]
fn single_key_tree() {
    let mut tree = DummyBTreeSet::<i32, 6>::new();
    assert_eq!(tree.insert(50), Ok(()));
    assert_eq!(tree.search(&50), Ok(&50));
    assert_eq!(tree.search(&75), Err(Error::KeyNotFound));
    assert_eq!(tree_shape(&tree), "[50]");
}

#[test]
fn an_emptied_tree_keeps_an_empty_leaf() {
    let mut tree = DummyBTreeSet::<i32, 6>::new();
    assert_eq!(tree_shape(&tree), "none");
    tree.insert(1).unwrap();
    assert_eq!(tree.remove(&1), Ok(1));
    assert_eq!(tree_shape(&tree), "[]");
    assert!(!tree.contains(&1));
    assert_eq!(tree.remove(&1), Err(Error::KeyNotFound));
    assert_eq!(tree.insert(2), Ok(()));
    assert_eq!(tree_shape(&tree), "[2]");
}

#[test]
fn each_error_comes_with_its_input() {
    let mut tree = DummyBTreeSet::<i32, 3>::new();
    assert_eq!(tree.search(&1), Err(Error::KeyNotFound));
    assert_eq!(tree.remove(&1), Err(Error::KeyNotFound));
    assert_eq!(tree.insert(1), Ok(()));
    assert_eq!(tree.insert(1), Err(Error::KeyAlreadyExists));
    assert_eq!(tree.search(&2), Err(Error::KeyNotFound));
    assert_eq!(tree.remove(&2), Err(Error::KeyNotFound));
}

#[test]
fn a_failed_operation_leaves_the_tree_as_it_was() {
    let mut tree = DummyBTreeSet::<i32, 2>::new();
    for i in 0..40 {
        tree.insert(2 * i).unwrap();
    }
    let before = tree_shape(&tree);
    for i in 0..40 {
        assert_eq!(tree.insert(2 * i), Err(Error::KeyAlreadyExists));
        assert_eq!(tree.remove(&(2 * i + 1)), Err(Error::KeyNotFound));
        assert_eq!(tree_shape(&tree), before);
    }
    for i in 0..40 {
        assert!(tree.contains(&(2 * i)));
        assert!(!tree.contains(&(2 * i + 1)));
    }
}

#[test]
fn round_trip_of_a_key() {
    let mut tree = DummyBTreeSet::<i32, 2>::new();
    for i in 0..30 {
        tree.insert(3 * i).unwrap();
    }
    for k in [-5, 1, 44, 100] {
        assert_eq!(tree.insert(k), Ok(()));
        assert!(tree.contains(&k));
        assert_eq!(tree.remove(&k), Ok(k));
        assert!(!tree.contains(&k));
        check_tree(&tree);
    }
    for i in 0..30 {
        assert!(tree.contains(&(3 * i)));
    }
}

#[test]
fn growth_of_a_small_tree_step_by_step() {
    let mut tree = DummyBTreeSet::<i32, 2>::new();
    assert_eq!(tree.max_keys(), 3);
    for i in 1..=3 {
        tree.insert(i).unwrap();
    }
    assert_eq!(tree_shape(&tree), "[1 2 3]");
    tree.insert(4).unwrap();
    assert_eq!(tree_shape(&tree), "(2 | [1] [3 4])");
    tree.insert(5).unwrap();
    assert_eq!(tree_shape(&tree), "(2 | [1] [3 4 5])");
    tree.insert(6).unwrap();
    assert_eq!(tree_shape(&tree), "(2 4 | [1] [3] [5 6])");
    tree.insert(7).unwrap();
    tree.insert(8).unwrap();
    assert_eq!(tree_shape(&tree), "(2 4 6 | [1] [3] [5] [7 8])");
    tree.insert(9).unwrap();
    tree.insert(10).unwrap();
    assert_eq!(tree_shape(&tree), "(4 | (2 | [1] [3]) (6 8 | [5] [7] [9 10]))");
    assert_eq!(height(&tree), 2);
}

#[test]
fn removal_borrows_merges_and_lowers_the_tree() {
    let mut tree = DummyBTreeSet::<i32, 2>::new();
    for i in 1..=4 {
        tree.insert(i).unwrap();
    }
    assert_eq!(tree_shape(&tree), "(2 | [1] [3 4])");
    assert_eq!(tree.remove(&1), Ok(1));
    assert_eq!(tree_shape(&tree), "(3 | [2] [4])");
    assert_eq!(tree.remove(&4), Ok(4));
    assert_eq!(tree_shape(&tree), "[2 3]");
    assert_eq!(height(&tree), 0);
}

#[test]
fn removal_of_a_key_of_the_root() {
    let mut tree = DummyBTreeSet::<i32, 2>::new();
    for i in 1..=10 {
        tree.insert(i).unwrap();
    }
    assert_eq!(tree_shape(&tree), "(4 | (2 | [1] [3]) (6 8 | [5] [7] [9 10]))");
    // only the child after the key can spare: its smallest key takes the place
    assert_eq!(tree.remove(&4), Ok(4));
    assert_eq!(tree_shape(&tree), "(5 | (2 | [1] [3]) (8 | [6 7] [9 10]))");
    assert_eq!(height(&tree), 2);
    // neither child can spare: they become one, the key leaves it, the tree gets lower
    assert_eq!(tree.remove(&5), Ok(5));
    assert_eq!(tree_shape(&tree), "(2 6 8 | [1] [3] [7] [9 10])");
    assert_eq!(height(&tree), 1);
    assert_eq!(tree.remove(&8), Ok(8));
    assert_eq!(tree_shape(&tree), "(2 6 9 | [1] [3] [7] [10])");
    // neither leaf can spare: the two become one
    assert_eq!(tree.remove(&6), Ok(6));
    assert_eq!(tree_shape(&tree), "(2 9 | [1] [3 7] [10])");
    // the child before the key can spare its largest
    assert_eq!(tree.remove(&9), Ok(9));
    assert_eq!(tree_shape(&tree), "(2 7 | [1] [3] [10])");
}

#[test]
fn scenario_of_seven_keys() {
    let mut tree = DummyBTreeSet::<i32, 6>::new();
    for k in [10, 5, 15, 2, 7, 12, 18] {
        tree.insert(k).unwrap();
    }
    assert_eq!(tree.remove(&7), Ok(7));
    assert_eq!(tree.remove(&18), Ok(18));
    for k in [10, 5, 15, 2, 12] {
        assert!(tree.contains(&k));
    }
    for k in [7, 18] {
        assert!(!tree.contains(&k));
    }
    assert_eq!(tree.remove(&7), Err(Error::KeyNotFound));
    assert_eq!(check_tree(&tree).1, vec![2, 5, 10, 12, 15]);
}

#[test]
fn thousand_keys_without_the_even_ones() {
    let mut tree = DummyBTreeSet::<i32, 6>::new();
    for i in 0..1000 {
        tree.insert(i).unwrap();
    }
    check_tree(&tree);
    for i in (0..1000).step_by(2) {
        assert_eq!(tree.remove(&i), Ok(i));
        check_tree(&tree);
    }
    for i in 0..1000 {
        assert_eq!(tree.contains(&i), i % 2 == 1);
    }
    let (_, keys) = check_tree(&tree);
    assert_eq!(keys, (0..1000).filter(|i| i % 2 == 1).collect::<Vec<i32>>());
}

fn next(state: &mut u64) -> u64 {
    *state = state.wrapping_mul(6364136223846793005).wrapping_add(1442695040888963407);
    *state >> 33
}

fn against_the_reference<const B: usize>(seed: u64, steps: usize, range: u64) {
    let mut tree = DummyBTreeSet::<i32, B>::new();
    let mut reference = ReferenceBTreeSet::<i32>::new();
    let mut state = seed;
    for _ in 0..steps {
        let key = (next(&mut state) % range) as i32;
        match next(&mut state) % 3 {
            0 => assert_eq!(tree.insert(key), reference.insert(key)),
            1 => assert_eq!(tree.remove(&key), reference.remove(&key)),
            _ => assert_eq!(tree.search(&key), reference.search(&key)),
        }
        assert_eq!(tree.contains(&key), reference.contains(&key));
        let (_, keys) = check_tree(&tree);
        let expected: Vec<i32> = reference.0.iter().copied().collect();
        assert_eq!(keys, expected);
    }
}

#[test]
fn tree_of_degree_two_against_the_reference() {
    against_the_reference::<2>(1, 6000, 200);
    against_the_reference::<2>(2, 3000, 40);
}

#[test]
fn tree_of_degree_three_against_the_reference() {
    against_the_reference::<3>(3, 6000, 300);
}

#[test]
fn tree_of_degree_six_against_the_reference() {
    against_the_reference::<6>(4, 6000, 1000);
}

#[test]
fn tree_is_emptied_from_either_end_and_from_the_middle() {
    for order in 0..3 {
        let mut tree = DummyBTreeSet::<i32, 2>::new();
        for i in 0..200 {
            tree.insert(i).unwrap();
        }
        assert!(height(&tree) >= 3);
        let mut heights = Vec::new();
        for step in 0..200 {
            let key = match order {
                0 => step,
                1 => 199 - step,
                _ => {
                    if step % 2 == 0 {
                        100 + step / 2
                    } else {
                        99 - step / 2
                    }
                },
            };
            assert_eq!(tree.remove(&key), Ok(key));
            assert!(!tree.contains(&key));
            heights.push(height(&tree));
        }
        // the tree gets lower one level at a time and never higher
        for pair in heights.windows(2) {
            assert!(pair[1] == pair[0] || pair[1] + 1 == pair[0]);
        }
        assert_eq!(tree_shape(&tree), "[]");
    }
}

#[test]
fn keys_of_another_type() {
    let mut tree = DummyBTreeSet::<(u8, i64), 2>::new();
    for a in 0..10u8 {
        for b in 0..10i64 {
            assert_eq!(tree.insert((a, -b)), Ok(()));
        }
    }
    assert_eq!(tree.insert((3, -3)), Err(Error::KeyAlreadyExists));
    assert_eq!(tree.search(&(9, -9)), Ok(&(9, -9)));
    assert_eq!(tree.remove(&(0, 0)), Ok((0, 0)));
    assert!(!tree.contains(&(0, 0)));
    assert!(tree.contains(&(0, -1)));
}

#[test]
fn root_takes_a_new_root_when_it_is_cut() {
    let mut root = Root::<i32, 2> { node: Node::leaf(vec![10, 20, 30]) };
    assert_eq!(root.search(&20), Ok(&20));
    assert_eq!(root.search(&25), Err(Error::KeyNotFound));
    assert_eq!(root.insert(20), Err(Error::KeyAlreadyExists));
    assert_eq!(shape(&root.node), "[10 20 30]");
    assert_eq!(root.insert(25), Ok(()));
    assert_eq!(shape(&root.node), "(20 | [10] [25 30])");
    assert_eq!(root.max_keys(), 3);
    assert!(root.contains(&25));
}

#[test]
fn root_without_keys_gives_way_to_its_child() {
    let mut root = Root::<i32, 2> { node: Node::leaf(vec![10, 20, 30]) };
    root.insert(25).unwrap();
    assert_eq!(root.remove(&10), Ok(10));
    assert_eq!(shape(&root.node), "(25 | [20] [30])");
    assert_eq!(root.remove(&99), Err(Error::KeyNotFound));
    assert_eq!(root.remove(&30), Ok(30));
    assert_eq!(shape(&root.node), "[20 25]");

    let child = Node::<i32, 2>::leaf(vec![1, 2]);
    let mut root = Root::<i32, 2> { node: Node::intermediate(Vec::new(), vec![child.link()]) };
    root.collapse();
    assert_eq!(shape(&root.node), "[1 2]");
    root.collapse();
    assert_eq!(shape(&root.node), "[1 2]");

    let mut root = Root::<i32, 2> { node: Node::leaf(Vec::new()) };
    root.collapse();
    assert_eq!(shape(&root.node), "[]");
}
