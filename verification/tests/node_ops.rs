use btree_set::btree::insert::InsertResult;
use btree_set::btree::node::Node;
use btree_set::btree::node::SearchResult;
use btree_set::btree::remove::RemoveResult;

fn leaf<const B: usize>(keys: &[i32]) -> Node<i32, B> {
    Node { is_leaf: true, keys: keys.to_vec(), children: Vec::new() }
}

fn inner<const B: usize>(keys: &[i32], children: Vec<Node<i32, B>>) -> Node<i32, B> {
    Node {
        is_leaf: false,
        keys: keys.to_vec(),
        children: children.into_iter().map(Box::new).collect(),
    }
}

fn shape<const B: usize>(node: &Node<i32, B>) -> String {
    let keys: Vec<String> = node.keys.iter().map(|k| format!("{}", k)).collect();
    if node.is_leaf {
        assert!(node.children.is_empty());
        format!("[{}]", keys.join(" "))
    } else {
        let children: Vec<String> = node.children.iter().map(|c| shape(c)).collect();
        format!("({} | {})", keys.join(" "), children.join(" "))
    }
}

#[test]
fn leaf_takes_no_more_than_the_maximum() {
    let node = Node::<i32, 2>::leaf(vec![1, 2, 3, 4, 5]);
    assert!(node.is_leaf);
    assert_eq!(node.keys, vec![1, 2, 3]);
    assert!(node.children.is_empty());

    let node = Node::<i32, 6>::leaf((0..11).collect());
    assert_eq!(node.keys, (0..11).collect::<Vec<i32>>());

    let node = Node::<i32, 6>::leaf(Vec::new());
    assert!(node.is_leaf);
    assert!(node.keys.is_empty());
}

#[test]
fn intermediate_takes_no_more_than_the_maximum() {
    let children: Vec<Box<Node<i32, 2>>> = (0..6).map(|i| Box::new(leaf::<2>(&[10 * i]))).collect();
    let node = Node::<i32, 2>::intermediate(vec![5, 15, 25, 35, 45], children);
    assert!(!node.is_leaf);
    assert_eq!(node.keys, vec![5, 15, 25]);
    assert_eq!(node.children.len(), 4);
    assert_eq!(node.children[3].keys, vec![30]);

    let node = Node::<i32, 2>::intermediate(vec![5], vec![Box::new(leaf(&[1])), Box::new(leaf(&[9]))]);
    assert_eq!(shape(&node), "(5 | [1] [9])");
}

#[test]
fn default_node_is_an_empty_intermediate_node() {
    let node = Node::<i32, 6>::default();
    assert!(!node.is_leaf);
    assert!(node.keys.is_empty());
    assert!(node.children.is_empty());
}

#[test]
fn link_keeps_the_node() {
    let link = leaf::<3>(&[4, 8]).link();
    assert!(link.is_leaf);
    assert_eq!(link.keys, vec![4, 8]);
}

#[test]
fn locate_gives_the_index_or_the_slot() {
    let keys = vec![10, 20, 30, 40, 50];
    assert_eq!(Node::<i32, 6>::locate(&keys, &10), Ok(0));
    assert_eq!(Node::<i32, 6>::locate(&keys, &30), Ok(2));
    assert_eq!(Node::<i32, 6>::locate(&keys, &50), Ok(4));
    assert_eq!(Node::<i32, 6>::locate(&keys, &5), Err(0));
    assert_eq!(Node::<i32, 6>::locate(&keys, &15), Err(1));
    assert_eq!(Node::<i32, 6>::locate(&keys, &45), Err(4));
    assert_eq!(Node::<i32, 6>::locate(&keys, &55), Err(5));
    assert_eq!(Node::<i32, 6>::locate(&Vec::new(), &1), Err(0));
}

#[test]
fn find_in_a_leaf() {
    let node = leaf::<6>(&[10, 20, 30]);
    assert!(matches!(node.find(&20), SearchResult::Key(&20)));
    assert!(matches!(node.find(&25), SearchResult::NotFound));
    assert!(matches!(node.find(&5), SearchResult::NotFound));
}

#[test]
fn find_in_an_intermediate_node() {
    let node = inner::<2>(&[10, 20], vec![leaf(&[5]), leaf(&[15]), leaf(&[25, 30])]);
    assert!(matches!(node.find(&10), SearchResult::Key(&10)));
    match node.find(&15) {
        SearchResult::Child(child) => assert_eq!(child.keys, vec![15]),
        _ => panic!("the search goes on in the second child"),
    }
    match node.find(&1) {
        SearchResult::Child(child) => assert_eq!(child.keys, vec![5]),
        _ => panic!("the search goes on in the first child"),
    }
    match node.find(&99) {
        SearchResult::Child(child) => assert_eq!(child.keys, vec![25, 30]),
        _ => panic!("the search goes on in the last child"),
    }
}

#[test]
fn split_of_a_leaf() {
    let mut node = leaf::<2>(&[1, 2, 3, 4]);
    let (hoist, sibling) = node.split();
    assert_eq!(hoist, 2);
    assert_eq!(shape(&node), "[1]");
    assert_eq!(shape(&sibling), "[3 4]");

    let mut node = leaf::<6>(&[0, 1, 2, 3, 4, 5, 6, 7, 8, 9, 10, 11]);
    let (hoist, sibling) = node.split();
    assert_eq!(hoist, 5);
    assert_eq!(node.keys, vec![0, 1, 2, 3, 4]);
    assert_eq!(sibling.keys, vec![6, 7, 8, 9, 10, 11]);
    assert!(sibling.is_leaf);
}

#[test]
fn split_of_an_intermediate_node() {
    let mut node = inner::<2>(
        &[10, 20, 30, 40],
        vec![leaf(&[5]), leaf(&[15]), leaf(&[25]), leaf(&[35]), leaf(&[45])],
    );
    let (hoist, sibling) = node.split();
    assert_eq!(hoist, 20);
    assert_eq!(shape(&node), "(10 | [5] [15])");
    assert_eq!(shape(&sibling), "(30 40 | [25] [35] [45])");
}

#[test]
fn insert_into_a_leaf_with_room() {
    let mut node = leaf::<2>(&[10, 30]);
    assert!(matches!(node.insert(20), InsertResult::Inserted));
    assert_eq!(shape(&node), "[10 20 30]");
}

#[test]
fn insert_of_a_key_that_is_there_changes_nothing() {
    let mut node = inner::<2>(&[10], vec![leaf(&[5]), leaf(&[15, 20])]);
    assert!(matches!(node.insert(10), InsertResult::AlreadyExists));
    assert!(matches!(node.insert(15), InsertResult::AlreadyExists));
    assert_eq!(shape(&node), "(10 | [5] [15 20])");
}

#[test]
fn insert_into_a_full_leaf_splits_it() {
    let mut node = leaf::<2>(&[10, 20, 30]);
    match node.insert(25) {
        InsertResult::Split(hoist, sibling) => {
            assert_eq!(hoist, 20);
            assert_eq!(shape(&node), "[10]");
            assert_eq!(shape(&sibling), "[25 30]");
        },
        _ => panic!("a leaf of four keys is cut in two"),
    }
}

#[test]
fn insert_takes_up_the_half_of_a_child() {
    let mut node = inner::<2>(&[10], vec![leaf(&[5]), leaf(&[15, 20, 25])]);
    assert!(matches!(node.insert(30), InsertResult::Inserted));
    assert_eq!(shape(&node), "(10 20 | [5] [15] [25 30])");
}

#[test]
fn insert_splits_an_intermediate_node_only_above_the_maximum() {
    let mut node = inner::<2>(
        &[10, 20],
        vec![leaf(&[5]), leaf(&[15]), leaf(&[25, 30, 35])],
    );
    assert!(matches!(node.insert(40), InsertResult::Inserted));
    assert_eq!(shape(&node), "(10 20 30 | [5] [15] [25] [35 40])");

    let mut node = inner::<2>(
        &[10, 20, 30],
        vec![leaf(&[5]), leaf(&[15]), leaf(&[25]), leaf(&[35, 40, 45])],
    );
    match node.insert(50) {
        InsertResult::Split(hoist, sibling) => {
            assert_eq!(hoist, 20);
            assert_eq!(shape(&node), "(10 | [5] [15])");
            assert_eq!(shape(&sibling), "(30 40 | [25] [35] [45 50])");
        },
        _ => panic!("an intermediate node of four keys is cut in two"),
    }
}

#[test]
fn can_spare_only_above_the_minimum() {
    assert!(!leaf::<3>(&[1]).can_spare());
    assert!(!leaf::<3>(&[1, 2]).can_spare());
    assert!(leaf::<3>(&[1, 2, 3]).can_spare());
    assert!(!leaf::<2>(&[1]).can_spare());
    assert!(leaf::<2>(&[1, 2]).can_spare());
}

#[test]
fn steal_and_receive_at_both_ends() {
    let mut node = inner::<2>(&[10, 20], vec![leaf(&[5]), leaf(&[15]), leaf(&[25])]);
    let (key, child) = node.steal_back();
    assert_eq!(key, 20);
    assert_eq!(child.unwrap().keys, vec![25]);
    assert_eq!(shape(&node), "(10 | [5] [15])");

    let (key, child) = node.steal_front();
    assert_eq!(key, 10);
    assert_eq!(child.unwrap().keys, vec![5]);
    assert_eq!(shape(&node), "( | [15])");

    node.receive_front(12, Some(Box::new(leaf(&[11]))));
    assert_eq!(shape(&node), "(12 | [11] [15])");
    node.receive_back(18, Some(Box::new(leaf(&[19]))));
    assert_eq!(shape(&node), "(12 18 | [11] [15] [19])");

    let mut node = leaf::<2>(&[1, 2, 3]);
    let (key, child) = node.steal_back();
    assert_eq!(key, 3);
    assert!(child.is_none());
    let (key, child) = node.steal_front();
    assert_eq!(key, 1);
    assert!(child.is_none());
    node.receive_front(0, None);
    node.receive_back(9, None);
    assert_eq!(shape(&node), "[0 2 9]");
}

#[test]
fn absorb_takes_the_key_and_the_right_node() {
    let mut node = leaf::<2>(&[1]);
    node.absorb(5, leaf(&[9]));
    assert_eq!(shape(&node), "[1 5 9]");

    let mut node = inner::<2>(&[10], vec![leaf(&[5]), leaf(&[15])]);
    node.absorb(20, inner(&[30], vec![leaf(&[25]), leaf(&[35])]));
    assert_eq!(shape(&node), "(10 20 30 | [5] [15] [25] [35])");
}

#[test]
fn rotate_right_borrows_from_the_left() {
    let mut node = inner::<2>(&[10], vec![leaf(&[1, 5]), leaf(&[])]);
    node.rotate_right(1);
    assert_eq!(shape(&node), "(5 | [1] [10])");

    let mut node = inner::<2>(
        &[50],
        vec![
            inner(&[10, 20], vec![leaf(&[5]), leaf(&[15]), leaf(&[25])]),
            inner(&[], vec![leaf(&[60, 70])]),
        ],
    );
    node.rotate_right(1);
    assert_eq!(shape(&node), "(20 | (10 | [5] [15]) (50 | [25] [60 70]))");
}

#[test]
fn rotate_left_borrows_from_the_right() {
    let mut node = inner::<2>(&[10], vec![leaf(&[]), leaf(&[15, 20])]);
    node.rotate_left(0);
    assert_eq!(shape(&node), "(15 | [10] [20])");

    let mut node = inner::<2>(
        &[50],
        vec![
            inner(&[], vec![leaf(&[30, 40])]),
            inner(&[70, 90], vec![leaf(&[60]), leaf(&[80]), leaf(&[95])]),
        ],
    );
    node.rotate_left(0);
    assert_eq!(shape(&node), "(70 | (50 | [30 40] [60]) (90 | [80] [95]))");
}

#[test]
fn merge_makes_one_child_of_two_and_the_key_between() {
    let mut node = inner::<2>(&[10, 20], vec![leaf(&[5]), leaf(&[]), leaf(&[25])]);
    node.merge(0);
    assert_eq!(shape(&node), "(20 | [5 10] [25])");

    let mut node = inner::<2>(
        &[50],
        vec![
            inner(&[], vec![leaf(&[30, 40])]),
            inner(&[70], vec![leaf(&[60]), leaf(&[80])]),
        ],
    );
    node.merge(0);
    assert_eq!(shape(&node), "( | (50 70 | [30 40] [60] [80]))");
}

#[test]
fn rebalance_of_the_last_child_turns_to_the_left() {
    let mut node = inner::<2>(&[10, 20], vec![leaf(&[5]), leaf(&[12, 15]), leaf(&[])]);
    node.rebalance(2);
    assert_eq!(shape(&node), "(10 15 | [5] [12] [20])");

    let mut node = inner::<2>(&[10, 20], vec![leaf(&[5, 7]), leaf(&[15]), leaf(&[])]);
    node.rebalance(2);
    assert_eq!(shape(&node), "(10 | [5 7] [15 20])");
}

#[test]
fn rebalance_of_another_child_turns_to_the_right() {
    let mut node = inner::<2>(&[10, 20], vec![leaf(&[1, 5]), leaf(&[]), leaf(&[25, 30])]);
    node.rebalance(1);
    assert_eq!(shape(&node), "(10 25 | [1 5] [20] [30])");

    let mut node = inner::<2>(&[10, 20], vec![leaf(&[1, 5]), leaf(&[]), leaf(&[25])]);
    node.rebalance(1);
    assert_eq!(shape(&node), "(10 | [1 5] [20 25])");

    let mut node = inner::<2>(&[10, 20], vec![leaf(&[]), leaf(&[15]), leaf(&[25, 30])]);
    node.rebalance(0);
    assert_eq!(shape(&node), "(20 | [10 15] [25 30])");
}

#[test]
fn a_node_lends_only_above_the_minimum() {
    // with B = 3 a neighbour of two keys holds the bare minimum and does not lend
    let mut node = inner::<3>(&[10, 20], vec![leaf(&[1, 5]), leaf(&[15]), leaf(&[25, 30])]);
    node.rebalance(1);
    assert_eq!(shape(&node), "(10 | [1 5] [15 20 25 30])");

    let mut node = inner::<3>(&[10, 20], vec![leaf(&[1, 5]), leaf(&[15]), leaf(&[25, 30, 35])]);
    node.rebalance(1);
    assert_eq!(shape(&node), "(10 25 | [1 5] [15 20] [30 35])");
}

#[test]
fn remove_last_and_first_of_a_leaf() {
    let mut node = leaf::<2>(&[1, 2, 3]);
    assert_eq!(node.remove_last(), (3, false));
    assert_eq!(node.remove_first(), (1, false));
    assert_eq!(node.remove_last(), (2, true));
    assert_eq!(shape(&node), "[]");
}

#[test]
fn remove_last_mends_on_the_way_up() {
    let mut node = inner::<2>(&[10, 20], vec![leaf(&[5]), leaf(&[12, 15]), leaf(&[25])]);
    assert_eq!(node.remove_last(), (25, false));
    assert_eq!(shape(&node), "(10 15 | [5] [12] [20])");
    assert_eq!(node.remove_last(), (20, false));
    assert_eq!(shape(&node), "(10 | [5] [12 15])");
}

#[test]
fn remove_first_mends_on_the_way_up() {
    let mut node = inner::<2>(&[10, 20], vec![leaf(&[5]), leaf(&[12, 15]), leaf(&[25])]);
    assert_eq!(node.remove_first(), (5, false));
    assert_eq!(shape(&node), "(12 20 | [10] [15] [25])");
    assert_eq!(node.remove_first(), (10, false));
    assert_eq!(shape(&node), "(20 | [12 15] [25])");
    assert_eq!(node.remove_first(), (12, false));
    assert_eq!(node.remove_first(), (15, true));
    assert_eq!(shape(&node), "( | [20 25])");
}

#[test]
fn remove_at_in_a_leaf() {
    let mut node = leaf::<3>(&[1, 2, 3]);
    assert_eq!(node.remove_at(1), (2, false));
    assert_eq!(shape(&node), "[1 3]");
    assert_eq!(node.remove_at(0), (1, true));
    assert_eq!(shape(&node), "[3]");
}

#[test]
fn remove_at_puts_the_predecessor_in_place() {
    let mut node = inner::<2>(&[10], vec![leaf(&[5, 7]), leaf(&[15, 20])]);
    assert_eq!(node.remove_at(0), (10, false));
    assert_eq!(shape(&node), "(7 | [5] [15 20])");
}

#[test]
fn remove_at_puts_the_successor_in_place() {
    let mut node = inner::<2>(&[10], vec![leaf(&[5]), leaf(&[15, 20])]);
    assert_eq!(node.remove_at(0), (10, false));
    assert_eq!(shape(&node), "(15 | [5] [20])");
}

#[test]
fn remove_at_merges_where_no_child_can_spare() {
    let mut node = inner::<2>(&[10, 30], vec![leaf(&[5]), leaf(&[15]), leaf(&[35])]);
    assert_eq!(node.remove_at(0), (10, false));
    assert_eq!(shape(&node), "(30 | [5 15] [35])");
    assert_eq!(node.remove_at(0), (30, false));
    assert_eq!(shape(&node), "(15 | [5] [35])");
    assert_eq!(node.remove_at(0), (15, true));
    assert_eq!(shape(&node), "( | [5 35])");
}

#[test]
fn remove_at_merges_intermediate_children() {
    let mut node = inner::<2>(
        &[50],
        vec![
            inner(&[20], vec![leaf(&[10]), leaf(&[30])]),
            inner(&[80], vec![leaf(&[70]), leaf(&[90])]),
        ],
    );
    assert_eq!(node.remove_at(0), (50, true));
    assert_eq!(shape(&node), "( | (20 80 | [10] [30 70] [90]))");
}

#[test]
fn remove_of_a_key_that_is_not_there_changes_nothing() {
    let mut node = inner::<2>(&[10], vec![leaf(&[5]), leaf(&[15, 20])]);
    assert!(matches!(node.remove(&7), RemoveResult::NotFound));
    assert!(matches!(node.remove(&99), RemoveResult::NotFound));
    assert_eq!(shape(&node), "(10 | [5] [15 20])");
}

#[test]
fn remove_says_when_the_node_is_short() {
    let mut node = leaf::<3>(&[1, 2, 3]);
    assert!(matches!(node.remove(&2), RemoveResult::Removed(2)));
    assert!(matches!(node.remove(&3), RemoveResult::Deficient(3)));
    assert!(matches!(node.remove(&3), RemoveResult::NotFound));
    assert_eq!(shape(&node), "[1]");
}

#[test]
fn remove_mends_a_short_child() {
    let mut node = inner::<2>(&[10, 20], vec![leaf(&[5]), leaf(&[15]), leaf(&[25, 30])]);
    assert!(matches!(node.remove(&15), RemoveResult::Removed(15)));
    assert_eq!(shape(&node), "(10 25 | [5] [20] [30])");
    assert!(matches!(node.remove(&30), RemoveResult::Removed(30)));
    assert_eq!(shape(&node), "(10 | [5] [20 25])");
    assert!(matches!(node.remove(&5), RemoveResult::Removed(5)));
    assert_eq!(shape(&node), "(20 | [10] [25])");
    assert!(matches!(node.remove(&25), RemoveResult::Deficient(25)));
    assert_eq!(shape(&node), "( | [10 20])");
}
