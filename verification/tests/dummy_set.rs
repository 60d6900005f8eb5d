use btree_set::btree::dummy::DummyBTreeSet;
use btree_set::BTreeSet;
use btree_set::Error;

#[test]
fn dummy_new_returns_instance() {
    let _tree = DummyBTreeSet::<i32, 6>::new();
}

#[test]
fn dummy_empty_tree_does_not_contain_keys() {
    let tree = DummyBTreeSet::<i32, 6>::new();
    let items = vec![0, 420, i32::MAX, i32::MIN];

    for i in items {
        assert!(!tree.contains(&i));
    }
}

#[test]
fn dummy_contains_returns_true_after_insertion_without_splits() {
    let mut tree = DummyBTreeSet::<usize, 6>::new();
    let items = 0..tree.max_keys();

    for i in items {
        assert!(!tree.contains(&i));
        assert_eq!(tree.insert(i).unwrap(), ());
        assert!(tree.contains(&i));
    }
}

#[test]
fn dummy_contains_returns_true_after_insertion_with_splits() {
    let mut tree = DummyBTreeSet::<usize, 6>::new();
    let items = 0..tree.max_keys() + 1;

    for i in items {
        assert!(!tree.contains(&i));
        assert_eq!(tree.insert(i).unwrap(), ());
        assert!(tree.contains(&i));
    }
}

#[test]
fn dummy_contains_returns_true_after_insertion_with_many_splits() {
    let mut tree = DummyBTreeSet::<usize, 6>::new();
    let items = 0..tree.max_keys().pow(4);

    for i in items {
        assert!(!tree.contains(&i));
        assert_eq!(tree.insert(i).unwrap(), ());
        assert!(tree.contains(&i));
    }
}

#[test]
fn dummy_duplicate_key_returns_error_without_splits() {
    let mut tree = DummyBTreeSet::<usize, 6>::new();
    let items = 0..tree.max_keys();

    for i in items {
        assert_eq!(tree.insert(i).unwrap(), ());
        assert!(tree.contains(&i));
        let result = tree.insert(i);
        assert!(result.is_err());
        assert!(matches!(result.unwrap_err(), Error::KeyAlreadyExists));
    }
}

#[test]
fn dummy_duplicate_key_returns_error_with_splits() {
    let mut tree = DummyBTreeSet::<usize, 6>::new();
    let items = 0..tree.max_keys() + 1;

    for i in items {
        assert_eq!(tree.insert(i).unwrap(), ());
        assert!(tree.contains(&i));
        let result = tree.insert(i);
        assert!(result.is_err());
        assert!(matches!(result.unwrap_err(), Error::KeyAlreadyExists));
    }
}

#[test]
fn dummy_duplicate_key_returns_error_with_many_splits() {
    let mut tree = DummyBTreeSet::<usize, 6>::new();
    let items = 0..tree.max_keys().pow(4);

    for i in items {
        assert_eq!(tree.insert(i).unwrap(), ());
        assert!(tree.contains(&i));
        let result = tree.insert(i);
        assert!(result.is_err());
        assert!(matches!(result.unwrap_err(), Error::KeyAlreadyExists));
    }
}

#[test]
fn dummy_search_existing_key_returns_ok() {
    let mut tree = DummyBTreeSet::<i32, 6>::new();
    let key = 50;
    assert_eq!(tree.insert(key).unwrap(), ());
    assert_eq!(tree.search(&key).unwrap(), &key);
}

#[test]
fn dummy_search_non_existing_key_returns_error() {
    let tree = DummyBTreeSet::<i32, 6>::new();
    let key = 75;
    let result = tree.search(&key);
    assert!(result.is_err());
    assert!(matches!(result.unwrap_err(), Error::KeyNotFound));
}

#[test]
fn dummy_remove_existing_key_returns_ok_and_removes() {
    let mut tree = DummyBTreeSet::<i32, 6>::new();
    let key = 20;
    assert_eq!(tree.insert(key).unwrap(), ());
    assert!(tree.contains(&key));
    assert_eq!(tree.remove(&key).unwrap(), key);
    assert!(!tree.contains(&key));
}

#[test]
fn dummy_remove_non_existing_key_returns_error() {
    let mut tree = DummyBTreeSet::<i32, 6>::new();
    let key = 99;
    let result = tree.remove(&key);
    assert!(result.is_err());
    assert!(matches!(result.unwrap_err(), Error::KeyNotFound));
}

#[test]
fn dummy_multiple_insertions_and_deletions() {
    let mut tree = DummyBTreeSet::<i32, 6>::new();
    let items = vec![10, 5, 15, 2, 7, 12, 18];

    for &item in &items {
        tree.insert(item).unwrap();
    }

    for &item in &items {
        assert!(tree.contains(&item));
    }

    assert_eq!(tree.remove(&7).unwrap(), 7);
    assert!(!tree.contains(&7));
    assert_eq!(tree.remove(&18).unwrap(), 18);
    assert!(!tree.contains(&18));

    assert!(tree.contains(&10));
    assert!(tree.contains(&5));
    assert!(tree.contains(&15));
    assert!(tree.contains(&2));
    assert!(tree.contains(&12));

    let result = tree.remove(&7);
    assert!(result.is_err());
    assert!(matches!(result.unwrap_err(), Error::KeyNotFound));
}

#[test]
fn dummy_tree_stability_after_many_operations() {
    let mut tree = DummyBTreeSet::<i32, 6>::new();
    let mut inserted_keys = Vec::new();

    for i in 0..1000 {
        tree.insert(i).unwrap();
        inserted_keys.push(i);
    }

    for &key in &inserted_keys {
        assert!(tree.contains(&key));
    }

    for i in (0..1000).step_by(2) {
        tree.remove(&i).unwrap();
    }

    for i in 0..1000 {
        if i % 2 == 0 {
            assert!(!tree.contains(&i));
        } else {
            assert!(tree.contains(&i));
        }
    }
}
