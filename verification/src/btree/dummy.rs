//! The tree itself: the root above the nodes, and the set that owns the root.
use crate::btree::insert::InsertResult;
use crate::btree::node::Node;
use crate::btree::node::SearchResult;
use crate::btree::remove::RemoveResult;
use crate::growth::lemma_joined;
use crate::model::is_slot;
use crate::model::lemma_contents_parts;
use crate::model::lemma_keys_one;
use crate::model::lemma_slot_child;
use crate::model::lemma_spread_none;
use crate::model::lemma_spread_one;
use crate::model::lemma_wf_intro;
use crate::model::Tree;
use crate::order::total_order;
use crate::BTreeSet;
use crate::Error;
use vstd::prelude::*;

verus! {

/// A set of keys kept in a search tree of minimum degree `B`.
pub struct DummyBTreeSet<K, const B: usize> {
    pub root: Option<Root<K, B>>,
}

/// The top of a tree. Its node alone may hold fewer than `B - 1` keys.
pub struct Root<K, const B: usize> {
    pub node: Node<K, B>,
}

impl<K: Ord, const B: usize> View for Root<K, B> {
    type V = Tree<K>;

    open spec fn view(&self) -> Tree<K> {
        self.node@
    }
}

impl<K: Ord, const B: usize> Root<K, B> {
    /// Takes an intermediate root that holds no key away, so that its only
    /// child becomes the root: the tree is then one level lower.
    pub fn collapse(&mut self)
        requires
            total_order::<K>(),
            old(self).node.inv(),
        ensures
            final(self).inv(),
            final(self)@ == old(self)@.collapsed(),
            final(self)@.contents() == old(self)@.contents(),
            final(self)@.height() == (if !old(self)@.leaf && old(self)@.keys.len() == 0 {
                old(self)@.height() - 1
            } else {
                old(self)@.height() as int
            }),
    {
        if !self.node.is_leaf && self.node.keys.len() == 0 {
            proof {
                assert(self@.child_ok(B as int, -1, 0));
                lemma_contents_parts(self@);
                assert(self@.children =~= seq![self@.children[0]]);
                lemma_spread_one(self@.children[0]);
                assert(self@.keys.to_set() =~= Set::<K>::empty());
                assert(self@.contents() =~= self@.children[0].contents());
            }
            let child = self.node.children.pop().unwrap();
            self.node = *child;
        }
    }
}

impl<K: Ord, const B: usize> BTreeSet for Root<K, B> {
    type Key = K;

    open spec fn degree() -> int {
        B as int
    }

    open spec fn contents(&self) -> Set<K> {
        self.node@.contents()
    }

    open spec fn inv(&self) -> bool {
        self.node.inv() && (self.node@.leaf || self.node@.keys.len() >= 1)
    }

    fn search(&self, key: &K) -> (r: Result<&K, Error>) {
        let mut node = &self.node;
        loop
            invariant
                total_order::<K>(),
                node.inv(),
                self.node@.contents().contains(*key) <==> node@.contents().contains(*key),
            decreases node@.height(),
        {
            match node.find(key) {
                SearchResult::NotFound => {
                    return Err(Error::KeyNotFound);
                },
                SearchResult::Key(found) => {
                    return Ok(found);
                },
                SearchResult::Child(child) => {
                    proof {
                        let i = choose|i: int| #[trigger]
                            is_slot(node@.keys, *key, i) && child@ == node@.children[i];
                        lemma_slot_child(node@, B as int, 2 * B - 1, -1, *key, i);
                        assert(node@.child_ok(B as int, -1, i));
                    }
                    node = child;
                },
            }
        }
    }

    fn insert(&mut self, key: K) -> (r: Result<(), Error>)
        ensures
            final(self)@ == old(self)@.with(key, B as int),
            r is Err ==> final(self)@ == old(self)@,
            final(self)@.height() == old(self)@.height() + (if old(self)@.put(key, B as int) is Cut {
                1int
            } else {
                0int
            }),
    {
        match self.node.insert(key) {
            InsertResult::AlreadyExists => Err(Error::KeyAlreadyExists),
            InsertResult::Inserted => Ok(()),
            InsertResult::Split(hoist, sibling) => {
                let mut old_node = Node::default();
                core::mem::swap(&mut self.node, &mut old_node);
                proof {
                    lemma_joined(old_node@, hoist, sibling@, B as int);
                }
                let keys = vec![hoist];
                let children = vec![old_node.link(), sibling.link()];
                self.node = Node::intermediate(keys, children);
                assert(self.node@.keys =~= seq![hoist]);
                assert(self.node@.children =~= seq![old_node@, sibling@]);
                Ok(())
            },
        }
    }

    fn remove(&mut self, key: &K) -> (r: Result<K, Error>)
        ensures
            final(self)@ == old(self)@.without(*key, B as int).collapsed(),
            r is Err ==> final(self)@ == old(self)@,
            final(self)@.height() == old(self)@.height() || final(self)@.height() == old(self)@.height()
                - 1,
    {
        match self.node.remove(key) {
            RemoveResult::NotFound => Err(Error::KeyNotFound),
            RemoveResult::Removed(removed) => {
                self.collapse();
                Ok(removed)
            },
            RemoveResult::Deficient(removed) => {
                self.collapse();
                Ok(removed)
            },
        }
    }

    fn max_keys(&self) -> (r: usize) {
        2 * B - 1
    }
}

impl<K: Ord, const B: usize> View for DummyBTreeSet<K, B> {
    type V = Option<Tree<K>>;

    open spec fn view(&self) -> Option<Tree<K>> {
        match self.root {
            Some(root) => Some(root@),
            None => None,
        }
    }
}

impl<K: Ord, const B: usize> DummyBTreeSet<K, B> {
    /// The empty set.
    pub fn new() -> (r: Self)
        requires
            Node::<K, B>::degree_ok(),
        ensures
            r.inv(),
            r@ is None,
            r.contents() == Set::<K>::empty(),
    {
        DummyBTreeSet { root: None }
    }
}

impl<K: Ord, const B: usize> BTreeSet for DummyBTreeSet<K, B> {
    type Key = K;

    open spec fn degree() -> int {
        B as int
    }

    open spec fn contents(&self) -> Set<K> {
        match self.root {
            Some(root) => root.contents(),
            None => Set::empty(),
        }
    }

    open spec fn inv(&self) -> bool {
        &&& Node::<K, B>::degree_ok()
        &&& match self.root {
            Some(root) => root.inv(),
            None => true,
        }
    }

    fn search(&self, key: &K) -> (r: Result<&K, Error>) {
        match &self.root {
            Some(root) => root.search(key),
            None => Err(Error::KeyNotFound),
        }
    }

    fn insert(&mut self, key: K) -> (r: Result<(), Error>)
        ensures
            final(self)@ == Some(
                match old(self)@ {
                    Some(tree) => tree.with(key, B as int),
                    None => Tree { leaf: true, keys: seq![key], children: Seq::empty() },
                },
            ),
            r is Err ==> final(self)@ == old(self)@,
    {
        match &mut self.root {
            Some(root) => root.insert(key),
            None => {
                let node = Node::leaf(vec![key]);
                proof {
                    assert(node@.keys =~= seq![key]);
                    lemma_wf_intro(node@, B as int, 2 * B - 1, -1);
                    lemma_contents_parts(node@);
                    lemma_keys_one(key);
                    lemma_spread_none::<K>();
                    assert(node@.contents() =~= Set::<K>::empty().insert(key));
                }
                self.root = Some(Root { node });
                Ok(())
            },
        }
    }

    fn remove(&mut self, key: &K) -> (r: Result<K, Error>)
        ensures
            final(self)@ == match old(self)@ {
                Some(tree) => Some(tree.without(*key, B as int).collapsed()),
                None => None,
            },
            r is Err ==> final(self)@ == old(self)@,
    {
        match &mut self.root {
            Some(root) => root.remove(key),
            None => Err(Error::KeyNotFound),
        }
    }

    fn max_keys(&self) -> (r: usize) {
        2 * B - 1
    }
}

} // verus!
