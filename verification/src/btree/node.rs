//! The node of the tree: its keys, its children, and how a key is looked up
//! in it.
use crate::model::increasing;
use crate::model::is_slot;
use crate::model::lemma_slot_child;
use crate::model::Tree;
use crate::order::compare;
use crate::order::lemma_lt_transitive;
use crate::order::lt;
use crate::order::total_order;
use crate::order::Side;
use vstd::prelude::*;

verus! {

pub type Link<K, const B: usize> = Box<Node<K, B>>;

/// A node of minimum degree `B`. A leaf has no children; an intermediate node
/// has one more child than keys.
pub struct Node<K, const B: usize> {
    pub is_leaf: bool,
    pub keys: Vec<K>,
    pub children: Vec<Link<K, B>>,
}

/// What looking a key up in one node gives: the key, the child to go on in,
/// or the certainty that the key is not there.
pub enum SearchResult<'a, K, const B: usize> {
    NotFound,
    Key(&'a K),
    Child(&'a Node<K, B>),
}

impl<K: Ord, const B: usize> Node<K, B> {
    /// The tree that this node is the root of.
    pub open spec fn model(self) -> Tree<K>
        decreases self,
    {
        Tree { leaf: self.is_leaf, keys: self.keys@, children: Self::models(self.children@) }
    }

    /// The trees of a sequence of links.
    pub open spec fn models(links: Seq<Link<K, B>>) -> Seq<Tree<K>>
        decreases links,
    {
        Seq::new(
            links.len(),
            |i: int|
                if 0 <= i < links.len() {
                    links[i].model()
                } else {
                    arbitrary()
                },
        )
    }

    /// The degree is one that a tree can have, and node sizes fit the machine.
    pub open spec fn degree_ok() -> bool {
        2 <= B && 2 * B < usize::MAX
    }

    /// The fewest keys a node other than the root may hold.
    pub open spec fn min_keys() -> int {
        B - 1
    }

    /// The most keys any node may hold.
    pub open spec fn max_keys() -> int {
        2 * B - 1
    }

    /// The most children any node may have.
    pub open spec fn max_children() -> int {
        2 * B
    }

    /// The node is the root of a valid subtree.
    pub open spec fn inv(self) -> bool {
        Self::degree_ok() && self@.valid(B as int)
    }
}

impl<K: Ord, const B: usize> View for Node<K, B> {
    type V = Tree<K>;

    open spec fn view(&self) -> Tree<K> {
        self.model()
    }
}

impl<K: Ord, const B: usize> Default for Node<K, B> {
    /// An intermediate node with nothing in it, to stand in a slot whose node
    /// has been moved out.
    fn default() -> (r: Self)
        ensures
            r@ == (Tree::<K> { leaf: false, keys: Seq::empty(), children: Seq::empty() }),
    {
        let r = Node { is_leaf: false, keys: Vec::new(), children: Vec::new() };
        assert(r@.children =~= Seq::empty());
        r
    }
}

impl<K: Ord, const B: usize> Node<K, B> {
    /// An intermediate node of the given keys and children, of which it takes
    /// no more than a node may hold.
    pub fn intermediate(keys: Vec<K>, children: Vec<Link<K, B>>) -> (r: Node<K, B>)
        requires
            Self::degree_ok(),
        ensures
            !r@.leaf,
            r@.keys == keys@.take(if keys@.len() <= Self::max_keys() {
                keys@.len() as int
            } else {
                Self::max_keys()
            }),
            r@.children == Self::models(children@).take(
                if children@.len() <= Self::max_children() {
                    children@.len() as int
                } else {
                    Self::max_children()
                },
            ),
    {
        let ghost given = children@;
        let mut keys = keys;
        let mut children = children;
        keys.truncate(2 * B - 1);
        children.truncate(2 * B);
        let r = Node { is_leaf: false, keys, children };
        assert(r@.children =~= Self::models(given).take(r@.children.len() as int));
        r
    }

    /// A leaf of the given keys, of which it takes no more than a node may
    /// hold.
    pub fn leaf(keys: Vec<K>) -> (r: Node<K, B>)
        requires
            Self::degree_ok(),
        ensures
            r@.leaf,
            r@.keys == keys@.take(if keys@.len() <= Self::max_keys() {
                keys@.len() as int
            } else {
                Self::max_keys()
            }),
            r@.children == Seq::<Tree<K>>::empty(),
    {
        let mut keys = keys;
        keys.truncate(2 * B - 1);
        let r = Node { is_leaf: true, keys, children: Vec::new() };
        assert(r@.children =~= Seq::empty());
        r
    }

    /// The node behind a link, as a parent holds it.
    pub fn link(self) -> (r: Link<K, B>)
        ensures
            *r == self,
    {
        Box::new(self)
    }

    /// Binary search in the keys of a node: the index of `key`, or else the
    /// slot where it belongs.
    pub fn locate(keys: &Vec<K>, key: &K) -> (r: Result<usize, usize>)
        requires
            total_order::<K>(),
            increasing(keys@),
        ensures
            match r {
                Ok(i) => i < keys@.len() && keys@[i as int] == *key,
                Err(i) => is_slot(keys@, *key, i as int),
            },
    {
        let mut lo: usize = 0;
        let mut hi: usize = keys.len();
        while lo < hi
            invariant
                total_order::<K>(),
                increasing(keys@),
                0 <= lo <= hi <= keys@.len(),
                forall|j: int| 0 <= j < lo ==> lt(#[trigger] keys@[j], *key),
                forall|j: int| hi <= j < keys@.len() ==> lt(*key, #[trigger] keys@[j]),
            decreases hi - lo,
        {
            let mid: usize = lo + (hi - lo) / 2;
            match compare(&keys[mid], key) {
                Side::Same => {
                    return Ok(mid);
                },
                Side::Before => {
                    proof {
                        assert forall|j: int| 0 <= j < mid + 1 implies lt(#[trigger] keys@[j], *key) by {
                            if j < mid {
                                lemma_lt_transitive(keys@[j], keys@[mid as int], *key);
                            }
                        }
                    }
                    lo = mid + 1;
                },
                Side::After => {
                    proof {
                        assert forall|j: int| mid <= j < keys@.len() implies lt(*key, #[trigger] keys@[j]) by {
                            if mid < j {
                                lemma_lt_transitive(*key, keys@[mid as int], keys@[j]);
                            }
                        }
                    }
                    hi = mid;
                },
            }
        }
        Err(lo)
    }

    /// Looks `key` up in this node alone.
    pub fn find(&self, key: &K) -> (r: SearchResult<'_, K, B>)
        requires
            total_order::<K>(),
            self.inv(),
        ensures
            match r {
                SearchResult::Key(k) => *k == *key && self@.keys.contains(*key),
                SearchResult::NotFound => self@.leaf && !self@.contents().contains(*key),
                SearchResult::Child(c) => exists|i: int|
                    {
                        &&& !self@.leaf
                        &&& #[trigger] is_slot(self@.keys, *key, i)
                        &&& c@ == self@.children[i]
                    },
            },
    {
        match Self::locate(&self.keys, key) {
            Ok(idx) => SearchResult::Key(&self.keys[idx]),
            Err(idx) => {
                proof {
                    lemma_slot_child(self@, B as int, 2 * B - 1, -1, *key, idx as int);
                }
                if self.is_leaf {
                    SearchResult::NotFound
                } else {
                    SearchResult::Child(&self.children[idx])
                }
            },
        }
    }
}

} // verus!
