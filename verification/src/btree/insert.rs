//! Insertion into a node: down to the leaf where the key belongs, and back up
//! with the half of every node that grew too large.
use crate::btree::node::Node;
use crate::growth::lemma_absorb;
use crate::growth::lemma_child_grew;
use crate::growth::lemma_leaf_insert;
use crate::growth::lemma_split;
use crate::growth::Put;
use crate::model::lemma_slot_unique;
use crate::model::lemma_wf_cap;
use crate::model::lemma_key_in_contents;
use crate::model::lemma_slot_child;
use crate::order::total_order;
use vstd::prelude::*;

verus! {

/// How an insertion into a node ended. `Split` hands up the key that left the
/// node and the new sibling that holds what came after that key.
pub enum InsertResult<K, const B: usize> {
    AlreadyExists,
    Inserted,
    Split(K, Node<K, B>),
}

impl<K: Ord, const B: usize> Node<K, B> {
    /// Cuts a node that holds `2B` keys in two. The node keeps the keys
    /// before index `B - 1` and the children before index `B`; the key at
    /// index `B - 1` is handed up; the new sibling takes the rest.
    pub fn split(&mut self) -> (r: (K, Node<K, B>))
        requires
            total_order::<K>(),
            Self::degree_ok(),
            old(self)@.wf(B as int, 2 * B, -1),
            old(self)@.keys.len() == 2 * B,
        ensures
            final(self)@ == old(self)@.split_left(B as int),
            r.1@ == old(self)@.split_right(B as int),
            r.0 == old(self)@.keys[B - 1],
            final(self).inv(),
            r.1.inv(),
            final(self)@.keys.len() == B - 1,
            r.1@.keys.len() == B,
            final(self)@.height() == old(self)@.height(),
            r.1@.height() == old(self)@.height(),
            final(self)@.below(r.0),
            r.1@.above(r.0),
            final(self)@.contents().union(r.1@.contents()).insert(r.0) == old(self)@.contents(),
    {
        proof {
            lemma_split(self@, B as int);
        }
        let keys = self.keys.split_off(B);
        let hoist = self.keys.pop().unwrap();
        assert(self.keys@ =~= old(self)@.keys.take(B - 1));
        assert(keys@ =~= old(self)@.keys.skip(B as int));
        if self.is_leaf {
            let sibling = Node::leaf(keys);
            assert(sibling@.keys =~= keys@);
            assert(sibling@.children =~= old(self)@.children);
            assert(self@.children =~= old(self)@.children);
            (hoist, sibling)
        } else {
            let children = self.children.split_off(B);
            let sibling = Node::intermediate(keys, children);
            assert(sibling@.keys =~= keys@);
            assert(sibling@.children =~= old(self)@.children.skip(B as int));
            assert(self@.children =~= old(self)@.children.take(B as int));
            (hoist, sibling)
        }
    }

    /// Inserts `key` below this node. A key that is already there leaves the
    /// node as it was. A node that would hold more than `2B - 1` keys is cut
    /// in two and hands one half up.
    pub fn insert(&mut self, key: K) -> (r: InsertResult<K, B>)
        requires
            total_order::<K>(),
            old(self).inv(),
        ensures
            final(self).inv(),
            final(self)@.height() == old(self)@.height(),
            match r {
                InsertResult::AlreadyExists => {
                    &&& old(self)@.put(key, B as int) == Put::<K>::Same
                    &&& old(self)@.contents().contains(key)
                    &&& final(self)@ == old(self)@
                },
                InsertResult::Inserted => {
                    &&& old(self)@.put(key, B as int) == Put::Grown(final(self)@)
                    &&& !old(self)@.contents().contains(key)
                    &&& final(self)@.contents() == old(self)@.contents().insert(key)
                    &&& final(self)@.keys.len() >= old(self)@.keys.len()
                },
                InsertResult::Split(hoist, sibling) => {
                    &&& old(self)@.put(key, B as int) == Put::Cut(final(self)@, hoist, sibling@)
                    &&& !old(self)@.contents().contains(key)
                    &&& sibling.inv()
                    &&& sibling@.height() == old(self)@.height()
                    &&& final(self)@.keys.len() == B - 1
                    &&& sibling@.keys.len() == B
                    &&& final(self)@.below(hoist)
                    &&& sibling@.above(hoist)
                    &&& final(self)@.contents().union(sibling@.contents()).insert(hoist) == old(
                        self,
                    )@.contents().insert(key)
                },
            },
        decreases old(self)@.height(),
    {
        let idx = match Self::locate(&self.keys, &key) {
            Ok(idx) => {
                proof {
                    lemma_key_in_contents(self@, idx as int);
                }
                return InsertResult::AlreadyExists;
            },
            Err(idx) => idx,
        };
        proof {
            lemma_slot_child(self@, B as int, 2 * B - 1, -1, key, idx as int);
            lemma_slot_unique(self@.keys, key, idx as int);
        }
        if self.is_leaf {
            proof {
                lemma_leaf_insert(self@, B as int, 2 * B - 1, key, idx as int);
            }
            self.keys.insert(idx, key);
            assert(self@ == old(self)@.with_key(idx as int, key));
            if self.keys.len() > 2 * B - 1 {
                let (hoist, sibling) = self.split();
                InsertResult::Split(hoist, sibling)
            } else {
                proof {
                    lemma_wf_cap(self@, B as int, 2 * B, -1, 2 * B - 1);
                }
                InsertResult::Inserted
            }
        } else {
            assert(self@.child_ok(B as int, -1, idx as int));
            assert(self@.child_ok(B as int, -1, 0));
            let child = &mut self.children[idx];
            let outcome = child.insert(key);
            let ghost after = self.children@[idx as int]@;
            assert(self@.children =~= old(self)@.children.update(idx as int, after));
            match outcome {
                InsertResult::Split(hoist, sibling) => {
                    proof {
                        lemma_absorb(old(self)@, B as int, idx as int, key, after, hoist, sibling@);
                    }
                    self.keys.insert(idx, hoist);
                    self.children.insert(idx + 1, sibling.link());
                    assert(self@.children =~= old(self)@.children.update(idx as int, after).insert(
                        idx + 1,
                        sibling@,
                    ));
                    assert(self@ == old(self)@.absorbed(idx as int, after, hoist, sibling@));
                    if self.keys.len() > 2 * B - 1 {
                        let (hoist, sibling) = self.split();
                        InsertResult::Split(hoist, sibling)
                    } else {
                        proof {
                            lemma_wf_cap(self@, B as int, 2 * B, -1, 2 * B - 1);
                        }
                        InsertResult::Inserted
                    }
                },
                InsertResult::Inserted => {
                    proof {
                        lemma_child_grew(old(self)@, B as int, 2 * B - 1, idx as int, key, after);
                        assert(self@ == old(self)@.with_child(idx as int, after));
                    }
                    InsertResult::Inserted
                },
                InsertResult::AlreadyExists => {
                    assert(self@.children =~= old(self)@.children);
                    InsertResult::AlreadyExists
                },
            }
        }
    }
}

} // verus!
