//! Removal from a node: down to the key, and back up mending every node that
//! fell below the minimum, by borrowing from a neighbour or by merging with
//! one.
use crate::btree::node::Link;
use crate::btree::node::Node;
use crate::model::Tree;
use crate::model::lemma_key_in_contents;
use crate::model::lemma_leaf_height;
use crate::model::lemma_slot_unique;
use crate::shrink::lemma_fused;
use crate::shrink::lemma_index_unique;
use crate::model::lemma_slot_child;
use crate::order::lt;
use crate::shrink::lemma_child_lost;
use crate::shrink::lemma_first_child_min;
use crate::shrink::lemma_last_child_max;
use crate::shrink::lemma_leaf_first;
use crate::shrink::lemma_leaf_last;
use crate::shrink::lemma_leaf_remove;
use crate::shrink::lemma_merge;
use crate::shrink::lemma_replace_with_pred;
use crate::shrink::lemma_replace_with_succ;
use crate::shrink::lemma_rotate_left;
use crate::shrink::lemma_rotate_right;
use crate::order::total_order;
use vstd::prelude::*;

verus! {

/// How a removal from a node ended. `Deficient` says that the node now holds
/// fewer than `B - 1` keys, so that its parent has to mend it.
pub enum RemoveResult<K> {
    NotFound,
    Removed(K),
    Deficient(K),
}

impl<K: Ord, const B: usize> Node<K, B> {
    /// The tree behind a child that passes from one node to another, as a
    /// sequence of at most one tree.
    pub open spec fn moved(link: Option<Link<K, B>>) -> Seq<Tree<K>> {
        match link {
            Some(l) => seq![l@],
            None => Seq::empty(),
        }
    }

    /// Whether the node holds more than the minimum, so that it can give a
    /// key away.
    pub fn can_spare(&self) -> (r: bool)
        requires
            1 <= B,
        ensures
            r == (self@.keys.len() > Self::min_keys()),
    {
        self.keys.len() > B - 1
    }

    /// Takes the last key, and the last child if there is one, out of the
    /// node.
    pub fn steal_back(&mut self) -> (r: (K, Option<Link<K, B>>))
        requires
            old(self)@.keys.len() >= 1,
        ensures
            final(self)@ == old(self)@.without_last(),
            r.0 == old(self)@.keys.last(),
            Self::moved(r.1) == old(self)@.moved_last(),
    {
        let key = self.keys.pop().unwrap();
        let child = self.children.pop();
        proof {
            assert(self@.keys =~= old(self)@.keys.drop_last());
            if old(self)@.children.len() == 0 {
                assert(self@.children =~= old(self)@.children);
                assert(Self::moved(child) =~= old(self)@.moved_last());
            } else {
                assert(self@.children =~= old(self)@.children.drop_last());
                assert(Self::moved(child) =~= old(self)@.moved_last());
            }
        }
        (key, child)
    }

    /// Takes the first key, and the first child if there is one, out of the
    /// node.
    pub fn steal_front(&mut self) -> (r: (K, Option<Link<K, B>>))
        requires
            old(self)@.keys.len() >= 1,
        ensures
            final(self)@ == old(self)@.without_first(),
            r.0 == old(self)@.keys.first(),
            Self::moved(r.1) == old(self)@.moved_first(),
    {
        let key = self.keys.remove(0);
        if self.children.len() == 0 {
            proof {
                assert(self@.keys =~= old(self)@.keys.drop_first());
                assert(self@.children =~= old(self)@.children);
                assert(Self::moved(None) =~= old(self)@.moved_first());
            }
            (key, None)
        } else {
            let child = self.children.remove(0);
            proof {
                assert(self@.keys =~= old(self)@.keys.drop_first());
                assert(self@.children =~= old(self)@.children.drop_first());
                assert(Self::moved(Some(child)) =~= old(self)@.moved_first());
            }
            (key, Some(child))
        }
    }

    /// Puts `key` before the keys of the node and `child`, if there is one,
    /// before its children.
    pub fn receive_front(&mut self, key: K, child: Option<Link<K, B>>)
        ensures
            final(self)@ == old(self)@.with_front(key, Self::moved(child)),
    {
        self.keys.insert(0, key);
        match child {
            Some(link) => {
                self.children.insert(0, link);
                proof {
                    assert(self@.children =~= Self::moved(child) + old(self)@.children);
                }
            },
            None => {
                proof {
                    assert(self@.children =~= Self::moved(child) + old(self)@.children);
                }
            },
        }
        proof {
            assert(self@.keys =~= seq![key] + old(self)@.keys);
        }
    }

    /// Puts `key` after the keys of the node and `child`, if there is one,
    /// after its children.
    pub fn receive_back(&mut self, key: K, child: Option<Link<K, B>>)
        ensures
            final(self)@ == old(self)@.with_back(key, Self::moved(child)),
    {
        self.keys.push(key);
        match child {
            Some(link) => {
                self.children.push(link);
                proof {
                    assert(self@.children =~= old(self)@.children + Self::moved(child));
                }
            },
            None => {
                proof {
                    assert(self@.children =~= old(self)@.children + Self::moved(child));
                }
            },
        }
    }

    /// Takes in the key `sep` and after it all that `right` holds.
    pub fn absorb(&mut self, sep: K, right: Node<K, B>)
        ensures
            final(self)@ == old(self)@.concat(sep, right@),
    {
        let ghost given = right@;
        let mut right = right;
        self.keys.push(sep);
        self.keys.append(&mut right.keys);
        self.children.append(&mut right.children);
        proof {
            assert(self@.children =~= old(self)@.children + given.children);
        }
    }

    /// Child `idx` borrows a key from the child on its left, through the key
    /// between the two.
    pub fn rotate_right(&mut self, idx: usize)
        requires
            1 <= idx < old(self)@.children.len(),
            idx <= old(self)@.keys.len(),
            old(self)@.children[idx - 1].keys.len() >= 1,
        ensures
            final(self)@ == old(self)@.rotated_right(idx as int),
    {
        let ghost l = self@.children[idx - 1];
        let ghost c = self@.children[idx as int];
        let left = &mut self.children[idx - 1];
        let (up, moved) = left.steal_back();
        let mut passing = up;
        core::mem::swap(&mut self.keys[idx - 1], &mut passing);
        let child = &mut self.children[idx];
        child.receive_front(passing, moved);
        proof {
            assert(self@.keys =~= old(self)@.keys.update(idx - 1, l.keys.last()));
            assert(self@.children =~= old(self)@.children.update(idx - 1, l.without_last()).update(
                idx as int,
                c.with_front(old(self)@.keys[idx - 1], l.moved_last()),
            ));
        }
    }

    /// Child `idx` borrows a key from the child on its right, through the
    /// key between the two.
    pub fn rotate_left(&mut self, idx: usize)
        requires
            idx < old(self)@.keys.len(),
            idx + 1 < old(self)@.children.len(),
            old(self)@.children[idx + 1].keys.len() >= 1,
        ensures
            final(self)@ == old(self)@.rotated_left(idx as int),
    {
        let ghost c = self@.children[idx as int];
        let ghost r = self@.children[idx + 1];
        assert(idx + 1 < self.children.len());
        let right = &mut self.children[idx + 1];
        let (up, moved) = right.steal_front();
        let mut passing = up;
        core::mem::swap(&mut self.keys[idx], &mut passing);
        let child = &mut self.children[idx];
        child.receive_back(passing, moved);
        proof {
            assert(self@.keys =~= old(self)@.keys.update(idx as int, r.keys.first()));
            assert(self@.children =~= old(self)@.children.update(
                idx as int,
                c.with_back(old(self)@.keys[idx as int], r.moved_first()),
            ).update(idx + 1, r.without_first()));
        }
    }

    /// Child `idx`, key `idx` and child `idx + 1` become one child.
    pub fn merge(&mut self, idx: usize)
        requires
            idx < old(self)@.keys.len(),
            idx + 1 < old(self)@.children.len(),
        ensures
            final(self)@ == old(self)@.merged(idx as int),
    {
        let ghost l = self@.children[idx as int];
        let ghost r = self@.children[idx + 1];
        assert(idx + 1 < self.children.len());
        let sep = self.keys.remove(idx);
        let right = self.children.remove(idx + 1);
        let left = &mut self.children[idx];
        left.absorb(sep, *right);
        proof {
            assert(self@.keys =~= old(self)@.keys.remove(idx as int));
            assert(self@.children =~= old(self)@.children.remove(idx + 1).update(
                idx as int,
                l.concat(old(self)@.keys[idx as int], r),
            ));
        }
    }

    /// Mends child `idx`, which is one key short. The last child borrows
    /// from its left neighbour, or merges with it where that neighbour has
    /// no key to spare; every other child does so with its right neighbour.
    pub fn rebalance(&mut self, idx: usize)
        requires
            total_order::<K>(),
            Self::degree_ok(),
            !old(self)@.leaf,
            old(self)@.wf(B as int, 2 * B - 1, idx as int),
            idx < old(self)@.children.len(),
            old(self)@.keys.len() >= 1,
            old(self)@.children[idx as int].keys.len() == B - 2,
        ensures
            final(self).inv(),
            final(self)@.contents() == old(self)@.contents(),
            final(self)@.height() == old(self)@.height(),
            old(self)@.keys.len() - 1 <= final(self)@.keys.len() <= old(self)@.keys.len(),
            final(self)@ == old(self)@.mended(idx as int, B as int),
    {
        if idx == self.keys.len() {
            assert(self@.child_ok(B as int, idx as int, idx - 1));
            if self.children[idx - 1].can_spare() {
                proof {
                    lemma_rotate_right(self@, B as int, 2 * B - 1, idx as int);
                }
                self.rotate_right(idx);
            } else {
                proof {
                    lemma_merge(self@, B as int, 2 * B - 1, idx as int, idx - 1);
                }
                self.merge(idx - 1);
            }
        } else {
            assert(self@.child_ok(B as int, idx as int, idx + 1));
            if self.children[idx + 1].can_spare() {
                proof {
                    lemma_rotate_left(self@, B as int, 2 * B - 1, idx as int);
                }
                self.rotate_left(idx);
            } else {
                proof {
                    lemma_merge(self@, B as int, 2 * B - 1, idx as int, idx as int);
                }
                self.merge(idx);
            }
        }
    }

    /// Takes the largest key out of the subtree, mending on the way back up
    /// what fell below the minimum. Gives that key, and whether this node is
    /// now one key short.
    pub fn remove_last(&mut self) -> (r: (K, bool))
        requires
            total_order::<K>(),
            old(self).inv(),
            old(self)@.keys.len() >= 1,
        ensures
            r.0 == old(self)@.greatest(),
            final(self)@ == old(self)@.without_greatest(B as int),
            final(self).inv(),
            final(self)@.height() == old(self)@.height(),
            old(self)@.contents().contains(r.0),
            forall|x: K| #[trigger] old(self)@.contents().contains(x) ==> x == r.0 || lt(x, r.0),
            final(self)@.contents() == old(self)@.contents().remove(r.0),
            old(self)@.keys.len() - 1 <= final(self)@.keys.len() <= old(self)@.keys.len(),
            r.1 == (final(self)@.keys.len() < B - 1),
        decreases old(self)@.height(),
    {
        proof {
            lemma_leaf_height(self@, B as int, 2 * B - 1, -1);
        }
        if self.is_leaf {
            proof {
                lemma_leaf_last(self@, B as int, 2 * B - 1);
                lemma_leaf_remove(self@, B as int, 2 * B - 1, self@.keys.len() - 1);
                lemma_key_in_contents(self@, self@.keys.len() - 1);
            }
            let key = self.keys.pop().unwrap();
            assert(self@.keys =~= old(self)@.keys.remove(old(self)@.keys.len() - 1));
            assert(self@ == old(self)@.without_key(old(self)@.keys.len() - 1));
            (key, self.keys.len() < B - 1)
        } else {
            let last = self.children.len() - 1;
            assert(self@.child_ok(B as int, -1, last as int));
            let child = &mut self.children[last];
            let (key, deficient) = child.remove_last();
            let ghost after = self.children@[last as int]@;
            proof {
                assert(self@.children =~= old(self)@.children.update(last as int, after));
                assert(self@ == old(self)@.with_child(last as int, after));
                lemma_last_child_max(old(self)@, B as int, 2 * B - 1, key);
                lemma_child_lost(old(self)@, B as int, 2 * B - 1, last as int, after, key);
            }
            if deficient {
                self.rebalance(last);
            }
            (key, self.keys.len() < B - 1)
        }
    }

    /// Takes the smallest key out of the subtree, mending on the way back up
    /// what fell below the minimum. Gives that key, and whether this node is
    /// now one key short.
    pub fn remove_first(&mut self) -> (r: (K, bool))
        requires
            total_order::<K>(),
            old(self).inv(),
            old(self)@.keys.len() >= 1,
        ensures
            r.0 == old(self)@.least(),
            final(self)@ == old(self)@.without_least(B as int),
            final(self).inv(),
            final(self)@.height() == old(self)@.height(),
            old(self)@.contents().contains(r.0),
            forall|x: K| #[trigger] old(self)@.contents().contains(x) ==> x == r.0 || lt(r.0, x),
            final(self)@.contents() == old(self)@.contents().remove(r.0),
            old(self)@.keys.len() - 1 <= final(self)@.keys.len() <= old(self)@.keys.len(),
            r.1 == (final(self)@.keys.len() < B - 1),
        decreases old(self)@.height(),
    {
        proof {
            lemma_leaf_height(self@, B as int, 2 * B - 1, -1);
        }
        if self.is_leaf {
            proof {
                lemma_leaf_first(self@, B as int, 2 * B - 1);
                lemma_leaf_remove(self@, B as int, 2 * B - 1, 0);
                lemma_key_in_contents(self@, 0);
            }
            let key = self.keys.remove(0);
            assert(self@ == old(self)@.without_key(0));
            (key, self.keys.len() < B - 1)
        } else {
            assert(self@.child_ok(B as int, -1, 0));
            let child = &mut self.children[0];
            let (key, deficient) = child.remove_first();
            let ghost after = self.children@[0]@;
            proof {
                assert(self@.children =~= old(self)@.children.update(0, after));
                assert(self@ == old(self)@.with_child(0, after));
                lemma_first_child_min(old(self)@, B as int, 2 * B - 1, key);
                lemma_child_lost(old(self)@, B as int, 2 * B - 1, 0, after, key);
            }
            if deficient {
                self.rebalance(0);
            }
            (key, self.keys.len() < B - 1)
        }
    }

    /// Takes the key at index `idx` out of the node. In a leaf the key
    /// simply leaves. In an intermediate node the largest key below the
    /// child before it takes its place, if that child has a key to spare;
    /// else the smallest key below the child after it, if that one has; else
    /// the two children and the key become one child, which the key then
    /// leaves. Gives the key, and whether this node is now one key short.
    pub fn remove_at(&mut self, idx: usize) -> (r: (K, bool))
        requires
            total_order::<K>(),
            old(self).inv(),
            idx < old(self)@.keys.len(),
        ensures
            r.0 == old(self)@.keys[idx as int],
            final(self)@ == old(self)@.without_at(idx as int, B as int),
            final(self).inv(),
            final(self)@.height() == old(self)@.height(),
            final(self)@.contents() == old(self)@.contents().remove(r.0),
            old(self)@.keys.len() - 1 <= final(self)@.keys.len() <= old(self)@.keys.len(),
            r.1 == (final(self)@.keys.len() < B - 1),
        decreases old(self)@.height(),
    {
        proof {
            lemma_leaf_height(self@, B as int, 2 * B - 1, -1);
        }
        if self.is_leaf {
            proof {
                lemma_leaf_remove(self@, B as int, 2 * B - 1, idx as int);
            }
            let key = self.keys.remove(idx);
            assert(self@ == old(self)@.without_key(idx as int));
            return (key, self.keys.len() < B - 1);
        }
        assert(self@.child_ok(B as int, -1, idx as int));
        assert(self@.child_ok(B as int, -1, idx + 1));
        assert(idx + 1 < self.children.len());
        let ghost left = self@.children[idx as int];
        let ghost right = self@.children[idx + 1];
        let key = if self.children[idx].can_spare() {
            let child = &mut self.children[idx];
            let (pred, _) = child.remove_last();
            let ghost after = self.children@[idx as int]@;
            proof {
                lemma_replace_with_pred(old(self)@, B as int, 2 * B - 1, idx as int, after, pred);
            }
            let mut passing = pred;
            core::mem::swap(&mut self.keys[idx], &mut passing);
            proof {
                assert(self@.keys =~= old(self)@.keys.update(idx as int, pred));
                assert(self@.children =~= old(self)@.children.update(idx as int, after).update(
                    idx + 1,
                    right,
                ));
                assert(self@ == old(self)@.with_pair(idx as int, after, pred, right));
            }
            passing
        } else if self.children[idx + 1].can_spare() {
            let child = &mut self.children[idx + 1];
            let (succ, _) = child.remove_first();
            let ghost after = self.children@[idx + 1]@;
            proof {
                lemma_replace_with_succ(old(self)@, B as int, 2 * B - 1, idx as int, after, succ);
            }
            let mut passing = succ;
            core::mem::swap(&mut self.keys[idx], &mut passing);
            proof {
                assert(self@.keys =~= old(self)@.keys.update(idx as int, succ));
                assert(self@.children =~= old(self)@.children.update(idx as int, left).update(
                    idx + 1,
                    after,
                ));
                assert(self@ == old(self)@.with_pair(idx as int, left, succ, after));
            }
            passing
        } else {
            proof {
                lemma_merge(self@, B as int, 2 * B - 1, -1, idx as int);
            }
            self.merge(idx);
            let ghost joined = self@;
            let ghost whole = self@.children[idx as int];
            assert(self@.child_ok(B as int, -1, idx as int));
            assert(whole.keys[B - 1] == old(self)@.keys[idx as int]);
            let child = &mut self.children[idx];
            let (key, _) = child.remove_at(B - 1);
            let ghost after = self.children@[idx as int]@;
            proof {
                assert(self@.children =~= joined.children.update(idx as int, after));
                assert(self@ == joined.with_child(idx as int, after));
                lemma_key_in_contents(whole, B - 1);
                lemma_child_lost(joined, B as int, 2 * B - 1, idx as int, after, key);
                lemma_fused(left, old(self)@.keys[idx as int], right, B as int);
                assert(after == Tree::fused(left, old(self)@.keys[idx as int], right, B as int));
                assert(self@.children =~= old(self)@.children.remove(idx + 1).update(idx as int, after));
                assert(self@ == old(self)@.with_merged(idx as int, after));
            }
            key
        };
        (key, self.keys.len() < B - 1)
    }

    /// Removes `key` from below this node. A key that is not there leaves
    /// the node as it was. An intermediate node has at least one key, and
    /// so a neighbour for each of its children.
    pub fn remove(&mut self, key: &K) -> (r: RemoveResult<K>)
        requires
            total_order::<K>(),
            old(self).inv(),
            !old(self)@.leaf ==> old(self)@.keys.len() >= 1,
        ensures
            final(self)@ == old(self)@.without(*key, B as int),
            final(self).inv(),
            final(self)@.height() == old(self)@.height(),
            old(self)@.keys.len() - 1 <= final(self)@.keys.len() <= old(self)@.keys.len(),
            match r {
                RemoveResult::NotFound => {
                    &&& !old(self)@.contents().contains(*key)
                    &&& final(self)@ == old(self)@
                },
                RemoveResult::Removed(k) => {
                    &&& k == *key
                    &&& old(self)@.contents().contains(*key)
                    &&& final(self)@.contents() == old(self)@.contents().remove(*key)
                    &&& final(self)@.keys.len() >= B - 1 || final(self)@.keys.len() == old(self)@.keys.len()
                },
                RemoveResult::Deficient(k) => {
                    &&& k == *key
                    &&& old(self)@.contents().contains(*key)
                    &&& final(self)@.contents() == old(self)@.contents().remove(*key)
                    &&& final(self)@.keys.len() < B - 1
                },
            },
        decreases old(self)@.height(),
    {
        let idx = match Self::locate(&self.keys, key) {
            Ok(idx) => {
                proof {
                    lemma_key_in_contents(self@, idx as int);
                    lemma_index_unique(self@.keys, idx as int);
                }
                let (k, deficient) = self.remove_at(idx);
                if deficient {
                    return RemoveResult::Deficient(k);
                } else {
                    return RemoveResult::Removed(k);
                }
            },
            Err(idx) => idx,
        };
        proof {
            lemma_slot_child(self@, B as int, 2 * B - 1, -1, *key, idx as int);
            lemma_slot_unique(self@.keys, *key, idx as int);
            lemma_leaf_height(self@, B as int, 2 * B - 1, -1);
        }
        if self.is_leaf {
            return RemoveResult::NotFound;
        }
        assert(self@.child_ok(B as int, -1, idx as int));
        let child = &mut self.children[idx];
        let outcome = child.remove(key);
        let ghost after = self.children@[idx as int]@;
        assert(self@.children =~= old(self)@.children.update(idx as int, after));
        match outcome {
            RemoveResult::NotFound => {
                assert(self@.children =~= old(self)@.children);
                RemoveResult::NotFound
            },
            RemoveResult::Removed(k) => {
                proof {
                    assert(self@ == old(self)@.with_child(idx as int, after));
                    lemma_child_lost(old(self)@, B as int, 2 * B - 1, idx as int, after, k);
                }
                RemoveResult::Removed(k)
            },
            RemoveResult::Deficient(k) => {
                proof {
                    assert(self@ == old(self)@.with_child(idx as int, after));
                    lemma_child_lost(old(self)@, B as int, 2 * B - 1, idx as int, after, k);
                }
                self.rebalance(idx);
                if self.keys.len() < B - 1 {
                    RemoveResult::Deficient(k)
                } else {
                    RemoveResult::Removed(k)
                }
            },
        }
    }
}

} // verus!
