//! How a tree shrinks: what a node becomes when a key or a child leaves it at
//! one end or joins it there, when two neighbours become one, and when a key
//! passes between neighbours through their parent, and why each of these
//! keeps the invariant.
use crate::model::increasing;
use crate::model::is_slot;
use crate::model::lemma_child_in_contents;
use crate::model::lemma_contents_parts;
use crate::model::lemma_keys_concat;
use crate::model::lemma_keys_one;
use crate::model::lemma_leaf_height;
use crate::model::lemma_slot_child;
use crate::model::lemma_spread_concat;
use crate::model::lemma_spread_none;
use crate::model::lemma_spread_one;
use crate::model::lemma_wf_intro;
use crate::model::slot_of;
use crate::model::spread;
use crate::model::Tree;
use crate::order::lemma_lt_irreflexive;
use crate::order::lemma_lt_transitive;
use crate::order::lt;
use crate::order::total_order;
use vstd::prelude::*;

verus! {

/// Every tree of `moved` can become a child of a node of height `h`: it is a
/// valid subtree, filled to the minimum, one level lower.
pub open spec fn fits<K: Ord>(moved: Seq<Tree<K>>, b: int, h: nat) -> bool {
    forall|j: int|
        0 <= j < moved.len() ==> {
            &&& (#[trigger] moved[j]).valid(b)
            &&& moved[j].keys.len() >= b - 1
            &&& moved[j].height() + 1 == h
        }
}

impl<K: Ord> Tree<K> {
    /// The node without the key at index `i`.
    pub open spec fn without_key(self, i: int) -> Tree<K> {
        Tree { leaf: self.leaf, keys: self.keys.remove(i), children: self.children }
    }

    /// The last child, if there is one, as a sequence of at most one tree.
    pub open spec fn moved_last(self) -> Seq<Tree<K>> {
        if self.children.len() == 0 {
            Seq::empty()
        } else {
            seq![self.children.last()]
        }
    }

    /// The first child, if there is one, as a sequence of at most one tree.
    pub open spec fn moved_first(self) -> Seq<Tree<K>> {
        if self.children.len() == 0 {
            Seq::empty()
        } else {
            seq![self.children.first()]
        }
    }

    /// The node without its last key and its last child.
    pub open spec fn without_last(self) -> Tree<K> {
        Tree {
            leaf: self.leaf,
            keys: self.keys.drop_last(),
            children: if self.children.len() == 0 {
                self.children
            } else {
                self.children.drop_last()
            },
        }
    }

    /// The node without its first key and its first child.
    pub open spec fn without_first(self) -> Tree<K> {
        Tree {
            leaf: self.leaf,
            keys: self.keys.drop_first(),
            children: if self.children.len() == 0 {
                self.children
            } else {
                self.children.drop_first()
            },
        }
    }

    /// The node with `key` before its keys and `moved` before its children.
    pub open spec fn with_front(self, key: K, moved: Seq<Tree<K>>) -> Tree<K> {
        Tree { leaf: self.leaf, keys: seq![key] + self.keys, children: moved + self.children }
    }

    /// The node with `key` after its keys and `moved` after its children.
    pub open spec fn with_back(self, key: K, moved: Seq<Tree<K>>) -> Tree<K> {
        Tree { leaf: self.leaf, keys: self.keys.push(key), children: self.children + moved }
    }

    /// What child `i`, key `i` and child `i + 1` hold together.
    pub open spec fn window(self, i: int) -> Set<K> {
        self.children[i].contents().union(self.children[i + 1].contents()).insert(self.keys[i])
    }

    /// The node with `l2`, `s2` and `r2` in the places of child `i`, key `i`
    /// and child `i + 1`.
    pub open spec fn with_pair(self, i: int, l2: Tree<K>, s2: K, r2: Tree<K>) -> Tree<K> {
        Tree {
            leaf: self.leaf,
            keys: self.keys.update(i, s2),
            children: self.children.update(i, l2).update(i + 1, r2),
        }
    }

    /// The node with the one child `m` in the place of child `i`, key `i`
    /// and child `i + 1`.
    pub open spec fn with_merged(self, i: int, m: Tree<K>) -> Tree<K> {
        Tree {
            leaf: self.leaf,
            keys: self.keys.remove(i),
            children: self.children.remove(i + 1).update(i, m),
        }
    }

    /// The node after its child `i` has borrowed a key from the child on its
    /// left: the key between the two moves down to the front of child `i`,
    /// the last key of the left child moves up in its place, and the last
    /// child of the left child, if it has any, becomes the first of child `i`.
    pub open spec fn rotated_right(self, i: int) -> Tree<K> {
        let l = self.children[i - 1];
        let c = self.children[i];
        self.with_pair(
            i - 1,
            l.without_last(),
            l.keys.last(),
            c.with_front(self.keys[i - 1], l.moved_last()),
        )
    }

    /// The node after its child `i` has borrowed a key from the child on its
    /// right: the key between the two moves down to the end of child `i`,
    /// the first key of the right child moves up in its place, and the first
    /// child of the right child, if it has any, becomes the last of child `i`.
    pub open spec fn rotated_left(self, i: int) -> Tree<K> {
        let c = self.children[i];
        let r = self.children[i + 1];
        self.with_pair(
            i,
            c.with_back(self.keys[i], r.moved_first()),
            r.keys.first(),
            r.without_first(),
        )
    }

    /// The node after child `i`, key `i` and child `i + 1` have become one
    /// child.
    pub open spec fn merged(self, i: int) -> Tree<K> {
        self.with_merged(i, self.children[i].concat(self.keys[i], self.children[i + 1]))
    }

    /// The node after its child `i`, which is one key short, has been
    /// mended. The last child borrows from the child on its left, where that
    /// one holds more than `b - 1` keys, and else becomes one with it; every
    /// other child does so with the child on its right.
    pub open spec fn mended(self, i: int, b: int) -> Tree<K> {
        if i == self.keys.len() {
            if self.children[i - 1].keys.len() > b - 1 {
                self.rotated_right(i)
            } else {
                self.merged(i - 1)
            }
        } else {
            if self.children[i + 1].keys.len() > b - 1 {
                self.rotated_left(i)
            } else {
                self.merged(i)
            }
        }
    }

    /// The node after its child `i` has been mended, if that child holds
    /// fewer than `b - 1` keys.
    pub open spec fn settled(self, i: int, b: int) -> Tree<K> {
        if self.children[i].keys.len() < b - 1 {
            self.mended(i, b)
        } else {
            self
        }
    }

    /// The key at the far right of the tree.
    pub open spec fn greatest(self) -> K
        decreases self,
    {
        if self.children.len() == 0 {
            self.keys.last()
        } else {
            self.children.last().greatest()
        }
    }

    /// The key at the far left of the tree.
    pub open spec fn least(self) -> K
        decreases self,
    {
        if self.children.len() == 0 {
            self.keys.first()
        } else {
            self.children.first().least()
        }
    }

    /// The tree after the key at its far right has left its leaf and every
    /// node on the way back up was mended where its last child had come one
    /// key short.
    pub open spec fn without_greatest(self, b: int) -> Tree<K>
        decreases self,
    {
        if self.children.len() == 0 {
            self.without_key(self.keys.len() - 1)
        } else {
            let n = self.children.len() - 1;
            self.with_child(n, self.children[n].without_greatest(b)).settled(n, b)
        }
    }

    /// The tree after the key at its far left has left its leaf and every
    /// node on the way back up was mended where its first child had come one
    /// key short.
    pub open spec fn without_least(self, b: int) -> Tree<K>
        decreases self,
    {
        if self.children.len() == 0 {
            self.without_key(0)
        } else {
            self.with_child(0, self.children[0].without_least(b)).settled(0, b)
        }
    }

    /// The node made of `l`, `sep` and `r` after `sep` has left it again.
    /// From a leaf the key simply leaves. Else the key stands between the
    /// last child of `l` and the first child of `r`: the greatest key of the
    /// one takes its place if that child holds more than `b - 1` keys, else
    /// the least key of the other if that one does, and else the two
    /// children become one in the same way.
    pub open spec fn fused(l: Tree<K>, sep: K, r: Tree<K>, b: int) -> Tree<K>
        decreases l,
    {
        let m = l.concat(sep, r);
        let i = l.keys.len() as int;
        if l.children.len() == 0 || r.children.len() == 0 {
            m.without_key(i)
        } else {
            let before = l.children.last();
            let after = r.children.first();
            if before.keys.len() > b - 1 {
                m.with_pair(i, before.without_greatest(b), before.greatest(), after)
            } else if after.keys.len() > b - 1 {
                m.with_pair(i, before, after.least(), after.without_least(b))
            } else {
                m.with_merged(i, Tree::fused(before, sep, after, b))
            }
        }
    }

    /// The node after key `i` has left it. From a leaf the key simply
    /// leaves. In an intermediate node the greatest key below the child
    /// before it takes its place if that child holds more than `b - 1` keys,
    /// else the least key below the child after it if that one does, and
    /// else the two children and the key become one child, which the key
    /// then leaves.
    pub open spec fn without_at(self, i: int, b: int) -> Tree<K> {
        if self.children.len() == 0 {
            self.without_key(i)
        } else {
            let before = self.children[i];
            let after = self.children[i + 1];
            if before.keys.len() > b - 1 {
                self.with_pair(i, before.without_greatest(b), before.greatest(), after)
            } else if after.keys.len() > b - 1 {
                self.with_pair(i, before, after.least(), after.without_least(b))
            } else {
                self.with_merged(i, Tree::fused(before, self.keys[i], after, b))
            }
        }
    }

    /// The tree after `key` has left it. A node that holds the key gives it
    /// up. A leaf that does not hold it stays as it is. An intermediate node
    /// lets the child at the slot of the key give it up, if the key is
    /// there, and mends that child if it has come one key short.
    pub open spec fn without(self, key: K, b: int) -> Tree<K>
        decreases self,
    {
        let i = slot_of(self.keys, key);
        if self.keys.contains(key) {
            self.without_at(self.keys.index_of(key), b)
        } else if 0 <= i < self.children.len() && self.children[i].contents().contains(key) {
            self.with_child(i, self.children[i].without(key, b)).settled(i, b)
        } else {
            self
        }
    }

    /// The tree under a root that holds no key any more: the only child of
    /// the root.
    pub open spec fn collapsed(self) -> Tree<K> {
        if !self.leaf && self.keys.len() == 0 {
            self.children[0]
        } else {
            self
        }
    }

    /// The node made of this node, the key `sep` and the node `right`, in
    /// this order.
    pub open spec fn concat(self, sep: K, right: Tree<K>) -> Tree<K> {
        Tree {
            leaf: self.leaf,
            keys: self.keys.push(sep) + right.keys,
            children: self.children + right.children,
        }
    }
}

/// Taking the last key and the last child from a valid node leaves a valid
/// node whose keys all come before the key taken; the child taken holds only
/// keys after it.
pub proof fn lemma_without_last<K: Ord>(t: Tree<K>, b: int)
    requires
        total_order::<K>(),
        t.valid(b),
        t.keys.len() >= 1,
    ensures
        t.without_last().valid(b),
        t.without_last().keys.len() == t.keys.len() - 1,
        t.without_last().height() == t.height(),
        t.without_last().below(t.keys.last()),
        t.moved_last().len() == (if t.leaf {
            0int
        } else {
            1int
        }),
        fits(t.moved_last(), b, t.height()),
        forall|j: int| 0 <= j < t.moved_last().len() ==> (#[trigger] t.moved_last()[j]).above(t.keys.last()),
        t.without_last().contents().union(spread(t.moved_last())).insert(t.keys.last()) == t.contents(),
{
    let u = t.without_last();
    let k = t.keys.last();
    let m = t.moved_last();
    let n = t.keys.len() as int;
    assert forall|x: int, y: int| 0 <= x < y < u.keys.len() implies lt(#[trigger] u.keys[x], #[trigger] u.keys[y]) by {
        assert(u.keys[x] == t.keys[x]);
        assert(u.keys[y] == t.keys[y]);
    }
    if !t.leaf {
        assert(t.child_ok(b, -1, 0));
        assert(t.child_ok(b, -1, n));
        assert(u.children[0] == t.children[0]);
        assert(m[0] == t.children[n]);
        assert forall|j: int| 0 <= j < u.children.len() implies #[trigger] u.child_ok(b, -1, j) && u.children[j].wf(
            b,
            2 * b - 1,
            -1,
        ) by {
            assert(t.child_ok(b, -1, j));
            assert(u.children[j] == t.children[j]);
            if j < u.keys.len() {
                assert(u.keys[j] == t.keys[j]);
            }
            if j > 0 {
                assert(u.keys[j - 1] == t.keys[j - 1]);
            }
        }
    }
    lemma_wf_intro(u, b, 2 * b - 1, -1);
    assert forall|x: K| u.contents().contains(x) implies lt(x, k) by {
        if u.keys.contains(x) {
            let j = choose|j: int| 0 <= j < u.keys.len() && u.keys[j] == x;
            assert(t.keys[j] == x);
        } else {
            let j = choose|j: int| 0 <= j < u.children.len() && (#[trigger] u.children[j]).contents().contains(x);
            assert(u.children[j] == t.children[j]);
            assert(t.child_ok(b, -1, j));
            assert(lt(x, t.keys[j]));
            if j < n - 1 {
                lemma_lt_transitive(x, t.keys[j], k);
            }
        }
    }
    assert(t.keys =~= u.keys + seq![k]);
    assert(t.children =~= u.children + m);
    lemma_contents_parts(t);
    lemma_contents_parts(u);
    lemma_keys_concat(u.keys, seq![k]);
    lemma_keys_one(k);
    lemma_spread_concat(u.children, m);
    assert(u.contents().union(spread(m)).insert(k) =~= t.contents());
}

/// Taking the first key and the first child from a valid node leaves a valid
/// node whose keys all come after the key taken; the child taken holds only
/// keys before it.
pub proof fn lemma_without_first<K: Ord>(t: Tree<K>, b: int)
    requires
        total_order::<K>(),
        t.valid(b),
        t.keys.len() >= 1,
    ensures
        t.without_first().valid(b),
        t.without_first().keys.len() == t.keys.len() - 1,
        t.without_first().height() == t.height(),
        t.without_first().above(t.keys.first()),
        t.moved_first().len() == (if t.leaf {
            0int
        } else {
            1int
        }),
        fits(t.moved_first(), b, t.height()),
        forall|j: int| 0 <= j < t.moved_first().len() ==> (#[trigger] t.moved_first()[j]).below(t.keys.first()),
        t.without_first().contents().union(spread(t.moved_first())).insert(t.keys.first()) == t.contents(),
{
    let u = t.without_first();
    let k = t.keys.first();
    let m = t.moved_first();
    assert forall|x: int, y: int| 0 <= x < y < u.keys.len() implies lt(#[trigger] u.keys[x], #[trigger] u.keys[y]) by {
        assert(u.keys[x] == t.keys[x + 1]);
        assert(u.keys[y] == t.keys[y + 1]);
    }
    if !t.leaf {
        assert(t.child_ok(b, -1, 0));
        assert(t.child_ok(b, -1, 1));
        assert(u.children[0] == t.children[1]);
        assert(m[0] == t.children[0]);
        assert forall|j: int| 0 <= j < u.children.len() implies #[trigger] u.child_ok(b, -1, j) && u.children[j].wf(
            b,
            2 * b - 1,
            -1,
        ) by {
            assert(t.child_ok(b, -1, j + 1));
            assert(u.children[j] == t.children[j + 1]);
            if j < u.keys.len() {
                assert(u.keys[j] == t.keys[j + 1]);
            }
            if j > 0 {
                assert(u.keys[j - 1] == t.keys[j]);
            }
        }
    }
    lemma_wf_intro(u, b, 2 * b - 1, -1);
    assert forall|x: K| u.contents().contains(x) implies lt(k, x) by {
        if u.keys.contains(x) {
            let j = choose|j: int| 0 <= j < u.keys.len() && u.keys[j] == x;
            assert(t.keys[j + 1] == x);
        } else {
            let j = choose|j: int| 0 <= j < u.children.len() && (#[trigger] u.children[j]).contents().contains(x);
            assert(u.children[j] == t.children[j + 1]);
            assert(t.child_ok(b, -1, j + 1));
            assert(lt(t.keys[j], x));
            if j > 0 {
                lemma_lt_transitive(k, t.keys[j], x);
            }
        }
    }
    assert(t.keys =~= seq![k] + u.keys);
    assert(t.children =~= m + u.children);
    lemma_contents_parts(t);
    lemma_contents_parts(u);
    lemma_keys_concat(seq![k], u.keys);
    lemma_keys_one(k);
    lemma_spread_concat(m, u.children);
    assert(u.contents().union(spread(m)).insert(k) =~= t.contents());
}

/// A valid node with room for one more key stays valid when a key that comes
/// before all it holds is put in front, together with a child that holds
/// only keys before that key.
pub proof fn lemma_with_front<K: Ord>(t: Tree<K>, b: int, key: K, moved: Seq<Tree<K>>)
    requires
        total_order::<K>(),
        t.valid(b),
        t.keys.len() <= 2 * b - 2,
        t.above(key),
        moved.len() == (if t.leaf {
            0int
        } else {
            1int
        }),
        fits(moved, b, t.height()),
        forall|j: int| 0 <= j < moved.len() ==> (#[trigger] moved[j]).below(key),
    ensures
        t.with_front(key, moved).valid(b),
        t.with_front(key, moved).keys.len() == t.keys.len() + 1,
        t.with_front(key, moved).height() == t.height(),
        t.with_front(key, moved).contents() == t.contents().union(spread(moved)).insert(key),
{
    let u = t.with_front(key, moved);
    assert(u.keys[0] == key);
    assert forall|j: int| 0 <= j < t.keys.len() implies lt(key, #[trigger] t.keys[j]) by {
        assert(t.contents().contains(t.keys[j]));
    }
    assert forall|x: int, y: int| 0 <= x < y < u.keys.len() implies lt(#[trigger] u.keys[x], #[trigger] u.keys[y]) by {
        assert(u.keys[y] == t.keys[y - 1]);
        if x > 0 {
            assert(u.keys[x] == t.keys[x - 1]);
        }
    }
    if !t.leaf {
        assert(t.child_ok(b, -1, 0));
        assert(u.children[0] == moved[0]);
        assert(t.height() == 1 + t.children[0].height());
        assert forall|j: int| 0 <= j < u.children.len() implies #[trigger] u.child_ok(b, -1, j) && u.children[j].wf(
            b,
            2 * b - 1,
            -1,
        ) by {
            if j > 0 {
                assert(t.child_ok(b, -1, j - 1));
                assert(u.children[j] == t.children[j - 1]);
                if j < u.keys.len() {
                    assert(u.keys[j] == t.keys[j - 1]);
                }
                if j > 1 {
                    assert(u.keys[j - 1] == t.keys[j - 2]);
                } else {
                    assert forall|x: K| t.children[0].contents().contains(x) implies lt(key, x) by {
                        assert(t.contents().contains(x));
                    }
                }
            }
        }
    } else {
        assert(u.children =~= t.children);
    }
    lemma_wf_intro(u, b, 2 * b - 1, -1);
    lemma_contents_parts(t);
    lemma_contents_parts(u);
    lemma_keys_concat(seq![key], t.keys);
    lemma_keys_one(key);
    lemma_spread_concat(moved, t.children);
    assert(u.contents() =~= t.contents().union(spread(moved)).insert(key));
}

/// A valid node with room for one more key stays valid when a key that comes
/// after all it holds is put at its end, together with a child that holds
/// only keys after that key.
pub proof fn lemma_with_back<K: Ord>(t: Tree<K>, b: int, key: K, moved: Seq<Tree<K>>)
    requires
        total_order::<K>(),
        t.valid(b),
        t.keys.len() <= 2 * b - 2,
        t.below(key),
        moved.len() == (if t.leaf {
            0int
        } else {
            1int
        }),
        fits(moved, b, t.height()),
        forall|j: int| 0 <= j < moved.len() ==> (#[trigger] moved[j]).above(key),
    ensures
        t.with_back(key, moved).valid(b),
        t.with_back(key, moved).keys.len() == t.keys.len() + 1,
        t.with_back(key, moved).height() == t.height(),
        t.with_back(key, moved).contents() == t.contents().union(spread(moved)).insert(key),
{
    let u = t.with_back(key, moved);
    let n = t.keys.len() as int;
    assert(u.keys[n] == key);
    assert forall|j: int| 0 <= j < t.keys.len() implies lt(#[trigger] t.keys[j], key) by {
        assert(t.contents().contains(t.keys[j]));
    }
    assert forall|x: int, y: int| 0 <= x < y < u.keys.len() implies lt(#[trigger] u.keys[x], #[trigger] u.keys[y]) by {
        assert(u.keys[x] == t.keys[x]);
        if y < n {
            assert(u.keys[y] == t.keys[y]);
        }
    }
    if !t.leaf {
        assert(t.child_ok(b, -1, 0));
        assert(u.children[0] == t.children[0]);
        assert(u.children[n + 1] == moved[0]);
        assert(t.height() == 1 + t.children[0].height());
        assert forall|j: int| 0 <= j < u.children.len() implies #[trigger] u.child_ok(b, -1, j) && u.children[j].wf(
            b,
            2 * b - 1,
            -1,
        ) by {
            if j <= n {
                assert(t.child_ok(b, -1, j));
                assert(u.children[j] == t.children[j]);
                if j < n {
                    assert(u.keys[j] == t.keys[j]);
                } else {
                    assert forall|x: K| t.children[n].contents().contains(x) implies lt(x, key) by {
                        assert(t.contents().contains(x));
                    }
                }
                if j > 0 {
                    assert(u.keys[j - 1] == t.keys[j - 1]);
                }
            }
        }
    } else {
        assert(u.children =~= t.children);
    }
    lemma_wf_intro(u, b, 2 * b - 1, -1);
    lemma_contents_parts(t);
    lemma_contents_parts(u);
    assert(u.keys =~= t.keys + seq![key]);
    lemma_keys_concat(t.keys, seq![key]);
    lemma_keys_one(key);
    lemma_spread_concat(t.children, moved);
    assert(u.contents() =~= t.contents().union(spread(moved)).insert(key));
}

/// Two valid nodes of one height with a key between them, small enough
/// together, make one valid node that holds what the three held.
pub proof fn lemma_concat<K: Ord>(l: Tree<K>, sep: K, r: Tree<K>, b: int)
    requires
        total_order::<K>(),
        l.valid(b),
        r.valid(b),
        l.height() == r.height(),
        l.below(sep),
        r.above(sep),
        l.keys.len() + r.keys.len() + 1 <= 2 * b - 1,
    ensures
        l.concat(sep, r).valid(b),
        l.concat(sep, r).keys.len() == l.keys.len() + r.keys.len() + 1,
        l.concat(sep, r).height() == l.height(),
        l.concat(sep, r).contents() == l.contents().union(r.contents()).insert(sep),
{
    let u = l.concat(sep, r);
    let n = l.keys.len() as int;
    lemma_leaf_height(l, b, 2 * b - 1, -1);
    lemma_leaf_height(r, b, 2 * b - 1, -1);
    assert(u.keys[n] == sep);
    assert forall|j: int| 0 <= j < l.keys.len() implies lt(#[trigger] l.keys[j], sep) by {
        assert(l.contents().contains(l.keys[j]));
    }
    assert forall|j: int| 0 <= j < r.keys.len() implies lt(sep, #[trigger] r.keys[j]) by {
        assert(r.contents().contains(r.keys[j]));
    }
    assert forall|x: int, y: int| 0 <= x < y < u.keys.len() implies lt(#[trigger] u.keys[x], #[trigger] u.keys[y]) by {
        if y < n {
            assert(u.keys[x] == l.keys[x]);
            assert(u.keys[y] == l.keys[y]);
        } else if y == n {
            assert(u.keys[x] == l.keys[x]);
        } else {
            assert(u.keys[y] == r.keys[y - n - 1]);
            if x < n {
                assert(u.keys[x] == l.keys[x]);
                lemma_lt_transitive(l.keys[x], sep, r.keys[y - n - 1]);
            } else if x > n {
                assert(u.keys[x] == r.keys[x - n - 1]);
            }
        }
    }
    if !l.leaf {
        assert(l.child_ok(b, -1, 0));
        assert(r.child_ok(b, -1, 0));
        assert(u.children[0] == l.children[0]);
        assert(l.height() == 1 + l.children[0].height());
        assert(r.height() == 1 + r.children[0].height());
        assert forall|j: int| 0 <= j < u.children.len() implies #[trigger] u.child_ok(b, -1, j) && u.children[j].wf(
            b,
            2 * b - 1,
            -1,
        ) by {
            if j <= n {
                assert(l.child_ok(b, -1, j));
                assert(u.children[j] == l.children[j]);
                if j < n {
                    assert(u.keys[j] == l.keys[j]);
                } else {
                    assert forall|x: K| l.children[n].contents().contains(x) implies lt(x, sep) by {
                        assert(l.contents().contains(x));
                    }
                }
                if j > 0 {
                    assert(u.keys[j - 1] == l.keys[j - 1]);
                }
            } else {
                let q = j - n - 1;
                assert(r.child_ok(b, -1, q));
                assert(u.children[j] == r.children[q]);
                if j < u.keys.len() {
                    assert(u.keys[j] == r.keys[q]);
                }
                if q > 0 {
                    assert(u.keys[j - 1] == r.keys[q - 1]);
                } else {
                    assert forall|x: K| r.children[0].contents().contains(x) implies lt(sep, x) by {
                        assert(r.contents().contains(x));
                    }
                }
            }
        }
    } else {
        assert(u.children =~= l.children);
    }
    lemma_wf_intro(u, b, 2 * b - 1, -1);
    lemma_contents_parts(l);
    lemma_contents_parts(r);
    lemma_contents_parts(u);
    assert(u.keys =~= (l.keys + seq![sep]) + r.keys);
    lemma_keys_concat(l.keys + seq![sep], r.keys);
    lemma_keys_concat(l.keys, seq![sep]);
    lemma_keys_one(sep);
    lemma_spread_concat(l.children, r.children);
    assert(u.contents() =~= l.contents().union(r.contents()).insert(sep));
}

/// What lies in the window at `i` lies nowhere else in the node, and lies
/// between the keys on either side of the window.
pub proof fn lemma_window_apart<K: Ord>(t: Tree<K>, b: int, cap: int, weak: int, i: int, x: K)
    requires
        total_order::<K>(),
        !t.leaf,
        t.wf(b, cap, weak),
        0 <= i < t.keys.len(),
        t.window(i).contains(x),
    ensures
        forall|j: int| 0 <= j < i ==> lt(#[trigger] t.keys[j], x),
        forall|j: int| i < j < t.keys.len() ==> lt(x, #[trigger] t.keys[j]),
        forall|j: int| 0 <= j < t.keys.len() && j != i ==> #[trigger] t.keys[j] != x,
        forall|j: int|
            0 <= j < t.children.len() && j != i && j != i + 1 ==> !(#[trigger] t.children[j]).contents().contains(
                x,
            ),
{
    assert(t.child_ok(b, weak, i));
    assert(t.child_ok(b, weak, i + 1));
    lemma_lt_irreflexive(x);
    assert forall|j: int| 0 <= j < i implies lt(#[trigger] t.keys[j], x) by {
        if x == t.keys[i] {
        } else if t.children[i].contents().contains(x) {
            if j < i - 1 {
                lemma_lt_transitive(t.keys[j], t.keys[i - 1], x);
            }
        } else {
            assert(t.children[i + 1].contents().contains(x));
            lemma_lt_transitive(t.keys[j], t.keys[i], x);
        }
    }
    assert forall|j: int| i < j < t.keys.len() implies lt(x, #[trigger] t.keys[j]) by {
        if x == t.keys[i] {
        } else if t.children[i].contents().contains(x) {
            lemma_lt_transitive(x, t.keys[i], t.keys[j]);
        } else {
            assert(t.children[i + 1].contents().contains(x));
            if j > i + 1 {
                lemma_lt_transitive(x, t.keys[i + 1], t.keys[j]);
            }
        }
    }
    assert forall|j: int|
        0 <= j < t.children.len() && j != i && j != i + 1 implies !(#[trigger] t.children[j]).contents().contains(
        x,
    ) by {
        assert(t.child_ok(b, weak, j));
        if t.children[j].contents().contains(x) {
            if j < i {
                assert(lt(x, t.keys[j]));
                assert(lt(t.keys[j], x));
                lemma_lt_transitive(x, t.keys[j], x);
            } else {
                assert(lt(t.keys[j - 1], x));
                assert(lt(x, t.keys[j - 1]));
                lemma_lt_transitive(x, t.keys[j - 1], x);
            }
        }
    }
}

/// A node stays a search tree when two neighbouring children and the key
/// between them are replaced by two valid children and a key between those,
/// which hold nothing that the three did not hold.
pub proof fn lemma_pair_replaced<K: Ord>(
    t: Tree<K>,
    b: int,
    cap: int,
    weak: int,
    i: int,
    l2: Tree<K>,
    s2: K,
    r2: Tree<K>,
)
    requires
        total_order::<K>(),
        !t.leaf,
        t.wf(b, cap, weak),
        0 <= i < t.keys.len(),
        weak == -1 || weak == i || weak == i + 1,
        l2.valid(b),
        r2.valid(b),
        l2.keys.len() >= b - 1,
        r2.keys.len() >= b - 1,
        l2.height() == t.children[i].height(),
        r2.height() == t.children[i].height(),
        l2.below(s2),
        r2.above(s2),
        l2.contents().union(r2.contents()).insert(s2).subset_of(t.window(i)),
    ensures
        t.with_pair(i, l2, s2, r2).wf(b, cap, -1),
        t.with_pair(i, l2, s2, r2).keys.len() == t.keys.len(),
        t.with_pair(i, l2, s2, r2).height() == t.height(),
        t.with_pair(i, l2, s2, r2).contents() == t.contents().difference(t.window(i)).union(
            l2.contents().union(r2.contents()).insert(s2),
        ),
{
    let u = t.with_pair(i, l2, s2, r2);
    let fresh = l2.contents().union(r2.contents()).insert(s2);
    assert(t.child_ok(b, weak, i));
    assert(t.child_ok(b, weak, i + 1));
    assert(t.child_ok(b, weak, 0));
    assert(u.keys[i] == s2);
    assert(u.children[i] == l2);
    assert(u.children[i + 1] == r2);
    assert forall|x: K| fresh.contains(x) implies t.window(i).contains(x) by {}
    assert(fresh.contains(s2));
    lemma_window_apart(t, b, cap, weak, i, s2);
    assert forall|x: int, y: int| 0 <= x < y < u.keys.len() implies lt(#[trigger] u.keys[x], #[trigger] u.keys[y]) by {
        if x != i {
            assert(u.keys[x] == t.keys[x]);
        }
        if y != i {
            assert(u.keys[y] == t.keys[y]);
        }
    }
    if i > 0 {
        assert forall|x: K| l2.contents().contains(x) implies lt(t.keys[i - 1], x) by {
            assert(fresh.contains(x));
            lemma_window_apart(t, b, cap, weak, i, x);
        }
    }
    if i + 1 < t.keys.len() {
        assert forall|x: K| r2.contents().contains(x) implies lt(x, t.keys[i + 1]) by {
            assert(fresh.contains(x));
            lemma_window_apart(t, b, cap, weak, i, x);
        }
    }
    assert(u.children[0].height() == t.children[0].height());
    assert forall|j: int| 0 <= j < u.children.len() implies #[trigger] u.child_ok(b, -1, j) && u.children[j].wf(
        b,
        2 * b - 1,
        -1,
    ) by {
        if j != i && j != i + 1 {
            assert(t.child_ok(b, weak, j));
            assert(u.children[j] == t.children[j]);
            if j < u.keys.len() {
                assert(u.keys[j] == t.keys[j]);
            }
            if j > 0 {
                assert(u.keys[j - 1] == t.keys[j - 1]);
            }
        } else if j == i {
            if j > 0 {
                assert(u.keys[j - 1] == t.keys[j - 1]);
            }
        } else {
            if j < u.keys.len() {
                assert(u.keys[j] == t.keys[j]);
            }
        }
    }
    lemma_wf_intro(u, b, cap, -1);
    let goal = t.contents().difference(t.window(i)).union(fresh);
    assert forall|x: K| u.contents().contains(x) <==> goal.contains(x) by {
        if u.contents().contains(x) {
            if u.keys.contains(x) {
                let j = choose|j: int| 0 <= j < u.keys.len() && u.keys[j] == x;
                if j != i {
                    assert(t.keys[j] == x);
                    if t.window(i).contains(x) {
                        lemma_window_apart(t, b, cap, weak, i, x);
                    }
                }
            } else {
                let j = choose|j: int| 0 <= j < u.children.len() && (#[trigger] u.children[j]).contents().contains(x);
                if j != i && j != i + 1 {
                    assert(u.children[j] == t.children[j]);
                    assert(t.children[j].contents().contains(x));
                    if t.window(i).contains(x) {
                        lemma_window_apart(t, b, cap, weak, i, x);
                    }
                }
            }
        }
        if fresh.contains(x) {
            if x == s2 {
                assert(u.keys[i] == x);
            } else if l2.contents().contains(x) {
                assert(u.children[i].contents().contains(x));
            } else {
                assert(u.children[i + 1].contents().contains(x));
            }
        } else if t.contents().contains(x) && !t.window(i).contains(x) {
            if t.keys.contains(x) {
                let j = choose|j: int| 0 <= j < t.keys.len() && t.keys[j] == x;
                assert(j != i);
                assert(u.keys[j] == x);
            } else {
                let j = choose|j: int| 0 <= j < t.children.len() && (#[trigger] t.children[j]).contents().contains(x);
                assert(j != i && j != i + 1);
                assert(u.children[j] == t.children[j]);
                assert(u.children[j].contents().contains(x));
            }
        }
    }
    assert(u.contents() =~= goal);
}

/// A node stays a search tree, one key smaller, when two neighbouring
/// children and the key between them are replaced by one valid child, which
/// holds nothing that the three did not hold.
pub proof fn lemma_pair_merged<K: Ord>(t: Tree<K>, b: int, cap: int, weak: int, i: int, m: Tree<K>)
    requires
        total_order::<K>(),
        !t.leaf,
        t.wf(b, cap, weak),
        0 <= i < t.keys.len(),
        weak == -1 || weak == i || weak == i + 1,
        m.valid(b),
        m.keys.len() >= b - 1,
        m.height() == t.children[i].height(),
        m.contents().subset_of(t.window(i)),
    ensures
        t.with_merged(i, m).wf(b, cap, -1),
        t.with_merged(i, m).keys.len() == t.keys.len() - 1,
        t.with_merged(i, m).height() == t.height(),
        t.with_merged(i, m).contents() == t.contents().difference(t.window(i)).union(m.contents()),
{
    let u = t.with_merged(i, m);
    assert(t.child_ok(b, weak, i));
    assert(t.child_ok(b, weak, i + 1));
    assert(t.child_ok(b, weak, 0));
    assert(u.children[i] == m);
    assert forall|x: K| m.contents().contains(x) implies t.window(i).contains(x) by {}
    assert forall|x: int, y: int| 0 <= x < y < u.keys.len() implies lt(#[trigger] u.keys[x], #[trigger] u.keys[y]) by {
        if x < i {
            assert(u.keys[x] == t.keys[x]);
        } else {
            assert(u.keys[x] == t.keys[x + 1]);
        }
        if y < i {
            assert(u.keys[y] == t.keys[y]);
        } else {
            assert(u.keys[y] == t.keys[y + 1]);
        }
    }
    if i > 0 {
        assert forall|x: K| m.contents().contains(x) implies lt(t.keys[i - 1], x) by {
            lemma_window_apart(t, b, cap, weak, i, x);
        }
        assert(u.children[0] == t.children[0]);
    }
    if i + 1 < t.keys.len() {
        assert forall|x: K| m.contents().contains(x) implies lt(x, t.keys[i + 1]) by {
            lemma_window_apart(t, b, cap, weak, i, x);
        }
    }
    assert(u.children[0].height() == t.children[0].height());
    assert forall|j: int| 0 <= j < u.children.len() implies #[trigger] u.child_ok(b, -1, j) && u.children[j].wf(
        b,
        2 * b - 1,
        -1,
    ) by {
        if j < i {
            assert(t.child_ok(b, weak, j));
            assert(u.children[j] == t.children[j]);
            assert(u.keys[j] == t.keys[j]);
            if j > 0 {
                assert(u.keys[j - 1] == t.keys[j - 1]);
            }
        } else if j == i {
            if j < u.keys.len() {
                assert(u.keys[j] == t.keys[j + 1]);
            }
            if j > 0 {
                assert(u.keys[j - 1] == t.keys[j - 1]);
            }
        } else {
            assert(t.child_ok(b, weak, j + 1));
            assert(u.children[j] == t.children[j + 1]);
            if j < u.keys.len() {
                assert(u.keys[j] == t.keys[j + 1]);
            }
            assert(u.keys[j - 1] == t.keys[j]);
        }
    }
    lemma_wf_intro(u, b, cap, -1);
    let goal = t.contents().difference(t.window(i)).union(m.contents());
    assert forall|x: K| u.contents().contains(x) <==> goal.contains(x) by {
        if u.contents().contains(x) {
            if u.keys.contains(x) {
                let j = choose|j: int| 0 <= j < u.keys.len() && u.keys[j] == x;
                if j < i {
                    assert(t.keys[j] == x);
                } else {
                    assert(t.keys[j + 1] == x);
                }
                if t.window(i).contains(x) {
                    lemma_window_apart(t, b, cap, weak, i, x);
                }
            } else {
                let j = choose|j: int| 0 <= j < u.children.len() && (#[trigger] u.children[j]).contents().contains(x);
                if j < i {
                    assert(u.children[j] == t.children[j]);
                    assert(t.children[j].contents().contains(x));
                } else if j > i {
                    assert(u.children[j] == t.children[j + 1]);
                    assert(t.children[j + 1].contents().contains(x));
                }
                if j != i && t.window(i).contains(x) {
                    lemma_window_apart(t, b, cap, weak, i, x);
                }
            }
        }
        if m.contents().contains(x) {
            assert(u.children[i].contents().contains(x));
        } else if t.contents().contains(x) && !t.window(i).contains(x) {
            if t.keys.contains(x) {
                let j = choose|j: int| 0 <= j < t.keys.len() && t.keys[j] == x;
                assert(j != i);
                if j < i {
                    assert(u.keys[j] == x);
                } else {
                    assert(u.keys[j - 1] == x);
                }
            } else {
                let j = choose|j: int| 0 <= j < t.children.len() && (#[trigger] t.children[j]).contents().contains(x);
                assert(j != i && j != i + 1);
                if j < i {
                    assert(u.children[j] == t.children[j]);
                    assert(u.children[j].contents().contains(x));
                } else {
                    assert(u.children[j - 1] == t.children[j]);
                    assert(u.children[j - 1].contents().contains(x));
                }
            }
        }
    }
    assert(u.contents() =~= goal);
}

/// What child `i` holds belongs at slot `i` of the node's keys.
pub proof fn lemma_child_slot<K: Ord>(t: Tree<K>, b: int, cap: int, weak: int, i: int, x: K)
    requires
        total_order::<K>(),
        !t.leaf,
        t.wf(b, cap, weak),
        0 <= i < t.children.len(),
        t.children[i].contents().contains(x),
    ensures
        is_slot(t.keys, x, i),
{
    assert(t.child_ok(b, weak, i));
    assert forall|j: int| 0 <= j < i implies lt(#[trigger] t.keys[j], x) by {
        if j < i - 1 {
            lemma_lt_transitive(t.keys[j], t.keys[i - 1], x);
        }
    }
    assert forall|j: int| i <= j < t.keys.len() implies lt(x, #[trigger] t.keys[j]) by {
        if i < j {
            lemma_lt_transitive(x, t.keys[i], t.keys[j]);
        }
    }
}

/// A node whose child `i` gave up some of its keys stays a search tree, but
/// that the child may now be one key short.
pub proof fn lemma_child_shrank<K: Ord>(t: Tree<K>, b: int, cap: int, i: int, c: Tree<K>)
    requires
        total_order::<K>(),
        !t.leaf,
        t.wf(b, cap, -1),
        0 <= i < t.children.len(),
        c.valid(b),
        c.keys.len() >= b - 2,
        c.height() == t.children[i].height(),
        c.contents().subset_of(t.children[i].contents()),
    ensures
        t.with_child(i, c).wf(b, cap, i),
        c.keys.len() >= b - 1 ==> t.with_child(i, c).wf(b, cap, -1),
        t.with_child(i, c).height() == t.height(),
        t.with_child(i, c).contents() == t.contents().difference(t.children[i].contents()).union(
            c.contents(),
        ),
{
    let u = t.with_child(i, c);
    assert(t.child_ok(b, -1, i));
    assert(t.child_ok(b, -1, 0));
    assert(u.children[i] == c);
    assert forall|x: K| c.contents().contains(x) implies t.children[i].contents().contains(x) by {}
    assert(u.children[0].height() == t.children[0].height());
    assert forall|j: int| 0 <= j < u.children.len() implies #[trigger] u.child_ok(b, i, j) && u.children[j].wf(
        b,
        2 * b - 1,
        -1,
    ) by {
        assert(t.child_ok(b, -1, j));
        if j != i {
            assert(u.children[j] == t.children[j]);
        }
    }
    lemma_wf_intro(u, b, cap, i);
    if c.keys.len() >= b - 1 {
        assert forall|j: int| 0 <= j < u.children.len() implies #[trigger] u.child_ok(b, -1, j)
            && u.children[j].wf(b, 2 * b - 1, -1) by {
            assert(u.child_ok(b, i, j));
        }
        lemma_wf_intro(u, b, cap, -1);
    }
    let goal = t.contents().difference(t.children[i].contents()).union(c.contents());
    assert forall|x: K| u.contents().contains(x) <==> goal.contains(x) by {
        if u.contents().contains(x) && !c.contents().contains(x) {
            if u.keys.contains(x) {
                if t.children[i].contents().contains(x) {
                    lemma_child_slot(t, b, cap, -1, i, x);
                    lemma_slot_child(t, b, cap, -1, x, i);
                }
            } else {
                let j = choose|j: int| 0 <= j < u.children.len() && (#[trigger] u.children[j]).contents().contains(x);
                assert(j != i);
                assert(u.children[j] == t.children[j]);
                assert(t.children[j].contents().contains(x));
                if t.children[i].contents().contains(x) {
                    lemma_child_slot(t, b, cap, -1, i, x);
                    lemma_slot_child(t, b, cap, -1, x, i);
                }
            }
        }
        if c.contents().contains(x) {
            assert(u.children[i].contents().contains(x));
        } else if t.contents().contains(x) && !t.children[i].contents().contains(x) {
            if !t.keys.contains(x) {
                let j = choose|j: int| 0 <= j < t.children.len() && (#[trigger] t.children[j]).contents().contains(x);
                assert(u.children[j] == t.children[j]);
                assert(u.children[j].contents().contains(x));
            }
        }
    }
    assert(u.contents() =~= goal);
}

/// A leaf that gives up one of its keys stays a search tree and holds the
/// rest.
pub proof fn lemma_leaf_remove<K: Ord>(t: Tree<K>, b: int, cap: int, i: int)
    requires
        total_order::<K>(),
        t.leaf,
        t.wf(b, cap, -1),
        0 <= i < t.keys.len(),
    ensures
        t.without_key(i).wf(b, cap, -1),
        t.without_key(i).keys.len() == t.keys.len() - 1,
        t.without_key(i).height() == t.height(),
        t.without_key(i).contents() == t.contents().remove(t.keys[i]),
{
    let u = t.without_key(i);
    assert forall|x: int, y: int| 0 <= x < y < u.keys.len() implies lt(#[trigger] u.keys[x], #[trigger] u.keys[y]) by {
        if x < i {
            assert(u.keys[x] == t.keys[x]);
        } else {
            assert(u.keys[x] == t.keys[x + 1]);
        }
        if y < i {
            assert(u.keys[y] == t.keys[y]);
        } else {
            assert(u.keys[y] == t.keys[y + 1]);
        }
    }
    lemma_wf_intro(u, b, cap, -1);
    lemma_lt_irreflexive(t.keys[i]);
    assert forall|x: K| u.contents().contains(x) <==> t.contents().remove(t.keys[i]).contains(x) by {
        if u.keys.contains(x) {
            let j = choose|j: int| 0 <= j < u.keys.len() && u.keys[j] == x;
            if j < i {
                assert(t.keys[j] == x);
                assert(lt(t.keys[j], t.keys[i]));
            } else {
                assert(t.keys[j + 1] == x);
                assert(lt(t.keys[i], t.keys[j + 1]));
            }
        }
        if t.keys.contains(x) && x != t.keys[i] {
            let j = choose|j: int| 0 <= j < t.keys.len() && t.keys[j] == x;
            if j < i {
                assert(u.keys[j] == x);
            } else {
                assert(u.keys[j - 1] == x);
            }
        }
    }
    assert(u.contents() =~= t.contents().remove(t.keys[i]));
}

/// What a window holds, the node holds.
pub proof fn lemma_window_in_contents<K: Ord>(t: Tree<K>, i: int)
    requires
        0 <= i < t.keys.len(),
        i + 1 < t.children.len(),
    ensures
        t.window(i).subset_of(t.contents()),
{
    assert forall|x: K| t.window(i).contains(x) implies t.contents().contains(x) by {
        if x == t.keys[i] {
        } else if t.children[i].contents().contains(x) {
            lemma_child_in_contents(t, i, x);
        } else {
            lemma_child_in_contents(t, i + 1, x);
        }
    }
}

/// What a sequence of at most one tree holds.
pub proof fn lemma_spread_moved<K: Ord>(moved: Seq<Tree<K>>)
    requires
        moved.len() <= 1,
    ensures
        moved.len() == 0 ==> spread(moved) == Set::<K>::empty(),
        moved.len() == 1 ==> spread(moved) == moved[0].contents(),
{
    if moved.len() == 0 {
        assert(moved =~= Seq::empty());
        lemma_spread_none::<K>();
    } else {
        assert(moved =~= seq![moved[0]]);
        lemma_spread_one(moved[0]);
    }
}

/// Borrowing from the left neighbour mends a child that is one key short:
/// the node is a search tree again and holds what it held.
pub proof fn lemma_rotate_right<K: Ord>(t: Tree<K>, b: int, cap: int, i: int)
    requires
        total_order::<K>(),
        !t.leaf,
        t.wf(b, cap, i),
        1 <= i < t.children.len(),
        t.children[i - 1].keys.len() >= b,
        t.children[i].keys.len() <= 2 * b - 2,
        b >= 2,
    ensures
        t.rotated_right(i).wf(b, cap, -1),
        t.rotated_right(i).keys.len() == t.keys.len(),
        t.rotated_right(i).height() == t.height(),
        t.rotated_right(i).contents() == t.contents(),
{
    let l = t.children[i - 1];
    let c = t.children[i];
    let sep = t.keys[i - 1];
    let up = l.keys.last();
    let moved = l.moved_last();
    assert(t.child_ok(b, i, i - 1));
    assert(t.child_ok(b, i, i));
    lemma_leaf_height(l, b, 2 * b - 1, -1);
    lemma_leaf_height(c, b, 2 * b - 1, -1);
    lemma_without_last(l, b);
    lemma_spread_moved(moved);
    let l2 = l.without_last();
    assert(l.contents().contains(up));
    assert forall|j: int| 0 <= j < moved.len() implies (#[trigger] moved[j]).below(sep) by {
        assert forall|x: K| moved[j].contents().contains(x) implies lt(x, sep) by {
            assert(spread(moved).contains(x));
            assert(l.contents().contains(x));
        }
    }
    lemma_with_front(c, b, sep, moved);
    let c2 = c.with_front(sep, moved);
    assert forall|x: K| c2.contents().contains(x) implies lt(up, x) by {
        if x == sep {
        } else if c.contents().contains(x) {
            lemma_lt_transitive(up, sep, x);
        } else {
            assert(spread(moved).contains(x));
            assert(moved[0].contents().contains(x));
        }
    }
    assert(l2.contents().union(c2.contents()).insert(up) =~= t.window(i - 1));
    lemma_pair_replaced(t, b, cap, i, i - 1, l2, up, c2);
    lemma_window_in_contents(t, i - 1);
    assert(t.contents().difference(t.window(i - 1)).union(t.window(i - 1)) =~= t.contents());
}

/// Borrowing from the right neighbour mends a child that is one key short:
/// the node is a search tree again and holds what it held.
pub proof fn lemma_rotate_left<K: Ord>(t: Tree<K>, b: int, cap: int, i: int)
    requires
        total_order::<K>(),
        !t.leaf,
        t.wf(b, cap, i),
        0 <= i < t.keys.len(),
        t.children[i + 1].keys.len() >= b,
        t.children[i].keys.len() <= 2 * b - 2,
        b >= 2,
    ensures
        t.rotated_left(i).wf(b, cap, -1),
        t.rotated_left(i).keys.len() == t.keys.len(),
        t.rotated_left(i).height() == t.height(),
        t.rotated_left(i).contents() == t.contents(),
{
    let c = t.children[i];
    let r = t.children[i + 1];
    let sep = t.keys[i];
    let up = r.keys.first();
    let moved = r.moved_first();
    assert(t.child_ok(b, i, i));
    assert(t.child_ok(b, i, i + 1));
    lemma_leaf_height(r, b, 2 * b - 1, -1);
    lemma_leaf_height(c, b, 2 * b - 1, -1);
    lemma_without_first(r, b);
    lemma_spread_moved(moved);
    let r2 = r.without_first();
    assert(r.contents().contains(up));
    assert forall|j: int| 0 <= j < moved.len() implies (#[trigger] moved[j]).above(sep) by {
        assert forall|x: K| moved[j].contents().contains(x) implies lt(sep, x) by {
            assert(spread(moved).contains(x));
            assert(r.contents().contains(x));
        }
    }
    lemma_with_back(c, b, sep, moved);
    let c2 = c.with_back(sep, moved);
    assert forall|x: K| c2.contents().contains(x) implies lt(x, up) by {
        if x == sep {
        } else if c.contents().contains(x) {
            lemma_lt_transitive(x, sep, up);
        } else {
            assert(spread(moved).contains(x));
            assert(moved[0].contents().contains(x));
        }
    }
    assert(c2.contents().union(r2.contents()).insert(up) =~= t.window(i));
    lemma_pair_replaced(t, b, cap, i, i, c2, up, r2);
    lemma_window_in_contents(t, i);
    assert(t.contents().difference(t.window(i)).union(t.window(i)) =~= t.contents());
}

/// Making one child of two neighbours and the key between them, where the
/// result is neither too large nor too small, leaves a search tree that
/// holds what the node held, with one key less in the node itself.
pub proof fn lemma_merge<K: Ord>(t: Tree<K>, b: int, cap: int, weak: int, i: int)
    requires
        total_order::<K>(),
        !t.leaf,
        t.wf(b, cap, weak),
        0 <= i < t.keys.len(),
        weak == -1 || weak == i || weak == i + 1,
        b - 1 <= t.children[i].keys.len() + t.children[i + 1].keys.len() + 1 <= 2 * b - 1,
    ensures
        t.merged(i).wf(b, cap, -1),
        t.merged(i).keys.len() == t.keys.len() - 1,
        t.merged(i).height() == t.height(),
        t.merged(i).contents() == t.contents(),
        t.merged(i).children[i].valid(b),
        t.merged(i).children[i].keys.len() == t.children[i].keys.len() + t.children[i + 1].keys.len() + 1,
{
    let l = t.children[i];
    let r = t.children[i + 1];
    assert(t.child_ok(b, weak, i));
    assert(t.child_ok(b, weak, i + 1));
    lemma_concat(l, t.keys[i], r, b);
    let m = l.concat(t.keys[i], r);
    assert(m.contents() =~= t.window(i));
    lemma_pair_merged(t, b, cap, weak, i, m);
    lemma_window_in_contents(t, i);
    assert(t.contents().difference(t.window(i)).union(t.window(i)) =~= t.contents());
    assert(t.merged(i).children[i] == m);
}

/// The last key of a leaf is the largest it holds.
pub proof fn lemma_leaf_last<K: Ord>(t: Tree<K>, b: int, cap: int)
    requires
        total_order::<K>(),
        t.leaf,
        t.wf(b, cap, -1),
        t.keys.len() >= 1,
    ensures
        forall|x: K| #[trigger] t.contents().contains(x) ==> x == t.keys.last() || lt(x, t.keys.last()),
{
    assert forall|x: K| #[trigger] t.contents().contains(x) implies x == t.keys.last() || lt(
        x,
        t.keys.last(),
    ) by {
        let j = choose|j: int| 0 <= j < t.keys.len() && t.keys[j] == x;
        if j < t.keys.len() - 1 {
            assert(lt(t.keys[j], t.keys[t.keys.len() - 1]));
        }
    }
}

/// The first key of a leaf is the smallest it holds.
pub proof fn lemma_leaf_first<K: Ord>(t: Tree<K>, b: int, cap: int)
    requires
        total_order::<K>(),
        t.leaf,
        t.wf(b, cap, -1),
        t.keys.len() >= 1,
    ensures
        forall|x: K| #[trigger] t.contents().contains(x) ==> x == t.keys.first() || lt(t.keys.first(), x),
{
    assert forall|x: K| #[trigger] t.contents().contains(x) implies x == t.keys.first() || lt(
        t.keys.first(),
        x,
    ) by {
        let j = choose|j: int| 0 <= j < t.keys.len() && t.keys[j] == x;
        if j > 0 {
            assert(lt(t.keys[0], t.keys[j]));
        }
    }
}

/// The largest key below the last child is the largest key of the node.
pub proof fn lemma_last_child_max<K: Ord>(t: Tree<K>, b: int, cap: int, k: K)
    requires
        total_order::<K>(),
        !t.leaf,
        t.wf(b, cap, -1),
        t.children.last().contents().contains(k),
        forall|x: K| #[trigger] t.children.last().contents().contains(x) ==> x == k || lt(x, k),
    ensures
        t.contents().contains(k),
        forall|x: K| #[trigger] t.contents().contains(x) ==> x == k || lt(x, k),
{
    let n = t.keys.len() as int;
    lemma_child_in_contents(t, n, k);
    lemma_child_slot(t, b, cap, -1, n, k);
    assert forall|x: K| #[trigger] t.contents().contains(x) implies x == k || lt(x, k) by {
        if t.keys.contains(x) {
            let j = choose|j: int| 0 <= j < t.keys.len() && t.keys[j] == x;
            assert(lt(t.keys[j], k));
        } else {
            let j = choose|j: int| 0 <= j < t.children.len() && (#[trigger] t.children[j]).contents().contains(x);
            if j < n {
                assert(t.child_ok(b, -1, j));
                assert(lt(x, t.keys[j]));
                assert(lt(t.keys[j], k));
                lemma_lt_transitive(x, t.keys[j], k);
            }
        }
    }
}

/// The smallest key below the first child is the smallest key of the node.
pub proof fn lemma_first_child_min<K: Ord>(t: Tree<K>, b: int, cap: int, k: K)
    requires
        total_order::<K>(),
        !t.leaf,
        t.wf(b, cap, -1),
        t.children.first().contents().contains(k),
        forall|x: K| #[trigger] t.children.first().contents().contains(x) ==> x == k || lt(k, x),
    ensures
        t.contents().contains(k),
        forall|x: K| #[trigger] t.contents().contains(x) ==> x == k || lt(k, x),
{
    lemma_child_in_contents(t, 0, k);
    lemma_child_slot(t, b, cap, -1, 0, k);
    assert forall|x: K| #[trigger] t.contents().contains(x) implies x == k || lt(k, x) by {
        if t.keys.contains(x) {
            let j = choose|j: int| 0 <= j < t.keys.len() && t.keys[j] == x;
            assert(lt(k, t.keys[j]));
        } else {
            let j = choose|j: int| 0 <= j < t.children.len() && (#[trigger] t.children[j]).contents().contains(x);
            if j > 0 {
                assert(t.child_ok(b, -1, j));
                assert(lt(t.keys[j - 1], x));
                assert(lt(k, t.keys[j - 1]));
                lemma_lt_transitive(k, t.keys[j - 1], x);
            }
        }
    }
}

/// A node whose child `i` lost exactly the key `key` holds what it held but
/// for that key.
pub proof fn lemma_child_lost<K: Ord>(t: Tree<K>, b: int, cap: int, i: int, c: Tree<K>, key: K)
    requires
        total_order::<K>(),
        !t.leaf,
        t.wf(b, cap, -1),
        0 <= i < t.children.len(),
        c.valid(b),
        c.keys.len() >= b - 2,
        c.height() == t.children[i].height(),
        t.children[i].contents().contains(key),
        c.contents() == t.children[i].contents().remove(key),
    ensures
        t.with_child(i, c).wf(b, cap, i),
        c.keys.len() >= b - 1 ==> t.with_child(i, c).wf(b, cap, -1),
        t.with_child(i, c).height() == t.height(),
        t.with_child(i, c).contents() == t.contents().remove(key),
        t.contents().contains(key),
{
    lemma_child_shrank(t, b, cap, i, c);
    lemma_child_slot(t, b, cap, -1, i, key);
    lemma_slot_child(t, b, cap, -1, key, i);
    assert forall|x: K| t.children[i].contents().contains(x) implies t.contents().contains(x) by {
        lemma_child_in_contents(t, i, x);
    }
    assert(t.contents().difference(t.children[i].contents()).union(c.contents()) =~= t.contents().remove(
        key,
    ));
}

/// Putting the largest key below child `i` in the place of key `i` takes
/// key `i` out of the node and leaves a search tree.
pub proof fn lemma_replace_with_pred<K: Ord>(t: Tree<K>, b: int, cap: int, i: int, c: Tree<K>, pred: K)
    requires
        total_order::<K>(),
        !t.leaf,
        t.wf(b, cap, -1),
        0 <= i < t.keys.len(),
        c.valid(b),
        c.keys.len() >= b - 1,
        c.height() == t.children[i].height(),
        t.children[i].contents().contains(pred),
        forall|x: K| #[trigger] t.children[i].contents().contains(x) ==> x == pred || lt(x, pred),
        c.contents() == t.children[i].contents().remove(pred),
    ensures
        t.with_pair(i, c, pred, t.children[i + 1]).wf(b, cap, -1),
        t.with_pair(i, c, pred, t.children[i + 1]).keys.len() == t.keys.len(),
        t.with_pair(i, c, pred, t.children[i + 1]).height() == t.height(),
        t.with_pair(i, c, pred, t.children[i + 1]).contents() == t.contents().remove(t.keys[i]),
{
    let r = t.children[i + 1];
    let sep = t.keys[i];
    assert(t.child_ok(b, -1, i));
    assert(t.child_ok(b, -1, i + 1));
    lemma_lt_irreflexive(sep);
    assert(lt(pred, sep));
    assert forall|x: K| r.contents().contains(x) implies lt(pred, x) by {
        lemma_lt_transitive(pred, sep, x);
    }
    let fresh = c.contents().union(r.contents()).insert(pred);
    assert(fresh =~= t.window(i).remove(sep));
    lemma_pair_replaced(t, b, cap, -1, i, c, pred, r);
    lemma_window_in_contents(t, i);
    assert(t.contents().difference(t.window(i)).union(fresh) =~= t.contents().remove(sep));
}

/// Putting the smallest key below child `i + 1` in the place of key `i`
/// takes key `i` out of the node and leaves a search tree.
pub proof fn lemma_replace_with_succ<K: Ord>(t: Tree<K>, b: int, cap: int, i: int, c: Tree<K>, succ: K)
    requires
        total_order::<K>(),
        !t.leaf,
        t.wf(b, cap, -1),
        0 <= i < t.keys.len(),
        c.valid(b),
        c.keys.len() >= b - 1,
        c.height() == t.children[i + 1].height(),
        t.children[i + 1].contents().contains(succ),
        forall|x: K| #[trigger] t.children[i + 1].contents().contains(x) ==> x == succ || lt(succ, x),
        c.contents() == t.children[i + 1].contents().remove(succ),
    ensures
        t.with_pair(i, t.children[i], succ, c).wf(b, cap, -1),
        t.with_pair(i, t.children[i], succ, c).keys.len() == t.keys.len(),
        t.with_pair(i, t.children[i], succ, c).height() == t.height(),
        t.with_pair(i, t.children[i], succ, c).contents() == t.contents().remove(t.keys[i]),
{
    let l = t.children[i];
    let sep = t.keys[i];
    assert(t.child_ok(b, -1, i));
    assert(t.child_ok(b, -1, i + 1));
    lemma_lt_irreflexive(sep);
    assert(lt(sep, succ));
    assert forall|x: K| l.contents().contains(x) implies lt(x, succ) by {
        lemma_lt_transitive(x, sep, succ);
    }
    let fresh = l.contents().union(c.contents()).insert(succ);
    assert(fresh =~= t.window(i).remove(sep));
    lemma_pair_replaced(t, b, cap, -1, i, l, succ, c);
    lemma_window_in_contents(t, i);
    assert(t.contents().difference(t.window(i)).union(fresh) =~= t.contents().remove(sep));
}

/// The node made of two nodes and a key, after that key has left it again,
/// is what the key leaves behind in the node made of the three.
pub proof fn lemma_fused<K: Ord>(l: Tree<K>, sep: K, r: Tree<K>, b: int)
    requires
        l.valid(b),
        r.valid(b),
        l.height() == r.height(),
    ensures
        l.concat(sep, r).without_at(l.keys.len() as int, b) == Tree::fused(l, sep, r, b),
{
    let m = l.concat(sep, r);
    let i = l.keys.len() as int;
    lemma_leaf_height(l, b, 2 * b - 1, -1);
    lemma_leaf_height(r, b, 2 * b - 1, -1);
    if l.children.len() != 0 {
        assert(m.children[i] == l.children.last());
        assert(m.children[i + 1] == r.children.first());
        assert(m.keys[i] == sep);
    }
}

/// An increasing sequence holds each of its keys at one index only.
pub proof fn lemma_index_unique<K: Ord>(s: Seq<K>, i: int)
    requires
        total_order::<K>(),
        increasing(s),
        0 <= i < s.len(),
    ensures
        s.index_of(s[i]) == i,
{
    let j = s.index_of(s[i]);
    lemma_lt_irreflexive(s[i]);
    if j < i {
        assert(lt(s[j], s[i]));
    } else if i < j {
        assert(lt(s[i], s[j]));
    }
}

} // verus!
