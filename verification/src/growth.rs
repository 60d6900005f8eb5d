//! How a tree grows: what a node becomes when a key is put into it, when a
//! child hands up one half of itself, and when the node is itself cut in two,
//! and why each of these keeps the invariant.
use crate::model::increasing;
use crate::model::is_slot;
use crate::model::lemma_slot_child;
use crate::model::lemma_wf_intro;
use crate::model::slot_of;
use crate::model::Tree;
use crate::order::lemma_lt_transitive;
use crate::order::lt;
use crate::order::total_order;
use vstd::prelude::*;

verus! {

/// What putting a key into a tree makes of it: the same tree, where the key
/// was there already; a tree that has grown; or two trees and the key between
/// them, where the root of the grown tree held too many keys and was cut.
pub enum Put<K> {
    Same,
    Grown(Tree<K>),
    Cut(Tree<K>, K, Tree<K>),
}

impl<K: Ord> Tree<K> {
    /// The node with `key` put among its keys at index `i`.
    pub open spec fn with_key(self, i: int, key: K) -> Tree<K> {
        Tree { leaf: self.leaf, keys: self.keys.insert(i, key), children: self.children }
    }

    /// The node with `c` in the place of child `i`.
    pub open spec fn with_child(self, i: int, c: Tree<K>) -> Tree<K> {
        Tree { leaf: self.leaf, keys: self.keys, children: self.children.update(i, c) }
    }

    /// The node after child `i` has been cut in two: `left` takes the child's
    /// place, `hoist` becomes the key after it and `right` the child after
    /// that key.
    pub open spec fn absorbed(self, i: int, left: Tree<K>, hoist: K, right: Tree<K>) -> Tree<K> {
        Tree {
            leaf: self.leaf,
            keys: self.keys.insert(i, hoist),
            children: self.children.update(i, left).insert(i + 1, right),
        }
    }

    /// What stays of a node that is cut in two at `b`: the keys before index
    /// `b - 1` and the children before index `b`.
    pub open spec fn split_left(self, b: int) -> Tree<K> {
        Tree {
            leaf: self.leaf,
            keys: self.keys.take(b - 1),
            children: if self.leaf {
                self.children
            } else {
                self.children.take(b)
            },
        }
    }

    /// The new sibling of a node that is cut in two at `b`: the keys and the
    /// children from index `b` on.
    pub open spec fn split_right(self, b: int) -> Tree<K> {
        Tree {
            leaf: self.leaf,
            keys: self.keys.skip(b),
            children: if self.leaf {
                self.children
            } else {
                self.children.skip(b)
            },
        }
    }

    /// A node that has just grown by a key stays whole while it holds no
    /// more than `2b - 1` keys, and is cut in two when it holds more.
    pub open spec fn settle(self, b: int) -> Put<K> {
        if self.keys.len() > 2 * b - 1 {
            Put::Cut(self.split_left(b), self.keys[b - 1], self.split_right(b))
        } else {
            Put::Grown(self)
        }
    }

    /// What putting `key` into the tree makes of it. A node that holds the
    /// key ends the search. A leaf takes the key at its slot. An
    /// intermediate node hands the key to the child at its slot, and takes
    /// up the key and the new neighbour that the child hands back if it was
    /// cut. A node that holds too many keys after that is cut in two.
    pub open spec fn put(self, key: K, b: int) -> Put<K>
        decreases self,
    {
        let i = slot_of(self.keys, key);
        if self.keys.contains(key) {
            Put::Same
        } else if self.leaf {
            self.with_key(i, key).settle(b)
        } else if 0 <= i < self.children.len() {
            match self.children[i].put(key, b) {
                Put::Same => Put::Same,
                Put::Grown(c) => Put::Grown(self.with_child(i, c)),
                Put::Cut(l, h, r) => self.absorbed(i, l, h, r).settle(b),
            }
        } else {
            Put::Same
        }
    }

    /// The tree after `key` was put into the tree under the root `self`: a
    /// root that was cut in two gets a new root above its halves.
    pub open spec fn with(self, key: K, b: int) -> Tree<K> {
        match self.put(key, b) {
            Put::Same => self,
            Put::Grown(t) => t,
            Put::Cut(l, h, r) => Tree::joined(l, h, r),
        }
    }

    /// The root that is put above two halves.
    pub open spec fn joined(left: Tree<K>, hoist: K, right: Tree<K>) -> Tree<K> {
        Tree { leaf: false, keys: seq![hoist], children: seq![left, right] }
    }
}

/// A leaf that receives a key at its slot stays a search tree, one key
/// larger, and holds that key beside what it held.
pub proof fn lemma_leaf_insert<K: Ord>(t: Tree<K>, b: int, cap: int, key: K, i: int)
    requires
        total_order::<K>(),
        t.leaf,
        t.wf(b, cap, -1),
        is_slot(t.keys, key, i),
    ensures
        t.with_key(i, key).wf(b, cap + 1, -1),
        t.with_key(i, key).contents() == t.contents().insert(key),
        t.with_key(i, key).height() == t.height(),
        t.with_key(i, key).keys.len() == t.keys.len() + 1,
{
    let u = t.with_key(i, key);
    assert forall|x: int, y: int| 0 <= x < y < u.keys.len() implies lt(#[trigger] u.keys[x], #[trigger] u.keys[y]) by {
        if y < i {
        } else if y == i {
            assert(u.keys[x] == t.keys[x]);
        } else if x < i {
            assert(u.keys[y] == t.keys[y - 1]);
            assert(u.keys[x] == t.keys[x]);
            if x < y - 1 {
            } else {
                lemma_lt_transitive(t.keys[x], key, t.keys[y - 1]);
            }
        } else if x == i {
            assert(u.keys[y] == t.keys[y - 1]);
        } else {
            assert(u.keys[y] == t.keys[y - 1]);
            assert(u.keys[x] == t.keys[x - 1]);
        }
    }
    lemma_wf_intro(u, b, cap + 1, -1);
    assert forall|x: K| u.contents().contains(x) <==> t.contents().insert(key).contains(x) by {
        if u.keys.contains(x) {
            let j = choose|j: int| 0 <= j < u.keys.len() && u.keys[j] == x;
            if j < i {
                assert(t.keys[j] == x);
            } else if j > i {
                assert(t.keys[j - 1] == x);
            }
        }
        if t.keys.contains(x) {
            let j = choose|j: int| 0 <= j < t.keys.len() && t.keys[j] == x;
            if j < i {
                assert(u.keys[j] == x);
            } else {
                assert(u.keys[j + 1] == x);
            }
        }
        if x == key {
            assert(u.keys[i] == x);
        }
    }
    assert(u.contents() =~= t.contents().insert(key));
}

/// A node whose child `i` took in a key that belongs at slot `i` stays a
/// search tree and holds that key beside what it held.
pub proof fn lemma_child_grew<K: Ord>(t: Tree<K>, b: int, cap: int, i: int, key: K, c: Tree<K>)
    requires
        total_order::<K>(),
        !t.leaf,
        t.wf(b, cap, -1),
        is_slot(t.keys, key, i),
        c.valid(b),
        c.keys.len() >= t.children[i].keys.len(),
        c.height() == t.children[i].height(),
        c.contents() == t.children[i].contents().insert(key),
    ensures
        t.with_child(i, c).wf(b, cap, -1),
        t.with_child(i, c).contents() == t.contents().insert(key),
        t.with_child(i, c).height() == t.height(),
{
    let u = t.with_child(i, c);
    assert(t.child_ok(b, -1, i));
    assert(t.child_ok(b, -1, 0));
    if i < t.keys.len() {
        assert forall|x: K| c.contents().contains(x) implies lt(x, t.keys[i]) by {
            if x != key {
                assert(t.children[i].contents().contains(x));
            }
        }
    }
    if i > 0 {
        assert forall|x: K| c.contents().contains(x) implies lt(t.keys[i - 1], x) by {
            if x != key {
                assert(t.children[i].contents().contains(x));
            }
        }
    }
    assert(u.children[0].height() == t.children[0].height());
    assert forall|j: int| 0 <= j < u.children.len() implies #[trigger] u.child_ok(b, -1, j) && u.children[j].wf(
        b,
        2 * b - 1,
        -1,
    ) by {
        assert(t.child_ok(b, -1, j));
        if j != i {
            assert(u.children[j] == t.children[j]);
        } else {
            assert(u.children[j] == c);
        }
    }
    lemma_wf_intro(u, b, cap, -1);
    assert forall|x: K| u.contents().contains(x) <==> t.contents().insert(key).contains(x) by {
        if u.contents().contains(x) && !u.keys.contains(x) {
            let j = choose|j: int| 0 <= j < u.children.len() && (#[trigger] u.children[j]).contents().contains(x);
            if j != i {
                assert(t.children[j].contents().contains(x));
            } else if x != key {
                assert(t.children[i].contents().contains(x));
            }
        }
        if t.contents().contains(x) && !t.keys.contains(x) {
            let j = choose|j: int| 0 <= j < t.children.len() && (#[trigger] t.children[j]).contents().contains(x);
            assert(u.children[j].contents().contains(x));
        }
        if x == key {
            assert(u.children[i].contents().contains(x));
        }
    }
    assert(u.contents() =~= t.contents().insert(key));
}

/// A node whose child `i` was cut in two after taking in a key stays a search
/// tree, but for holding one key more than before, and holds that key beside
/// what it held.
pub proof fn lemma_absorb<K: Ord>(
    t: Tree<K>,
    b: int,
    i: int,
    key: K,
    left: Tree<K>,
    hoist: K,
    right: Tree<K>,
)
    requires
        total_order::<K>(),
        !t.leaf,
        t.valid(b),
        is_slot(t.keys, key, i),
        left.valid(b),
        right.valid(b),
        left.keys.len() >= b - 1,
        right.keys.len() >= b - 1,
        left.height() == t.children[i].height(),
        right.height() == t.children[i].height(),
        left.below(hoist),
        right.above(hoist),
        left.contents().union(right.contents()).insert(hoist) == t.children[i].contents().insert(key),
    ensures
        t.absorbed(i, left, hoist, right).wf(b, 2 * b, -1),
        t.absorbed(i, left, hoist, right).contents() == t.contents().insert(key),
        t.absorbed(i, left, hoist, right).height() == t.height(),
        t.absorbed(i, left, hoist, right).keys.len() == t.keys.len() + 1,
{
    let u = t.absorbed(i, left, hoist, right);
    let old_child = t.children[i];
    assert(t.child_ok(b, -1, i));
    assert(t.child_ok(b, -1, 0));
    let grown = old_child.contents().insert(key);
    assert(grown.contains(hoist));
    assert forall|x: K| left.contents().contains(x) implies grown.contains(x) by {
        assert(left.contents().union(right.contents()).insert(hoist).contains(x));
    }
    assert forall|x: K| right.contents().contains(x) implies grown.contains(x) by {
        assert(left.contents().union(right.contents()).insert(hoist).contains(x));
    }
    // every key of the grown child lies between the keys beside slot `i`
    assert forall|x: K| grown.contains(x) implies (i < t.keys.len() ==> lt(x, t.keys[i])) && (i > 0 ==> lt(
        t.keys[i - 1],
        x,
    )) by {
        if x != key {
            assert(old_child.contents().contains(x));
        }
    }
    if i < t.keys.len() {
        assert(lt(hoist, t.keys[i]));
        assert forall|x: K| left.contents().contains(x) implies lt(x, t.keys[i]) by {
            assert(grown.contains(x));
        }
        assert forall|x: K| right.contents().contains(x) implies lt(x, t.keys[i]) by {
            assert(grown.contains(x));
        }
        assert(left.below(t.keys[i]));
        assert(right.below(t.keys[i]));
    }
    if i > 0 {
        assert(lt(t.keys[i - 1], hoist));
        assert forall|x: K| left.contents().contains(x) implies lt(t.keys[i - 1], x) by {
            assert(grown.contains(x));
        }
        assert forall|x: K| right.contents().contains(x) implies lt(t.keys[i - 1], x) by {
            assert(grown.contains(x));
        }
        assert(left.above(t.keys[i - 1]));
        assert(right.above(t.keys[i - 1]));
    }
    assert(u.keys.len() == t.keys.len() + 1);
    assert(u.children.len() == t.children.len() + 1);
    assert(u.children[0].height() == t.children[0].height()) by {
        if i == 0 {
            assert(u.children[0] == left);
        } else {
            assert(u.children[0] == t.children[0]);
        }
    }
    assert forall|x: int, y: int| 0 <= x < y < u.keys.len() implies lt(#[trigger] u.keys[x], #[trigger] u.keys[y]) by {
        if y < i {
        } else if y == i {
            assert(u.keys[x] == t.keys[x]);
            if x < i - 1 {
                lemma_lt_transitive(t.keys[x], t.keys[i - 1], hoist);
            }
        } else if x < i {
            assert(u.keys[y] == t.keys[y - 1]);
            assert(u.keys[x] == t.keys[x]);
        } else if x == i {
            assert(u.keys[y] == t.keys[y - 1]);
            if i < y - 1 {
                lemma_lt_transitive(hoist, t.keys[i], t.keys[y - 1]);
            }
        } else {
            assert(u.keys[y] == t.keys[y - 1]);
            assert(u.keys[x] == t.keys[x - 1]);
        }
    }
    assert forall|j: int| 0 <= j < u.children.len() implies #[trigger] u.child_ok(b, -1, j) && u.children[j].wf(
        b,
        2 * b - 1,
        -1,
    ) by {
        if j < i {
            assert(t.child_ok(b, -1, j));
            assert(u.children[j] == t.children[j]);
            assert(u.keys[j] == t.keys[j]);
            if j > 0 {
                assert(u.keys[j - 1] == t.keys[j - 1]);
            }
        } else if j == i {
            assert(u.children[j] == left);
            assert(u.keys[j] == hoist);
            if j > 0 {
                assert(u.keys[j - 1] == t.keys[j - 1]);
            }
        } else if j == i + 1 {
            assert(u.children[j] == right);
            assert(u.keys[j - 1] == hoist);
            if j < u.keys.len() {
                assert(u.keys[j] == t.keys[j - 1]);
            }
        } else {
            assert(t.child_ok(b, -1, j - 1));
            assert(u.children[j] == t.children[j - 1]);
            assert(u.keys[j - 1] == t.keys[j - 2]);
            if j < u.keys.len() {
                assert(u.keys[j] == t.keys[j - 1]);
            }
        }
    }
    lemma_wf_intro(u, b, 2 * b, -1);
    lemma_slot_child(t, b, 2 * b - 1, -1, key, i);
    assert forall|x: K| u.contents().contains(x) <==> t.contents().insert(key).contains(x) by {
        if u.keys.contains(x) {
            let j = choose|j: int| 0 <= j < u.keys.len() && u.keys[j] == x;
            if j < i {
                assert(t.keys[j] == x);
            } else if j > i {
                assert(t.keys[j - 1] == x);
            } else {
                if x != key {
                    assert(old_child.contents().contains(x));
                }
            }
        } else if u.contents().contains(x) {
            let j = choose|j: int| 0 <= j < u.children.len() && (#[trigger] u.children[j]).contents().contains(x);
            if j < i {
                assert(t.children[j].contents().contains(x));
            } else if j > i + 1 {
                assert(t.children[j - 1].contents().contains(x));
            } else {
                assert(grown.contains(x));
                if x != key {
                    assert(old_child.contents().contains(x));
                }
            }
        }
        if t.keys.contains(x) {
            let j = choose|j: int| 0 <= j < t.keys.len() && t.keys[j] == x;
            if j < i {
                assert(u.keys[j] == x);
            } else {
                assert(u.keys[j + 1] == x);
            }
        } else if t.contents().insert(key).contains(x) {
            if x != key && !old_child.contents().contains(x) {
                let j = choose|j: int| 0 <= j < t.children.len() && (#[trigger] t.children[j]).contents().contains(x);
                if j < i {
                    assert(u.children[j].contents().contains(x));
                } else {
                    assert(u.children[j + 1] == t.children[j]);
                    assert(u.children[j + 1].contents().contains(x));
                }
            } else {
                assert(grown.contains(x));
                assert(left.contents().union(right.contents()).insert(hoist).contains(x));
                if x == hoist {
                    assert(u.keys[i] == x);
                } else if left.contents().contains(x) {
                    assert(u.children[i] == left);
                    assert(u.children[i].contents().contains(x));
                } else {
                    assert(u.children[i + 1] == right);
                    assert(u.children[i + 1].contents().contains(x));
                }
            }
        }
    }
    assert(u.contents() =~= t.contents().insert(key));
    if i == 0 {
        assert(u.children[0] == left);
    } else {
        assert(u.children[0] == t.children[0]);
    }
}

/// A node that holds `2b` keys falls into two search trees and the key
/// between them: the left with `b - 1` keys, the right with `b`, and together
/// with that key they hold what the node held.
pub proof fn lemma_split<K: Ord>(t: Tree<K>, b: int)
    requires
        total_order::<K>(),
        b >= 2,
        t.wf(b, 2 * b, -1),
        t.keys.len() == 2 * b,
    ensures
        t.split_left(b).valid(b),
        t.split_right(b).valid(b),
        t.split_left(b).keys.len() == b - 1,
        t.split_right(b).keys.len() == b,
        t.split_left(b).height() == t.height(),
        t.split_right(b).height() == t.height(),
        t.split_left(b).below(t.keys[b - 1]),
        t.split_right(b).above(t.keys[b - 1]),
        t.split_left(b).contents().union(t.split_right(b).contents()).insert(t.keys[b - 1])
            == t.contents(),
{
    let l = t.split_left(b);
    let r = t.split_right(b);
    let h = t.keys[b - 1];
    assert forall|j: int| 0 <= j < l.keys.len() implies l.keys[j] == t.keys[j] by {}
    assert forall|j: int| 0 <= j < r.keys.len() implies r.keys[j] == t.keys[b + j] by {}
    assert(l.keys.len() == b - 1);
    assert(r.keys.len() == b);
    assert(increasing(l.keys)) by {
        assert forall|x: int, y: int| 0 <= x < y < l.keys.len() implies lt(#[trigger] l.keys[x], #[trigger] l.keys[y]) by {
            assert(l.keys[x] == t.keys[x]);
            assert(l.keys[y] == t.keys[y]);
        }
    }
    assert(increasing(r.keys)) by {
        assert forall|x: int, y: int| 0 <= x < y < r.keys.len() implies lt(#[trigger] r.keys[x], #[trigger] r.keys[y]) by {
            assert(r.keys[x] == t.keys[b + x]);
            assert(r.keys[y] == t.keys[b + y]);
        }
    }
    if !t.leaf {
        assert(t.child_ok(b, -1, 0));
        assert(t.child_ok(b, -1, b));
        assert(l.children.len() == b);
        assert(r.children.len() == b + 1);
        assert(l.children[0] == t.children[0]);
        assert(r.children[0] == t.children[b]);
        assert forall|j: int| 0 <= j < l.children.len() implies #[trigger] l.child_ok(b, -1, j) && l.children[j].wf(
            b,
            2 * b - 1,
            -1,
        ) by {
            assert(t.child_ok(b, -1, j));
            assert(l.children[j] == t.children[j]);
        }
        assert forall|j: int| 0 <= j < r.children.len() implies #[trigger] r.child_ok(b, -1, j) && r.children[j].wf(
            b,
            2 * b - 1,
            -1,
        ) by {
            assert(t.child_ok(b, -1, b + j));
            assert(r.children[j] == t.children[b + j]);
            if j < r.keys.len() {
                assert(r.keys[j] == t.keys[b + j]);
            }
            if j > 0 {
                assert(r.keys[j - 1] == t.keys[b + j - 1]);
            }
        }
    }
    lemma_wf_intro(l, b, 2 * b - 1, -1);
    lemma_wf_intro(r, b, 2 * b - 1, -1);
    assert forall|x: K| l.contents().contains(x) implies lt(x, h) && t.contents().contains(x) by {
        if l.keys.contains(x) {
            let j = choose|j: int| 0 <= j < l.keys.len() && l.keys[j] == x;
            assert(t.keys[j] == x);
        } else {
            let j = choose|j: int| 0 <= j < l.children.len() && (#[trigger] l.children[j]).contents().contains(x);
            assert(l.children[j] == t.children[j]);
            assert(t.child_ok(b, -1, j));
            assert(t.children[j].contents().contains(x));
            assert(lt(x, t.keys[j]));
            if j < b - 1 {
                lemma_lt_transitive(x, t.keys[j], h);
            }
        }
    }
    assert forall|x: K| r.contents().contains(x) implies lt(h, x) && t.contents().contains(x) by {
        if r.keys.contains(x) {
            let j = choose|j: int| 0 <= j < r.keys.len() && r.keys[j] == x;
            assert(t.keys[b + j] == x);
        } else {
            let j = choose|j: int| 0 <= j < r.children.len() && (#[trigger] r.children[j]).contents().contains(x);
            assert(r.children[j] == t.children[b + j]);
            assert(t.child_ok(b, -1, b + j));
            assert(t.children[b + j].contents().contains(x));
            assert(lt(t.keys[b + j - 1], x));
            if j > 0 {
                lemma_lt_transitive(h, t.keys[b + j - 1], x);
            }
        }
    }
    assert forall|x: K| t.contents().contains(x) implies l.contents().union(r.contents()).insert(h).contains(
        x,
    ) by {
        if t.keys.contains(x) {
            let j = choose|j: int| 0 <= j < t.keys.len() && t.keys[j] == x;
            if j < b - 1 {
                assert(l.keys[j] == x);
            } else if j >= b {
                assert(r.keys[j - b] == x);
            }
        } else {
            let j = choose|j: int| 0 <= j < t.children.len() && (#[trigger] t.children[j]).contents().contains(x);
            if j < b {
                assert(l.children[j] == t.children[j]);
                assert(l.children[j].contents().contains(x));
            } else {
                assert(r.children[j - b] == t.children[j]);
                assert(r.children[j - b].contents().contains(x));
            }
        }
    }
    assert(t.contents().contains(h));
    assert(l.contents().union(r.contents()).insert(h) =~= t.contents());
}

/// Two search trees of one height, each filled to the minimum, with a key
/// between them, make a search tree one level higher under a root that
/// holds that key alone.
pub proof fn lemma_joined<K: Ord>(left: Tree<K>, hoist: K, right: Tree<K>, b: int)
    requires
        total_order::<K>(),
        b >= 2,
        left.valid(b),
        right.valid(b),
        left.keys.len() >= b - 1,
        right.keys.len() >= b - 1,
        left.height() == right.height(),
        left.below(hoist),
        right.above(hoist),
    ensures
        Tree::joined(left, hoist, right).valid(b),
        Tree::joined(left, hoist, right).contents() == left.contents().union(right.contents()).insert(
            hoist,
        ),
        Tree::joined(left, hoist, right).height() == left.height() + 1,
{
    let u = Tree::joined(left, hoist, right);
    assert(u.children[0] == left);
    assert(u.children[1] == right);
    assert(u.keys[0] == hoist);
    assert forall|j: int| 0 <= j < u.children.len() implies #[trigger] u.child_ok(b, -1, j) && u.children[j].wf(
        b,
        2 * b - 1,
        -1,
    ) by {
        if j == 0 {
        } else {
            assert(j == 1);
        }
    }
    assert(increasing(u.keys));
    lemma_wf_intro(u, b, 2 * b - 1, -1);
    assert forall|x: K| u.contents().contains(x) <==> left.contents().union(right.contents()).insert(
        hoist,
    ).contains(x) by {
        if u.keys.contains(x) {
        } else if u.contents().contains(x) {
            let j = choose|j: int| 0 <= j < u.children.len() && (#[trigger] u.children[j]).contents().contains(x);
            if j == 0 {
            } else {
                assert(j == 1);
            }
        }
        if left.contents().contains(x) {
            assert(u.children[0].contents().contains(x));
        }
        if right.contents().contains(x) {
            assert(u.children[1].contents().contains(x));
        }
        if x == hoist {
            assert(u.keys[0] == x);
        }
    }
    assert(u.contents() =~= left.contents().union(right.contents()).insert(hoist));
}

} // verus!
