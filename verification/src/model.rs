//! The mathematical model of a tree: what a node holds, seen as sequences, and
//! what it means for such a tree to be a search tree of minimum degree `b`.
use crate::order::lemma_lt_irreflexive;
use crate::order::lemma_lt_transitive;
use crate::order::lt;
use crate::order::total_order;
use vstd::prelude::*;

verus! {

/// A node and everything below it. A leaf has no children; an intermediate
/// node has one child more than it has keys.
pub struct Tree<K> {
    pub leaf: bool,
    pub keys: Seq<K>,
    pub children: Seq<Tree<K>>,
}

/// Every element comes strictly before every later one.
pub open spec fn increasing<K: Ord>(s: Seq<K>) -> bool {
    forall|i: int, j: int| 0 <= i < j < s.len() ==> lt(#[trigger] s[i], #[trigger] s[j])
}

/// `i` is where `key`, which `s` does not hold, belongs in the increasing `s`.
pub open spec fn is_slot<K: Ord>(s: Seq<K>, key: K, i: int) -> bool {
    &&& 0 <= i <= s.len()
    &&& forall|j: int| 0 <= j < i ==> lt(#[trigger] s[j], key)
    &&& forall|j: int| i <= j < s.len() ==> lt(key, #[trigger] s[j])
}

/// The slot where `key` belongs in `s`.
pub open spec fn slot_of<K: Ord>(s: Seq<K>, key: K) -> int {
    choose|i: int| is_slot(s, key, i)
}

/// A key belongs at one slot only.
pub proof fn lemma_slot_unique<K: Ord>(s: Seq<K>, key: K, i: int)
    requires
        total_order::<K>(),
        is_slot(s, key, i),
    ensures
        slot_of(s, key) == i,
{
    let j = slot_of(s, key);
    lemma_lt_irreflexive(key);
    if j < i {
        assert(lt(s[j], key));
        assert(lt(key, s[j]));
        lemma_lt_transitive(key, s[j], key);
    } else if i < j {
        assert(lt(s[i], key));
        assert(lt(key, s[i]));
        lemma_lt_transitive(key, s[i], key);
    }
}

impl<K: Ord> Tree<K> {
    /// The number of levels below this node.
    pub open spec fn height(self) -> nat
        decreases self,
    {
        if self.children.len() == 0 {
            0
        } else {
            1 + self.children[0].height()
        }
    }

    /// The keys held by this node or by any node below it.
    pub open spec fn contents(self) -> Set<K>
        decreases self,
    {
        Set::new(
            |k: K|
                self.keys.contains(k) || exists|i: int|
                    0 <= i < self.children.len() && (#[trigger] self.children[i]).contents().contains(k),
        )
    }

    /// Every key of the subtree comes before `k`.
    pub open spec fn below(self, k: K) -> bool {
        forall|x: K| #[trigger] self.contents().contains(x) ==> lt(x, k)
    }

    /// Every key of the subtree comes after `k`.
    pub open spec fn above(self, k: K) -> bool {
        forall|x: K| #[trigger] self.contents().contains(x) ==> lt(k, x)
    }

    /// What the invariant asks of child `i` beside being a valid subtree:
    /// that it is filled at least to the minimum (less one key if `i` is
    /// `weak`), is as high as its siblings, and holds only keys between the
    /// two keys beside it.
    pub open spec fn child_ok(self, b: int, weak: int, i: int) -> bool {
        &&& 0 <= i < self.children.len()
        &&& self.children[i].keys.len() >= (if i == weak {
            b - 2
        } else {
            b - 1
        })
        &&& self.children[i].height() == self.children[0].height()
        &&& i < self.keys.len() ==> self.children[i].below(self.keys[i])
        &&& i > 0 ==> self.children[i].above(self.keys[i - 1])
    }

    /// The search-tree invariant for minimum degree `b`, with two allowances
    /// for the states in the middle of an operation: this node may hold up to
    /// `cap` keys, and its child at index `weak` may be one key short.
    pub open spec fn wf(self, b: int, cap: int, weak: int) -> bool
        decreases self,
    {
        &&& self.keys.len() <= cap
        &&& increasing(self.keys)
        &&& if self.leaf {
            self.children.len() == 0
        } else {
            &&& self.children.len() == self.keys.len() + 1
            &&& forall|i: int|
                0 <= i < self.children.len() ==> #[trigger] self.child_ok(b, weak, i)
                    && self.children[i].wf(b, 2 * b - 1, -1)
        }
    }

    /// The invariant of a node at rest: at most `2b - 1` keys, every child
    /// with at least `b - 1`, all leaves equally deep, keys in search order.
    pub open spec fn valid(self, b: int) -> bool {
        self.wf(b, 2 * b - 1, -1)
    }
}

/// The keys held anywhere in a sequence of trees.
pub open spec fn spread<K: Ord>(trees: Seq<Tree<K>>) -> Set<K> {
    Set::new(|k: K| exists|i: int| 0 <= i < trees.len() && (#[trigger] trees[i]).contents().contains(k))
}

/// A node holds its own keys and what its children hold.
pub proof fn lemma_contents_parts<K: Ord>(t: Tree<K>)
    ensures
        t.contents() == t.keys.to_set().union(spread(t.children)),
{
    assert forall|x: K| t.contents().contains(x) <==> t.keys.to_set().union(spread(t.children)).contains(x) by {
        if t.contents().contains(x) && !t.keys.contains(x) {
            let i = choose|i: int| 0 <= i < t.children.len() && (#[trigger] t.children[i]).contents().contains(x);
            assert(spread(t.children).contains(x));
        }
        if spread(t.children).contains(x) {
            let i = choose|i: int| 0 <= i < t.children.len() && (#[trigger] t.children[i]).contents().contains(x);
            assert(t.children[i].contents().contains(x));
        }
    }
    assert(t.contents() =~= t.keys.to_set().union(spread(t.children)));
}

/// What two sequences of trees hold, one after the other holds.
pub proof fn lemma_spread_concat<K: Ord>(a: Seq<Tree<K>>, b: Seq<Tree<K>>)
    ensures
        spread(a + b) == spread(a).union(spread(b)),
{
    let ab = a + b;
    assert forall|x: K| spread(ab).contains(x) <==> spread(a).union(spread(b)).contains(x) by {
        if spread(ab).contains(x) {
            let i = choose|i: int| 0 <= i < ab.len() && (#[trigger] ab[i]).contents().contains(x);
            if i < a.len() {
                assert(a[i].contents().contains(x));
            } else {
                assert(b[i - a.len()].contents().contains(x));
            }
        }
        if spread(a).contains(x) {
            let i = choose|i: int| 0 <= i < a.len() && (#[trigger] a[i]).contents().contains(x);
            assert(ab[i].contents().contains(x));
        }
        if spread(b).contains(x) {
            let i = choose|i: int| 0 <= i < b.len() && (#[trigger] b[i]).contents().contains(x);
            assert(ab[i + a.len()] == b[i]);
            assert(ab[i + a.len()].contents().contains(x));
        }
    }
    assert(spread(ab) =~= spread(a).union(spread(b)));
}

/// A sequence of one tree holds what the tree holds.
pub proof fn lemma_spread_one<K: Ord>(t: Tree<K>)
    ensures
        spread(seq![t]) == t.contents(),
{
    let s = seq![t];
    assert forall|x: K| spread(s).contains(x) <==> t.contents().contains(x) by {
        if t.contents().contains(x) {
            assert(s[0].contents().contains(x));
        }
    }
    assert(spread(s) =~= t.contents());
}

/// A sequence of no trees holds nothing.
pub proof fn lemma_spread_none<K: Ord>()
    ensures
        spread(Seq::<Tree<K>>::empty()) == Set::<K>::empty(),
{
    assert(spread(Seq::<Tree<K>>::empty()) =~= Set::<K>::empty());
}

/// The keys of two sequences, one after the other.
pub proof fn lemma_keys_concat<K: Ord>(a: Seq<K>, b: Seq<K>)
    ensures
        (a + b).to_set() == a.to_set().union(b.to_set()),
{
    let ab = a + b;
    assert forall|x: K| ab.to_set().contains(x) <==> a.to_set().union(b.to_set()).contains(x) by {
        if ab.contains(x) {
            let i = choose|i: int| 0 <= i < ab.len() && ab[i] == x;
            if i < a.len() {
                assert(a[i] == x);
            } else {
                assert(b[i - a.len()] == x);
            }
        }
        if a.contains(x) {
            let i = choose|i: int| 0 <= i < a.len() && a[i] == x;
            assert(ab[i] == x);
        }
        if b.contains(x) {
            let i = choose|i: int| 0 <= i < b.len() && b[i] == x;
            assert(ab[i + a.len()] == x);
        }
    }
    assert(ab.to_set() =~= a.to_set().union(b.to_set()));
}

/// The keys of a sequence of one key.
pub proof fn lemma_keys_one<K: Ord>(k: K)
    ensures
        seq![k].to_set() == Set::<K>::empty().insert(k),
{
    let s = seq![k];
    assert forall|x: K| s.to_set().contains(x) <==> Set::<K>::empty().insert(k).contains(x) by {
        if x == k {
            assert(s[0] == x);
        }
    }
    assert(s.to_set() =~= Set::<K>::empty().insert(k));
}

/// In a valid tree a node is a leaf exactly when nothing is below it.
pub proof fn lemma_leaf_height<K: Ord>(t: Tree<K>, b: int, cap: int, weak: int)
    requires
        t.wf(b, cap, weak),
    ensures
        t.leaf <==> t.height() == 0,
        t.leaf <==> t.children.len() == 0,
{
}

/// The invariant holds of a node of which each of its parts holds.
pub proof fn lemma_wf_intro<K: Ord>(t: Tree<K>, b: int, cap: int, weak: int)
    requires
        t.keys.len() <= cap,
        increasing(t.keys),
        t.leaf ==> t.children.len() == 0,
        !t.leaf ==> t.children.len() == t.keys.len() + 1,
        !t.leaf ==> forall|i: int|
            0 <= i < t.children.len() ==> #[trigger] t.child_ok(b, weak, i) && t.children[i].wf(
                b,
                2 * b - 1,
                -1,
            ),
    ensures
        t.wf(b, cap, weak),
{
}

/// The invariant does not depend on how many keys the node might hold, as
/// long as it holds no more.
pub proof fn lemma_wf_cap<K: Ord>(t: Tree<K>, b: int, cap: int, weak: int, less: int)
    requires
        t.wf(b, cap, weak),
        t.keys.len() <= less,
    ensures
        t.wf(b, less, weak),
{
    if !t.leaf {
        assert forall|i: int| 0 <= i < t.children.len() implies #[trigger] t.child_ok(b, weak, i)
            && t.children[i].wf(b, 2 * b - 1, -1) by {}
    }
    lemma_wf_intro(t, b, less, weak);
}

/// A key of the node itself belongs to the contents.
pub proof fn lemma_key_in_contents<K: Ord>(t: Tree<K>, j: int)
    requires
        0 <= j < t.keys.len(),
    ensures
        t.contents().contains(t.keys[j]),
{
}

/// What a child holds, the parent holds.
pub proof fn lemma_child_in_contents<K: Ord>(t: Tree<K>, i: int, x: K)
    requires
        0 <= i < t.children.len(),
        t.children[i].contents().contains(x),
    ensures
        t.contents().contains(x),
{
}

/// A key that belongs at slot `i` of a node's keys can only be found below
/// child `i`.
pub proof fn lemma_slot_child<K: Ord>(t: Tree<K>, b: int, cap: int, weak: int, key: K, i: int)
    requires
        total_order::<K>(),
        t.wf(b, cap, weak),
        is_slot(t.keys, key, i),
    ensures
        !t.keys.contains(key),
        t.leaf ==> !t.contents().contains(key),
        !t.leaf ==> (t.contents().contains(key) <==> t.children[i].contents().contains(key)),
        forall|j: int| 0 <= j < t.children.len() && j != i ==> !(#[trigger] t.children[j]).contents().contains(key),
{
    lemma_lt_irreflexive(key);
    assert forall|j: int| 0 <= j < t.children.len() && j != i implies !(#[trigger] t.children[j]).contents().contains(key) by {
        assert(t.child_ok(b, weak, j));
        if t.children[j].contents().contains(key) {
            if j < i {
                assert(lt(key, t.keys[j]));
                assert(lt(t.keys[j], key));
                lemma_lt_transitive(key, t.keys[j], key);
            } else {
                assert(lt(t.keys[j - 1], key));
                assert(lt(key, t.keys[j - 1]));
                lemma_lt_transitive(key, t.keys[j - 1], key);
            }
        }
    }
}

} // verus!
