//! What holds of every valid tree, and so of every set between any two
//! operations: its keys come out in order, its leaves are equally deep, and
//! its nodes are neither too full nor too empty.
use crate::btree::dummy::DummyBTreeSet;
use crate::model::increasing;
use crate::model::lemma_contents_parts;
use crate::model::lemma_keys_concat;
use crate::model::lemma_keys_one;
use crate::model::lemma_spread_concat;
use crate::model::lemma_spread_none;
use crate::model::lemma_spread_one;
use crate::model::spread;
use crate::model::Tree;
use crate::order::lemma_lt_transitive;
use crate::order::lt;
use crate::order::total_order;
use crate::BTreeSet;
use vstd::prelude::*;

verus! {

impl<K: Ord> Tree<K> {
    /// The keys met on a walk through the first `n` children and the first
    /// `n` keys in turn: a child, the key after it, the next child, and so
    /// on.
    pub open spec fn walk(self, n: nat) -> Seq<K>
        decreases self, n,
    {
        if n == 0 || n > self.keys.len() || n > self.children.len() {
            Seq::empty()
        } else {
            self.walk((n - 1) as nat) + self.children[n - 1].inorder() + seq![self.keys[n - 1]]
        }
    }

    /// The keys of the tree as an in-order traversal meets them.
    pub open spec fn inorder(self) -> Seq<K>
        decreases self, self.keys.len() + 1,
    {
        if self.children.len() == 0 || self.children.len() != self.keys.len() + 1 {
            self.keys
        } else {
            self.walk(self.keys.len()) + self.children[self.keys.len() as int].inorder()
        }
    }

    /// Every leaf of the tree lies exactly `depth` levels below its root.
    pub open spec fn leaves_at(self, depth: nat) -> bool
        decreases self,
    {
        if self.children.len() == 0 {
            depth == 0
        } else {
            depth > 0 && forall|i: int|
                0 <= i < self.children.len() ==> (#[trigger] self.children[i]).leaves_at((depth - 1) as nat)
        }
    }

    /// Every node of the tree holds at most `2b - 1` keys and, unless it is
    /// the root, at least `b - 1`; a leaf has no child, and an intermediate
    /// node one child more than keys.
    pub open spec fn within_capacity(self, b: int, root: bool) -> bool
        decreases self,
    {
        &&& self.keys.len() <= 2 * b - 1
        &&& root || self.keys.len() >= b - 1
        &&& if self.leaf {
            self.children.len() == 0
        } else {
            &&& self.children.len() == self.keys.len() + 1
            &&& forall|i: int|
                0 <= i < self.children.len() ==> (#[trigger] self.children[i]).within_capacity(b, false)
        }
    }
}

/// Two increasing sequences, the first wholly before the second, make an
/// increasing sequence.
pub proof fn lemma_increasing_concat<K: Ord>(a: Seq<K>, b: Seq<K>)
    requires
        increasing(a),
        increasing(b),
        forall|i: int, j: int| 0 <= i < a.len() && 0 <= j < b.len() ==> lt(#[trigger] a[i], #[trigger] b[j]),
    ensures
        increasing(a + b),
{
    let ab = a + b;
    assert forall|x: int, y: int| 0 <= x < y < ab.len() implies lt(#[trigger] ab[x], #[trigger] ab[y]) by {
        if y < a.len() {
            assert(ab[x] == a[x] && ab[y] == a[y]);
        } else if x < a.len() {
            assert(ab[x] == a[x] && ab[y] == b[y - a.len()]);
        } else {
            assert(ab[x] == b[x - a.len()] && ab[y] == b[y - a.len()]);
        }
    }
}

/// The walk through the first `n` children and keys of a valid node is
/// increasing, ends with key `n - 1`, and meets what those children and keys
/// hold.
proof fn lemma_walk<K: Ord>(t: Tree<K>, b: int, cap: int, weak: int, n: nat)
    requires
        total_order::<K>(),
        !t.leaf,
        t.wf(b, cap, weak),
        n <= t.keys.len(),
    ensures
        increasing(t.walk(n)),
        t.walk(n).to_set() == t.keys.take(n as int).to_set().union(spread(t.children.take(n as int))),
        n > 0 ==> t.walk(n).len() > 0 && t.walk(n).last() == t.keys[n - 1],
    decreases t, n,
{
    if n == 0 {
        assert(t.keys.take(0) =~= Seq::empty());
        assert(t.children.take(0) =~= Seq::empty());
        lemma_spread_none::<K>();
        assert(t.walk(0).to_set() =~= Set::<K>::empty());
        assert(Seq::<K>::empty().to_set() =~= Set::<K>::empty());
    } else {
        let m = (n - 1) as nat;
        let c = t.children[n - 1];
        let k = t.keys[n - 1];
        assert(t.child_ok(b, weak, n - 1));
        lemma_walk(t, b, cap, weak, m);
        lemma_inorder(c, b, 2 * b - 1, -1);
        let head = t.walk(m);
        let mid = c.inorder();
        // all that was met so far comes before all that the child holds
        assert forall|i: int, j: int| 0 <= i < head.len() && 0 <= j < mid.len() implies lt(
            #[trigger] head[i],
            #[trigger] mid[j],
        ) by {
            assert(mid.to_set().contains(mid[j]));
            assert(c.contents().contains(mid[j]));
            assert(lt(t.keys[m as int - 1], mid[j]));
            if i < head.len() - 1 {
                assert(lt(head[i], head[head.len() - 1]));
                lemma_lt_transitive(head[i], t.keys[m as int - 1], mid[j]);
            }
        }
        lemma_increasing_concat(head, mid);
        let both = head + mid;
        assert forall|i: int, j: int| 0 <= i < both.len() && 0 <= j < seq![k].len() implies lt(
            #[trigger] both[i],
            #[trigger] seq![k][j],
        ) by {
            if i < head.len() {
                assert(both[i] == head[i]);
                if i < head.len() - 1 {
                    assert(lt(head[i], head[head.len() - 1]));
                    lemma_lt_transitive(head[i], t.keys[m as int - 1], k);
                }
            } else {
                assert(both[i] == mid[i - head.len()]);
                assert(mid.to_set().contains(mid[i - head.len()]));
                assert(c.contents().contains(mid[i - head.len()]));
            }
        }
        assert(increasing(seq![k]));
        lemma_increasing_concat(both, seq![k]);
        assert(t.walk(n) == both + seq![k]);
        lemma_keys_concat(head, mid);
        lemma_keys_concat(both, seq![k]);
        lemma_keys_one(k);
        assert(t.keys.take(n as int) =~= t.keys.take(m as int) + seq![k]);
        assert(t.children.take(n as int) =~= t.children.take(m as int) + seq![c]);
        lemma_keys_concat(t.keys.take(m as int), seq![k]);
        lemma_spread_concat(t.children.take(m as int), seq![c]);
        lemma_spread_one(c);
        assert(t.walk(n).to_set() =~= t.keys.take(n as int).to_set().union(
            spread(t.children.take(n as int)),
        ));
    }
}

/// The in-order traversal of a valid tree is increasing and meets exactly
/// the keys that the tree holds.
pub proof fn lemma_inorder<K: Ord>(t: Tree<K>, b: int, cap: int, weak: int)
    requires
        total_order::<K>(),
        t.wf(b, cap, weak),
    ensures
        increasing(t.inorder()),
        t.inorder().to_set() == t.contents(),
    decreases t, t.keys.len() + 1,
{
    lemma_contents_parts(t);
    if t.leaf {
        assert(t.children =~= Seq::empty());
        lemma_spread_none::<K>();
        assert(t.inorder().to_set() =~= t.contents());
    } else {
        let n = t.keys.len();
        let c = t.children[n as int];
        assert(t.child_ok(b, weak, n as int));
        lemma_walk(t, b, cap, weak, n);
        lemma_inorder(c, b, 2 * b - 1, -1);
        let head = t.walk(n);
        let tail = c.inorder();
        assert forall|i: int, j: int| 0 <= i < head.len() && 0 <= j < tail.len() implies lt(
            #[trigger] head[i],
            #[trigger] tail[j],
        ) by {
            assert(tail.to_set().contains(tail[j]));
            assert(c.contents().contains(tail[j]));
            assert(lt(t.keys[n as int - 1], tail[j]));
            if i < head.len() - 1 {
                assert(lt(head[i], head[head.len() - 1]));
                lemma_lt_transitive(head[i], t.keys[n as int - 1], tail[j]);
            }
        }
        lemma_increasing_concat(head, tail);
        lemma_keys_concat(head, tail);
        assert(t.keys.take(n as int) =~= t.keys);
        assert(t.children =~= t.children.take(n as int) + seq![c]);
        lemma_spread_concat(t.children.take(n as int), seq![c]);
        lemma_spread_one(c);
        assert(t.inorder().to_set() =~= t.contents());
    }
}

/// Sortedness: the in-order traversal of a valid tree yields its keys in
/// strictly increasing order, each key of the tree once.
pub proof fn law_sorted<K: Ord>(t: Tree<K>, b: int)
    requires
        total_order::<K>(),
        t.valid(b),
    ensures
        increasing(t.inorder()),
        forall|k: K| t.inorder().contains(k) <==> t.contents().contains(k),
{
    lemma_inorder(t, b, 2 * b - 1, -1);
    assert forall|k: K| t.inorder().contains(k) <==> t.contents().contains(k) by {
        assert(t.inorder().to_set().contains(k) <==> t.inorder().contains(k));
    }
}

/// Balance: every leaf of a valid tree is at the same depth from the root,
/// the height of the tree.
pub proof fn law_balanced<K: Ord>(t: Tree<K>, b: int, cap: int, weak: int)
    requires
        t.wf(b, cap, weak),
    ensures
        t.leaves_at(t.height()),
    decreases t,
{
    if !t.leaf {
        assert(t.child_ok(b, weak, 0));
        assert forall|i: int| 0 <= i < t.children.len() implies (#[trigger] t.children[i]).leaves_at(
            (t.height() - 1) as nat,
        ) by {
            assert(t.child_ok(b, weak, i));
            law_balanced(t.children[i], b, 2 * b - 1, -1);
        }
    }
}

/// Capacity: in a valid tree every node but the root holds between `b - 1`
/// and `2b - 1` keys, the root at most `2b - 1`, and every intermediate
/// node has one child more than keys.
pub proof fn law_capacity<K: Ord>(t: Tree<K>, b: int)
    requires
        t.valid(b),
    ensures
        t.within_capacity(b, true),
        t.keys.len() >= b - 1 ==> t.within_capacity(b, false),
    decreases t,
{
    if !t.leaf {
        assert forall|i: int| 0 <= i < t.children.len() implies (#[trigger] t.children[i]).within_capacity(
            b,
            false,
        ) by {
            assert(t.child_ok(b, -1, i));
            law_capacity(t.children[i], b);
        }
    }
}

impl<K: Ord, const B: usize> DummyBTreeSet<K, B> {
    /// The keys of the set as an in-order traversal of its tree meets them.
    pub open spec fn inorder(self) -> Seq<K> {
        match self@ {
            Some(tree) => tree.inorder(),
            None => Seq::empty(),
        }
    }
}

/// Sortedness of a set: whatever was inserted and removed, an in-order
/// traversal of the tree yields the keys of the set, each once, in strictly
/// increasing order.
pub proof fn law_set_sorted<K: Ord, const B: usize>(set: DummyBTreeSet<K, B>)
    requires
        total_order::<K>(),
        set.inv(),
    ensures
        increasing(set.inorder()),
        forall|k: K| set.inorder().contains(k) <==> set.contents().contains(k),
{
    match set@ {
        Some(tree) => {
            law_sorted(tree, B as int);
        },
        None => {},
    }
}

/// Balance of a set: whatever was inserted and removed, every leaf of the
/// tree is at the same depth from the root.
pub proof fn law_set_balanced<K: Ord, const B: usize>(set: DummyBTreeSet<K, B>)
    requires
        set.inv(),
    ensures
        match set@ {
            Some(tree) => tree.leaves_at(tree.height()),
            None => true,
        },
{
    match set@ {
        Some(tree) => {
            law_balanced(tree, B as int, 2 * B - 1, -1);
        },
        None => {},
    }
}

/// Capacity of a set: whatever was inserted and removed, every node of the
/// tree but the root holds between `B - 1` and `2B - 1` keys, the root at
/// most `2B - 1`, and every intermediate node has one child more than keys.
pub proof fn law_set_capacity<K: Ord, const B: usize>(set: DummyBTreeSet<K, B>)
    requires
        set.inv(),
    ensures
        match set@ {
            Some(tree) => tree.within_capacity(B as int, true),
            None => true,
        },
{
    match set@ {
        Some(tree) => {
            law_capacity(tree, B as int);
        },
        None => {},
    }
}

/// Round trip: a set that has just taken a key in holds it, and a set that
/// has then given it up holds it no more.
pub proof fn law_round_trip<S: BTreeSet>(start: S, grown: S, shrunk: S, key: S::Key)
    requires
        grown.contents() == start.contents().insert(key),
        shrunk.contents() == grown.contents().remove(key),
    ensures
        grown.contents().contains(key),
        !shrunk.contents().contains(key),
{
}

} // verus!
