//! A set with the same operations on top of the standard library's ordered
//! set, to hold the tree against.
use crate::order::total_order;
use crate::BTreeSet;
use crate::Error;
use vstd::prelude::*;

verus! {

/// An ordered set kept by the standard library.
pub struct ReferenceBTreeSet<K>(pub std::collections::BTreeSet<K>);

/// `BTreeSet::take` of the standard library: it removes from the set the
/// value that equals `key`, if there is one, and returns it. Where keys
/// compare equal only when they are the same key, the value returned is
/// `key` and the set is left without it; where there is none, the set is
/// left as it was.
#[verifier::external_body]
fn take_key<K: Ord>(set: &mut std::collections::BTreeSet<K>, key: &K) -> (r: Option<K>)
    ensures
        total_order::<K>() ==> match r {
            Some(taken) => old(set)@.contains(*key) && taken == *key && final(set)@ == old(set)@.remove(
                *key,
            ),
            None => !old(set)@.contains(*key) && final(set)@ == old(set)@,
        },
{
    set.take(key)
}

impl<K> View for ReferenceBTreeSet<K> {
    type V = Set<K>;

    open spec fn view(&self) -> Set<K> {
        self.0@
    }
}

impl<K> ReferenceBTreeSet<K> {
    /// The empty set.
    pub fn new() -> (r: Self)
        ensures
            r@ == Set::<K>::empty(),
    {
        Self(std::collections::BTreeSet::new())
    }
}

impl<K: Ord> BTreeSet for ReferenceBTreeSet<K> {
    type Key = K;

    open spec fn degree() -> int {
        6
    }

    open spec fn contents(&self) -> Set<K> {
        self@
    }

    open spec fn inv(&self) -> bool {
        true
    }

    fn search(&self, key: &K) -> (r: Result<&K, Error>) {
        broadcast use vstd::std_specs::btree::group_btree_axioms;

        match self.0.get(key) {
            Some(found) => Ok(found),
            None => Err(Error::KeyNotFound),
        }
    }

    fn insert(&mut self, key: K) -> (r: Result<(), Error>)
        ensures
            r is Err ==> final(self)@ == old(self)@,
    {
        broadcast use vstd::std_specs::btree::group_btree_axioms;

        if self.0.insert(key) {
            Ok(())
        } else {
            assert(self@ =~= old(self)@);
            Err(Error::KeyAlreadyExists)
        }
    }

    fn remove(&mut self, key: &K) -> (r: Result<K, Error>)
        ensures
            r is Err ==> final(self)@ == old(self)@,
    {
        match take_key(&mut self.0, key) {
            Some(taken) => Ok(taken),
            None => {
                assert(self@ =~= old(self)@.remove(*key));
                Err(Error::KeyNotFound)
            },
        }
    }

    fn max_keys(&self) -> (r: usize) {
        2 * 6 - 1
    }
}

} // verus!
