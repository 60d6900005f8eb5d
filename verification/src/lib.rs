//! An ordered set of unique keys, kept in memory as a balanced multiway
//! search tree of minimum degree `B`.
use crate::order::total_order;
use vstd::prelude::*;

pub mod btree;
pub mod growth;
pub mod laws;
pub mod model;
pub mod order;
pub mod shrink;

verus! {

/// Why an operation on a set did nothing.
#[derive(Debug, PartialEq, Eq, Structural)]
pub enum Error {
    KeyNotFound,
    KeyAlreadyExists,
}

impl Error {
    /// The error in words.
    pub fn message(&self) -> (r: String)
        ensures
            r@ == (match self {
                Error::KeyNotFound => "key not found"@,
                Error::KeyAlreadyExists => "key already exists"@,
            }),
    {
        match self {
            Error::KeyNotFound => "key not found".to_string(),
            Error::KeyAlreadyExists => "key already exists".to_string(),
        }
    }
}

/// An ordered set of unique keys with point operations only.
pub trait BTreeSet {
    type Key: Ord;

    /// The minimum degree `B` of the tree behind the set: a node other than
    /// the root holds between `B - 1` and `2B - 1` keys.
    spec fn degree() -> int;

    /// The keys that the set holds.
    spec fn contents(&self) -> Set<Self::Key>;

    /// What holds of the set between any two operations.
    spec fn inv(&self) -> bool;

    /// The key of the set that equals `key`.
    fn search(&self, key: &Self::Key) -> (r: Result<&Self::Key, Error>)
        requires
            total_order::<Self::Key>(),
            self.inv(),
        ensures
            match r {
                Ok(found) => self.contents().contains(*key) && *found == *key,
                Err(e) => !self.contents().contains(*key) && e == Error::KeyNotFound,
            },
    ;

    /// Adds `key` to the set, unless it is there already.
    fn insert(&mut self, key: Self::Key) -> (r: Result<(), Error>)
        requires
            total_order::<Self::Key>(),
            old(self).inv(),
        ensures
            final(self).inv(),
            final(self).contents() == old(self).contents().insert(key),
            match r {
                Ok(_) => !old(self).contents().contains(key),
                Err(e) => {
                    &&& old(self).contents().contains(key)
                    &&& e == Error::KeyAlreadyExists
                    &&& final(self).contents() == old(self).contents()
                },
            },
    ;

    /// Takes `key` out of the set, if it is there, and gives it back.
    fn remove(&mut self, key: &Self::Key) -> (r: Result<Self::Key, Error>)
        requires
            total_order::<Self::Key>(),
            old(self).inv(),
        ensures
            final(self).inv(),
            final(self).contents() == old(self).contents().remove(*key),
            match r {
                Ok(removed) => old(self).contents().contains(*key) && removed == *key,
                Err(e) => {
                    &&& !old(self).contents().contains(*key)
                    &&& e == Error::KeyNotFound
                    &&& final(self).contents() == old(self).contents()
                },
            },
    ;

    /// Whether the set holds `key`.
    fn contains(&self, key: &Self::Key) -> (r: bool)
        requires
            total_order::<Self::Key>(),
            self.inv(),
        ensures
            r == self.contents().contains(*key),
    {
        self.search(key).is_ok()
    }

    /// The most keys that one node holds.
    fn max_keys(&self) -> (r: usize)
        requires
            1 <= Self::degree(),
            2 * Self::degree() <= usize::MAX,
        ensures
            r == 2 * Self::degree() - 1,
    ;
}

} // verus!
