//! The two capability interfaces of the table: a bucket of string-keyed
//! entries, and a hash table that routes every operation to one bucket.

use vstd::prelude::*;

pub mod int32;

pub use int32::{Int32Array, Int32Hashtable};

verus! {

/// A growable store of string-keyed entries, with no knowledge of hashing.
///
/// An implementor is modelled by `contents()`, the map from a key's
/// characters to the value stored under it, and by `wf()`, its
/// well-formedness condition, which constructors establish and every
/// operation preserves.
pub trait Bucket<T>: Sized {
    /// The entries the bucket currently holds, keyed by the key's characters.
    spec fn contents(&self) -> Map<Seq<char>, T>;

    /// Well-formedness of the representation.
    spec fn wf(&self) -> bool;

    /// Returns the value stored under `key`, or `None` if the key is absent.
    fn get(&self, key: &str) -> (r: Option<T>)
        requires
            self.wf(),
        ensures
            r == (if self.contents().contains_key(key@) {
                Some(self.contents()[key@])
            } else {
                None::<T>
            }),
    ;

    /// Stores `value` under `key`, replacing any value already there.
    fn set(&mut self, key: &str, value: T)
        requires
            old(self).wf(),
        ensures
            final(self).wf(),
            final(self).contents() == old(self).contents().insert(key@, value),
    ;

    /// Deletes `key`; removing an absent key leaves the bucket untouched.
    fn remove(&mut self, key: &str)
        requires
            old(self).wf(),
        ensures
            final(self).wf(),
            final(self).contents() == old(self).contents().remove(key@),
            !old(self).contents().contains_key(key@) ==> *final(self) == *old(self),
    ;
}

/// A string-keyed table of values.
///
/// As with [`Bucket`], an implementor is modelled by the map `contents()`
/// and its well-formedness condition `wf()`.
pub trait Hashtable<T>: Sized {
    /// The entries the table currently holds, keyed by the key's characters.
    spec fn contents(&self) -> Map<Seq<char>, T>;

    /// Well-formedness of the representation.
    spec fn wf(&self) -> bool;

    /// Returns the value stored under `key`, or `None` if the key is absent.
    fn get(&self, key: &str) -> (r: Option<T>)
        requires
            self.wf(),
        ensures
            r == (if self.contents().contains_key(key@) {
                Some(self.contents()[key@])
            } else {
                None::<T>
            }),
    ;

    /// Stores `value` under `key`, replacing any value already there.
    fn set(&mut self, key: &str, value: T)
        requires
            old(self).wf(),
        ensures
            final(self).wf(),
            final(self).contents() == old(self).contents().insert(key@, value),
    ;

    /// Deletes `key`; removing an absent key leaves the table's contents
    /// unchanged.
    fn remove(&mut self, key: &str)
        requires
            old(self).wf(),
        ensures
            final(self).wf(),
            final(self).contents() == old(self).contents().remove(key@),
            !old(self).contents().contains_key(key@) ==> final(self).contents() == old(
                self,
            ).contents(),
    ;
}

} // verus!
