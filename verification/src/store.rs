//! The error type of the library and the byte-store interface it is built on.

use vstd::prelude::*;

verus! {

/// Why an operation on a tree or on its backing store did not complete.
#[derive(Debug, PartialEq, Eq)]
pub enum StoreError {
    /// The backing store failed; the caller may try again.
    StorageError(String),
    /// A subtree is known by its hash only and the context has no store attached.
    MissingStore,
    /// A stored record is malformed, or a marshaller could not read its bytes.
    EncodingError,
    /// The tree breaks one of its structural invariants.
    InvariantViolation,
}

/// A keyed collection that can be read. `contents` is what the collection holds,
/// keys and values taken by their views; an implementation says what that is.
pub trait ReadableMap<K: View, V: View> {
    open spec fn contents(&self) -> Map<K::V, V::V> {
        arbitrary()
    }

    /// The value under `key`, if there is one. A failure is a `StorageError`.
    fn get(&self, key: &K) -> (r: Result<Option<V>, StoreError>)
        ensures
            match r {
                Ok(Some(v)) => self.contents().contains_key(key@) && self.contents()[key@] == v@,
                Ok(None) => !self.contents().contains_key(key@),
                Err(e) => e is StorageError,
            },
    ;

    /// Whether there is a value under `key`. A failure is a `StorageError`.
    fn has(&self, key: &K) -> (r: Result<bool, StoreError>)
        ensures
            match r {
                Ok(b) => b == self.contents().contains_key(key@),
                Err(e) => e is StorageError,
            },
    ;
}

/// A keyed collection that can be written. A write that fails leaves the
/// contents as they were.
pub trait MutableMap<K: View, V: View>: ReadableMap<K, V> {
    /// Puts `value` under `key`, in place of what was there.
    fn set(&mut self, key: &K, value: &V) -> (r: Result<(), StoreError>)
        ensures
            match r {
                Ok(_) => final(self).contents() == old(self).contents().insert(key@, value@),
                Err(e) => e is StorageError && final(self).contents() == old(self).contents(),
            },
    ;

    /// Takes away what is under `key`.
    fn delete(&mut self, key: &K) -> (r: Result<(), StoreError>)
        ensures
            match r {
                Ok(_) => final(self).contents() == old(self).contents().remove(key@),
                Err(e) => e is StorageError && final(self).contents() == old(self).contents(),
            },
    ;
}

/// One key with its value, as an iterator hands it out.
pub trait Entry<K, V> {
    fn key(&self) -> &K;

    fn value(&self) -> &V;
}

/// A walk over the entries of a range of keys.
pub trait Iterator<K, V> {
    /// The next entry of the walk.
    fn next(&mut self) -> Result<Box<dyn Entry<K, V>>, StoreError>;

    /// Gives up what the walk holds.
    fn release(&mut self);
}

/// A readable collection whose keys are ordered, so that a range of them can
/// be walked in either direction.
pub trait OrderedMap<K: View, V: View>: ReadableMap<K, V> {
    /// A walk from `start` up to `end`.
    fn iterator(&self, start: &K, end: &K) -> Result<Box<dyn Iterator<K, V>>, StoreError>;

    /// A walk from `end` down to `start`.
    fn reverse_iterator(&self, start: &K, end: &K) -> Result<Box<dyn Iterator<K, V>>, StoreError>;
}

/// An ordered collection that can be written.
pub trait MutableOrderedMap<K: View, V: View>: MutableMap<K, V> + OrderedMap<K, V> {

}

/// A map of which every write gives a new version and leaves the old one as
/// it was. `contents` is what a version holds, and `valid` what a version has
/// to be for its methods to be called; an implementation says what they are.
pub trait PersistentMap<K: View, V: View>: Sized {
    open spec fn contents(&self) -> Map<K::V, V::V> {
        arbitrary()
    }

    open spec fn valid(&self) -> bool {
        arbitrary()
    }

    /// The version with `value` under `key`.
    fn with(&self, key: &K, value: &V) -> (r: Result<Self, StoreError>)
        requires
            self.valid(),
        ensures
            r matches Ok(next) ==> next.valid() && next.contents() == self.contents().insert(
                key@,
                value@,
            ),
    ;

    /// The version without `key`.
    fn without(&self, key: &K) -> (r: Result<Self, StoreError>)
        requires
            self.valid(),
        ensures
            r matches Ok(next) ==> next.valid() && next.contents() == self.contents().remove(key@),
    ;
}

/// Writes that are held back until they are written together.
pub trait Batch<K: View, V: View>: MutableOrderedMap<K, V> {
    /// Hands the writes held back to the collection below.
    fn write(&mut self) -> Result<(), StoreError>;
}

/// A store that makes what was written durable and names the result.
pub trait CommitKVStore<K: View, V: View, Commit>: Batch<K, V> {
    /// Makes durable what was written, and names it.
    fn commit(&mut self) -> Result<Commit, StoreError>;
}

} // verus!
