//! A model of the external nearest-neighbor index as the pipeline relies on
//! it: which keys it holds, in insertion order, and how much capacity has
//! been reserved. Capacity must be reserved by the caller before adding;
//! running out of capacity fails loudly instead of dropping vectors.

use vstd::prelude::*;

verus! {

/// The errors of the vector index model.
#[derive(Clone, Copy, PartialEq, Eq, Structural, Debug)]
pub enum VectorIndexError {
    /// No capacity is left: `reserve` must be called before adding.
    CapacityExhausted,
}

/// The key space of the vector index.
pub struct VectorIndexState {
    keys: Vec<u64>,
    capacity: usize,
}

impl VectorIndexState {
    /// The keys the index holds, in insertion order.
    pub closed spec fn keys_seq(self) -> Seq<u64> {
        self.keys@
    }

    /// The reserved capacity.
    pub closed spec fn cap(self) -> int {
        self.capacity as int
    }

    /// A fresh, empty index with no reserved capacity.
    pub fn new() -> (v: VectorIndexState)
        ensures
            v.keys_seq().len() == 0,
            v.cap() == 0,
    {
        VectorIndexState { keys: Vec::new(), capacity: 0 }
    }

    /// An index state already holding the given keys, as read back from a
    /// persisted index, with capacity equal to its length.
    pub fn from_keys(keys: Vec<u64>) -> (v: VectorIndexState)
        ensures
            v.keys_seq() == keys@,
            v.cap() == keys@.len(),
    {
        let capacity = keys.len();
        VectorIndexState { keys, capacity }
    }

    /// How many keys the index holds.
    pub fn len(&self) -> (r: usize)
        ensures
            r == self.keys_seq().len(),
    {
        self.keys.len()
    }

    /// The reserved capacity.
    pub fn capacity(&self) -> (r: usize)
        ensures
            r == self.cap(),
    {
        self.capacity
    }

    /// Reserves room for `cap` entries in total; capacity never shrinks.
    pub fn reserve(&mut self, cap: usize)
        ensures
            final(self).keys_seq() == old(self).keys_seq(),
            final(self).cap() == (if cap as int >= old(self).cap() {
                cap as int
            } else {
                old(self).cap()
            }),
    {
        if cap > self.capacity {
            self.capacity = cap;
        }
    }

    /// Adds a key under the caller-chosen identifier. Succeeds exactly when
    /// spare capacity remains; fails with `CapacityExhausted`, leaving the
    /// index unchanged, otherwise.
    pub fn add(&mut self, key: u64) -> (r: Result<(), VectorIndexError>)
        ensures
            final(self).cap() == old(self).cap(),
            old(self).keys_seq().len() < old(self).cap() ==> r == Ok::<(), VectorIndexError>(())
                && final(self).keys_seq() == old(self).keys_seq().push(key),
            old(self).keys_seq().len() >= old(self).cap() ==> r == Err::<(), VectorIndexError>(
                VectorIndexError::CapacityExhausted,
            ) && final(self).keys_seq() == old(self).keys_seq(),
    {
        if self.keys.len() < self.capacity {
            self.keys.push(key);
            Ok(())
        } else {
            Err(VectorIndexError::CapacityExhausted)
        }
    }

    /// Whether the index holds `key`.
    pub fn contains(&self, key: u64) -> (r: bool)
        ensures
            r == self.keys_seq().contains(key),
    {
        let mut k: usize = 0;
        while k < self.keys.len()
            invariant
                k <= self.keys_seq().len(),
                forall|t: int| 0 <= t < k ==> self.keys_seq()[t] != key,
            decreases self.keys_seq().len() - k,
        {
            if self.keys[k] == key {
                return true;
            }
            k += 1;
        }
        false
    }

    /// The key at position `k`, in insertion order.
    pub fn key_at(&self, k: usize) -> (r: u64)
        requires
            k < self.keys_seq().len(),
        ensures
            r == self.keys_seq()[k as int],
    {
        self.keys[k]
    }
}

} // verus!
