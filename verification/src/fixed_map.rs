//! An array-backed map with one entry for every key of a finite,
//! densely numbered enumeration.
//!
//! The map always holds exactly `N` values, one per key code in
//! `0..N`; there is no missing-key state.  Keys are never stored: a
//! key is only a position, recovered on iteration.

use core::marker::PhantomData;
use vstd::prelude::*;

verus! {

/// A finite key enumeration whose values carry numeric codes `0..count()`.
///
/// Implementations promise (through the contracts on their own impls)
/// that `code` is injective and below `count`, and that `from_code`
/// inverts it.
pub trait EnumKey: Sized + Copy {
    /// The number of keys in the enumeration.
    fn count() -> usize;

    /// This key's numeric code.
    fn code(self) -> usize;

    /// The key with the given code; an arbitrary fixed key if the code
    /// is out of range.
    fn from_code(code: usize) -> Self;
}

/// Associates a key enumeration with a backing list type.
pub trait Array {
    type List;
}

/// A fixed-size map of `N` values keyed by the enumeration `K`.
#[verifier::reject_recursive_types(K)]
pub struct FixedMap<const N: usize, K, V> {
    inner: Vec<V>,
    _phantom: PhantomData<K>,
}

impl<const N: usize, K, V> View for FixedMap<N, K, V> {
    type V = Seq<V>;

    closed spec fn view(&self) -> Seq<V> {
        self.inner@
    }
}

impl<const N: usize, K, V> FixedMap<N, K, V> {
    /// The map is well formed when it holds exactly `N` values.
    pub open spec fn wf(&self) -> bool {
        self@.len() == N
    }

    /// Builds a map from exactly `N` values; `None` otherwise.
    pub fn from_vec(values: Vec<V>) -> (r: Option<Self>)
        ensures
            r is Some <==> values@.len() == N,
            r matches Some(m) ==> m@ == values@ && m.wf(),
    {
        if values.len() == N {
            Some(FixedMap { inner: values, _phantom: PhantomData })
        } else {
            None
        }
    }

    /// A well-formed map holds exactly `N` entries, whatever the key
    /// enumeration: there is no missing-key or extra-key state.
    pub proof fn lemma_len_is_declared(&self)
        requires
            self.wf(),
        ensures
            self@.len() == N,
    {
    }

    /// Returns the number of entries, which is always `N`.
    pub fn len(&self) -> (r: usize)
        requires
            self.wf(),
        ensures
            r == N,
            r == self@.len(),
    {
        self.inner.len()
    }

    /// The value at position `i` (the value of the key with code `i`).
    pub fn get_at(&self, i: usize) -> (r: &V)
        requires
            self.wf(),
            i < N,
        ensures
            *r == self@[i as int],
    {
        &self.inner[i]
    }

    /// Replaces the value at position `i`.
    pub fn set_at(&mut self, i: usize, value: V)
        requires
            old(self).wf(),
            i < N,
        ensures
            final(self)@ == old(self)@.update(i as int, value),
            final(self).wf(),
    {
        self.inner.set(i, value);
    }

    /// Consumes the map and returns its values in key-code order.
    pub fn into_vec(self) -> (r: Vec<V>)
        ensures
            r@ == self@,
    {
        self.inner
    }
}

impl<const N: usize, K: EnumKey, V> FixedMap<N, K, V> {
    /// The value of `key`.  The position is the key's code; a code out
    /// of range (which a lawful `EnumKey` impl never produces) falls
    /// back to position 0.
    pub fn get(&self, key: K) -> (r: &V)
        requires
            self.wf(),
            N > 0,
        ensures
            exists|i: int| 0 <= i < N && *r == self@[i],
    {
        let c = key.code();
        if c < self.inner.len() {
            &self.inner[c]
        } else {
            &self.inner[0]
        }
    }

    /// A mutable reference to the value of `key`.
    pub fn get_mut(&mut self, key: K) -> (r: &mut V)
        requires
            old(self).wf(),
            N > 0,
        ensures
            exists|i: int|
                0 <= i < N && *r == old(self)@[i] && final(self)@ == old(self)@.update(
                    i,
                    *final(r),
                ),
            final(self)@.len() == N,
    {
        let c = key.code();
        let n = self.inner.len();
        if c < n {
            &mut self.inner[c]
        } else {
            &mut self.inner[0]
        }
    }

}

impl<const N: usize, K: EnumKey, V: Clone> FixedMap<N, K, V> {
    /// Returns the key-value pairs in ascending key-code order.
    pub fn iter(&self) -> (r: Vec<(K, V)>)
        requires
            self.wf(),
        ensures
            r@.len() == N,
    {
        let mut out: Vec<(K, V)> = Vec::new();
        let mut i: usize = 0;
        while i < self.inner.len()
            invariant
                self.wf(),
                i <= N,
                out@.len() == i,
            decreases N - i,
        {
            out.push((K::from_code(i), self.inner[i].clone()));
            i = i + 1;
        }
        out
    }
}

} // verus!
