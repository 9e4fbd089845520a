//! Slot indices: process-unique integers that tell the collector where a
//! histogram's storage lives. Two independent namespaces exist, one for
//! plain histograms and one for keyed histograms, so each map can use the
//! integer directly as a key.

use vstd::prelude::*;

verus! {

/// Witness type, used to specify that the data is specific to a plain histogram.
#[derive(Clone)]
pub struct Plain;

/// Witness type, used to specify that the data is specific to the keyed
/// namespace of slot indices.
#[derive(Clone)]
pub struct MapNamespace;

/// Witness type, used to specify that the data is specific to a keyed
/// histogram with keys of a specific type `T`.
pub struct Keyed<T> {
    pub witness: core::marker::PhantomData<T>,
}

impl<T> Clone for Keyed<T> {
    fn clone(&self) -> (r: Self) {
        Keyed { witness: core::marker::PhantomData }
    }
}

/// A key used to communicate with the back-end for a given kind of histograms.
pub struct Key<T> {
    pub witness: core::marker::PhantomData<T>,
    pub index: usize,
}

impl<T> Clone for Key<T> {
    fn clone(&self) -> (r: Self)
        ensures
            r.index == self.index,
    {
        Key { witness: core::marker::PhantomData, index: self.index }
    }
}

/// A key generator. It produces consecutive numbers.
pub struct KeyGenerator<T> {
    pub counter: usize,
    pub witness: core::marker::PhantomData<T>,
}

impl<T> KeyGenerator<T> {
    pub fn new() -> (r: KeyGenerator<T>)
        ensures
            r.counter == 0,
    {
        KeyGenerator { counter: 0, witness: core::marker::PhantomData }
    }
}

impl KeyGenerator<Plain> {
    /// Hands out the next free slot of the plain namespace.
    pub fn next(&mut self) -> (r: Key<Plain>)
        requires
            old(self).counter < usize::MAX,
        ensures
            r.index == old(self).counter,
            final(self).counter == old(self).counter + 1,
    {
        let index = self.counter;
        self.counter = self.counter + 1;
        Key { index, witness: core::marker::PhantomData }
    }
}

impl KeyGenerator<MapNamespace> {
    /// Hands out the next free slot of the keyed namespace.
    pub fn next<T>(&mut self) -> (r: Key<Keyed<T>>)
        requires
            old(self).counter < usize::MAX,
        ensures
            r.index == old(self).counter,
            final(self).counter == old(self).counter + 1,
    {
        let index = self.counter;
        self.counter = self.counter + 1;
        Key { index, witness: core::marker::PhantomData }
    }
}

} // verus!
