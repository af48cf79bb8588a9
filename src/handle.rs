use core::marker::PhantomData;
use vstd::prelude::*;

use crate::arena::{KeyWord, nonzero_get, nonzero_new, nonzero_value};

verus! {

/// A handle to a slot of an arena that holds records of type `T`.
///
/// The handle stores one more than the slot number in a non-zero word, so no handle is
/// ever zero and `Option<SlabKey<T>>` takes no more room than the handle itself.
pub struct SlabKey<T> {
    raw: KeyWord,
    marker: PhantomData<T>,
}

impl<T> Clone for SlabKey<T> {
    fn clone(&self) -> (r: Self)
        ensures
            r == *self,
    {
        SlabKey { raw: self.raw, marker: PhantomData }
    }
}

impl<T> Copy for SlabKey<T> {
}

impl<T> SlabKey<T> {
    /// The slot number.
    pub closed spec fn view(&self) -> nat {
        (nonzero_value(self.raw) - 1) as nat
    }

    /// A handle to slot `key`.
    pub fn from_key(key: usize) -> (r: Self)
        requires
            key < u32::MAX,
        ensures
            r@ == key,
    {
        let raw = nonzero_new((key + 1) as u32).unwrap();
        SlabKey { raw, marker: PhantomData }
    }

    /// The slot number.
    pub fn key(&self) -> (r: usize)
        ensures
            r == self@,
    {
        (nonzero_get(self.raw) - 1) as usize
    }
}

} // verus!
