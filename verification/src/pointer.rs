//! Pointers to data that lives on the stable storage.

use vstd::prelude::*;
use std::marker::PhantomData;
use crate::allocator::BlockAddress;

verus! {

/// A pointer to a value of type `T` on the stable storage: the address of
/// its block. The greatest address stands for the null pointer.
pub struct StablePtr<T>(BlockAddress, PhantomData<T>);

impl<T> Clone for StablePtr<T> {
    fn clone(&self) -> (r: Self)
        ensures
            r.address_spec() == self.address_spec(),
    {
        StablePtr(self.0, PhantomData)
    }
}

impl<T> StablePtr<T> {
    /// The address the pointer holds.
    pub closed spec fn address_spec(&self) -> u64 {
        self.0
    }

    /// A pointer to the given address.
    pub fn from_address(address: BlockAddress) -> (r: Self)
        ensures
            r.address_spec() == address,
    {
        StablePtr(address, PhantomData)
    }

    /// The null pointer.
    pub fn null() -> (r: Self)
        ensures
            r.address_spec() == u64::MAX,
    {
        Self::from_address(u64::MAX)
    }

    /// Returns true if the pointer is not null.
    pub fn is_null(&self) -> (r: bool)
        ensures
            r == (self.address_spec() != u64::MAX),
    {
        self.0 != u64::MAX
    }

    /// The address the pointer holds.
    pub fn address(&self) -> (r: BlockAddress)
        ensures
            r == self.address_spec(),
    {
        self.0
    }
}

} // verus!
