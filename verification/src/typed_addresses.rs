//! Typed identifiers.
//!
//! An identifier is a base value, most often an address, labelled with the kind
//! of record it identifies, so that an identifier of one kind is not taken for
//! one of another. An identifier comes in two forms: a local one, meaningful
//! inside the partition that uses it, and a remote one that also names the
//! partition it belongs to. Dropping the partition is always possible;
//! attaching one takes knowing it.
use crate::address::Partition;
use std::marker::PhantomData;
use vstd::prelude::*;

verus! {

/// An identifier of a record of kind `K` inside the partition at hand.
#[derive(Debug, PartialEq)]
pub struct Local<K, B> {
    pub base: B,
    pub kind: PhantomData<K>,
}

/// An identifier of a record of kind `K` together with the partition that the
/// record lives in.
#[derive(Debug, PartialEq)]
pub struct Remote<K, B> {
    pub partition: Partition,
    pub base: B,
    pub kind: PhantomData<K>,
}

impl<K, B: Clone> Clone for Local<K, B> {
    fn clone(&self) -> (r: Self)
        ensures
            cloned(self.base, r.base),
    {
        Local { base: self.base.clone(), kind: PhantomData }
    }
}

impl<K, B: Clone> Clone for Remote<K, B> {
    fn clone(&self) -> (r: Self)
        ensures
            r.partition@ == self.partition@,
            cloned(self.base, r.base),
    {
        Remote { partition: self.partition.clone(), base: self.base.clone(), kind: PhantomData }
    }
}

impl<K, B> Local<K, B> {
    /// Labels `base` as an identifier of kind `K`.
    pub fn wrap(base: B) -> (r: Self)
        ensures
            r.base == base,
    {
        Local { base, kind: PhantomData }
    }

    /// The base value of the identifier.
    pub fn as_base(&self) -> (r: &B)
        ensures
            *r == self.base,
    {
        &self.base
    }

    /// Gives up the label and returns the base value.
    pub fn into_base(self) -> (r: B)
        ensures
            r == self.base,
    {
        self.base
    }

    /// Attaches the partition that the identifier belongs to.
    pub fn externalise(self, partition: Partition) -> (r: Remote<K, B>)
        ensures
            r.partition == partition,
            r.base == self.base,
    {
        Remote { partition, base: self.base, kind: PhantomData }
    }
}

impl<K, B> Remote<K, B> {
    /// The identifier of `local` in `partition`.
    pub fn new(partition: Partition, local: Local<K, B>) -> (r: Self)
        ensures
            r.partition == partition,
            r.base == local.base,
    {
        Remote { partition, base: local.base, kind: PhantomData }
    }

    /// The partition that the identifier belongs to.
    pub fn partition(&self) -> (r: &Partition)
        ensures
            *r == self.partition,
    {
        &self.partition
    }

    /// The base value of the identifier.
    pub fn as_base(&self) -> (r: &B)
        ensures
            *r == self.base,
    {
        &self.base
    }

    /// Drops the partition and keeps the identifier as a local one.
    pub fn internalise(self) -> (r: Local<K, B>)
        ensures
            r.base == self.base,
    {
        Local { base: self.base, kind: PhantomData }
    }

    /// Drops the partition and the label and returns the base value.
    pub fn into_base(self) -> (r: B)
        ensures
            r == self.base,
    {
        self.base
    }
}

} // verus!
