//! What a record type offers to the iterators: decoding from the front of
//! a byte slice, and what an iterator over a buffer offers to its callers.

use std::marker::PhantomData;
use vstd::prelude::*;

verus! {

/// A value together with the offset in the buffer at which it was found.
pub type WithOffset<T> = (usize, T);

/// A record that is decoded from the front of a byte slice.
pub trait FromBytesReadableTrait<'bytes>: Sized {
    /// The length of the record that `bytes` starts with, or `None` where
    /// `bytes` does not start with a valid record.
    spec fn record_len(bytes: Seq<u8>) -> Option<nat>;

    /// `self` is the record that `bytes` starts with.
    spec fn read_from(&self, bytes: Seq<u8>) -> bool;

    /// The number of bytes that the record spans.
    spec fn spec_len(&self) -> nat;

    /// An upper bound on the length of every record.
    spec fn spec_max_len() -> nat;

    /// A valid record is not empty, lies within the bytes it was read from
    /// and is no longer than `spec_max_len()`.
    proof fn lemma_record_len_bounds(bytes: Seq<u8>)
        ensures
            Self::record_len(bytes) matches Some(n) ==> 0 < n <= bytes.len() && n
                <= Self::spec_max_len(),
    ;

    /// Whether `bytes` starts with a valid record depends on the bytes of
    /// that record alone: bytes behind it can be dropped or changed.
    proof fn lemma_record_len_local(bytes: Seq<u8>, other: Seq<u8>, n: nat)
        requires
            n <= bytes.len(),
            n <= other.len(),
            bytes.subrange(0, n as int) == other.subrange(0, n as int),
        ensures
            Self::record_len(bytes) == Some(n) <==> Self::record_len(other) == Some(n),
    ;

    /// The record that was read from `bytes` spans `record_len(bytes)`.
    proof fn lemma_read_len(&self, bytes: Seq<u8>)
        requires
            self.read_from(bytes),
        ensures
            Self::record_len(bytes) == Some(self.spec_len()),
    ;

    /// Reads the record that `bytes` starts with: its length and the record,
    /// or `None` where `bytes` does not start with a valid record.
    fn try_read(bytes: &'bytes [u8]) -> (r: Option<(usize, Self)>)
        ensures
            match r {
                Some((n, v)) => Self::record_len(bytes@) == Some(n as nat) && v.read_from(bytes@),
                None => Self::record_len(bytes@) is None,
            },
    ;

    /// The number of bytes that the record spans.
    fn len(&self) -> (n: usize)
        ensures
            n == self.spec_len(),
    ;

    /// An upper bound on the length of every record.
    fn max_len() -> (n: usize)
        ensures
            n == Self::spec_max_len(),
    ;
}

/// An iterator over the records of a buffer: it gives each record with the
/// offset at which the record starts.
pub trait RecordIterator: Sized {
    type Item;

    /// What holds of the iterator between calls.
    spec fn inv(&self) -> bool;

    /// `next()` leaves the state `after` and returns `r`.
    spec fn yields(&self, after: Self, r: Option<WithOffset<Self::Item>>) -> bool;

    /// A bound on the number of records that are still to come.
    spec fn remaining(&self) -> nat;

    fn next(&mut self) -> (r: Option<WithOffset<Self::Item>>)
        requires
            old(self).inv(),
        ensures
            final(self).inv(),
            old(self).yields(*final(self), r),
            r is Some ==> final(self).remaining() < old(self).remaining(),
    ;
}

/// An iterator that is made from a buffer and the offset at which to start.
pub trait TIterator<'a>: RecordIterator {
    /// The iterator is in the state in which `new(bytes, offset)` leaves it.
    spec fn starts_at(&self, bytes: Seq<u8>, offset: nat) -> bool;

    fn new(bytes: &'a [u8], offset: usize) -> (r: Self)
        ensures
            r.inv(),
            r.starts_at(bytes@, offset as nat),
    ;
}

/// `next()` of the iterator `it` leaves the state `after` and returns `r`
/// with some offset.
pub open spec fn without_offset<I: RecordIterator>(it: I, after: I, r: Option<I::Item>) -> bool {
    match r {
        Some(v) => exists|found: WithOffset<I::Item>| #[trigger]
            it.yields(after, Some(found)) && found.1 == v,
        None => it.yields(after, None),
    }
}

/// An iterator that gives the records of another without their offsets.
pub struct NoOffsetIterator<I, T> {
    pub iter: I,
    pub phantom: PhantomData<T>,
}

impl<I, T> NoOffsetIterator<I, T> {
    pub fn new(iter: I) -> (r: Self)
        ensures
            r.iter == iter,
    {
        Self { iter, phantom: PhantomData }
    }

    /// The next record of the inner iterator, without its offset.
    #[inline(always)]
    pub fn next(&mut self) -> (r: Option<I::Item>) where I: RecordIterator
        requires
            old(self).iter.inv(),
        ensures
            final(self).iter.inv(),
            without_offset(old(self).iter, final(self).iter, r),
            r is Some ==> final(self).iter.remaining() < old(self).iter.remaining(),
    {
        let got = self.iter.next();
        match got {
            Some(found) => {
                assert(old(self).iter.yields(self.iter, Some(found)));
                Some(found.1)
            },
            None => None,
        }
    }
}

} // verus!
