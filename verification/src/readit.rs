//! The forward iterator that reads record after record and ends where no
//! record starts.

use crate::readable::{FromBytesReadableTrait, RecordIterator, TIterator, WithOffset};
use std::marker::PhantomData;
use vstd::prelude::*;
use vstd::slice::slice_subrange;

verus! {

/// The record that starts at the cursor `o`, as its offset and its length.
pub open spec fn read_next<'bytes, T: FromBytesReadableTrait<'bytes>>(
    bytes: Seq<u8>,
    o: int,
) -> Option<(int, nat)> {
    if 0 <= o < bytes.len() {
        match T::record_len(bytes.skip(o)) {
            Some(n) => Some((o, n)),
            None => None,
        }
    } else {
        None
    }
}

/// The forward iterator over records that follow each other without a gap:
/// it gives each record with the number of bytes before it.
pub struct ReadIterator<'bytes, T> {
    pub offset: usize,
    pub bytes: &'bytes [u8],
    pub phantom: PhantomData<T>,
}

impl<'bytes, T> ReadIterator<'bytes, T> {
    pub fn new(bytes: &'bytes [u8], offset: usize) -> (r: Self)
        ensures
            r.offset == offset,
            r.bytes@ == bytes@,
    {
        Self { offset, bytes, phantom: PhantomData }
    }
}

impl<'bytes, T> RecordIterator for ReadIterator<'bytes, T> where T: FromBytesReadableTrait<'bytes> {
    type Item = T;

    open spec fn inv(&self) -> bool {
        true
    }

    open spec fn yields(&self, after: Self, r: Option<WithOffset<T>>) -> bool {
        &&& after.bytes@ == self.bytes@
        &&& match r {
            Some(found) => {
                &&& read_next::<T>(self.bytes@, self.offset as int) == Some(
                    (found.0 as int, found.1.spec_len()),
                )
                &&& found.1.read_from(self.bytes@.skip(found.0 as int))
                &&& after.offset == found.0 + found.1.spec_len()
            },
            None => {
                &&& read_next::<T>(self.bytes@, self.offset as int) is None
                &&& after.offset == self.offset
            },
        }
    }

    open spec fn remaining(&self) -> nat {
        if self.offset <= self.bytes@.len() {
            (self.bytes@.len() - self.offset) as nat
        } else {
            0
        }
    }

    fn next(&mut self) -> (r: Option<WithOffset<T>>) {
        let len = self.bytes.len();
        if self.offset >= len {
            return None;
        }
        let rest = slice_subrange(self.bytes, self.offset, len);
        proof {
            assert(rest@ =~= self.bytes@.skip(self.offset as int));
            T::lemma_record_len_bounds(rest@);
        }
        match T::try_read(rest) {
            Some((bytes_read, val)) => {
                proof {
                    val.lemma_read_len(rest@);
                }
                let off = self.offset;
                self.offset += bytes_read;
                Some((off, val))
            },
            None => None,
        }
    }
}

impl<'bytes, T> TIterator<'bytes> for ReadIterator<'bytes, T> where
    T: FromBytesReadableTrait<'bytes>,
 {
    open spec fn starts_at(&self, bytes: Seq<u8>, offset: nat) -> bool {
        self.bytes@ == bytes && self.offset == offset
    }

    fn new(bytes: &'bytes [u8], offset: usize) -> (r: Self) {
        ReadIterator { offset, bytes, phantom: PhantomData }
    }
}

} // verus!
