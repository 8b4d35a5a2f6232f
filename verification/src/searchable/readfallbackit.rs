//! The forward iterator that reads record after record and searches for
//! the next marker where no record starts.

use super::{first_occurrence, lemma_first_occurrence, occurs_at, search_marker, SearchableMarkerTrait};
use crate::readable::{RecordIterator, TIterator, WithOffset};
use std::marker::PhantomData;
use vstd::prelude::*;
use vstd::slice::slice_subrange;

verus! {

/// Whether `needle` stands in `bytes` at `offset`.
pub fn has_at(bytes: &[u8], offset: usize, needle: &[u8]) -> (r: bool)
    ensures
        r == occurs_at(bytes@, needle@, offset as int),
{
    if offset > bytes.len() || bytes.len() - offset < needle.len() {
        return false;
    }
    let mut i: usize = 0;
    while i < needle.len()
        invariant
            i <= needle@.len(),
            offset + needle@.len() <= bytes@.len() <= usize::MAX,
            forall|j: int| 0 <= j < i ==> bytes@[offset + j] == needle@[j],
        decreases needle@.len() - i,
    {
        if bytes[offset + i] != needle[i] {
            assert(bytes@.subrange(offset as int, offset + needle@.len())[i as int] != needle@[i as int]);
            return false;
        }
        i += 1;
    }
    assert(bytes@.subrange(offset as int, offset + needle@.len()) =~= needle@);
    true
}

/// The record that a forward read from the cursor `o` gives, as its offset
/// and its length: the one at the first marker at or behind `o`, unless that
/// marker ends the buffer or is not followed by a valid record.
pub open spec fn fallback_next<'bytes, T: SearchableMarkerTrait<'bytes>>(
    bytes: Seq<u8>,
    o: int,
) -> Option<(int, nat)> {
    if 0 <= o <= bytes.len() {
        match first_occurrence(bytes.skip(o), T::spec_marker()) {
            Some(p) => if o + p + T::spec_marker().len() >= bytes.len() {
                None
            } else {
                match T::marked_len(bytes.skip(o + p)) {
                    Some(n) => Some((o + p, n)),
                    None => None,
                }
            },
            None => None,
        }
    } else {
        None
    }
}

/// The cursor after a forward read from the cursor `o`: behind the record
/// that was read, or else at the first marker that does not end the buffer,
/// or else where it was.
pub open spec fn fallback_cursor<'bytes, T: SearchableMarkerTrait<'bytes>>(
    bytes: Seq<u8>,
    o: int,
) -> int {
    match fallback_next::<T>(bytes, o) {
        Some((at, n)) => at + n,
        None => if 0 <= o && o + T::spec_marker().len() < bytes.len() {
            match first_occurrence(bytes.skip(o), T::spec_marker()) {
                Some(p) => o + p,
                None => o,
            }
        } else {
            o
        },
    }
}

/// The forward iterator that resynchronises: where the cursor stands on no
/// marker it moves on to the next one, and it ends at the first marker that
/// is not followed by a valid record.
pub struct ReadFallbackIterator<'bytes, T> {
    pub offset: usize,
    pub bytes: &'bytes [u8],
    pub phantom: PhantomData<T>,
}

impl<'bytes, T> ReadFallbackIterator<'bytes, T> {
    pub fn new(bytes: &'bytes [u8], offset: usize) -> (r: Self)
        ensures
            r.offset == offset,
            r.bytes@ == bytes@,
    {
        Self { offset, bytes, phantom: PhantomData }
    }
}

impl<'bytes, T> ReadFallbackIterator<'bytes, T> where T: SearchableMarkerTrait<'bytes> {
    /// The next record, as `next` gives it.
    #[inline(always)]
    pub fn read_next(&mut self) -> (r: Option<WithOffset<T>>)
        ensures
            old(self).yields(*final(self), r),
            r is Some ==> final(self).remaining() < old(self).remaining(),
    {
        let marker = T::marker();
        let len = self.bytes.len();
        proof {
            T::lemma_marker();
        }
        if self.offset >= len || len - self.offset <= marker.len() {
            proof {
                if self.offset <= len {
                    match first_occurrence(self.bytes@.skip(self.offset as int), marker@) {
                        Some(p) => {
                            assert(occurs_at(self.bytes@.skip(self.offset as int), marker@, p));
                        },
                        None => {},
                    }
                }
            }
            return None;
        }
        let ghost rest = self.bytes@.skip(self.offset as int);
        if has_at(self.bytes, self.offset, marker) {
            proof {
                assert(rest.subrange(0, marker@.len() as int) =~= self.bytes@.subrange(
                    self.offset as int,
                    self.offset + marker@.len(),
                ));
                assert(occurs_at(rest, marker@, 0));
                lemma_first_occurrence(rest, marker@, 0);
            }
        } else {
            match search_marker::<T>(slice_subrange(self.bytes, self.offset, len)) {
                Some(position) => {
                    proof {
                        assert(rest =~= self.bytes@.subrange(self.offset as int, len as int));
                        assert(occurs_at(rest, marker@, position as int));
                    }
                    if position == 0 {
                        proof {
                            assert(rest.subrange(0, marker@.len() as int) =~= self.bytes@.subrange(
                                self.offset as int,
                                self.offset + marker@.len(),
                            ));
                        }
                        return None;
                    }
                    self.offset += position;
                    if len - self.offset <= marker.len() {
                        return None;
                    }
                },
                None => {
                    proof {
                        assert(rest =~= self.bytes@.subrange(self.offset as int, len as int));
                    }
                    return None;
                },
            }
        }
        let at = self.offset;
        proof {
            assert(self.bytes@.subrange(at as int, len as int) =~= self.bytes@.skip(at as int));
            assert(occurs_at(self.bytes@.skip(at as int), marker@, 0)) by {
                assert(self.bytes@.skip(at as int).subrange(0, marker@.len() as int)
                    =~= self.bytes@.subrange(at as int, at + marker@.len()));
                assert(rest.subrange(at - old(self).offset, at - old(self).offset + marker@.len())
                    =~= self.bytes@.subrange(at as int, at + marker@.len()));
            }
            T::lemma_marked_len_bounds(self.bytes@.skip(at as int));
        }
        match T::try_read_valid_marker(slice_subrange(self.bytes, at, len)) {
            Some((bytes_read, val)) => {
                self.offset += bytes_read;
                Some((at, val))
            },
            None => None,
        }
    }
}

impl<'bytes, T> RecordIterator for ReadFallbackIterator<'bytes, T> where
    T: SearchableMarkerTrait<'bytes>,
 {
    type Item = T;

    open spec fn inv(&self) -> bool {
        true
    }

    open spec fn yields(&self, after: Self, r: Option<WithOffset<T>>) -> bool {
        &&& after.bytes@ == self.bytes@
        &&& after.offset == fallback_cursor::<T>(self.bytes@, self.offset as int)
        &&& match r {
            Some(found) => {
                &&& fallback_next::<T>(self.bytes@, self.offset as int) == Some(
                    (found.0 as int, found.1.spec_len()),
                )
                &&& found.1.read_from(self.bytes@.skip(found.0 as int))
            },
            None => fallback_next::<T>(self.bytes@, self.offset as int) is None,
        }
    }

    open spec fn remaining(&self) -> nat {
        if self.offset <= self.bytes@.len() {
            (self.bytes@.len() - self.offset) as nat
        } else {
            0
        }
    }

    #[inline(always)]
    fn next(&mut self) -> (r: Option<WithOffset<T>>) {
        self.read_next()
    }
}

impl<'bytes, T> TIterator<'bytes> for ReadFallbackIterator<'bytes, T> where
    T: SearchableMarkerTrait<'bytes>,
 {
    open spec fn starts_at(&self, bytes: Seq<u8>, offset: nat) -> bool {
        self.bytes@ == bytes && self.offset == offset
    }

    fn new(bytes: &'bytes [u8], offset: usize) -> (r: Self) {
        ReadFallbackIterator { offset, bytes, phantom: PhantomData }
    }
}

} // verus!
