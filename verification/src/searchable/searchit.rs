//! The iterators that go from marker to marker, forwards and backwards.

use super::{
    finder_find,
    finder_needle,
    finder_rev_needle,
    finder_rfind,
    first_occurrence,
    last_occurrence,
    lemma_first_occurrence,
    lemma_last_occurrence,
    lemma_no_first_occurrence,
    new_finder,
    new_finder_rev,
    occurs_at,
    SearchableMarkerTrait,
};
use crate::readable::{RecordIterator, TIterator, WithOffset};
use memchr::memmem::{Finder, FinderRev};
use std::marker::PhantomData;
use vstd::prelude::*;
use vstd::slice::slice_subrange;

verus! {

/// The record at the first marker at or behind `o`, as its offset and its
/// length, if that marker is followed by a valid record.
pub open spec fn search_at<'bytes, T: SearchableMarkerTrait<'bytes>>(
    bytes: Seq<u8>,
    o: int,
) -> Option<(int, nat)> {
    if 0 <= o < bytes.len() {
        match first_occurrence(bytes.skip(o), T::spec_marker()) {
            Some(p) => match T::marked_len(bytes.skip(o + p)) {
                Some(n) => Some((o + p, n)),
                None => None,
            },
            None => None,
        }
    } else {
        None
    }
}

/// The record that a forward search from the cursor `o` gives: the one that
/// `search_at` finds from `o`, or else from the cursors that follow `o` in
/// steps of the marker's length.
pub open spec fn search_next<'bytes, T: SearchableMarkerTrait<'bytes>>(
    bytes: Seq<u8>,
    o: int,
) -> Option<(int, nat)>
    decreases bytes.len() - o,
{
    if 0 <= o < bytes.len() && T::spec_marker().len() > 0 {
        if search_at::<T>(bytes, o) is Some {
            search_at::<T>(bytes, o)
        } else if o + T::spec_marker().len() >= bytes.len() {
            None
        } else {
            search_next::<T>(bytes, o + T::spec_marker().len())
        }
    } else {
        None
    }
}

/// The cursor after a forward search from the cursor `o`: behind the record
/// that was found, or else at the end of the buffer.
pub open spec fn search_cursor<'bytes, T: SearchableMarkerTrait<'bytes>>(
    bytes: Seq<u8>,
    o: int,
) -> int {
    match search_next::<T>(bytes, o) {
        Some((at, n)) => at + n,
        None => if o < bytes.len() {
            bytes.len() as int
        } else {
            o
        },
    }
}

/// The forward iterator that searches for the next marker and skips the
/// markers that are not followed by a valid record.
pub struct SearchIterator<'bytes, T> {
    pub offset: usize,
    pub bytes: &'bytes [u8],
    pub phantom: PhantomData<T>,
    pub finder: Finder<'static>,
}

impl<'bytes, T> SearchIterator<'bytes, T> where T: SearchableMarkerTrait<'bytes> {
    /// The record at the first marker at or behind `offset` in `bytes`, if
    /// that marker is followed by a valid record.
    #[inline(always)]
    pub fn search(&self, bytes: &'bytes [u8], offset: usize) -> (r: Option<WithOffset<T>>)
        requires
            self.inv(),
        ensures
            match r {
                Some(found) => {
                    &&& search_at::<T>(bytes@, offset as int) == Some(
                        (found.0 as int, found.1.spec_len()),
                    )
                    &&& found.1.read_from(bytes@.skip(found.0 as int))
                },
                None => search_at::<T>(bytes@, offset as int) is None,
            },
    {
        if offset >= bytes.len() {
            return None;
        }
        let ghost rest = bytes@.skip(offset as int);
        assert(bytes@.subrange(offset as int, bytes@.len() as int) =~= rest);
        let candidate = match finder_find(&self.finder, slice_subrange(bytes, offset, bytes.len())) {
            Some(position) => {
                proof {
                    lemma_first_occurrence(rest, T::spec_marker(), position as int);
                }
                position + offset
            },
            None => {
                proof {
                    lemma_no_first_occurrence(rest, T::spec_marker());
                }
                return None;
            },
        };
        proof {
            assert(bytes@.subrange(candidate as int, bytes@.len() as int) =~= bytes@.skip(
                candidate as int,
            ));
            assert(bytes@.skip(candidate as int).subrange(0, T::spec_marker().len() as int)
                =~= rest.subrange(candidate - offset, candidate - offset + T::spec_marker().len()));
        }
        match T::try_read_valid_marker(slice_subrange(bytes, candidate, bytes.len())) {
            Some((_, t)) => Some((candidate, t)),
            None => None,
        }
    }
}

impl<'bytes, T> RecordIterator for SearchIterator<'bytes, T> where
    T: SearchableMarkerTrait<'bytes>,
 {
    type Item = T;

    open spec fn inv(&self) -> bool {
        finder_needle(self.finder) == T::spec_marker()
    }

    open spec fn yields(&self, after: Self, r: Option<WithOffset<T>>) -> bool {
        &&& after.bytes@ == self.bytes@
        &&& after.offset == search_cursor::<T>(self.bytes@, self.offset as int)
        &&& match r {
            Some(found) => {
                &&& search_next::<T>(self.bytes@, self.offset as int) == Some(
                    (found.0 as int, found.1.spec_len()),
                )
                &&& found.1.read_from(self.bytes@.skip(found.0 as int))
            },
            None => search_next::<T>(self.bytes@, self.offset as int) is None,
        }
    }

    open spec fn remaining(&self) -> nat {
        if self.offset <= self.bytes@.len() {
            (self.bytes@.len() - self.offset) as nat
        } else {
            0
        }
    }

    #[inline(always)]
    fn next(&mut self) -> (r: Option<WithOffset<T>>) {
        let len = self.bytes.len();
        let step = T::marker().len();
        proof {
            T::lemma_marker();
        }
        if self.offset >= len {
            return None;
        }
        loop
            invariant
                self.inv(),
                self.bytes@ == old(self).bytes@,
                len == self.bytes@.len(),
                step == T::spec_marker().len(),
                step > 0,
                old(self).offset <= self.offset < len,
                search_next::<T>(self.bytes@, self.offset as int) == search_next::<T>(
                    self.bytes@,
                    old(self).offset as int,
                ),
            decreases len - self.offset,
        {
            match self.search(self.bytes, self.offset) {
                Some((offset, t)) => {
                    proof {
                        T::lemma_marked_len_bounds(self.bytes@.skip(offset as int));
                    }
                    self.offset = offset + t.len();
                    return Some((offset, t));
                },
                None => {
                    if len - self.offset <= step {
                        self.offset = len;
                        return None;
                    }
                    self.offset += step;
                },
            }
        }
    }
}

impl<'bytes, T> TIterator<'bytes> for SearchIterator<'bytes, T> where
    T: SearchableMarkerTrait<'bytes>,
 {
    open spec fn starts_at(&self, bytes: Seq<u8>, offset: nat) -> bool {
        self.bytes@ == bytes && self.offset == offset
    }

    fn new(bytes: &'bytes [u8], offset: usize) -> (r: Self) {
        SearchIterator { offset, bytes, phantom: PhantomData, finder: new_finder(T::marker()) }
    }
}

/// The record at the last marker that ends at or before `o`, as its offset
/// and its length, if that marker is followed by a valid record.
pub open spec fn rev_search_at<'bytes, T: SearchableMarkerTrait<'bytes>>(
    bytes: Seq<u8>,
    o: int,
) -> Option<(int, nat)> {
    if 0 <= o <= bytes.len() && o != usize::MAX {
        match last_occurrence(bytes.take(o), T::spec_marker()) {
            Some(c) => match T::marked_len(bytes.skip(c)) {
                Some(n) => Some((c, n)),
                None => None,
            },
            None => None,
        }
    } else {
        None
    }
}

/// The record that a backward search from the cursor `o` gives: the one
/// that `rev_search_at` finds from `o`, or else from the cursors that
/// precede `o` in steps of the marker's length. The cursor `usize::MAX`
/// stands for the end of the iteration.
pub open spec fn rev_search_next<'bytes, T: SearchableMarkerTrait<'bytes>>(
    bytes: Seq<u8>,
    o: int,
) -> Option<(int, nat)>
    decreases o,
{
    if o == usize::MAX || T::spec_marker().len() == 0 {
        None
    } else {
        if rev_search_at::<T>(bytes, o) is Some {
            rev_search_at::<T>(bytes, o)
        } else if o < T::spec_marker().len() {
            None
        } else {
            rev_search_next::<T>(bytes, o - T::spec_marker().len())
        }
    }
}

/// The backward iterator that searches for the last marker before the
/// cursor and skips the markers that are not followed by a valid record.
pub struct RevSearchIterator<'bytes, T> {
    pub offset: usize,
    pub bytes: &'bytes [u8],
    pub phantom: PhantomData<T>,
    pub finder: FinderRev<'static>,
}

impl<'bytes, T> RevSearchIterator<'bytes, T> where T: SearchableMarkerTrait<'bytes> {
    /// The record at the last marker in `bytes` that ends at or before
    /// `offset`, if that marker is followed by a valid record.
    #[inline(always)]
    pub fn search(&self, bytes: &'bytes [u8], offset: usize) -> (r: Option<WithOffset<T>>)
        requires
            self.inv(),
        ensures
            match r {
                Some(found) => {
                    &&& rev_search_at::<T>(bytes@, offset as int) == Some(
                        (found.0 as int, found.1.spec_len()),
                    )
                    &&& found.1.read_from(bytes@.skip(found.0 as int))
                    &&& found.0 + T::spec_marker().len() <= offset
                },
                None => rev_search_at::<T>(bytes@, offset as int) is None,
            },
    {
        if offset > bytes.len() || offset == usize::MAX {
            return None;
        }
        let ghost front = bytes@.take(offset as int);
        assert(bytes@.subrange(0, offset as int) =~= front);
        let candidate = match finder_rfind(&self.finder, slice_subrange(bytes, 0, offset)) {
            Some(position) => {
                proof {
                    lemma_last_occurrence(front, T::spec_marker(), position as int);
                }
                position
            },
            None => {
                return None;
            },
        };
        proof {
            assert(bytes@.subrange(candidate as int, bytes@.len() as int) =~= bytes@.skip(
                candidate as int,
            ));
            assert(bytes@.skip(candidate as int).subrange(0, T::spec_marker().len() as int)
                =~= front.subrange(candidate as int, candidate + T::spec_marker().len()));
        }
        match T::try_read_valid_marker(slice_subrange(bytes, candidate, bytes.len())) {
            Some((_, t)) => Some((candidate, t)),
            None => None,
        }
    }
}

impl<'bytes, T> RecordIterator for RevSearchIterator<'bytes, T> where
    T: SearchableMarkerTrait<'bytes>,
 {
    type Item = T;

    open spec fn inv(&self) -> bool {
        finder_rev_needle(self.finder) == T::spec_marker()
    }

    open spec fn yields(&self, after: Self, r: Option<WithOffset<T>>) -> bool {
        &&& after.bytes@ == self.bytes@
        &&& match r {
            Some(found) => {
                &&& rev_search_next::<T>(self.bytes@, self.offset as int) == Some(
                    (found.0 as int, found.1.spec_len()),
                )
                &&& found.1.read_from(self.bytes@.skip(found.0 as int))
                &&& after.offset == found.0
            },
            None => {
                &&& rev_search_next::<T>(self.bytes@, self.offset as int) is None
                &&& after.offset == usize::MAX
            },
        }
    }

    open spec fn remaining(&self) -> nat {
        if self.offset == usize::MAX {
            0
        } else {
            self.offset as nat
        }
    }

    #[inline(always)]
    fn next(&mut self) -> (r: Option<WithOffset<T>>) {
        let step = T::marker().len();
        proof {
            T::lemma_marker();
        }
        loop
            invariant
                self.inv(),
                self.bytes@ == old(self).bytes@,
                step == T::spec_marker().len(),
                step > 0,
                self.offset <= old(self).offset,
                rev_search_next::<T>(self.bytes@, self.offset as int) == rev_search_next::<T>(
                    self.bytes@,
                    old(self).offset as int,
                ),
            decreases self.offset,
        {
            if self.offset == usize::MAX {
                return None;
            }
            match self.search(self.bytes, self.offset) {
                Some((offset, t)) => {
                    self.offset = offset;
                    return Some((offset, t));
                },
                None => {
                    if self.offset < step {
                        self.offset = usize::MAX;
                        return None;
                    }
                    self.offset -= step;
                },
            }
        }
    }
}

impl<'bytes, T> TIterator<'bytes> for RevSearchIterator<'bytes, T> where
    T: SearchableMarkerTrait<'bytes>,
 {
    open spec fn starts_at(&self, bytes: Seq<u8>, offset: nat) -> bool {
        self.bytes@ == bytes && self.offset == offset
    }

    fn new(bytes: &'bytes [u8], offset: usize) -> (r: Self) {
        RevSearchIterator { offset, bytes, phantom: PhantomData, finder: new_finder_rev(T::marker()) }
    }
}

} // verus!
