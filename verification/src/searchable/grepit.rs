//! The iterator over the records in which a regular expression matches.

use super::searchit::{rev_search_at, RevSearchIterator};
use super::{is_last, last_occurrence, SearchableMarkerTrait};
use crate::readable::{RecordIterator, TIterator, WithOffset};
use regex::bytes::Regex;
use std::marker::PhantomData;
use vstd::pervasive::unreached;
use vstd::prelude::*;

verus! {

/// `regex::bytes::Regex`, a compiled regular expression.
#[verifier::external_type_specification]
#[verifier::external_body]
pub struct ExRegex(Regex);

/// `regex::Error`, what the compilation of a pattern fails with.
#[verifier::external_type_specification]
#[verifier::external_body]
pub struct ExRegexError(regex::Error);

/// The pattern that a `Regex` was compiled from, which `Regex::as_str`
/// returns.
pub uninterp spec fn regex_source(re: Regex) -> Seq<char>;

/// Whether `Regex::new` compiles `pattern`.
pub uninterp spec fn regex_compiles(pattern: Seq<char>) -> bool;

/// The range of the match that `Regex::find_at` finds for the compiled
/// expression `re` in `hay` from `start` on.
pub uninterp spec fn regex_match_at(re: Regex, hay: Seq<u8>, start: int) -> Option<
    (int, int),
>;

/// Calls `regex::bytes::Regex::new`: the compiled expression, which holds
/// the pattern, or the error of the compilation.
#[verifier::external_body]
pub(crate) fn regex_new(pattern: &str) -> (r: Result<Regex, regex::Error>)
    ensures
        r is Ok == regex_compiles(pattern@),
        r matches Ok(re) ==> regex_source(re) == pattern@,
{
    Regex::new(pattern)
}

/// Calls `regex::bytes::Regex::find_at`, `Match::start` and `Match::end`:
/// the range of the match that the search from `start` on finds in `hay`.
/// The search is made between `start` and the end of `hay`, so the match
/// lies there, and its start is not behind its end.
#[verifier::external_body]
pub(crate) fn regex_find_at(re: &Regex, hay: &[u8], start: usize) -> (r: Option<(usize, usize)>)
    requires
        start <= hay@.len(),
    ensures
        match r {
            Some(m) => regex_match_at(*re, hay@, start as int) == Some(
                (m.0 as int, m.1 as int),
            ) && start <= m.0 <= m.1 <= hay@.len(),
            None => regex_match_at(*re, hay@, start as int) is None,
        },
{
    re.find_at(hay, start).map(|m| (m.start(), m.end()))
}

/// The record that the search for a match of `re` from the cursor `o`
/// gives, as its offset and its length.
///
/// The last record that starts before the match is the answer if it reaches
/// the end of the match and ends behind the cursor. Otherwise the search
/// goes on behind the match, and at least one byte behind the cursor.
pub open spec fn grep_search<'bytes, T: SearchableMarkerTrait<'bytes>>(
    re: Regex,
    bytes: Seq<u8>,
    o: int,
) -> Option<(int, nat)>
    decreases bytes.len() - o,
{
    if 0 <= o < bytes.len() {
        match regex_match_at(re, bytes, o) {
            Some((start, end)) => {
                let next = if end > o {
                    end
                } else {
                    o + 1
                };
                if !(o <= start <= end <= bytes.len()) {
                    None
                } else if rev_search_at::<T>(bytes, start) is Some {
                    let (at, n) = rev_search_at::<T>(bytes, start)->0;
                    if (at < start && at + n < end) || at + n <= o {
                        grep_search::<T>(re, bytes, next)
                    } else {
                        Some((at, n))
                    }
                } else if end >= bytes.len() {
                    None
                } else {
                    grep_search::<T>(re, bytes, next)
                }
            },
            None => None,
        }
    } else {
        None
    }
}

/// The search for a match of `re` from the cursor `p`, which is at or
/// behind `o`, gives a match that lies behind the start of the record at
/// `at` and within its `n` bytes.
pub open spec fn matched_within(
    re: Regex,
    bytes: Seq<u8>,
    o: int,
    p: int,
    at: int,
    n: nat,
) -> bool {
    &&& o <= p < bytes.len()
    &&& regex_match_at(re, bytes, p) matches Some(m) && at < m.0 <= m.1 <= at + n
}

/// Grep containment: the record that the search for a match gives is one
/// that the marker starts and that is valid, it ends behind the cursor,
/// and it holds a whole match of the expression, which was found from the
/// cursor or from a place behind it. No record is given for a match that
/// reaches over the end of the record before which it starts.
pub proof fn lemma_grep_contains<'bytes, T: SearchableMarkerTrait<'bytes>>(
    re: Regex,
    bytes: Seq<u8>,
    o: int,
)
    requires
        grep_search::<T>(re, bytes, o) is Some,
    ensures
        ({
            let (at, n) = grep_search::<T>(re, bytes, o)->0;
            &&& T::marked_len(bytes.skip(at)) == Some(n)
            &&& at + n > o
            &&& exists|p: int| #[trigger] matched_within(re, bytes, o, p, at, n)
        }),
    decreases bytes.len() - o,
{
    let (start, end) = regex_match_at(re, bytes, o)->0;
    let next = if end > o {
        end
    } else {
        o + 1
    };
    let (at, n) = grep_search::<T>(re, bytes, o)->0;
    if rev_search_at::<T>(bytes, start) is Some && !({
        let (c, k) = rev_search_at::<T>(bytes, start)->0;
        (c < start && c + k < end) || c + k <= o
    }) {
        T::lemma_marker();
        let c = last_occurrence(bytes.take(start), T::spec_marker())->0;
        assert(is_last(bytes.take(start), T::spec_marker(), c));
        assert(matched_within(re, bytes, o, o, at, n));
    } else {
        lemma_grep_contains::<T>(re, bytes, next);
        let p = choose|p: int| #[trigger] matched_within(re, bytes, next, p, at, n);
        assert(matched_within(re, bytes, o, p, at, n));
    }
}

/// The iterator over the records that contain a match of a regular
/// expression.
pub struct GrepIterator<'bytes, T> {
    pub offset: usize,
    pub bytes: &'bytes [u8],
    pub phantom: PhantomData<T>,
    pub finder: Regex,
    pub iter: RevSearchIterator<'bytes, T>,
}

impl<'bytes, T> GrepIterator<'bytes, T> where T: SearchableMarkerTrait<'bytes> {
    /// The iterator over the records of `bytes` from `offset` on in which
    /// `pattern` matches.
    pub fn new(pattern: &str, bytes: &'bytes [u8], offset: usize) -> (r: Self)
        requires
            regex_compiles(pattern@),
        ensures
            r.inv(),
            r.bytes@ == bytes@,
            r.offset == offset,
            regex_source(r.finder) == pattern@,
    {
        let finder = match regex_new(pattern) {
            Ok(finder) => finder,
            Err(_) => unreached(),
        };
        GrepIterator {
            offset,
            bytes,
            phantom: PhantomData,
            finder,
            iter: RevSearchIterator::<T>::new(bytes, offset),
        }
    }

    /// The iterator that `new` makes, or `None` where `pattern` is no
    /// regular expression.
    pub fn try_new(pattern: &str, bytes: &'bytes [u8], offset: usize) -> (r: Option<Self>)
        ensures
            r is Some == regex_compiles(pattern@),
            r matches Some(it) ==> {
                &&& it.inv()
                &&& it.bytes@ == bytes@
                &&& it.offset == offset
                &&& regex_source(it.finder) == pattern@
            },
    {
        match regex_new(pattern) {
            Ok(_) => Some(Self::new(pattern, bytes, offset)),
            Err(_) => None,
        }
    }

    /// The first record of `bytes` that contains a match which starts at or
    /// behind `offset`.
    #[inline(always)]
    pub fn search(&self, bytes: &'bytes [u8], offset: usize) -> (r: Option<WithOffset<T>>)
        requires
            self.inv(),
        ensures
            match r {
                Some(found) => {
                    &&& grep_search::<T>(self.finder, bytes@, offset as int) == Some(
                        (found.0 as int, found.1.spec_len()),
                    )
                    &&& found.1.read_from(bytes@.skip(found.0 as int))
                    &&& offset < found.0 + found.1.spec_len() <= bytes@.len()
                },
                None => grep_search::<T>(self.finder, bytes@, offset as int) is None,
            },
    {
        let len = bytes.len();
        let mut from = offset;
        loop
            invariant
                self.inv(),
                len == bytes@.len(),
                offset <= from,
                grep_search::<T>(self.finder, bytes@, from as int) == grep_search::<T>(
                    self.finder,
                    bytes@,
                    offset as int,
                ),
            decreases len - from,
        {
            if from >= len {
                return None;
            }
            let foundit = match regex_find_at(&self.finder, bytes, from) {
                Some(range) => range,
                None => {
                    return None;
                },
            };
            let next = if foundit.1 > from {
                foundit.1
            } else {
                from + 1
            };
            match self.iter.search(bytes, foundit.0) {
                Some((at, val)) => {
                    proof {
                        T::lemma_marked_len_bounds(bytes@.skip(at as int));
                    }
                    let end = at + val.len();
                    if (at < foundit.0 && end < foundit.1) || end <= from {
                        // the match is not within the record
                        from = next;
                    } else {
                        return Some((at, val));
                    }
                },
                None => {
                    if foundit.1 >= len {
                        return None;
                    }
                    from = next;
                },
            }
        }
    }
}

impl<'bytes, T> RecordIterator for GrepIterator<'bytes, T> where T: SearchableMarkerTrait<'bytes> {
    type Item = T;

    open spec fn inv(&self) -> bool {
        self.iter.inv()
    }

    open spec fn yields(&self, after: Self, r: Option<WithOffset<T>>) -> bool {
        &&& after.bytes@ == self.bytes@
        &&& after.finder == self.finder
        &&& match r {
            Some(found) => {
                &&& grep_search::<T>(self.finder, self.bytes@, self.offset as int)
                    == Some((found.0 as int, found.1.spec_len()))
                &&& found.1.read_from(self.bytes@.skip(found.0 as int))
                &&& after.offset == found.0 + found.1.spec_len()
            },
            None => {
                &&& grep_search::<T>(self.finder, self.bytes@, self.offset as int)
                    is None
                &&& after.offset == self.offset
            },
        }
    }

    open spec fn remaining(&self) -> nat {
        if self.offset <= self.bytes@.len() {
            (self.bytes@.len() - self.offset) as nat
        } else {
            0
        }
    }

    #[inline(always)]
    fn next(&mut self) -> (r: Option<WithOffset<T>>) {
        let len = self.bytes.len();
        match self.search(self.bytes, self.offset) {
            Some(found) => {
                assert(found.0 + found.1.spec_len() <= len);
                // the cursor goes behind the record, which is therefore not
                // found a second time
                self.offset = found.0 + found.1.len();
                Some(found)
            },
            None => None,
        }
    }
}

/// The range of the match that `Regex::captures_read_at` finds for the
/// compiled expression `re` in `hay` from `start` on, and the range of its
/// first capture group, if the group took part in the match.
pub uninterp spec fn regex_captures_at(re: Regex, hay: Seq<u8>, start: int) -> Option<
    ((int, int), Option<(int, int)>),
>;

/// Calls `regex::bytes::Regex::captures_read_at` with the capture locations
/// that `Regex::capture_locations` makes, and `CaptureLocations::get(1)`:
/// the range of the match that the search from `start` on finds in `hay`,
/// which lies between `start` and the end of `hay`, and the range of its
/// first capture group.
#[verifier::external_body]
pub(crate) fn regex_captures_read_at(re: &Regex, hay: &[u8], start: usize) -> (r: Option<
    ((usize, usize), Option<(usize, usize)>),
>)
    requires
        start <= hay@.len(),
    ensures
        match r {
            Some((m, group)) => {
                &&& regex_captures_at(*re, hay@, start as int) == Some(
                    (
                        (m.0 as int, m.1 as int),
                        match group {
                            Some(g) => Some((g.0 as int, g.1 as int)),
                            None => None,
                        },
                    ),
                )
                &&& start <= m.0 <= m.1 <= hay@.len()
            },
            None => regex_captures_at(*re, hay@, start as int) is None,
        },
{
    let mut locs = re.capture_locations();
    let m = re.captures_read_at(&mut locs, hay, start)?;
    Some(((m.start(), m.end()), locs.get(1)))
}

/// What the search for a match of `re` with a first capture group gives
/// from the cursor `o` on: the offset of the record that contains the
/// match, and the range of the group. The records are chosen as
/// `grep_search` chooses them; a match whose group took no part ends the
/// search.
pub open spec fn capture_search<'bytes, T: SearchableMarkerTrait<'bytes>>(
    re: Regex,
    bytes: Seq<u8>,
    o: int,
) -> Option<(int, (int, int))>
    decreases bytes.len() - o,
{
    if 0 <= o < bytes.len() {
        match regex_captures_at(re, bytes, o) {
            Some(((start, end), group)) => {
                let next = if end > o {
                    end
                } else {
                    o + 1
                };
                if !(o <= start <= end <= bytes.len()) {
                    None
                } else if rev_search_at::<T>(bytes, start) is Some {
                    let (at, n) = rev_search_at::<T>(bytes, start)->0;
                    if (at < start && at + n < end) || at + n <= o {
                        capture_search::<T>(re, bytes, next)
                    } else {
                        match group {
                            Some(g) => Some((at, g)),
                            None => None,
                        }
                    }
                } else if end >= bytes.len() {
                    None
                } else {
                    capture_search::<T>(re, bytes, next)
                }
            },
            None => None,
        }
    } else {
        None
    }
}

/// The iterator over the first capture groups of the matches of a regular
/// expression that lie within a record.
pub struct RegExMatcherIterator<'bytes, T> {
    pub offset: usize,
    pub bytes: &'bytes [u8],
    pub phantom: PhantomData<T>,
    pub finder: Regex,
    pub iter: RevSearchIterator<'bytes, T>,
}

impl<'bytes, T> RegExMatcherIterator<'bytes, T> where T: SearchableMarkerTrait<'bytes> {
    /// What holds of the iterator between calls.
    pub open spec fn inv(&self) -> bool {
        self.iter.inv()
    }

    /// The iterator over the capture groups of the matches of `pattern` in
    /// the records of `bytes` from `offset` on.
    pub fn new(pattern: &str, bytes: &'bytes [u8], offset: usize) -> (r: Self)
        requires
            regex_compiles(pattern@),
        ensures
            r.inv(),
            r.bytes@ == bytes@,
            r.offset == offset,
            regex_source(r.finder) == pattern@,
    {
        let finder = match regex_new(pattern) {
            Ok(finder) => finder,
            Err(_) => unreached(),
        };
        RegExMatcherIterator {
            offset,
            bytes,
            phantom: PhantomData,
            finder,
            iter: RevSearchIterator::<T>::new(bytes, offset),
        }
    }

    /// The iterator that `new` makes, or `None` where `pattern` is no
    /// regular expression.
    pub fn try_new(pattern: &str, bytes: &'bytes [u8], offset: usize) -> (r: Option<Self>)
        ensures
            r is Some == regex_compiles(pattern@),
            r matches Some(it) ==> {
                &&& it.inv()
                &&& it.bytes@ == bytes@
                &&& it.offset == offset
                &&& regex_source(it.finder) == pattern@
            },
    {
        match regex_new(pattern) {
            Ok(_) => Some(Self::new(pattern, bytes, offset)),
            Err(_) => None,
        }
    }

    /// The offset of the first record of `bytes` that contains a match
    /// which starts at or behind `offset`, and the range of the first
    /// capture group of that match.
    #[inline(always)]
    pub fn capture(&self, bytes: &'bytes [u8], offset: usize) -> (r: Option<
        WithOffset<(usize, usize)>,
    >)
        requires
            self.inv(),
        ensures
            match r {
                Some(found) => capture_search::<T>(
                    self.finder,
                    bytes@,
                    offset as int,
                ) == Some((found.0 as int, (found.1.0 as int, found.1.1 as int)))
                    && found.0 <= bytes@.len(),
                None => capture_search::<T>(self.finder, bytes@, offset as int)
                    is None,
            },
    {
        let len = bytes.len();
        let mut from = offset;
        loop
            invariant
                self.inv(),
                len == bytes@.len(),
                offset <= from,
                capture_search::<T>(self.finder, bytes@, from as int)
                    == capture_search::<T>(self.finder, bytes@, offset as int),
            decreases len - from,
        {
            if from >= len {
                return None;
            }
            let (foundit, group) = match regex_captures_read_at(&self.finder, bytes, from) {
                Some(found) => found,
                None => {
                    return None;
                },
            };
            let next = if foundit.1 > from {
                foundit.1
            } else {
                from + 1
            };
            match self.iter.search(bytes, foundit.0) {
                Some((at, val)) => {
                    proof {
                        T::lemma_marked_len_bounds(bytes@.skip(at as int));
                    }
                    let end = at + val.len();
                    if (at < foundit.0 && end < foundit.1) || end <= from {
                        // the match is not within the record
                        from = next;
                    } else {
                        return match group {
                            Some(g) => Some((at, g)),
                            None => None,
                        };
                    }
                },
                None => {
                    if foundit.1 >= len {
                        return None;
                    }
                    from = next;
                },
            }
        }
    }

    /// The next capture group with the offset of its record. The cursor
    /// goes on by the end of the group from the offset of the record, and to
    /// the end of the bytes at most.
    #[inline(always)]
    pub fn next(&mut self) -> (r: Option<WithOffset<(usize, usize)>>)
        requires
            old(self).inv(),
        ensures
            final(self).inv(),
            final(self).bytes@ == old(self).bytes@,
            final(self).finder == old(self).finder,
            match r {
                Some(found) => {
                    &&& capture_search::<T>(
                        old(self).finder,
                        old(self).bytes@,
                        old(self).offset as int,
                    ) == Some((found.0 as int, (found.1.0 as int, found.1.1 as int)))
                    &&& final(self).offset == if found.0 + found.1.1 <= old(self).bytes@.len() {
                        (found.0 + found.1.1) as usize
                    } else {
                        old(self).bytes@.len() as usize
                    }
                },
                None => {
                    &&& capture_search::<T>(
                        old(self).finder,
                        old(self).bytes@,
                        old(self).offset as int,
                    ) is None
                    &&& final(self).offset == old(self).offset
                },
            },
    {
        let len = self.bytes.len();
        match self.capture(self.bytes, self.offset) {
            Some(found) => {
                let group = found.1;
                self.offset = if len - found.0 >= group.1 {
                    found.0 + group.1
                } else {
                    len
                };
                Some(found)
            },
            None => None,
        }
    }
}

} // verus!
