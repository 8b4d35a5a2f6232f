//! Records that start with a fixed marker, and the search for that marker.

pub mod grepit;
pub mod layout;
pub mod readfallbackit;
pub mod searchit;
pub mod testit;

use crate::readable::FromBytesReadableTrait;
use memchr::memmem::{Finder, FinderRev};
use vstd::prelude::*;

verus! {

/// `needle` stands in `hay` at the index `i`.
pub open spec fn occurs_at(hay: Seq<u8>, needle: Seq<u8>, i: int) -> bool {
    &&& 0 <= i
    &&& i + needle.len() <= hay.len()
    &&& hay.subrange(i, i + needle.len()) == needle
}

/// `i` is the least index at which `needle` stands in `hay`.
pub open spec fn is_first(hay: Seq<u8>, needle: Seq<u8>, i: int) -> bool {
    &&& occurs_at(hay, needle, i)
    &&& forall|j: int| 0 <= j < i ==> !occurs_at(hay, needle, j)
}

/// `i` is the greatest index at which `needle` stands in `hay`.
pub open spec fn is_last(hay: Seq<u8>, needle: Seq<u8>, i: int) -> bool {
    &&& occurs_at(hay, needle, i)
    &&& forall|j: int| i < j ==> !occurs_at(hay, needle, j)
}

/// The least index at which `needle` stands in `hay`.
pub open spec fn first_occurrence(hay: Seq<u8>, needle: Seq<u8>) -> Option<int> {
    if exists|i: int| is_first(hay, needle, i) {
        Some(choose|i: int| is_first(hay, needle, i))
    } else {
        None
    }
}

/// The greatest index at which `needle` stands in `hay`.
pub open spec fn last_occurrence(hay: Seq<u8>, needle: Seq<u8>) -> Option<int> {
    if exists|i: int| is_last(hay, needle, i) {
        Some(choose|i: int| is_last(hay, needle, i))
    } else {
        None
    }
}

/// The first occurrence is the only index that `is_first` holds of.
pub proof fn lemma_first_occurrence(hay: Seq<u8>, needle: Seq<u8>, i: int)
    requires
        is_first(hay, needle, i),
    ensures
        first_occurrence(hay, needle) == Some(i),
{
    let k = choose|k: int| is_first(hay, needle, k);
    if k < i {
        assert(!occurs_at(hay, needle, k));
    } else if i < k {
        assert(!occurs_at(hay, needle, i));
    }
}

/// Where `needle` does not stand in `hay`, there is no first occurrence.
pub proof fn lemma_no_first_occurrence(hay: Seq<u8>, needle: Seq<u8>)
    requires
        forall|j: int| !occurs_at(hay, needle, j),
    ensures
        first_occurrence(hay, needle) is None,
{
}

/// Where there is no first occurrence, `needle` does not stand in `hay`.
pub proof fn lemma_first_occurrence_none(hay: Seq<u8>, needle: Seq<u8>, j: int)
    requires
        first_occurrence(hay, needle) is None,
    ensures
        !occurs_at(hay, needle, j),
    decreases j,
{
    if occurs_at(hay, needle, j) {
        if exists|k: int| 0 <= k < j && occurs_at(hay, needle, k) {
            let k = choose|k: int| 0 <= k < j && occurs_at(hay, needle, k);
            lemma_first_occurrence_none(hay, needle, k);
        } else {
            assert(is_first(hay, needle, j));
        }
    }
}

/// What `first_occurrence` gives is a first occurrence.
pub proof fn lemma_first_occurrence_some(hay: Seq<u8>, needle: Seq<u8>)
    ensures
        first_occurrence(hay, needle) matches Some(i) ==> is_first(hay, needle, i),
{
}

/// The last occurrence is the only index that `is_last` holds of.
pub proof fn lemma_last_occurrence(hay: Seq<u8>, needle: Seq<u8>, i: int)
    requires
        is_last(hay, needle, i),
    ensures
        last_occurrence(hay, needle) == Some(i),
{
    let k = choose|k: int| is_last(hay, needle, k);
    if k < i {
        assert(!occurs_at(hay, needle, i));
    } else if i < k {
        assert(!occurs_at(hay, needle, k));
    }
}

/// `memchr::memmem::Finder`, a searcher that was made for one needle.
#[verifier::external_type_specification]
#[verifier::external_body]
pub struct ExFinder<'n>(Finder<'n>);

/// `memchr::memmem::FinderRev`, a reverse searcher that was made for one
/// needle.
#[verifier::external_type_specification]
#[verifier::external_body]
pub struct ExFinderRev<'n>(FinderRev<'n>);

/// The needle that a `Finder` was made for, which `Finder::needle` returns.
pub uninterp spec fn finder_needle(f: Finder<'static>) -> Seq<u8>;

/// The needle that a `FinderRev` was made for, which `FinderRev::needle`
/// returns.
pub uninterp spec fn finder_rev_needle(f: FinderRev<'static>) -> Seq<u8>;

/// Calls `memchr::memmem::Finder::new`: a searcher for `needle`.
#[verifier::external_body]
pub(crate) fn new_finder(needle: &'static [u8]) -> (f: Finder<'static>)
    ensures
        finder_needle(f) == needle@,
{
    Finder::new(needle)
}

/// Calls `memchr::memmem::Finder::find`: the index of the first occurrence
/// of the finder's needle in `hay`, or `None` where there is none.
#[verifier::external_body]
pub(crate) fn finder_find(f: &Finder<'static>, hay: &[u8]) -> (r: Option<usize>)
    ensures
        match r {
            Some(i) => is_first(hay@, finder_needle(*f), i as int),
            None => forall|j: int| !occurs_at(hay@, finder_needle(*f), j),
        },
{
    f.find(hay)
}

/// Calls `memchr::memmem::FinderRev::new`: a reverse searcher for `needle`.
#[verifier::external_body]
pub(crate) fn new_finder_rev(needle: &'static [u8]) -> (f: FinderRev<'static>)
    ensures
        finder_rev_needle(f) == needle@,
{
    FinderRev::new(needle)
}

/// Calls `memchr::memmem::FinderRev::rfind`: the index of the last
/// occurrence of the finder's needle in `hay`, or `None` where there is
/// none.
#[verifier::external_body]
pub(crate) fn finder_rfind(f: &FinderRev<'static>, hay: &[u8]) -> (r: Option<usize>)
    ensures
        match r {
            Some(i) => is_last(hay@, finder_rev_needle(*f), i as int),
            None => forall|j: int| !occurs_at(hay@, finder_rev_needle(*f), j),
        },
{
    f.rfind(hay)
}

/// A record that starts with a fixed, non-empty marker.
pub trait SearchableMarkerTrait<'bytes>: FromBytesReadableTrait<'bytes> {
    /// The marker that every record starts with.
    spec fn spec_marker() -> Seq<u8>;

    /// The length of the record that `bytes` starts with when the marker is
    /// taken to be in place, or `None` where what follows it is no valid
    /// record.
    spec fn marked_len(bytes: Seq<u8>) -> Option<nat>;

    /// The marker is not empty, and a longer one than the records could not
    /// be searched for.
    proof fn lemma_marker()
        ensures
            0 < Self::spec_marker().len() <= Self::spec_max_len(),
            Self::spec_max_len() <= usize::MAX - Self::spec_marker().len(),
    ;

    /// The valid records are the byte strings that start with the marker
    /// and are valid with the marker taken to be in place.
    proof fn lemma_marked_len(bytes: Seq<u8>)
        ensures
            Self::record_len(bytes) == if occurs_at(bytes, Self::spec_marker(), 0) {
                Self::marked_len(bytes)
            } else {
                None
            },
    ;

    /// A record that is valid with the marker taken to be in place holds
    /// more than the marker, lies within the bytes it was read from and is
    /// no longer than `spec_max_len()`.
    proof fn lemma_marked_len_bounds(bytes: Seq<u8>)
        ensures
            Self::marked_len(bytes) matches Some(n) ==> Self::spec_marker().len() < n
                <= bytes.len() && n <= Self::spec_max_len(),
    ;

    /// The marker that every record starts with.
    fn marker() -> (m: &'static [u8])
        ensures
            m@ == Self::spec_marker(),
    ;

    /// Reads the record that `bytes` starts with as `try_read` does, without
    /// looking at the marker: for a caller that has found the marker in
    /// place.
    fn try_read_valid_marker(bytes: &'bytes [u8]) -> (r: Option<(usize, Self)>)
        ensures
            match r {
                Some((n, v)) => {
                    &&& Self::marked_len(bytes@) == Some(n as nat)
                    &&& v.spec_len() == n
                    &&& occurs_at(bytes@, Self::spec_marker(), 0) ==> v.read_from(bytes@)
                },
                None => Self::marked_len(bytes@) is None,
            },
    ;
}

/// The index of the first marker of `T` in `bytes`.
pub fn search_marker<'bytes, T>(bytes: &'bytes [u8]) -> (r: Option<usize>) where
    T: SearchableMarkerTrait<'bytes>,

    ensures
        match r {
            Some(i) => first_occurrence(bytes@, T::spec_marker()) == Some(i as int),
            None => first_occurrence(bytes@, T::spec_marker()) is None,
        },
{
    let finder = new_finder(T::marker());
    let r = finder_find(&finder, bytes);
    proof {
        match r {
            Some(i) => lemma_first_occurrence(bytes@, T::spec_marker(), i as int),
            None => lemma_no_first_occurrence(bytes@, T::spec_marker()),
        }
    }
    r
}

/// The index of the last marker of `T` in `bytes`.
pub fn search_last_marker<'bytes, T>(bytes: &'bytes [u8]) -> (r: Option<usize>) where
    T: SearchableMarkerTrait<'bytes>,

    ensures
        match r {
            Some(i) => last_occurrence(bytes@, T::spec_marker()) == Some(i as int),
            None => last_occurrence(bytes@, T::spec_marker()) is None,
        },
{
    let finder = new_finder_rev(T::marker());
    let r = finder_rfind(&finder, bytes);
    proof {
        match r {
            Some(i) => lemma_last_occurrence(bytes@, T::spec_marker(), i as int),
            None => {},
        }
    }
    r
}

} // verus!
