//! Buffers that hold records with gaps between them, and what the
//! iterators give on such buffers.

use super::readfallbackit::{fallback_next, ReadFallbackIterator};
use crate::readable::RecordIterator;
use super::searchit::{rev_search_at, rev_search_next, search_at, search_next};
use super::{
    first_occurrence,
    is_first,
    is_last,
    last_occurrence,
    lemma_first_occurrence,
    lemma_first_occurrence_some,
    lemma_last_occurrence,
    occurs_at,
    SearchableMarkerTrait,
};
use vstd::prelude::*;

verus! {

/// `needle` stands nowhere in `bytes` from `lo` to `hi`.
pub open spec fn free_of(bytes: Seq<u8>, needle: Seq<u8>, lo: int, hi: int) -> bool {
    forall|j: int| lo <= j < hi ==> !occurs_at(bytes, needle, j)
}

/// From `from` on, `bytes` holds the valid records at the offsets `offs`, one
/// behind the other, and the marker stands nowhere before, between or behind
/// them. The records may hold the marker themselves.
pub open spec fn holds_records<'bytes, T: SearchableMarkerTrait<'bytes>>(
    bytes: Seq<u8>,
    from: int,
    offs: Seq<int>,
) -> bool
    decreases offs.len(),
{
    &&& 0 <= from <= bytes.len()
    &&& if offs.len() == 0 {
        free_of(bytes, T::spec_marker(), from, bytes.len() as int)
    } else {
        &&& from <= offs[0] <= bytes.len()
        &&& free_of(bytes, T::spec_marker(), from, offs[0])
        &&& T::record_len(bytes.skip(offs[0])) matches Some(n)
        &&& holds_records::<T>(bytes, offs[0] + n, offs.drop_first())
    }
}

/// The offsets of the records that a `ReadFallbackIterator` gives from the
/// cursor `o` on.
pub open spec fn fallback_run<'bytes, T: SearchableMarkerTrait<'bytes>>(
    bytes: Seq<u8>,
    o: int,
) -> Seq<int>
    decreases bytes.len() - o,
{
    match fallback_next::<T>(bytes, o) {
        Some((at, n)) => if o < at + n <= bytes.len() {
            seq![at] + fallback_run::<T>(bytes, at + n)
        } else {
            seq![at]
        },
        None => Seq::empty(),
    }
}

/// The offsets of the records that a `SearchIterator` gives from the cursor
/// `o` on.
pub open spec fn search_run<'bytes, T: SearchableMarkerTrait<'bytes>>(
    bytes: Seq<u8>,
    o: int,
) -> Seq<int>
    decreases bytes.len() - o,
{
    match search_next::<T>(bytes, o) {
        Some((at, n)) => if o < at + n <= bytes.len() {
            seq![at] + search_run::<T>(bytes, at + n)
        } else {
            seq![at]
        },
        None => Seq::empty(),
    }
}

/// The offsets of the records that a `RevSearchIterator` gives from the
/// cursor `o` on.
pub open spec fn rev_search_run<'bytes, T: SearchableMarkerTrait<'bytes>>(
    bytes: Seq<u8>,
    o: int,
) -> Seq<int>
    decreases o,
{
    match rev_search_next::<T>(bytes, o) {
        Some((at, n)) => if 0 <= at < o {
            seq![at] + rev_search_run::<T>(bytes, at)
        } else {
            seq![at]
        },
        None => Seq::empty(),
    }
}

/// An occurrence in what is left of `bytes` from `o` on is an occurrence in
/// `bytes`, `o` further on.
pub proof fn lemma_occurs_skip(bytes: Seq<u8>, needle: Seq<u8>, o: int, j: int)
    requires
        0 <= o <= bytes.len(),
        0 <= j,
    ensures
        occurs_at(bytes.skip(o), needle, j) == occurs_at(bytes, needle, o + j),
{
    if j + needle.len() <= bytes.len() - o {
        assert(bytes.skip(o).subrange(j, j + needle.len()) =~= bytes.subrange(
            o + j,
            o + j + needle.len(),
        ));
    }
}

/// An occurrence in the first `o` of `bytes` is an occurrence in `bytes`
/// that ends at or before `o`.
pub proof fn lemma_occurs_take(bytes: Seq<u8>, needle: Seq<u8>, o: int, j: int)
    requires
        0 <= o <= bytes.len(),
    ensures
        occurs_at(bytes.take(o), needle, j) == (occurs_at(bytes, needle, j) && j + needle.len()
            <= o),
{
    if 0 <= j && j + needle.len() <= o {
        assert(bytes.take(o).subrange(j, j + needle.len()) =~= bytes.subrange(
            j,
            j + needle.len(),
        ));
    }
}

/// Where the marker first stands at `at`, at or behind `o`, that is the
/// first occurrence from `o` on.
pub proof fn lemma_first_from(bytes: Seq<u8>, needle: Seq<u8>, o: int, at: int)
    requires
        0 <= o <= at,
        at <= bytes.len(),
        occurs_at(bytes, needle, at),
        free_of(bytes, needle, o, at),
    ensures
        first_occurrence(bytes.skip(o), needle) == Some(at - o),
{
    lemma_occurs_skip(bytes, needle, o, at - o);
    assert forall|j: int| 0 <= j < at - o implies !occurs_at(bytes.skip(o), needle, j) by {
        lemma_occurs_skip(bytes, needle, o, j);
    }
    lemma_first_occurrence(bytes.skip(o), needle, at - o);
}

/// Where the marker stands nowhere from `o` on, there is no first
/// occurrence from `o` on.
pub proof fn lemma_none_from(bytes: Seq<u8>, needle: Seq<u8>, o: int)
    requires
        0 <= o <= bytes.len(),
        needle.len() > 0,
        free_of(bytes, needle, o, bytes.len() as int),
    ensures
        first_occurrence(bytes.skip(o), needle) is None,
{
    lemma_first_occurrence_some(bytes.skip(o), needle);
    if first_occurrence(bytes.skip(o), needle) is Some {
        let p = first_occurrence(bytes.skip(o), needle)->0;
        lemma_occurs_skip(bytes, needle, o, p);
    }
}

/// The record at the front of a buffer that holds records: where it lies.
pub proof fn lemma_first_record<'bytes, T: SearchableMarkerTrait<'bytes>>(
    bytes: Seq<u8>,
    from: int,
    offs: Seq<int>,
)
    requires
        holds_records::<T>(bytes, from, offs),
        offs.len() > 0,
    ensures
        T::record_len(bytes.skip(offs[0])) matches Some(n) && {
            &&& T::marked_len(bytes.skip(offs[0])) == Some(n)
            &&& occurs_at(bytes, T::spec_marker(), offs[0])
            &&& offs[0] + T::spec_marker().len() < offs[0] + n <= bytes.len()
            &&& first_occurrence(bytes.skip(from), T::spec_marker()) == Some(offs[0] - from)
        },
{
    let rest = bytes.skip(offs[0]);
    T::lemma_marked_len(rest);
    T::lemma_marked_len_bounds(rest);
    lemma_occurs_skip(bytes, T::spec_marker(), offs[0], 0);
    lemma_first_from(bytes, T::spec_marker(), from, offs[0]);
}

/// Resynchronisation: on a buffer that holds records with gaps that are
/// free of the marker, a `ReadFallbackIterator` gives exactly those records,
/// in their order.
pub proof fn lemma_fallback_gives_records<'bytes, T: SearchableMarkerTrait<'bytes>>(
    bytes: Seq<u8>,
    from: int,
    offs: Seq<int>,
)
    requires
        holds_records::<T>(bytes, from, offs),
    ensures
        fallback_run::<T>(bytes, from) == offs,
    decreases offs.len(),
{
    T::lemma_marker();
    if offs.len() == 0 {
        lemma_none_from(bytes, T::spec_marker(), from);
    } else {
        lemma_first_record::<T>(bytes, from, offs);
        let n = T::record_len(bytes.skip(offs[0]))->0;
        lemma_fallback_gives_records::<T>(bytes, offs[0] + n, offs.drop_first());
        assert(seq![offs[0]] + offs.drop_first() =~= offs);
    }
}

/// Where the marker stands nowhere from `o` on, a forward search from `o`
/// finds nothing.
pub proof fn lemma_search_none<'bytes, T: SearchableMarkerTrait<'bytes>>(bytes: Seq<u8>, o: int)
    requires
        0 <= o,
        free_of(bytes, T::spec_marker(), o, bytes.len() as int),
    ensures
        search_next::<T>(bytes, o) is None,
    decreases bytes.len() - o,
{
    if o < bytes.len() && T::spec_marker().len() > 0 {
        lemma_none_from(bytes, T::spec_marker(), o);
        if o + T::spec_marker().len() < bytes.len() {
            lemma_search_none::<T>(bytes, o + T::spec_marker().len());
        }
    }
}

/// Resynchronisation: on a buffer that holds records with gaps that are
/// free of the marker, a `SearchIterator` gives exactly those records, in
/// their order.
pub proof fn lemma_search_gives_records<'bytes, T: SearchableMarkerTrait<'bytes>>(
    bytes: Seq<u8>,
    from: int,
    offs: Seq<int>,
)
    requires
        holds_records::<T>(bytes, from, offs),
    ensures
        search_run::<T>(bytes, from) == offs,
    decreases offs.len(),
{
    T::lemma_marker();
    if offs.len() == 0 {
        lemma_search_none::<T>(bytes, from);
    } else {
        lemma_first_record::<T>(bytes, from, offs);
        let n = T::record_len(bytes.skip(offs[0]))->0;
        assert(search_at::<T>(bytes, from) == Some((offs[0], n)));
        lemma_search_gives_records::<T>(bytes, offs[0] + n, offs.drop_first());
        assert(seq![offs[0]] + offs.drop_first() =~= offs);
    }
}

/// The record with the index `i` is valid and ends where the next one
/// starts, or at the end of `bytes` where it is the last.
pub open spec fn follows<'bytes, T: SearchableMarkerTrait<'bytes>>(
    bytes: Seq<u8>,
    offs: Seq<int>,
    i: int,
) -> bool {
    &&& 0 <= offs[i] <= bytes.len()
    &&& T::record_len(bytes.skip(offs[i])) is Some
    &&& offs[i] + T::record_len(bytes.skip(offs[i]))->0 == if i + 1 < offs.len() {
        offs[i + 1]
    } else {
        bytes.len() as int
    }
}

/// The valid records at the offsets `offs` follow each other from the start
/// of `bytes` to its end without a gap.
pub open spec fn is_concatenation<'bytes, T: SearchableMarkerTrait<'bytes>>(
    bytes: Seq<u8>,
    offs: Seq<int>,
) -> bool {
    &&& offs.len() > 0 ==> offs[0] == 0
    &&& offs.len() == 0 ==> bytes.len() == 0
    &&& forall|i: int| 0 <= i < offs.len() ==> #[trigger] follows::<T>(bytes, offs, i)
}

/// A concatenation of records is a buffer that holds those records.
pub proof fn lemma_concatenation_holds<'bytes, T: SearchableMarkerTrait<'bytes>>(
    bytes: Seq<u8>,
    offs: Seq<int>,
    k: int,
)
    requires
        is_concatenation::<T>(bytes, offs),
        0 <= k <= offs.len(),
    ensures
        holds_records::<T>(
            bytes,
            if k < offs.len() {
                offs[k]
            } else {
                bytes.len() as int
            },
            offs.skip(k),
        ),
    decreases offs.len() - k,
{
    if k < offs.len() {
        lemma_concatenation_holds::<T>(bytes, offs, k + 1);
        assert(follows::<T>(bytes, offs, k));
        assert(offs.skip(k)[0] == offs[k]);
        assert(offs.skip(k).drop_first() =~= offs.skip(k + 1));
    }
}

/// Iterator idempotence, forwards: over a concatenation of valid records
/// both forward iterators give exactly the offsets of those records.
pub proof fn lemma_forward_gives_concatenation<'bytes, T: SearchableMarkerTrait<'bytes>>(
    bytes: Seq<u8>,
    offs: Seq<int>,
)
    requires
        is_concatenation::<T>(bytes, offs),
    ensures
        fallback_run::<T>(bytes, 0) == offs,
        search_run::<T>(bytes, 0) == offs,
{
    lemma_concatenation_holds::<T>(bytes, offs, 0);
    assert(offs.skip(0) =~= offs);
    lemma_fallback_gives_records::<T>(bytes, 0, offs);
    lemma_search_gives_records::<T>(bytes, 0, offs);
}

/// The record with the index `i` is valid and ends at or before the start
/// of the next one.
pub open spec fn precedes<'bytes, T: SearchableMarkerTrait<'bytes>>(
    bytes: Seq<u8>,
    offs: Seq<int>,
    i: int,
) -> bool {
    &&& 0 <= offs[i] <= bytes.len()
    &&& T::record_len(bytes.skip(offs[i])) is Some
    &&& i + 1 < offs.len() ==> offs[i] + T::record_len(bytes.skip(offs[i]))->0 <= offs[i + 1]
}

/// The markers of `bytes` stand at the starts of the valid records at
/// `offs`, which do not overlap, and nowhere else.
pub open spec fn marks_records<'bytes, T: SearchableMarkerTrait<'bytes>>(
    bytes: Seq<u8>,
    offs: Seq<int>,
) -> bool {
    &&& forall|j: int| occurs_at(bytes, T::spec_marker(), j) ==> offs.contains(j)
    &&& forall|i: int| 0 <= i < offs.len() ==> #[trigger] precedes::<T>(bytes, offs, i)
}

/// Where no marker ends at or before `o`, a backward search from `o` finds
/// nothing.
pub proof fn lemma_rev_search_none<'bytes, T: SearchableMarkerTrait<'bytes>>(
    bytes: Seq<u8>,
    o: int,
)
    requires
        0 <= o,
        forall|j: int| occurs_at(bytes, T::spec_marker(), j) ==> j + T::spec_marker().len() > o,
    ensures
        rev_search_next::<T>(bytes, o) is None,
    decreases o,
{
    if o != usize::MAX && T::spec_marker().len() > 0 {
        if o <= bytes.len() {
            let front = bytes.take(o);
            if last_occurrence(front, T::spec_marker()) is Some {
                let c = choose|i: int| is_last(front, T::spec_marker(), i);
                lemma_occurs_take(bytes, T::spec_marker(), o, c);
            }
        }
        if o >= T::spec_marker().len() {
            lemma_rev_search_none::<T>(bytes, o - T::spec_marker().len());
        }
    }
}

/// Iterator idempotence, backwards: where the markers of a buffer stand at
/// the starts of its records and nowhere else, a `RevSearchIterator` that
/// starts at the cursor `o`, before which the first `k` records end, gives
/// those records from the last to the first.
pub proof fn lemma_rev_search_gives_records<'bytes, T: SearchableMarkerTrait<'bytes>>(
    bytes: Seq<u8>,
    offs: Seq<int>,
    o: int,
    k: int,
)
    requires
        marks_records::<T>(bytes, offs),
        0 <= k <= offs.len(),
        0 <= o <= bytes.len(),
        o < usize::MAX,
        forall|i: int| 0 <= i < k ==> #[trigger] offs[i] + T::spec_marker().len() <= o,
        forall|i: int| k <= i < offs.len() ==> #[trigger] offs[i] + T::spec_marker().len() > o,
    ensures
        rev_search_run::<T>(bytes, o) == offs.take(k).reverse(),
    decreases k,
{
    T::lemma_marker();
    let m = T::spec_marker();
    if k == 0 {
        assert forall|j: int| occurs_at(bytes, m, j) implies j + m.len() > o by {
            let i = lemma_marker_index::<T>(bytes, offs, j);
        }
        lemma_rev_search_none::<T>(bytes, o);
        assert(offs.take(0).reverse() =~= Seq::<int>::empty());
    } else {
        let c = offs[k - 1];
        assert(precedes::<T>(bytes, offs, k - 1));
        let rest = bytes.skip(c);
        T::lemma_marked_len(rest);
        T::lemma_marked_len_bounds(rest);
        lemma_occurs_skip(bytes, m, c, 0);
        let n = T::record_len(rest)->0;
        let front = bytes.take(o);
        lemma_occurs_take(bytes, m, o, c);
        assert forall|j: int| c < j implies !occurs_at(front, m, j) by {
            lemma_occurs_take(bytes, m, o, j);
            if occurs_at(bytes, m, j) && j + m.len() <= o {
                let i = lemma_marker_index::<T>(bytes, offs, j);
                lemma_offsets_rise::<T>(bytes, offs, i, k - 1);
            }
        }
        lemma_last_occurrence(front, m, c);
        assert(rev_search_at::<T>(bytes, o) == Some((c, n)));
        assert forall|i: int| 0 <= i < k - 1 implies #[trigger] offs[i] + m.len() <= c by {
            assert(precedes::<T>(bytes, offs, i));
            lemma_offsets_rise::<T>(bytes, offs, i, k - 1);
            T::lemma_marked_len(bytes.skip(offs[i]));
            T::lemma_marked_len_bounds(bytes.skip(offs[i]));
            lemma_records_apart::<T>(bytes, offs, i, k - 1);
        }
        assert forall|i: int| k - 1 <= i < offs.len() implies #[trigger] offs[i] + m.len() > c by {
            if i > k - 1 {
                lemma_offsets_rise::<T>(bytes, offs, k - 1, i);
            }
        }
        lemma_rev_search_gives_records::<T>(bytes, offs, c, k - 1);
        assert(seq![c] + offs.take(k - 1).reverse() =~= offs.take(k).reverse());
    }
}

/// The index of the record that starts with the marker at `j`.
pub proof fn lemma_marker_index<'bytes, T: SearchableMarkerTrait<'bytes>>(
    bytes: Seq<u8>,
    offs: Seq<int>,
    j: int,
) -> (i: int)
    requires
        marks_records::<T>(bytes, offs),
        occurs_at(bytes, T::spec_marker(), j),
    ensures
        0 <= i < offs.len(),
        offs[i] == j,
{
    assert(offs.contains(j));
    choose|i: int| 0 <= i < offs.len() && offs[i] == j
}

/// A later record starts behind the end of an earlier one.
pub proof fn lemma_records_apart<'bytes, T: SearchableMarkerTrait<'bytes>>(
    bytes: Seq<u8>,
    offs: Seq<int>,
    i: int,
    j: int,
)
    requires
        marks_records::<T>(bytes, offs),
        0 <= i < j < offs.len(),
    ensures
        offs[i] + T::record_len(bytes.skip(offs[i]))->0 <= offs[j],
    decreases j - i,
{
    assert(precedes::<T>(bytes, offs, i));
    assert(precedes::<T>(bytes, offs, i + 1));
    if i + 1 < j {
        lemma_records_apart::<T>(bytes, offs, i + 1, j);
        T::lemma_record_len_bounds(bytes.skip(offs[i]));
        T::lemma_record_len_bounds(bytes.skip(offs[i + 1]));
    }
}

/// The offsets of the records rise.
pub proof fn lemma_offsets_rise<'bytes, T: SearchableMarkerTrait<'bytes>>(
    bytes: Seq<u8>,
    offs: Seq<int>,
    i: int,
    j: int,
)
    requires
        marks_records::<T>(bytes, offs),
        0 <= i < offs.len(),
        0 <= j < offs.len(),
    ensures
        i < j ==> offs[i] < offs[j],
        offs[i] < offs[j] ==> i < j,
{
    assert(precedes::<T>(bytes, offs, i));
    assert(precedes::<T>(bytes, offs, j));
    if i < j {
        lemma_records_apart::<T>(bytes, offs, i, j);
        T::lemma_record_len_bounds(bytes.skip(offs[i]));
    } else if j < i {
        lemma_records_apart::<T>(bytes, offs, j, i);
        T::lemma_record_len_bounds(bytes.skip(offs[j]));
    }
}

/// Iterator idempotence, backwards: where the markers of a buffer stand at
/// the starts of its records and nowhere else, a `RevSearchIterator` that
/// starts at the end gives the records that the forward iterators give,
/// from the last to the first.
pub proof fn lemma_rev_search_reverses<'bytes, T: SearchableMarkerTrait<'bytes>>(
    bytes: Seq<u8>,
    offs: Seq<int>,
)
    requires
        marks_records::<T>(bytes, offs),
        bytes.len() < usize::MAX,
    ensures
        rev_search_run::<T>(bytes, bytes.len() as int) == offs.reverse(),
{
    assert forall|i: int| 0 <= i < offs.len() implies #[trigger] offs[i] + T::spec_marker().len()
        <= bytes.len() by {
        assert(precedes::<T>(bytes, offs, i));
        T::lemma_marked_len(bytes.skip(offs[i]));
        T::lemma_marked_len_bounds(bytes.skip(offs[i]));
    }
    lemma_rev_search_gives_records::<T>(bytes, offs, bytes.len() as int, offs.len() as int);
    assert(offs.take(offs.len() as int) =~= offs);
}

/// A record that a `ReadFallbackIterator` gives starts at or behind the
/// cursor and lies within the bytes.
pub proof fn lemma_fallback_next_bounds<'bytes, T: SearchableMarkerTrait<'bytes>>(
    bytes: Seq<u8>,
    o: int,
)
    ensures
        fallback_next::<T>(bytes, o) matches Some((at, n)) ==> 0 <= o <= at && at
            + T::spec_marker().len() < at + n <= bytes.len(),
{
    if fallback_next::<T>(bytes, o) is Some {
        lemma_first_occurrence_some(bytes.skip(o), T::spec_marker());
        let p = first_occurrence(bytes.skip(o), T::spec_marker())->0;
        T::lemma_marked_len_bounds(bytes.skip(o + p));
    }
}

/// A record that a `SearchIterator` gives starts at or behind the cursor
/// and lies within the bytes.
pub proof fn lemma_search_next_bounds<'bytes, T: SearchableMarkerTrait<'bytes>>(
    bytes: Seq<u8>,
    o: int,
)
    ensures
        search_next::<T>(bytes, o) matches Some((at, n)) ==> 0 <= o <= at && at
            + T::spec_marker().len() < at + n <= bytes.len(),
    decreases bytes.len() - o,
{
    if search_next::<T>(bytes, o) is Some {
        if search_at::<T>(bytes, o) is Some {
            lemma_first_occurrence_some(bytes.skip(o), T::spec_marker());
            let p = first_occurrence(bytes.skip(o), T::spec_marker())->0;
            T::lemma_marked_len_bounds(bytes.skip(o + p));
        } else {
            lemma_search_next_bounds::<T>(bytes, o + T::spec_marker().len());
        }
    }
}

/// A record that a `RevSearchIterator` gives starts before the cursor, by
/// the length of the marker or more, and lies within the bytes.
pub proof fn lemma_rev_search_next_bounds<'bytes, T: SearchableMarkerTrait<'bytes>>(
    bytes: Seq<u8>,
    o: int,
)
    ensures
        rev_search_next::<T>(bytes, o) matches Some((at, n)) ==> 0 <= at && at
            + T::spec_marker().len() <= o && at + n <= bytes.len(),
    decreases o,
{
    if rev_search_next::<T>(bytes, o) is Some {
        if rev_search_at::<T>(bytes, o) is Some {
            let front = bytes.take(o);
            let c = choose|i: int| is_last(front, T::spec_marker(), i);
            lemma_occurs_take(bytes, T::spec_marker(), o, c);
            T::lemma_marked_len_bounds(bytes.skip(c));
        } else {
            lemma_rev_search_next_bounds::<T>(bytes, o - T::spec_marker().len());
        }
    }
}

/// No record is given twice: the offsets that a `ReadFallbackIterator` gives
/// rise, from the cursor on.
pub proof fn lemma_fallback_run_rises<'bytes, T: SearchableMarkerTrait<'bytes>>(
    bytes: Seq<u8>,
    o: int,
)
    ensures
        forall|i: int|
            0 <= i < fallback_run::<T>(bytes, o).len() ==> o <= #[trigger] fallback_run::<T>(
                bytes,
                o,
            )[i],
        forall|i: int, j: int|
            0 <= i < j < fallback_run::<T>(bytes, o).len() ==> fallback_run::<T>(bytes, o)[i]
                < fallback_run::<T>(bytes, o)[j],
    decreases bytes.len() - o,
{
    lemma_fallback_next_bounds::<T>(bytes, o);
    match fallback_next::<T>(bytes, o) {
        Some((at, n)) => {
            lemma_fallback_run_rises::<T>(bytes, at + n);
            let rest = fallback_run::<T>(bytes, at + n);
            let run = fallback_run::<T>(bytes, o);
            assert(run =~= seq![at] + rest);
            assert forall|i: int, j: int| 0 <= i < j < run.len() implies run[i] < run[j] by {
                assert(run[j] == rest[j - 1]);
                if i > 0 {
                    assert(run[i] == rest[i - 1]);
                }
            }
            assert forall|i: int| 0 <= i < run.len() implies o <= #[trigger] run[i] by {
                if i > 0 {
                    assert(run[i] == rest[i - 1]);
                }
            }
        },
        None => {},
    }
}

/// No record is given twice: the offsets that a `SearchIterator` gives rise,
/// from the cursor on.
pub proof fn lemma_search_run_rises<'bytes, T: SearchableMarkerTrait<'bytes>>(
    bytes: Seq<u8>,
    o: int,
)
    ensures
        forall|i: int|
            0 <= i < search_run::<T>(bytes, o).len() ==> o <= #[trigger] search_run::<T>(bytes, o)[i],
        forall|i: int, j: int|
            0 <= i < j < search_run::<T>(bytes, o).len() ==> search_run::<T>(bytes, o)[i]
                < search_run::<T>(bytes, o)[j],
    decreases bytes.len() - o,
{
    lemma_search_next_bounds::<T>(bytes, o);
    match search_next::<T>(bytes, o) {
        Some((at, n)) => {
            lemma_search_run_rises::<T>(bytes, at + n);
            let rest = search_run::<T>(bytes, at + n);
            let run = search_run::<T>(bytes, o);
            assert(run =~= seq![at] + rest);
            assert forall|i: int, j: int| 0 <= i < j < run.len() implies run[i] < run[j] by {
                assert(run[j] == rest[j - 1]);
                if i > 0 {
                    assert(run[i] == rest[i - 1]);
                }
            }
            assert forall|i: int| 0 <= i < run.len() implies o <= #[trigger] run[i] by {
                if i > 0 {
                    assert(run[i] == rest[i - 1]);
                }
            }
        },
        None => {},
    }
}

/// No record is given twice: the offsets that a `RevSearchIterator` gives
/// fall, from below the cursor on.
pub proof fn lemma_rev_search_run_falls<'bytes, T: SearchableMarkerTrait<'bytes>>(
    bytes: Seq<u8>,
    o: int,
)
    ensures
        forall|i: int|
            0 <= i < rev_search_run::<T>(bytes, o).len() ==> #[trigger] rev_search_run::<T>(
                bytes,
                o,
            )[i] < o,
        forall|i: int, j: int|
            0 <= i < j < rev_search_run::<T>(bytes, o).len() ==> rev_search_run::<T>(bytes, o)[i]
                > rev_search_run::<T>(bytes, o)[j],
    decreases o,
{
    lemma_rev_search_next_bounds::<T>(bytes, o);
    T::lemma_marker();
    match rev_search_next::<T>(bytes, o) {
        Some((at, n)) => {
            lemma_rev_search_run_falls::<T>(bytes, at);
            let rest = rev_search_run::<T>(bytes, at);
            let run = rev_search_run::<T>(bytes, o);
            assert(run =~= seq![at] + rest);
            assert forall|i: int, j: int| 0 <= i < j < run.len() implies run[i] > run[j] by {
                assert(run[j] == rest[j - 1]);
                if i > 0 {
                    assert(run[i] == rest[i - 1]);
                }
            }
            assert forall|i: int| 0 <= i < run.len() implies #[trigger] run[i] < o by {
                if i > 0 {
                    assert(run[i] == rest[i - 1]);
                }
            }
        },
        None => {},
    }
}

/// The number of records that a `ReadFallbackIterator` gives for `bytes`.
pub fn count_records<'bytes, T: SearchableMarkerTrait<'bytes>>(bytes: &'bytes [u8]) -> (n: usize)
    ensures
        n == fallback_run::<T>(bytes@, 0).len(),
{
    let mut it = ReadFallbackIterator::<T>::new(bytes, 0);
    let mut n: usize = 0;
    loop
        invariant
            it.bytes@ == bytes@,
            n <= it.offset,
            n <= bytes@.len(),
            fallback_run::<T>(bytes@, 0).len() == n + fallback_run::<T>(
                bytes@,
                it.offset as int,
            ).len(),
        decreases it.remaining(),
    {
        match it.read_next() {
            Some(found) => {
                proof {
                    T::lemma_marked_len_bounds(bytes@.skip(found.0 as int));
                }
                n += 1;
            },
            None => {
                return n;
            },
        }
    }
}

} // verus!
