//! Buffers that hold records with gaps between them which are free of the
//! marker: what the search for a containing record finds in them, and what
//! their partitions hold.

use crate::contained::{
    contained_by,
    contained_scan,
    covers,
    cut_at,
    lemma_occurrences_apart,
    partition_cuts,
    partitions,
    unbordered,
};
use crate::searchable::layout::{
    fallback_run,
    follows,
    free_of,
    holds_records,
    is_concatenation,
    lemma_concatenation_holds,
    lemma_fallback_gives_records,
    lemma_occurs_skip,
};
use crate::searchable::{
    first_occurrence,
    is_first,
    lemma_first_occurrence_none,
    lemma_first_occurrence_some,
    occurs_at,
    SearchableMarkerTrait,
};
use vstd::prelude::*;

verus! {

/// The place behind the record with the index `i`.
pub open spec fn end_of<'bytes, T: SearchableMarkerTrait<'bytes>>(
    bytes: Seq<u8>,
    offs: Seq<int>,
    i: int,
) -> int {
    offs[i] + T::record_len(bytes.skip(offs[i]))->0
}

/// The place where the record with the index `a` starts, or the end of the
/// bytes for the index behind the last record.
pub open spec fn boundary(bytes: Seq<u8>, offs: Seq<int>, a: int) -> int {
    if 0 <= a < offs.len() {
        offs[a]
    } else {
        bytes.len() as int
    }
}

/// The place behind the record before the one with the index `a`, or the
/// start of the bytes for the first record.
pub open spec fn floor<'bytes, T: SearchableMarkerTrait<'bytes>>(
    bytes: Seq<u8>,
    offs: Seq<int>,
    a: int,
) -> int {
    if 0 < a <= offs.len() {
        end_of::<T>(bytes, offs, a - 1)
    } else {
        0
    }
}

/// The marker stands at `c`, within the record with the index `i`.
pub open spec fn starts_in<'bytes, T: SearchableMarkerTrait<'bytes>>(
    bytes: Seq<u8>,
    offs: Seq<int>,
    i: int,
    c: int,
) -> bool {
    &&& 0 <= i < offs.len()
    &&& offs[i] <= c < end_of::<T>(bytes, offs, i)
    &&& occurs_at(bytes, T::spec_marker(), c)
}

/// Every occurrence of the marker that starts within a record ends within
/// that record.
pub open spec fn markers_end_in_records<'bytes, T: SearchableMarkerTrait<'bytes>>(
    bytes: Seq<u8>,
    offs: Seq<int>,
) -> bool {
    forall|i: int, c: int| #[trigger]
        starts_in::<T>(bytes, offs, i, c) ==> c + T::spec_marker().len() <= end_of::<T>(
            bytes,
            offs,
            i,
        )
}

/// `bytes` holds the valid records at the offsets `offs`, with gaps before,
/// between and behind them in which the marker does not start. No two
/// occurrences of the marker overlap, and none reaches from a record into
/// the gap behind it.
pub open spec fn whole<'bytes, T: SearchableMarkerTrait<'bytes>>(
    bytes: Seq<u8>,
    offs: Seq<int>,
) -> bool {
    &&& holds_records::<T>(bytes, 0, offs)
    &&& unbordered(T::spec_marker())
    &&& markers_end_in_records::<T>(bytes, offs)
}

/// The place `x` lies in the gap before the record with the index `a`, the
/// start of that record included, or in the gap behind the last record for
/// the index behind it.
pub open spec fn cut_before<'bytes, T: SearchableMarkerTrait<'bytes>>(
    bytes: Seq<u8>,
    offs: Seq<int>,
    x: int,
    a: int,
) -> bool {
    &&& 0 <= a <= offs.len()
    &&& floor::<T>(bytes, offs, a) <= x <= boundary(bytes, offs, a)
}

/// A concatenation of records whose marker is unbordered is such a buffer,
/// with empty gaps.
pub proof fn lemma_concatenation_is_whole<'bytes, T: SearchableMarkerTrait<'bytes>>(
    bytes: Seq<u8>,
    offs: Seq<int>,
)
    requires
        is_concatenation::<T>(bytes, offs),
        unbordered(T::spec_marker()),
    ensures
        whole::<T>(bytes, offs),
{
    lemma_concatenation_holds::<T>(bytes, offs, 0);
    assert(offs.skip(0) =~= offs);
    let m = T::spec_marker();
    assert forall|i: int, c: int| #[trigger] starts_in::<T>(bytes, offs, i, c) implies c + m.len()
        <= end_of::<T>(bytes, offs, i) by {
        assert(follows::<T>(bytes, offs, i));
        if i + 1 < offs.len() {
            assert(follows::<T>(bytes, offs, i + 1));
            T::lemma_marked_len(bytes.skip(offs[i + 1]));
            lemma_occurs_skip(bytes, m, offs[i + 1], 0);
            lemma_occurrences_apart(bytes, m, c, offs[i + 1]);
        }
    }
}

/// What is left of the records from the one with the index `k` on is held
/// from the end of the record before it on.
pub proof fn lemma_holds_from<'bytes, T: SearchableMarkerTrait<'bytes>>(
    bytes: Seq<u8>,
    offs: Seq<int>,
    k: int,
)
    requires
        holds_records::<T>(bytes, 0, offs),
        0 <= k <= offs.len(),
    ensures
        holds_records::<T>(bytes, floor::<T>(bytes, offs, k), offs.skip(k)),
    decreases k,
{
    if k == 0 {
        assert(offs.skip(0) =~= offs);
    } else {
        lemma_holds_from::<T>(bytes, offs, k - 1);
        assert(offs.skip(k - 1)[0] == offs[k - 1]);
        assert(offs.skip(k - 1).drop_first() =~= offs.skip(k));
    }
}

/// The gap before the record with the index `b`, or behind the last record,
/// lies within the bytes and is free of the marker.
pub proof fn lemma_gap<'bytes, T: SearchableMarkerTrait<'bytes>>(
    bytes: Seq<u8>,
    offs: Seq<int>,
    b: int,
)
    requires
        whole::<T>(bytes, offs),
        0 <= b <= offs.len(),
    ensures
        0 <= floor::<T>(bytes, offs, b) <= boundary(bytes, offs, b) <= bytes.len(),
        free_of(
            bytes,
            T::spec_marker(),
            floor::<T>(bytes, offs, b),
            boundary(bytes, offs, b),
        ),
{
    lemma_holds_from::<T>(bytes, offs, b);
    if b < offs.len() {
        assert(offs.skip(b)[0] == offs[b]);
    }
}

/// A record is valid, holds more than the marker, starts with it and ends
/// at or before the start of the next record.
pub proof fn lemma_record<'bytes, T: SearchableMarkerTrait<'bytes>>(
    bytes: Seq<u8>,
    offs: Seq<int>,
    i: int,
)
    requires
        whole::<T>(bytes, offs),
        0 <= i < offs.len(),
    ensures
        T::record_len(bytes.skip(offs[i])) is Some,
        0 <= floor::<T>(bytes, offs, i) <= offs[i],
        offs[i] + T::spec_marker().len() < end_of::<T>(bytes, offs, i),
        end_of::<T>(bytes, offs, i) <= boundary(bytes, offs, i + 1) <= bytes.len(),
        occurs_at(bytes, T::spec_marker(), offs[i]),
        T::spec_marker().len() > 0,
{
    lemma_holds_from::<T>(bytes, offs, i);
    assert(offs.skip(i)[0] == offs[i]);
    lemma_gap::<T>(bytes, offs, i);
    lemma_gap::<T>(bytes, offs, i + 1);
    let rest = bytes.skip(offs[i]);
    T::lemma_marker();
    T::lemma_marked_len(rest);
    T::lemma_marked_len_bounds(rest);
    lemma_occurs_skip(bytes, T::spec_marker(), offs[i], 0);
}

/// The records follow each other: a later one starts at or behind the end
/// of an earlier one.
pub proof fn lemma_boundaries_rise<'bytes, T: SearchableMarkerTrait<'bytes>>(
    bytes: Seq<u8>,
    offs: Seq<int>,
    a: int,
    b: int,
)
    requires
        whole::<T>(bytes, offs),
        0 <= a < b <= offs.len(),
    ensures
        0 <= boundary(bytes, offs, a) < end_of::<T>(bytes, offs, a) <= floor::<T>(bytes, offs, b)
            <= boundary(bytes, offs, b) <= bytes.len(),
    decreases b - a,
{
    lemma_record::<T>(bytes, offs, a);
    lemma_gap::<T>(bytes, offs, b);
    if a + 1 < b {
        lemma_boundaries_rise::<T>(bytes, offs, a + 1, b);
    }
}

/// The index of the record at or behind whose start the place `pos` lies,
/// before the start of the next record.
pub proof fn lemma_record_index<'bytes, T: SearchableMarkerTrait<'bytes>>(
    bytes: Seq<u8>,
    offs: Seq<int>,
    pos: int,
    k: int,
) -> (i: int)
    requires
        whole::<T>(bytes, offs),
        0 <= k < offs.len(),
        offs[k] <= pos < bytes.len(),
    ensures
        k <= i < offs.len(),
        offs[i] <= pos < boundary(bytes, offs, i + 1),
    decreases offs.len() - k,
{
    lemma_record::<T>(bytes, offs, k);
    if pos < boundary(bytes, offs, k + 1) {
        k
    } else {
        lemma_record_index::<T>(bytes, offs, pos, k + 1)
    }
}

/// Every occurrence of the marker lies within a record.
pub proof fn lemma_marker_place<'bytes, T: SearchableMarkerTrait<'bytes>>(
    bytes: Seq<u8>,
    offs: Seq<int>,
    c: int,
) -> (j: int)
    requires
        whole::<T>(bytes, offs),
        occurs_at(bytes, T::spec_marker(), c),
    ensures
        0 <= j < offs.len(),
        offs[j] <= c,
        c + T::spec_marker().len() <= end_of::<T>(bytes, offs, j),
{
    T::lemma_marker();
    lemma_gap::<T>(bytes, offs, 0);
    if offs.len() == 0 || c < offs[0] {
        assert(false);
        0
    } else {
        let j = lemma_record_index::<T>(bytes, offs, c, 0);
        lemma_record::<T>(bytes, offs, j);
        lemma_gap::<T>(bytes, offs, j + 1);
        assert(starts_in::<T>(bytes, offs, j, c));
        j
    }
}

/// The place `pos` lies in the stretch that begins with the record with the
/// index `i` and ends before the next record, or before the first record
/// for the index `-1`.
pub open spec fn in_stretch(bytes: Seq<u8>, offs: Seq<int>, pos: int, i: int) -> bool {
    if i == -1 {
        0 <= pos < boundary(bytes, offs, 0)
    } else {
        0 <= i < offs.len() && offs[i] <= pos < boundary(bytes, offs, i + 1)
    }
}

/// The place `pos` lies within the record with the index `i`, behind its
/// start.
pub open spec fn inside<'bytes, T: SearchableMarkerTrait<'bytes>>(
    bytes: Seq<u8>,
    offs: Seq<int>,
    pos: int,
    i: int,
) -> bool {
    0 <= i < offs.len() && offs[i] < pos < end_of::<T>(bytes, offs, i)
}

/// What the search for a containing record is to find for a range that
/// begins at `pos`: the record that `pos` lies inside, or none.
pub open spec fn container<'bytes, T: SearchableMarkerTrait<'bytes>>(
    bytes: Seq<u8>,
    offs: Seq<int>,
    pos: int,
    i: int,
) -> Option<(int, nat)> {
    if inside::<T>(bytes, offs, pos, i) {
        Some((offs[i], T::record_len(bytes.skip(offs[i]))->0))
    } else {
        None
    }
}

/// In such a buffer the search for the record that contains a range within
/// one record finds that record, and it finds none for a range that begins
/// where a record starts or in a gap.
pub proof fn lemma_whole_contained<'bytes, T: SearchableMarkerTrait<'bytes>>(
    bytes: Seq<u8>,
    offs: Seq<int>,
    i: int,
    lo: int,
    hi: int,
)
    requires
        whole::<T>(bytes, offs),
        in_stretch(bytes, offs, lo, i),
        lo < hi < bytes.len(),
        inside::<T>(bytes, offs, lo, i) ==> hi <= end_of::<T>(bytes, offs, i),
    ensures
        contained_by::<T>(bytes, lo, hi) == container::<T>(bytes, offs, lo, i),
    decreases lo, 1int, 0int,
{
    if i >= 0 {
        lemma_record::<T>(bytes, offs, i);
        T::lemma_record_len_bounds(bytes.skip(offs[i]));
    }
    let from = if lo >= T::spec_max_len() {
        lo - T::spec_max_len()
    } else {
        0
    };
    lemma_whole_scan::<T>(bytes, offs, i, lo, hi, from);
}

/// What `lemma_whole_contained` says, for the markers from `from` on.
pub proof fn lemma_whole_scan<'bytes, T: SearchableMarkerTrait<'bytes>>(
    bytes: Seq<u8>,
    offs: Seq<int>,
    i: int,
    lo: int,
    hi: int,
    from: int,
)
    requires
        whole::<T>(bytes, offs),
        in_stretch(bytes, offs, lo, i),
        lo < hi < bytes.len(),
        inside::<T>(bytes, offs, lo, i) ==> hi <= end_of::<T>(bytes, offs, i),
        0 <= from <= bytes.len(),
        inside::<T>(bytes, offs, lo, i) ==> from <= offs[i],
    ensures
        contained_scan::<T>(bytes, lo, hi, from) == container::<T>(bytes, offs, lo, i),
    decreases lo, 0int, bytes.len() - from,
{
    let m = T::spec_marker();
    let rest = bytes.skip(from);
    let within = inside::<T>(bytes, offs, lo, i);
    T::lemma_marker();
    if i >= 0 {
        lemma_record::<T>(bytes, offs, i);
    }
    lemma_first_occurrence_some(rest, m);
    if first_occurrence(rest, m) is None {
        if within {
            lemma_occurs_skip(bytes, m, from, offs[i] - from);
            lemma_first_occurrence_none(rest, m, offs[i] - from);
        }
    } else {
        let q = first_occurrence(rest, m)->0;
        let c = from + q;
        assert(is_first(rest, m, q));
        lemma_occurs_skip(bytes, m, from, q);
        if within && c > offs[i] {
            lemma_occurs_skip(bytes, m, from, offs[i] - from);
            assert(!occurs_at(rest, m, offs[i] - from));
        }
        if c < lo {
            let j = lemma_marker_place::<T>(bytes, offs, c);
            lemma_record::<T>(bytes, offs, j);
            // the record of the marker is the one of `lo` or an earlier one
            if i < j {
                if i + 1 < j {
                    lemma_boundaries_rise::<T>(bytes, offs, i + 1, j);
                }
                assert(false);
            }
            if j < i {
                lemma_boundaries_rise::<T>(bytes, offs, j, i);
            }
            if c == offs[j] && j == i && within {
                lemma_whole_contained::<T>(bytes, offs, i, c, c + m.len());
            } else {
                // the marker at `c` is passed over
                if c > offs[j] && covers::<T>(bytes, c, hi) {
                    T::lemma_marked_len(bytes.skip(c));
                    T::lemma_marked_len_bounds(bytes.skip(c));
                    T::lemma_record_len_bounds(bytes.skip(c));
                    lemma_whole_contained::<T>(bytes, offs, j, c, c + m.len());
                }
                lemma_whole_scan::<T>(bytes, offs, i, lo, hi, c + m.len());
            }
        }
    }
}

/// In such a buffer a partition is cut where a record starts or in a gap,
/// or at the last byte or the end of the bytes.
pub proof fn lemma_cut_at<'bytes, T: SearchableMarkerTrait<'bytes>>(
    bytes: Seq<u8>,
    offs: Seq<int>,
    cand: int,
) -> (b: int)
    requires
        whole::<T>(bytes, offs),
        0 <= cand <= bytes.len(),
    ensures
        cut_at::<T>(bytes, cand) <= cand,
        cand + 1 < bytes.len() ==> cut_before::<T>(bytes, offs, cut_at::<T>(bytes, cand), b),
        cand + 1 >= bytes.len() ==> cut_at::<T>(bytes, cand) == cand,
{
    if cand + 1 < bytes.len() {
        lemma_gap::<T>(bytes, offs, 0);
        if offs.len() == 0 || cand < offs[0] {
            lemma_whole_contained::<T>(bytes, offs, -1, cand, cand + 1);
            0
        } else {
            let i = lemma_record_index::<T>(bytes, offs, cand, 0);
            lemma_record::<T>(bytes, offs, i);
            lemma_gap::<T>(bytes, offs, i);
            lemma_whole_contained::<T>(bytes, offs, i, cand, cand + 1);
            if cand < end_of::<T>(bytes, offs, i) {
                i
            } else {
                i + 1
            }
        }
    } else {
        0
    }
}

/// The offsets of the records of the partitions `cuts`, each partition
/// read by itself from its start.
pub open spec fn records_of_cuts<'bytes, T: SearchableMarkerTrait<'bytes>>(
    bytes: Seq<u8>,
    cuts: Seq<(int, int)>,
) -> Seq<int>
    decreases cuts.len(),
{
    if cuts.len() == 0 {
        Seq::empty()
    } else {
        fallback_run::<T>(bytes.subrange(cuts[0].0, cuts[0].1), 0).map_values(
            |o: int| o + cuts[0].0,
        ) + records_of_cuts::<T>(bytes, cuts.drop_first())
    }
}

/// An occurrence in a part of `bytes` is an occurrence in `bytes`.
pub proof fn lemma_occurs_in_part(bytes: Seq<u8>, needle: Seq<u8>, lo: int, hi: int, j: int)
    requires
        0 <= lo <= hi <= bytes.len(),
        occurs_at(bytes.subrange(lo, hi), needle, j),
    ensures
        occurs_at(bytes, needle, lo + j),
        lo + j + needle.len() <= hi,
{
    assert(bytes.subrange(lo, hi).subrange(j, j + needle.len()) =~= bytes.subrange(
        lo + j,
        lo + j + needle.len(),
    ));
}

/// The offsets of the records with the indices from `a` to `b`, counted
/// from `lo`.
pub open spec fn shifted(offs: Seq<int>, a: int, b: int, lo: int) -> Seq<int> {
    offs.subrange(a, b).map_values(|o: int| o - lo)
}

/// The part of such a buffer between two cuts holds the records between
/// the cuts, from the record with the index `k` on.
pub proof fn lemma_part_holds<'bytes, T: SearchableMarkerTrait<'bytes>>(
    bytes: Seq<u8>,
    offs: Seq<int>,
    lo: int,
    a: int,
    hi: int,
    b: int,
    k: int,
)
    requires
        whole::<T>(bytes, offs),
        cut_before::<T>(bytes, offs, lo, a),
        cut_before::<T>(bytes, offs, hi, b),
        lo < hi,
        a <= k <= b,
    ensures
        holds_records::<T>(
            bytes.subrange(lo, hi),
            if k == a {
                0
            } else {
                floor::<T>(bytes, offs, k) - lo
            },
            shifted(offs, a, b, lo).skip(k - a),
        ),
    decreases b - k,
{
    let m = T::spec_marker();
    let part = bytes.subrange(lo, hi);
    let from = if k == a {
        0
    } else {
        floor::<T>(bytes, offs, k) - lo
    };
    let left = shifted(offs, a, b, lo).skip(k - a);
    lemma_gap::<T>(bytes, offs, a);
    lemma_gap::<T>(bytes, offs, b);
    lemma_gap::<T>(bytes, offs, k);
    if a < k {
        lemma_boundaries_rise::<T>(bytes, offs, a, k);
    }
    if k < b {
        lemma_boundaries_rise::<T>(bytes, offs, k, b);
        lemma_record::<T>(bytes, offs, k);
    }
    // the gap before the record, or behind the last one, holds no marker
    let stop = if k < b {
        offs[k] - lo
    } else {
        part.len() as int
    };
    assert forall|j: int| from <= j < stop implies !occurs_at(part, m, j) by {
        if occurs_at(part, m, j) {
            lemma_occurs_in_part(bytes, m, lo, hi, j);
        }
    }
    if k < b {
        let n = T::record_len(bytes.skip(offs[k]))->0;
        T::lemma_record_len_bounds(bytes.skip(offs[k]));
        let whole_rest = bytes.skip(offs[k]);
        let part_rest = part.skip(offs[k] - lo);
        assert(whole_rest.subrange(0, n as int) =~= part_rest.subrange(0, n as int));
        T::lemma_record_len_local(whole_rest, part_rest, n);
        lemma_part_holds::<T>(bytes, offs, lo, a, hi, b, k + 1);
        assert(left[0] == offs[k] - lo);
        assert(left.drop_first() =~= shifted(offs, a, b, lo).skip(k + 1 - a));
    }
}

/// The part of such a buffer between two cuts gives the records between
/// the cuts.
pub proof fn lemma_slice_records<'bytes, T: SearchableMarkerTrait<'bytes>>(
    bytes: Seq<u8>,
    offs: Seq<int>,
    lo: int,
    a: int,
    hi: int,
    b: int,
)
    requires
        whole::<T>(bytes, offs),
        cut_before::<T>(bytes, offs, lo, a),
        cut_before::<T>(bytes, offs, hi, b),
        lo < hi,
    ensures
        a <= b,
        fallback_run::<T>(bytes.subrange(lo, hi), 0).map_values(|o: int| o + lo) == offs.subrange(
            a,
            b,
        ),
{
    if b < a {
        lemma_boundaries_rise::<T>(bytes, offs, b, a);
    }
    lemma_part_holds::<T>(bytes, offs, lo, a, hi, b, a);
    let moved = shifted(offs, a, b, lo);
    assert(moved.skip(0) =~= moved);
    lemma_fallback_gives_records::<T>(bytes.subrange(lo, hi), 0, moved);
    assert(moved.map_values(|o: int| o + lo) =~= offs.subrange(a, b));
}

/// The partitions of such a buffer from a cut before the record with the
/// index `a` on: they are cut where records start or in gaps, and together
/// they give the records between their first start and their last end.
pub proof fn lemma_cuts_hold_records<'bytes, T: SearchableMarkerTrait<'bytes>>(
    bytes: Seq<u8>,
    offs: Seq<int>,
    size: int,
    lo: int,
    a: int,
    cand: int,
) -> (b: int)
    requires
        whole::<T>(bytes, offs),
        4 <= size,
        cut_before::<T>(bytes, offs, lo, a),
        0 <= cand,
    ensures
        a <= b <= offs.len(),
        ({
            let cuts = partition_cuts::<T>(bytes, size, lo, cand);
            &&& cuts.len() == 0 ==> a == b
            &&& cuts.len() > 0 ==> cut_before::<T>(bytes, offs, cuts.last().1, b)
            &&& records_of_cuts::<T>(bytes, cuts) == offs.subrange(a, b)
        }),
    decreases bytes.len() - lo,
{
    let cuts = partition_cuts::<T>(bytes, size, lo, cand);
    let n = offs.len() as int;
    lemma_gap::<T>(bytes, offs, a);
    lemma_gap::<T>(bytes, offs, n);
    if cand <= bytes.len() {
        let hi = cut_at::<T>(bytes, cand);
        let c = lemma_cut_at::<T>(bytes, offs, cand);
        if lo >= hi {
            assert(offs.subrange(a, a) =~= Seq::<int>::empty());
            a
        } else if hi + size / 4 >= bytes.len() {
            let end = bytes.len() as int;
            assert(cuts =~= seq![(lo, end)]);
            assert(cuts.drop_first() =~= Seq::<(int, int)>::empty());
            lemma_slice_records::<T>(bytes, offs, lo, a, end, n);
            assert(records_of_cuts::<T>(bytes, cuts.drop_first()) =~= Seq::<int>::empty());
            assert(cuts[0] == (lo, end));
            assert(fallback_run::<T>(bytes.subrange(cuts[0].0, cuts[0].1), 0).map_values(
                |o: int| o + cuts[0].0,
            ) =~= fallback_run::<T>(bytes.subrange(lo, end), 0).map_values(|o: int| o + lo));
            assert(records_of_cuts::<T>(bytes, cuts) =~= offs.subrange(a, n));
            n
        } else {
            assert(cand + 1 < bytes.len());
            let rest = partition_cuts::<T>(bytes, size, hi, hi + size);
            lemma_slice_records::<T>(bytes, offs, lo, a, hi, c);
            let b = lemma_cuts_hold_records::<T>(bytes, offs, size, hi, c, hi + size);
            assert(cuts =~= seq![(lo, hi)] + rest);
            assert(cuts.drop_first() =~= rest);
            assert(cuts[0] == (lo, hi));
            assert(fallback_run::<T>(bytes.subrange(cuts[0].0, cuts[0].1), 0).map_values(
                |o: int| o + cuts[0].0,
            ) =~= fallback_run::<T>(bytes.subrange(lo, hi), 0).map_values(|o: int| o + lo));
            assert(offs.subrange(a, c) + offs.subrange(c, b) =~= offs.subrange(a, b));
            if rest.len() > 0 {
                assert(cuts.last() == rest.last());
            }
            b
        }
    } else {
        assert(offs.subrange(a, a) =~= Seq::<int>::empty());
        a
    }
}

/// Partition closure: where a buffer holds records with gaps in which the
/// marker does not start, no occurrence of the marker overlaps another or
/// reaches from a record into a gap, the partitions are meant to be four
/// bytes long or longer, and the last of them ends at the end of the
/// buffer, the records that the partitions give, each read by itself, are
/// the records that the buffer gives when it is read as a whole.
pub proof fn lemma_partition_closure<'bytes, T: SearchableMarkerTrait<'bytes>>(
    bytes: Seq<u8>,
    offs: Seq<int>,
    num: int,
)
    requires
        whole::<T>(bytes, offs),
        num >= 1,
        bytes.len() as int / num >= 4,
        partitions::<T>(bytes, num).len() > 0,
        partitions::<T>(bytes, num).last().1 == bytes.len(),
    ensures
        records_of_cuts::<T>(bytes, partitions::<T>(bytes, num)) == fallback_run::<T>(bytes, 0),
        fallback_run::<T>(bytes, 0) == offs,
{
    let size = bytes.len() as int / num;
    assert(size <= bytes.len()) by (nonlinear_arith)
        requires
            size == bytes.len() as int / num,
            num >= 1,
    ;
    lemma_gap::<T>(bytes, offs, 0);
    let b = lemma_cuts_hold_records::<T>(bytes, offs, size, 0, 0, size);
    if b < offs.len() {
        lemma_record::<T>(bytes, offs, b);
    }
    assert(offs.subrange(0, offs.len() as int) =~= offs);
    lemma_fallback_gives_records::<T>(bytes, 0, offs);
}

/// The number of records that the partitions `cuts` give in sum, each read
/// by itself from its start.
pub open spec fn count_of_cuts<'bytes, T: SearchableMarkerTrait<'bytes>>(
    bytes: Seq<u8>,
    cuts: Seq<(int, int)>,
) -> nat
    decreases cuts.len(),
{
    if cuts.len() == 0 {
        0
    } else {
        fallback_run::<T>(bytes.subrange(cuts[0].0, cuts[0].1), 0).len() + count_of_cuts::<T>(
            bytes,
            cuts.drop_first(),
        )
    }
}

/// The partitions give as many records in sum as they give records.
pub proof fn lemma_count_of_cuts<'bytes, T: SearchableMarkerTrait<'bytes>>(
    bytes: Seq<u8>,
    cuts: Seq<(int, int)>,
)
    ensures
        count_of_cuts::<T>(bytes, cuts) == records_of_cuts::<T>(bytes, cuts).len(),
    decreases cuts.len(),
{
    if cuts.len() > 0 {
        lemma_count_of_cuts::<T>(bytes, cuts.drop_first());
    }
}

/// Partition closure, counted: under the conditions of
/// `lemma_partition_closure` the counts of the records of the partitions
/// sum up to the count of the records of the whole buffer.
pub proof fn lemma_partition_counts<'bytes, T: SearchableMarkerTrait<'bytes>>(
    bytes: Seq<u8>,
    offs: Seq<int>,
    num: int,
)
    requires
        whole::<T>(bytes, offs),
        num >= 1,
        bytes.len() as int / num >= 4,
        partitions::<T>(bytes, num).len() > 0,
        partitions::<T>(bytes, num).last().1 == bytes.len(),
    ensures
        count_of_cuts::<T>(bytes, partitions::<T>(bytes, num)) == fallback_run::<T>(bytes, 0).len(),
{
    lemma_partition_closure::<T>(bytes, offs, num);
    lemma_count_of_cuts::<T>(bytes, partitions::<T>(bytes, num));
}

} // verus!
