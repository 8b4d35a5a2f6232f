//! The search for the record that contains a byte range, and the
//! partitioner that is built on it.

use crate::readable::FromBytesReadableTrait;
use crate::searchable::layout::lemma_occurs_skip;
use crate::searchable::lemma_first_occurrence_some;
use crate::searchable::is_first;
use crate::searchable::{
    finder_find,
    finder_needle,
    first_occurrence,
    lemma_first_occurrence,
    lemma_no_first_occurrence,
    new_finder,
    occurs_at,
    SearchableMarkerTrait,
};
use memchr::memmem::Finder;
use std::marker::PhantomData;
use vstd::prelude::*;
use vstd::slice::slice_subrange;

verus! {

/// A valid record starts at `c` and ends at or behind `hi`.
pub open spec fn covers<'bytes, T: SearchableMarkerTrait<'bytes>>(
    bytes: Seq<u8>,
    c: int,
    hi: int,
) -> bool {
    T::record_len(bytes.skip(c)) matches Some(n) && c + n >= hi
}

/// The outermost record that contains the byte range from `lo` to `hi`, as
/// its offset and its length.
///
/// The markers from `spec_max_len()` bytes before `lo` on are tried in turn.
/// The answer is the first of them before `lo` that starts a valid record
/// which ends at or behind `hi` and whose own marker no record contains.
pub open spec fn contained_by<'bytes, T: SearchableMarkerTrait<'bytes>>(
    bytes: Seq<u8>,
    lo: int,
    hi: int,
) -> Option<(int, nat)>
    decreases lo, 1int, 0int,
{
    if 0 <= lo < hi < bytes.len() {
        contained_scan::<T>(
            bytes,
            lo,
            hi,
            if lo >= T::spec_max_len() {
                lo - T::spec_max_len()
            } else {
                0
            },
        )
    } else {
        None
    }
}

/// What `contained_by` answers when the markers from `from` on are still to
/// be tried.
pub open spec fn contained_scan<'bytes, T: SearchableMarkerTrait<'bytes>>(
    bytes: Seq<u8>,
    lo: int,
    hi: int,
    from: int,
) -> Option<(int, nat)>
    decreases lo, 0int, bytes.len() - from,
{
    if 0 <= from <= bytes.len() && 0 <= lo && T::spec_marker().len() > 0 {
        match first_occurrence(bytes.skip(from), T::spec_marker()) {
            Some(q) => if q < 0 || from + q >= lo {
                None
            } else if covers::<T>(bytes, from + q, hi) && contained_by::<T>(
                bytes,
                from + q,
                from + q + T::spec_marker().len(),
            ) is None {
                Some((from + q, T::record_len(bytes.skip(from + q))->0))
            } else if from + q + T::spec_marker().len() > bytes.len() {
                None
            } else {
                contained_scan::<T>(bytes, lo, hi, from + q + T::spec_marker().len())
            },
            None => None,
        }
    } else {
        None
    }
}

/// A searcher for the markers of `T`, kept for the search for containing
/// records.
pub struct ContainedBySearch<T>(pub Finder<'static>, pub PhantomData<T>);

impl<'bytes, T> ContainedBySearch<T> where T: SearchableMarkerTrait<'bytes> {
    /// What holds of the searcher: it searches for the marker of `T`.
    pub open spec fn inv(&self) -> bool {
        finder_needle(self.0) == T::spec_marker()
    }

    /// A searcher for the markers of `T`.
    pub fn new() -> (r: Self)
        ensures
            r.inv(),
    {
        Self(new_finder(T::marker()), PhantomData)
    }

    /// The outermost valid record of `bytes` that contains the byte range
    /// from `payload.0` to `payload.1`, with its offset.
    pub fn contained_by(&self, bytes: &'bytes [u8], payload: (usize, usize)) -> (r: Option<
        (usize, T),
    >)
        requires
            self.inv(),
        ensures
            match r {
                Some(found) => {
                    &&& contained_by::<T>(bytes@, payload.0 as int, payload.1 as int) == Some(
                        (found.0 as int, found.1.spec_len()),
                    )
                    &&& found.1.read_from(bytes@.skip(found.0 as int))
                    &&& found.0 < payload.0
                },
                None => contained_by::<T>(bytes@, payload.0 as int, payload.1 as int) is None,
            },
        decreases payload.0,
    {
        let len = bytes.len();
        if payload.0 >= len || payload.1 >= len || payload.0 >= payload.1 || payload.1 == 0 {
            return None;
        }
        let step = T::marker().len();
        proof {
            T::lemma_marker();
        }
        // no record that begins more than the greatest length before the
        // range can contain it
        let backwards_offset = match payload.0.checked_sub(T::max_len()) {
            Some(val) => val,
            None => 0,
        };
        let mut from = backwards_offset;
        loop
            invariant
                self.inv(),
                len == bytes@.len(),
                step == T::spec_marker().len(),
                step > 0,
                from <= len,
                payload.0 < payload.1 < len,
                contained_by::<T>(bytes@, payload.0 as int, payload.1 as int) == contained_scan::<T>(
                    bytes@,
                    payload.0 as int,
                    payload.1 as int,
                    from as int,
                ),
            decreases len - from,
        {
            let ghost rest = bytes@.skip(from as int);
            assert(bytes@.subrange(from as int, len as int) =~= rest);
            let candidate_idx = match finder_find(&self.0, slice_subrange(bytes, from, len)) {
                Some(position) => {
                    proof {
                        lemma_first_occurrence(rest, T::spec_marker(), position as int);
                    }
                    from + position
                },
                None => {
                    proof {
                        lemma_no_first_occurrence(rest, T::spec_marker());
                    }
                    return None;
                },
            };
            if candidate_idx >= payload.0 {
                return None;
            }
            proof {
                assert(bytes@.subrange(candidate_idx as int, len as int) =~= bytes@.skip(
                    candidate_idx as int,
                ));
                T::lemma_record_len_bounds(bytes@.skip(candidate_idx as int));
            }
            if let Some((_, container)) = T::try_read(slice_subrange(bytes, candidate_idx, len)) {
                proof {
                    container.lemma_read_len(bytes@.skip(candidate_idx as int));
                }
                // the record has to reach the end of the range
                if candidate_idx + container.len() >= payload.1 {
                    // a record that lies in another record is passed over
                    match self.contained_by(bytes, (candidate_idx, candidate_idx + step)) {
                        Some(_) => {},
                        None => {
                            return Some((candidate_idx, container));
                        },
                    }
                }
            }
            from = candidate_idx + step;
        }
    }
}

/// The place at which a partition that is meant to end at `cand` is cut:
/// the start of the record that contains the byte at `cand`, or `cand`
/// itself where no record contains it.
pub open spec fn cut_at<'bytes, T: SearchableMarkerTrait<'bytes>>(bytes: Seq<u8>, cand: int) -> int {
    match contained_by::<T>(bytes, cand, cand + 1) {
        Some((c, _)) => c,
        None => cand,
    }
}

/// The partitions of `bytes`, as pairs of a start and an end, when the next
/// partition starts at `lo` and is meant to end at `cand`, for partitions
/// of about `size` bytes.
pub open spec fn partition_cuts<'bytes, T: SearchableMarkerTrait<'bytes>>(
    bytes: Seq<u8>,
    size: int,
    lo: int,
    cand: int,
) -> Seq<(int, int)>
    decreases bytes.len() - lo,
{
    if 0 <= lo <= bytes.len() && 0 <= cand <= bytes.len() && 0 <= size {
        let hi = cut_at::<T>(bytes, cand);
        if lo >= hi {
            Seq::empty()
        } else if hi + size / 4 >= bytes.len() {
            seq![(lo, bytes.len() as int)]
        } else {
            seq![(lo, hi)] + partition_cuts::<T>(bytes, size, hi, hi + size)
        }
    } else {
        Seq::empty()
    }
}

/// The partitions of `bytes`, as pairs of a start and an end, for `num`
/// partitions: they are cut from the start, each meant to end the `num`th
/// part of the length behind the last cut, and the last one takes a rest of
/// a quarter of that or less.
pub open spec fn partitions<'bytes, T: SearchableMarkerTrait<'bytes>>(
    bytes: Seq<u8>,
    num: int,
) -> Seq<(int, int)> {
    partition_cuts::<T>(bytes, bytes.len() as int / num, 0, bytes.len() as int / num)
}

/// The slices of `parts` are the ranges `cuts` of `bytes`.
pub open spec fn cut_along(parts: Seq<&[u8]>, bytes: Seq<u8>, cuts: Seq<(int, int)>) -> bool {
    &&& parts.len() == cuts.len()
    &&& forall|i: int|
        0 <= i < parts.len() ==> (#[trigger] parts[i])@ == bytes.subrange(cuts[i].0, cuts[i].1)
}

/// Cuts `bytes` into about `num` partitions, each cut made where no record
/// was found to contain it, or at the start of the outermost record that was.
pub fn partition_from<'bytes, T: SearchableMarkerTrait<'bytes>>(
    bytes: &'bytes [u8],
    num: usize,
) -> (result: Vec<&'bytes [u8]>)
    requires
        num > 0,
    ensures
        cut_along(result@, bytes@, partitions::<T>(bytes@, num as int)),
{
    let mut result: Vec<&[u8]> = Vec::new();
    let len = bytes.len();
    let size = len / num;
    let mut candidate = (0usize, size);
    let ghost mut done: Seq<(int, int)> = Seq::empty();

    let search = ContainedBySearch::<T>::new();
    loop
        invariant_except_break
            search.inv(),
            len == bytes@.len(),
            size <= len,
            candidate.0 <= len,
            cut_along(result@, bytes@, done),
            partition_cuts::<T>(bytes@, size as int, 0, size as int) == done + partition_cuts::<T>(
                bytes@,
                size as int,
                candidate.0 as int,
                candidate.1 as int,
            ),
        ensures
            cut_along(result@, bytes@, partition_cuts::<T>(bytes@, size as int, 0, size as int)),
        decreases len - candidate.0,
    {
        let ghost rest = partition_cuts::<T>(
            bytes@,
            size as int,
            candidate.0 as int,
            candidate.1 as int,
        );
        // a partition cannot end behind the bytes
        if candidate.0 > len || candidate.1 > len {
            assert(done + rest =~= done);
            break ;
        }
        let found = if candidate.1 < len {
            search.contained_by(bytes, (candidate.1, candidate.1 + 1))
        } else {
            None
        };
        candidate.1 = match found {
            // the byte lies in a record: the partition ends where it starts
            Some((container, _)) => container,
            // the byte lies in no record: the partition can end here
            None => candidate.1,
        };

        // the record may start in a partition that was cut before
        if candidate.0 >= candidate.1 {
            assert(done + rest =~= done);
            break ;
        }
        // a short rest goes to the last partition

        if len - candidate.1 <= size / 4 {
            result.push(slice_subrange(bytes, candidate.0, len));
            proof {
                assert(rest =~= seq![(candidate.0 as int, len as int)]);
                assert(done + rest =~= done.push((candidate.0 as int, len as int)));
                done = done.push((candidate.0 as int, len as int));
            }
            break ;
        }
        result.push(slice_subrange(bytes, candidate.0, candidate.1));
        proof {
            assert(done + rest =~= done.push((candidate.0 as int, candidate.1 as int))
                + partition_cuts::<T>(
                bytes@,
                size as int,
                candidate.1 as int,
                candidate.1 + size,
            ));
            done = done.push((candidate.0 as int, candidate.1 as int));
        }
        match candidate.1.checked_add(size) {
            Some(next) => {
                candidate = (candidate.1, next);
            },
            None => {
                assert(partition_cuts::<T>(
                    bytes@,
                    size as int,
                    candidate.1 as int,
                    candidate.1 + size,
                ) =~= Seq::<(int, int)>::empty());
                break ;
            },
        }
    }
    result
}

/// The partitions are laid end to end from `lo` on: each is not empty and
/// lies within the bytes, and each starts where the one before it ends.
pub proof fn lemma_cuts_contiguous<'bytes, T: SearchableMarkerTrait<'bytes>>(
    bytes: Seq<u8>,
    size: int,
    lo: int,
    cand: int,
)
    ensures
        ({
            let cuts = partition_cuts::<T>(bytes, size, lo, cand);
            &&& cuts.len() > 0 ==> cuts[0].0 == lo
            &&& forall|k: int|
                0 <= k < cuts.len() ==> 0 <= (#[trigger] cuts[k]).0 < cuts[k].1 <= bytes.len()
            &&& forall|k: int, j: int|
                0 <= k && j == k + 1 && j < cuts.len() ==> (#[trigger] cuts[k]).1
                    == (#[trigger] cuts[j]).0
        }),
    decreases bytes.len() - lo,
{
    let cuts = partition_cuts::<T>(bytes, size, lo, cand);
    if 0 <= lo <= bytes.len() && 0 <= cand <= bytes.len() && 0 <= size {
        let hi = cut_at::<T>(bytes, cand);
        if contained_by::<T>(bytes, cand, cand + 1) is Some {
            lemma_contained_by_some::<T>(bytes, cand, cand + 1);
        }
        if lo < hi && hi + size / 4 < bytes.len() {
            let rest = partition_cuts::<T>(bytes, size, hi, hi + size);
            lemma_cuts_contiguous::<T>(bytes, size, hi, hi + size);
            assert(cuts =~= seq![(lo, hi)] + rest);
            assert forall|k: int| 0 <= k < cuts.len() implies 0 <= (#[trigger] cuts[k]).0
                < cuts[k].1 <= bytes.len() by {
                if k > 0 {
                    assert(cuts[k] == rest[k - 1]);
                }
            }
            assert forall|k: int, j: int|
                0 <= k && j == k + 1 && j < cuts.len() implies (#[trigger] cuts[k]).1
                == (#[trigger] cuts[j]).0 by {
                assert(cuts[j] == rest[j - 1]);
                if k > 0 {
                    assert(cuts[k] == rest[k - 1]);
                }
            }
        }
    }
}

/// No two occurrences of `needle` overlap: no proper end of `needle` is a
/// start of it.
pub open spec fn unbordered(needle: Seq<u8>) -> bool {
    forall|k: int|
        0 < k < needle.len() ==> #[trigger] needle.subrange(k, needle.len() as int)
            != needle.subrange(0, needle.len() - k)
}

/// Two occurrences of an unbordered needle lie apart.
pub proof fn lemma_occurrences_apart(bytes: Seq<u8>, needle: Seq<u8>, a: int, b: int)
    requires
        unbordered(needle),
        occurs_at(bytes, needle, a),
        occurs_at(bytes, needle, b),
        a < b,
    ensures
        a + needle.len() <= b,
{
    if b < a + needle.len() {
        let k = b - a;
        let first = bytes.subrange(a, a + needle.len());
        let second = bytes.subrange(b, b + needle.len());
        assert(needle.subrange(k, needle.len() as int) =~= needle.subrange(0, needle.len() - k)) by {
            assert forall|i: int| 0 <= i < needle.len() - k implies needle[k + i]
                == #[trigger] needle[i] by {
                assert(first[k + i] == bytes[a + k + i]);
                assert(second[i] == bytes[b + i]);
            }
        }
    }
}

/// What `contained_by` answers is a valid record that starts before the
/// range and ends at or behind it, and whose own marker `contained_by` finds
/// in no record.
pub proof fn lemma_contained_by_some<'bytes, T: SearchableMarkerTrait<'bytes>>(
    bytes: Seq<u8>,
    lo: int,
    hi: int,
)
    requires
        contained_by::<T>(bytes, lo, hi) is Some,
    ensures
        ({
            let (c, n) = contained_by::<T>(bytes, lo, hi)->0;
            &&& 0 <= c < lo
            &&& T::record_len(bytes.skip(c)) == Some(n)
            &&& hi <= c + n <= bytes.len()
            &&& lo - c <= T::spec_max_len()
            &&& contained_by::<T>(bytes, c, c + T::spec_marker().len()) is None
        }),
{
    let from = if lo >= T::spec_max_len() {
        lo - T::spec_max_len()
    } else {
        0
    };
    lemma_contained_scan_some::<T>(bytes, lo, hi, from);
}

proof fn lemma_contained_scan_some<'bytes, T: SearchableMarkerTrait<'bytes>>(
    bytes: Seq<u8>,
    lo: int,
    hi: int,
    from: int,
)
    requires
        contained_scan::<T>(bytes, lo, hi, from) is Some,
    ensures
        ({
            let (c, n) = contained_scan::<T>(bytes, lo, hi, from)->0;
            &&& from <= c < lo
            &&& T::record_len(bytes.skip(c)) == Some(n)
            &&& hi <= c + n <= bytes.len()
            &&& contained_by::<T>(bytes, c, c + T::spec_marker().len()) is None
        }),
    decreases bytes.len() - from,
{
    let m = T::spec_marker();
    let q = first_occurrence(bytes.skip(from), m)->0;
    lemma_first_occurrence_some(bytes.skip(from), m);
    let c = from + q;
    T::lemma_record_len_bounds(bytes.skip(c));
    if covers::<T>(bytes, c, hi) && contained_by::<T>(bytes, c, c + m.len()) is None {
    } else {
        lemma_contained_scan_some::<T>(bytes, lo, hi, c + m.len());
    }
}

/// Contained-by outermost: the record that `contained_by` answers lies in
/// no valid record that starts before it, provided that the marker is
/// unbordered and that `contained_by` finds the marker of such a record in
/// no record either.
pub proof fn lemma_contained_by_outermost<'bytes, T: SearchableMarkerTrait<'bytes>>(
    bytes: Seq<u8>,
    lo: int,
    hi: int,
    c: int,
    n: nat,
    outer: int,
)
    requires
        contained_by::<T>(bytes, lo, hi) == Some((c, n)),
        unbordered(T::spec_marker()),
        0 <= outer < c,
        contained_by::<T>(bytes, outer, outer + T::spec_marker().len()) is None,
    ensures
        !covers::<T>(bytes, outer, c + T::spec_marker().len()),
{
    let m = T::spec_marker();
    lemma_contained_by_some::<T>(bytes, lo, hi);
    T::lemma_marker();
    if covers::<T>(bytes, outer, c + m.len()) {
        T::lemma_marked_len(bytes.skip(c));
        T::lemma_marked_len_bounds(bytes.skip(c));
        T::lemma_record_len_bounds(bytes.skip(outer));
        T::lemma_marked_len(bytes.skip(outer));
        lemma_occurs_skip(bytes, m, outer, 0);
        let from = if c >= T::spec_max_len() {
            c - T::spec_max_len()
        } else {
            0
        };
        lemma_scan_meets::<T>(bytes, c, c + m.len(), from, outer);
    }
}

/// A scan that starts at or before a record that is to be answered does not
/// pass it over.
proof fn lemma_scan_meets<'bytes, T: SearchableMarkerTrait<'bytes>>(
    bytes: Seq<u8>,
    lo: int,
    hi: int,
    from: int,
    outer: int,
)
    requires
        unbordered(T::spec_marker()),
        T::spec_marker().len() > 0,
        0 <= from <= outer < lo,
        outer <= bytes.len(),
        occurs_at(bytes, T::spec_marker(), outer),
        covers::<T>(bytes, outer, hi),
        contained_by::<T>(bytes, outer, outer + T::spec_marker().len()) is None,
    ensures
        contained_scan::<T>(bytes, lo, hi, from) is Some,
    decreases bytes.len() - from,
{
    let m = T::spec_marker();
    lemma_occurs_skip(bytes, m, from, outer - from);
    lemma_first_occurrence_some(bytes.skip(from), m);
    if first_occurrence(bytes.skip(from), m) is None {
        crate::searchable::lemma_first_occurrence_none(bytes.skip(from), m, outer - from);
    }
    let q = first_occurrence(bytes.skip(from), m)->0;
    assert(is_first(bytes.skip(from), m, q));
    let c = from + q;
    lemma_occurs_skip(bytes, m, from, q);
    if q > outer - from {
        assert(!occurs_at(bytes.skip(from), m, outer - from));
    }
    if c < outer {
        lemma_occurrences_apart(bytes, m, c, outer);
        if covers::<T>(bytes, c, hi) && contained_by::<T>(bytes, c, c + m.len()) is None {
        } else {
            lemma_scan_meets::<T>(bytes, lo, hi, c + m.len(), outer);
        }
    }
}

} // verus!
