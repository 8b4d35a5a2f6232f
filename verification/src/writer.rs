//! The writing of storage entries: one record for each payload, with the
//! times and the counter that the number of the record gives.

use crate::bytes::{
    as_i32,
    as_u32,
    be_u16,
    be_u16_bytes,
    be_u32,
    be_u32_bytes,
    le_i32_bytes,
    le_u32,
    le_u32_bytes,
};
use crate::dlt_v1::{message_len, storage_len, DltStorageEntry, DLT_PATTERN};
use crate::readable::FromBytesReadableTrait;
use crate::searchable::layout::{
    fallback_run,
    follows,
    is_concatenation,
    lemma_forward_gives_concatenation,
    search_run,
};
use crate::searchable::readfallbackit::fallback_next;
use crate::searchable::{lemma_first_occurrence, lemma_first_occurrence_some, first_occurrence, occurs_at};
use vstd::prelude::*;

verus! {

/// The greatest payload that fits into one message beside the headers and
/// the timestamp.
pub const MAX_PAYLOAD: usize = 0xffff - 18;

/// The greatest number of a record whose timestamp fits into its field.
pub const MAX_COUNTER: u32 = 0xffff_ffff / 100;

/// An id of four bytes from an id of any length: the first four bytes of
/// `id`, followed by zeros where `id` is shorter.
pub fn pad_id(id: &[u8]) -> (r: [u8; 4])
    ensures
        forall|i: int|
            0 <= i < 4 ==> r@[i] == if i < id@.len() {
                id@[i]
            } else {
                0u8
            },
{
    [
        if id.len() > 0 {
            id[0]
        } else {
            0
        },
        if id.len() > 1 {
            id[1]
        } else {
            0
        },
        if id.len() > 2 {
            id[2]
        } else {
            0
        },
        if id.len() > 3 {
            id[3]
        } else {
            0
        },
    ]
}

/// `bytes` is the storage entry with the number `counter` for `payload`.
///
/// The storage header holds the pattern, `counter / 100` as the seconds,
/// `(counter % 100) * 10000` as the microseconds and `ecu`. The standard
/// header announces an extended header and a timestamp, in version 1,
/// counts `counter` modulo 256 and gives the length. The timestamp is
/// `counter * 100`. The extended header holds zero for the message info
/// and for the number of arguments, and `app` as both ids.
pub open spec fn is_record_of(
    bytes: Seq<u8>,
    ecu: Seq<u8>,
    app: Seq<u8>,
    counter: int,
    payload: Seq<u8>,
) -> bool {
    &&& bytes.len() == 34 + payload.len()
    &&& bytes.subrange(0, 4) == DLT_PATTERN@
    &&& le_u32(bytes.subrange(4, 8)) == counter / 100
    &&& le_u32(bytes.subrange(8, 12)) == (counter % 100) * 10000
    &&& bytes.subrange(12, 16) == ecu
    &&& bytes[16] == 0x31
    &&& bytes[17] == counter % 256
    &&& be_u16(bytes.subrange(18, 20)) == 18 + payload.len()
    &&& be_u32(bytes.subrange(20, 24)) == counter * 100
    &&& bytes[24] == 0
    &&& bytes[25] == 0
    &&& bytes.subrange(26, 30) == app
    &&& bytes.subrange(30, 34) == app
    &&& bytes.subrange(34, bytes.len() as int) == payload
}

fn append(out: &mut Vec<u8>, part: &[u8])
    ensures
        final(out)@ == old(out)@ + part@,
{
    out.extend_from_slice(part);
    assert(out@ =~= old(out)@ + part@);
}

/// The storage entry with the number `counter` for `payload`.
pub fn write_record(ecu: [u8; 4], app: [u8; 4], counter: u32, payload: &[u8]) -> (r: Vec<u8>)
    requires
        counter <= MAX_COUNTER,
        payload@.len() <= MAX_PAYLOAD,
    ensures
        is_record_of(r@, ecu@, app@, counter as int, payload@),
{
    let secs = le_u32_bytes(counter / 100);
    let msecs = le_i32_bytes((counter % 100) as i32 * 10000);
    let len = be_u16_bytes((4 + 10 + 4 + payload.len()) as u16);
    let tmsp = be_u32_bytes(counter * 100);
    let head: [u8; 2] = [0x31, (counter % 256) as u8];
    let info: [u8; 2] = [0, 0];

    let mut out: Vec<u8> = Vec::new();
    append(&mut out, &DLT_PATTERN);
    append(&mut out, &secs);
    append(&mut out, &msecs);
    append(&mut out, &ecu);
    append(&mut out, &head);
    append(&mut out, &len);
    append(&mut out, &tmsp);
    append(&mut out, &info);
    append(&mut out, &app);
    append(&mut out, &app);
    append(&mut out, payload);
    proof {
        let b = out@;
        assert(b.subrange(0, 4) =~= DLT_PATTERN@);
        assert(b.subrange(4, 8) =~= secs@);
        assert(b.subrange(8, 12) =~= msecs@);
        assert(b.subrange(12, 16) =~= ecu@);
        assert(b.subrange(18, 20) =~= len@);
        assert(b.subrange(20, 24) =~= tmsp@);
        assert(b.subrange(26, 30) =~= app@);
        assert(b.subrange(30, 34) =~= app@);
        assert(b.subrange(34, b.len() as int) =~= payload@);
    }
    out
}

/// The bytes of a written record are one valid storage entry.
pub proof fn lemma_written_is_valid(
    bytes: Seq<u8>,
    ecu: Seq<u8>,
    app: Seq<u8>,
    counter: int,
    payload: Seq<u8>,
)
    requires
        is_record_of(bytes, ecu, app, counter, payload),
        payload.len() <= MAX_PAYLOAD,
    ensures
        storage_len(bytes) == Some(bytes.len()),
        occurs_at(bytes, DLT_PATTERN@, 0),
{
    let rest = bytes.skip(16);
    assert(rest.subrange(2, 4) =~= bytes.subrange(18, 20));
    assert(rest[0] == bytes[16]);
    assert(0x31u8 & 0x01 != 0 && 0x31u8 & 0x04 == 0 && 0x31u8 & 0x08 == 0 && 0x31u8 & 0x10 != 0)
        by (bit_vector);
    assert(message_len(rest) == Some((18 + payload.len()) as nat));
}

/// An entry that is read from the bytes of a written record holds what was
/// written.
pub proof fn lemma_written_is_read<'a>(
    e: DltStorageEntry<'a>,
    bytes: Seq<u8>,
    ecu: Seq<u8>,
    app: Seq<u8>,
    counter: int,
    payload: Seq<u8>,
)
    requires
        is_record_of(bytes, ecu, app, counter, payload),
        0 <= counter <= MAX_COUNTER,
        payload.len() <= MAX_PAYLOAD,
        e.read_from(bytes),
    ensures
        e.dlt.spec_payload() == Some(payload),
        e.dlt.spec_timestamp() == Some((counter * 100) as u32),
        e.dlt.header.message_counter == counter % 256,
        e.storage_header.ecu@ == ecu,
        e.storage_header.secs == counter / 100,
        e.storage_header.msecs == (counter % 100) * 10000,
{
    let rest = bytes.skip(16);
    assert(rest.subrange(2, 4) =~= bytes.subrange(18, 20));
    assert(rest[0] == bytes[16]);
    assert(rest[1] == bytes[17]);
    assert(0x31u8 & 0x01 != 0 && 0x31u8 & 0x04 == 0 && 0x31u8 & 0x08 == 0 && 0x31u8 & 0x10 != 0)
        by (bit_vector);
    assert(e.dlt.header.header_type.htyp == 0x31);
    assert(e.dlt.header.length == 18 + payload.len());
    let tail = e.dlt.tail@;
    assert(tail == rest.subrange(4, 18 + payload.len() as int));
    assert(tail.skip(0).subrange(0, 4) =~= bytes.subrange(20, 24));
    assert(tail.skip(14) =~= bytes.subrange(34, bytes.len() as int));
    assert(be_u32(tail.skip(0)) == be_u32(bytes.subrange(20, 24)));
    assert(e.dlt.timestamp_offset() == 0);
    assert(e.dlt.payload_offset() == 14);
}

/// What is written is read back: the bytes of the record with the number
/// `counter` for `payload` are one valid storage entry, every entry that is
/// read from them holds `payload` as its payload, `counter * 100` as its
/// timestamp and `ecu` in its storage header, and a forward iteration over
/// them gives that one entry and ends.
pub proof fn lemma_round_trip<'a>(
    bytes: Seq<u8>,
    ecu: Seq<u8>,
    app: Seq<u8>,
    counter: int,
    payload: Seq<u8>,
)
    requires
        is_record_of(bytes, ecu, app, counter, payload),
        0 <= counter <= MAX_COUNTER,
        payload.len() <= MAX_PAYLOAD,
    ensures
        DltStorageEntry::record_len(bytes) == Some(bytes.len()),
        forall|e: DltStorageEntry<'a>| #[trigger]
            e.read_from(bytes) ==> {
                &&& e.dlt.spec_payload() == Some(payload)
                &&& e.dlt.spec_timestamp() == Some((counter * 100) as u32)
                &&& e.dlt.header.message_counter == counter % 256
                &&& e.storage_header.ecu@ == ecu
                &&& e.storage_header.secs == counter / 100
                &&& e.storage_header.msecs == (counter % 100) * 10000
            },
        fallback_next::<DltStorageEntry<'a>>(bytes, 0) == Some((0int, bytes.len())),
        fallback_next::<DltStorageEntry<'a>>(bytes, bytes.len() as int) is None,
{
    lemma_written_is_valid(bytes, ecu, app, counter, payload);
    assert forall|e: DltStorageEntry<'a>| #[trigger] e.read_from(bytes) implies {
        &&& e.dlt.spec_payload() == Some(payload)
        &&& e.dlt.spec_timestamp() == Some((counter * 100) as u32)
        &&& e.dlt.header.message_counter == counter % 256
        &&& e.storage_header.ecu@ == ecu
        &&& e.storage_header.secs == counter / 100
        &&& e.storage_header.msecs == (counter % 100) * 10000
    } by {
        lemma_written_is_read(e, bytes, ecu, app, counter, payload);
    }
    assert(bytes.skip(0) =~= bytes);
    lemma_first_occurrence(bytes.skip(0), DLT_PATTERN@, 0);
    let end = bytes.skip(bytes.len() as int);
    lemma_first_occurrence_some(end, DLT_PATTERN@);
    if first_occurrence(end, DLT_PATTERN@) is Some {
        assert(occurs_at(end, DLT_PATTERN@, first_occurrence(end, DLT_PATTERN@)->0));
    }
}

/// An entry that is read from bytes that start with a valid storage entry
/// is read from the bytes of that entry alone.
pub proof fn lemma_read_front<'a>(e: DltStorageEntry<'a>, bytes: Seq<u8>, n: nat)
    requires
        e.read_from(bytes),
        storage_len(bytes) == Some(n),
    ensures
        n <= bytes.len(),
        e.read_from(bytes.subrange(0, n as int)),
{
    let front = bytes.subrange(0, n as int);
    let rest = bytes.skip(16);
    let front_rest = front.skip(16);
    assert(front.subrange(0, 4) =~= bytes.subrange(0, 4));
    assert(front.subrange(4, 8) =~= bytes.subrange(4, 8));
    assert(front.subrange(8, 12) =~= bytes.subrange(8, 12));
    assert(front.subrange(12, 16) =~= bytes.subrange(12, 16));
    assert(front_rest.subrange(2, 4) =~= rest.subrange(2, 4));
    assert(front_rest[0] == rest[0]);
    assert(front_rest[1] == rest[1]);
    assert(front[16] == bytes[16]);
    assert(front_rest.subrange(4, e.dlt.header.length as int) =~= rest.subrange(
        4,
        e.dlt.header.length as int,
    ));
}

/// The place at which the record with the number `i` starts in a stream
/// of records for `payloads`.
pub open spec fn stream_offset(payloads: Seq<Seq<u8>>, i: int) -> int
    decreases i,
{
    if i <= 0 {
        0
    } else {
        stream_offset(payloads, i - 1) + 34 + payloads[i - 1].len()
    }
}

/// The places at which the records of a stream for `payloads` start.
pub open spec fn stream_offsets(payloads: Seq<Seq<u8>>) -> Seq<int> {
    Seq::new(payloads.len(), |i: int| stream_offset(payloads, i))
}

/// `bytes` holds at its place the record with the number `i` of a stream
/// for `payloads`.
pub open spec fn is_written_at(
    bytes: Seq<u8>,
    ecu: Seq<u8>,
    app: Seq<u8>,
    payloads: Seq<Seq<u8>>,
    i: int,
) -> bool {
    &&& stream_offset(payloads, i + 1) <= bytes.len()
    &&& is_record_of(
        bytes.subrange(stream_offset(payloads, i), stream_offset(payloads, i + 1)),
        ecu,
        app,
        i,
        payloads[i],
    )
}

/// `bytes` is the stream of the records for `payloads`, numbered from zero
/// and written one behind the other.
pub open spec fn is_stream_of(
    bytes: Seq<u8>,
    ecu: Seq<u8>,
    app: Seq<u8>,
    payloads: Seq<Seq<u8>>,
) -> bool {
    &&& bytes.len() == stream_offset(payloads, payloads.len() as int)
    &&& forall|i: int|
        0 <= i < payloads.len() ==> #[trigger] is_written_at(bytes, ecu, app, payloads, i)
}

/// No payload is longer than a message can hold.
pub open spec fn payloads_fit(payloads: Seq<Seq<u8>>) -> bool {
    forall|i: int| 0 <= i < payloads.len() ==> (#[trigger] payloads[i]).len() <= MAX_PAYLOAD
}

/// The records of a stream start at places that rise from zero.
pub proof fn lemma_stream_offset_rises(payloads: Seq<Seq<u8>>, i: int, j: int)
    requires
        i <= j,
    ensures
        0 <= stream_offset(payloads, i) <= stream_offset(payloads, j),
    decreases j - i, j,
{
    if i < j {
        lemma_stream_offset_rises(payloads, i, j - 1);
    } else if i > 0 {
        lemma_stream_offset_rises(payloads, i - 1, j - 1);
    }
}

/// The places of the records of a stream do not change when a record is
/// written behind them.
pub proof fn lemma_stream_offset_push(payloads: Seq<Seq<u8>>, payload: Seq<u8>, i: int)
    requires
        i <= payloads.len(),
    ensures
        stream_offset(payloads.push(payload), i) == stream_offset(payloads, i),
    decreases i,
{
    if i > 0 {
        lemma_stream_offset_push(payloads, payload, i - 1);
    }
}

/// A stream behind which the record with the next number is written is
/// the stream with one more payload.
pub proof fn lemma_stream_push(
    bytes: Seq<u8>,
    ecu: Seq<u8>,
    app: Seq<u8>,
    payloads: Seq<Seq<u8>>,
    record: Seq<u8>,
    payload: Seq<u8>,
)
    requires
        is_stream_of(bytes, ecu, app, payloads),
        is_record_of(record, ecu, app, payloads.len() as int, payload),
    ensures
        is_stream_of(bytes + record, ecu, app, payloads.push(payload)),
{
    let more = payloads.push(payload);
    let n = payloads.len() as int;
    lemma_stream_offset_push(payloads, payload, n);
    assert forall|i: int| 0 <= i < more.len() implies #[trigger] is_written_at(
        bytes + record,
        ecu,
        app,
        more,
        i,
    ) by {
        lemma_stream_offset_push(payloads, payload, i);
        lemma_stream_offset_rises(payloads, i, n);
        if i < n {
            lemma_stream_offset_push(payloads, payload, i + 1);
            assert(is_written_at(bytes, ecu, app, payloads, i));
            assert((bytes + record).subrange(
                stream_offset(more, i),
                stream_offset(more, i + 1),
            ) =~= bytes.subrange(stream_offset(payloads, i), stream_offset(payloads, i + 1)));
        } else {
            assert((bytes + record).subrange(
                stream_offset(more, i),
                stream_offset(more, i + 1),
            ) =~= record);
        }
    }
}

/// The record with the number `i` of a stream is a valid storage entry at
/// its place, which ends where the next record starts.
pub proof fn lemma_stream_record<'a>(
    bytes: Seq<u8>,
    ecu: Seq<u8>,
    app: Seq<u8>,
    payloads: Seq<Seq<u8>>,
    i: int,
)
    requires
        is_stream_of(bytes, ecu, app, payloads),
        payloads_fit(payloads),
        0 <= i < payloads.len(),
    ensures
        0 <= stream_offset(payloads, i) < stream_offset(payloads, i + 1) <= bytes.len(),
        DltStorageEntry::<'a>::record_len(bytes.skip(stream_offset(payloads, i))) == Some(
            (34 + payloads[i].len()) as nat,
        ),
        bytes.skip(stream_offset(payloads, i)).subrange(0, 34 + payloads[i].len() as int)
            == bytes.subrange(stream_offset(payloads, i), stream_offset(payloads, i + 1)),
{
    let lo = stream_offset(payloads, i);
    let hi = stream_offset(payloads, i + 1);
    let record = bytes.subrange(lo, hi);
    let n = (34 + payloads[i].len()) as nat;
    lemma_stream_offset_rises(payloads, i, i + 1);
    assert(is_written_at(bytes, ecu, app, payloads, i));
    lemma_written_is_valid(record, ecu, app, i, payloads[i]);
    assert(bytes.skip(lo).subrange(0, n as int) =~= record);
    assert(record.subrange(0, n as int) =~= record);
    DltStorageEntry::<'a>::lemma_record_len_local(record, bytes.skip(lo), n);
}

/// What is written is read back, for a stream: the bytes of the records
/// for `payloads`, numbered from zero and written one behind the other, are
/// a concatenation of valid storage entries, both forward iterations give
/// the places of the records in turn, and every entry that is read at the
/// place of the record with the number `i` holds the payload with that
/// number, `i * 100` as its timestamp and `ecu` in its storage header.
pub proof fn lemma_stream_round_trip<'a>(
    bytes: Seq<u8>,
    ecu: Seq<u8>,
    app: Seq<u8>,
    payloads: Seq<Seq<u8>>,
)
    requires
        is_stream_of(bytes, ecu, app, payloads),
        payloads_fit(payloads),
        payloads.len() <= MAX_COUNTER + 1,
    ensures
        is_concatenation::<DltStorageEntry<'a>>(bytes, stream_offsets(payloads)),
        fallback_run::<DltStorageEntry<'a>>(bytes, 0) == stream_offsets(payloads),
        search_run::<DltStorageEntry<'a>>(bytes, 0) == stream_offsets(payloads),
        forall|i: int, e: DltStorageEntry<'a>|
            0 <= i < payloads.len() && #[trigger] e.read_from(
                bytes.skip(stream_offset(payloads, i)),
            ) ==> {
                &&& e.dlt.spec_payload() == Some(payloads[i])
                &&& e.dlt.spec_timestamp() == Some((i * 100) as u32)
                &&& e.dlt.header.message_counter == i % 256
                &&& e.storage_header.ecu@ == ecu
                &&& e.storage_header.secs == i / 100
                &&& e.storage_header.msecs == (i % 100) * 10000
            },
{
    let offs = stream_offsets(payloads);
    assert forall|i: int| 0 <= i < offs.len() implies #[trigger] follows::<DltStorageEntry<'a>>(
        bytes,
        offs,
        i,
    ) by {
        lemma_stream_record(bytes, ecu, app, payloads, i);
    }
    lemma_forward_gives_concatenation::<DltStorageEntry<'a>>(bytes, offs);
    assert forall|i: int, e: DltStorageEntry<'a>|
        0 <= i < payloads.len() && #[trigger] e.read_from(
            bytes.skip(stream_offset(payloads, i)),
        ) implies {
        &&& e.dlt.spec_payload() == Some(payloads[i])
        &&& e.dlt.spec_timestamp() == Some((i * 100) as u32)
        &&& e.dlt.header.message_counter == i % 256
        &&& e.storage_header.ecu@ == ecu
        &&& e.storage_header.secs == i / 100
        &&& e.storage_header.msecs == (i % 100) * 10000
    } by {
        let rest = bytes.skip(stream_offset(payloads, i));
        let n = (34 + payloads[i].len()) as nat;
        lemma_stream_record(bytes, ecu, app, payloads, i);
        lemma_read_front(e, rest, n);
        assert(is_written_at(bytes, ecu, app, payloads, i));
        lemma_written_is_read(e, rest.subrange(0, n as int), ecu, app, i, payloads[i]);
    }
}

} // verus!
