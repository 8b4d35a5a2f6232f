use rapiddlt::contained::{partition_from, ContainedBySearch};
use rapiddlt::dlt_v1::{
    dltit,
    dltit_offset,
    merge_overlapping_timestamps,
    DltControlMessageTypeInfo,
    DltEntry,
    DltHTyp,
    DltLogMessageTypeInfo,
    DltMessageType,
    DltNetworkMessageTypeInfo,
    DltStorageEntry,
    DltStorageHeader,
    DltTraceMessageTypeInfo,
    MessageType,
};
use rapiddlt::readable::{FromBytesReadableTrait, RecordIterator};
use rapiddlt::searchable::grepit::GrepIterator;
use rapiddlt::searchable::{search_last_marker, search_marker, SearchableMarkerTrait};
use rapiddlt::writer::{pad_id, write_record};

const RECORD: [u8; 78] = [
    68, 76, 84, 1, 102, 26, 74, 101, 220, 63, 15, 0, 69, 48, 48, 49, 49, 226, 0, 62, 0, 37, 20, 44,
    65, 1, 65, 48, 48, 49, 67, 48, 48, 49, 0, 130, 0, 0, 38, 0, 45, 45, 97, 110, 111, 110, 44, 114,
    101, 99, 101, 112, 116, 105, 111, 110, 95, 116, 105, 109, 101, 58, 49, 54, 57, 57, 51, 53, 53,
    50, 51, 56, 57, 57, 57, 109, 115, 0,
];

#[test]
fn storage_header() {
    let sh = DltStorageHeader::ref_from_prefix(&[68, 76, 84, 1, 1, 0, 0, 0, 0, 0, 0, 0, 01, 99, 17, 49]);
    println!("{:?}", sh);
    assert!(sh.is_some());
    let sh = sh.unwrap();
    assert_eq!(sh.pattern, [68, 76, 84, 1]);
    assert_eq!(sh.secs, 1);
    assert_eq!(sh.msecs, 0);
    assert_eq!(sh.ecu, [1, 99, 17, 49]);
}

#[test]
fn storage_header_is_little_endian() {
    let sh = DltStorageHeader::ref_from_prefix(&RECORD).unwrap();
    assert_eq!(sh.secs, 0x654a1a66);
    assert_eq!(sh.msecs, 0x000f3fdc);
    let neg = DltStorageHeader::ref_from_prefix(&[68, 76, 84, 1, 0, 0, 0, 0, 0xfe, 0xff, 0xff, 0xff, 0, 0, 0, 0])
        .unwrap();
    assert_eq!(neg.msecs, -2);
    assert!(DltStorageHeader::ref_from_prefix(&RECORD[..15]).is_none());
}

#[test]
fn dlt_robust_iterator_none() {
    let buf = [
        68, 76, 84, 1, 226, 26, 74, 101, 79, 4, 1, 0, 69, 48, 48, 49, 68, 76, 84, 1, 226, 26, 74, 101,
        79, 4, 1, 0, 69, 48, 48, 49, 68, 76, 84, 1, 68, 76, 84, 1, 68, 76, 84, 1,
    ];
    let mut it = dltit(&buf);

    assert!(it.next().is_none());
}

#[test]
fn dltentry_empty() {
    let buf = [0u8; 0];
    assert!(DltStorageEntry::try_read(&buf).is_none());
    assert!(DltEntry::try_read(&buf).is_none());
}

#[test]
fn dltentry_zeros() {
    let buf = [0u8; 100];
    assert!(DltStorageEntry::try_read(&buf).is_none());
    assert!(DltEntry::try_read(&buf).is_none());
}

#[test]
fn dltstorageentry_oneoff() {
    let buf = [
        68, 76, 84, 1, 226, 26, 74, 101, 79, 4, 1, 0, 69, 48, 48, 49, 49, 63, 0, 62, 0, 0, 132, 198,
        65, 4, 65, 48, 49, 49, 67, 48, 48, 49, 0, 130, 0, 0, 38, 0, 45, 45, 97, 110, 111, 110, 44,
        114, 101, 99, 101, 112, 116, 105, 111, 110, 95, 116, 105, 109, 101, 58, 49, 54, 57, 57, 51,
        53, 53, 51, 54, 50, 48, 54, 54, 109, 115,
    ];
    let h = DltStorageEntry::try_read(&buf);
    assert!(h.is_none());
}

#[test]
fn dltstorageentry_onlystorage() {
    let buf = [68, 76, 84, 1, 226, 26, 74, 101, 79, 4, 1, 0, 69, 48, 48, 49];
    let _sh = DltStorageHeader::ref_from_prefix(&buf).expect("expected Storage Header");
    let h = DltStorageEntry::try_read(&buf);
    assert!(h.is_none());
}

#[test]
fn dltstorageentry_incorrect() {
    let buf = RECORD;
    let dlt = DltEntry::try_read(&buf);
    assert!(dlt.is_none());
}

#[test]
fn dltstorageentry_correct() {
    let buf = RECORD;
    let (offset, se) = DltStorageEntry::try_read(&buf).expect("valid DLT entry");
    let dlt = &se.dlt;
    println!("storage: {:?}", se);
    assert_eq!(offset, 78);
    assert_eq!(dlt.header.length(), buf.len() - 16);
    assert_eq!(dlt.header.length(), 62);
    assert!(!dlt.header.header_type.is_with_ecu_id());
    assert!(!dlt.header.header_type.is_with_session_id());
    assert!(dlt.header.header_type.is_with_timestamp());
    assert!(dlt.header.header_type.is_extended_header());
    assert_eq!(dlt.timestamp().expect("timetamp expected"), 2429996);
    assert_eq!(dlt.timestamp(), Some(2429996));
    let p = dlt.payload().expect("payload expected");

    assert_eq!(&buf[0x22..], p);
    assert_eq!(p.len(), 44);
    assert_eq!(&p[..6], &[0, 130, 0, 0, 38, 0]);
    assert_eq!(p[6..].len(), 38);
    println!("payload: {:?}", p);
    assert_eq!(se.len(), 78);
    assert_eq!(DltStorageEntry::max_len(), 65535 + 16);
}

#[test]
fn dltstorageentry_correct2() {
    let buf = [
        68, 76, 84, 1, 226, 26, 74, 101, 79, 4, 1, 0, 69, 48, 48, 49, 49, 63, 0, 62, 0, 0, 132, 198,
        65, 4, 65, 48, 49, 49, 67, 48, 48, 49, 0, 130, 0, 0, 38, 0, 45, 45, 97, 110, 111, 110, 44,
        114, 101, 99, 101, 112, 116, 105, 111, 110, 95, 116, 105, 109, 101, 58, 49, 54, 57, 57, 51,
        53, 53, 51, 54, 50, 48, 54, 54, 109, 115, 0,
    ];
    let (offset, se) = DltStorageEntry::try_read(&buf).expect("valid DLT entry");
    let dlt = &se.dlt;
    assert_eq!(offset, 78);
    assert_eq!(dlt.header.length(), buf.len() - 16);
    assert!(!dlt.header.header_type.is_with_ecu_id());
    assert!(!dlt.header.header_type.is_with_session_id());
    assert!(dlt.header.header_type.is_with_timestamp());
    assert!(dlt.header.header_type.is_extended_header());
    assert_eq!(dlt.timestamp().expect("timetamp expected"), 33990);
    let p = dlt.payload().expect("payload expected");

    assert_eq!(&buf[0x22..], p);
    println!("payload: {:?}", p);
}

#[test]
fn extended_header_of_record() {
    let (_, se) = DltStorageEntry::try_read(&RECORD).unwrap();
    let eh = se.dlt.extended_header().expect("extended header expected");
    assert_eq!(eh.msin.msin, 65);
    assert_eq!(eh.noar, 1);
    assert_eq!(eh.apid, [65, 48, 48, 49]);
    assert_eq!(eh.ctid, [67, 48, 48, 49]);
    assert!(eh.msin.is_verbose());
    assert_eq!(
        eh.msin.message_type(),
        Some(DltMessageType::DltTypeLog(DltLogMessageTypeInfo::DltLogInfo))
    );
    assert_eq!(se.dlt.ecu_id(), None);
    assert_eq!(se.dlt.session_id(), None);
    assert_eq!(se.storage_header.ecu, [69, 48, 48, 49]);
}

#[test]
fn optional_fields_in_order() {
    // ecu id, session id and timestamp, no extended header
    let mut buf = vec![68, 76, 84, 1, 0, 0, 0, 0, 0, 0, 0, 0, 69, 67, 85, 49];
    buf.extend_from_slice(&[0x3c, 7, 0, 18]);
    buf.extend_from_slice(&[0, 0, 0, 1, 0, 0, 1, 0, 0, 1, 0, 0]);
    buf.extend_from_slice(&[9, 9]);
    let (n, se) = DltStorageEntry::try_read(&buf).unwrap();
    assert_eq!(n, 34);
    assert_eq!(se.dlt.ecu_id(), Some(1));
    assert_eq!(se.dlt.session_id(), Some(256));
    assert_eq!(se.dlt.timestamp(), Some(65536));
    assert!(se.dlt.extended_header().is_none());
    assert_eq!(se.dlt.payload(), Some(&[9u8, 9][..]));
    assert_eq!(se.dlt.header.header_type.version(), 1);
    assert!(!se.dlt.header.header_type.is_msb_first());
}

#[test]
fn try_read_rejects() {
    // wrong pattern
    let mut buf = RECORD;
    buf[3] = 2;
    assert!(DltStorageEntry::try_read(&buf).is_none());
    // a message shorter than its standard header
    let mut buf = RECORD;
    buf[18] = 0;
    buf[19] = 3;
    assert!(DltStorageEntry::try_read(&buf).is_none());
    // a length that reaches behind the bytes
    let mut buf = RECORD;
    buf[19] = 63;
    assert!(DltStorageEntry::try_read(&buf).is_none());
    // an extended header that is announced and does not fit
    let mut buf = RECORD;
    buf[19] = 17;
    assert!(DltStorageEntry::try_read(&buf).is_none());
    let mut buf = RECORD;
    buf[19] = 18;
    let (n, se) = DltStorageEntry::try_read(&buf).unwrap();
    assert_eq!(n, 34);
    assert_eq!(se.dlt.payload().unwrap().len(), 0);
    // without the flag the short message is taken
    let mut buf = RECORD;
    buf[16] = 0x30;
    buf[19] = 4;
    let (n, se) = DltStorageEntry::try_read(&buf).unwrap();
    assert_eq!(n, 20);
    assert_eq!(se.dlt.timestamp(), None);
    assert_eq!(se.dlt.payload(), None);
}

#[test]
fn spurious_marker() {
    let buf = [68, 76, 84, 1, 0, 0, 0, 0, 0, 0, 0, 0, 0, 0, 0];
    assert!(DltStorageEntry::try_read(&buf).is_none());
    assert!(DltStorageEntry::try_read_valid_marker(&buf).is_none());
    let mut it = dltit_offset(&buf);
    assert!(it.next().is_none());
    let mut it = dltit(&buf);
    assert!(it.next().is_none());
}

#[test]
fn htyp_flags() {
    let h = DltHTyp::new(true, false, false, false, true, 0x1);
    assert_eq!(h.htyp, 0x31);
    assert!(h.is_extended_header());
    assert!(!h.is_msb_first());
    assert!(!h.is_with_ecu_id());
    assert!(!h.is_with_session_id());
    assert!(h.is_with_timestamp());
    assert_eq!(h.version(), 1);
    let h = DltHTyp::new(false, true, true, true, false, 7);
    assert_eq!(h.htyp, 0xee);
    assert_eq!(h.version(), 7);
    let h = DltHTyp::new(false, false, false, false, false, 9);
    assert_eq!(h.version(), 1);
}

#[test]
fn message_type_round_trip() {
    let all = [
        DltMessageType::DltTypeLog(DltLogMessageTypeInfo::DltLogFatal),
        DltMessageType::DltTypeLog(DltLogMessageTypeInfo::DltLogVerbose),
        DltMessageType::DltTypeAppTrace(DltTraceMessageTypeInfo::DltTraceVfb),
        DltMessageType::DltTypeNwTrace(DltNetworkMessageTypeInfo::DltNwTraceSomeip),
        DltMessageType::DltTypeControl(DltControlMessageTypeInfo::DltControlResponse),
    ];
    for typ in all {
        for verbose in [false, true] {
            let m = MessageType::create_message_type(verbose, typ);
            assert_eq!(m.info(), (verbose, Some(typ)));
        }
    }
    let m = MessageType::create_message_type(true, DltMessageType::DltTypeControl(DltControlMessageTypeInfo::DltControlRequest));
    assert_eq!(m.msin, 0x17);
    assert_eq!(MessageType { msin: 0x00 }.message_type(), None);
    assert_eq!(MessageType { msin: 0x78 }.message_type(), None);
    assert_eq!(MessageType { msin: 0x36 }.message_type(), None);
    assert_eq!(DltLogMessageTypeInfo::from_u8(7), None);
    assert_eq!(DltTraceMessageTypeInfo::from_u8(6), None);
    assert_eq!(DltNetworkMessageTypeInfo::from_u8(0), None);
    assert_eq!(DltControlMessageTypeInfo::from_u8(3), None);
}

#[test]
fn marker_search() {
    let mut buf = vec![0x22u8, 0x22];
    buf.extend_from_slice(&RECORD);
    buf.extend_from_slice(&RECORD);
    assert_eq!(search_marker::<DltStorageEntry>(&buf), Some(2));
    assert_eq!(search_last_marker::<DltStorageEntry>(&buf), Some(80));
    assert_eq!(search_marker::<DltStorageEntry>(&buf[3..]), Some(77));
    assert_eq!(search_marker::<DltStorageEntry>(&buf[..5]), None);
    assert_eq!(search_last_marker::<DltStorageEntry>(&buf[..5]), None);
    assert_eq!(DltStorageEntry::marker(), b"DLT\x01");
}

fn stream(records: u32, payload: &[u8]) -> Vec<u8> {
    let mut out = vec![];
    for counter in 0..records {
        out.extend_from_slice(&write_record(pad_id(b"ECU1"), pad_id(b"APP1"), counter, payload));
    }
    out
}

fn count(bytes: &[u8]) -> usize {
    let mut it = dltit(bytes);
    let mut n = 0;
    while it.next().is_some() {
        n += 1;
    }
    assert_eq!(n, rapiddlt::dlt_v1::count(bytes));
    n
}

#[test]
fn writer_record_layout() {
    let rec = write_record(pad_id(b"ECU1"), pad_id(b"AP"), 12345, &[7, 8, 9]);
    assert_eq!(
        rec,
        vec![
            68, 76, 84, 1, 123, 0, 0, 0, 0xd0, 0xdd, 0x06, 0, 69, 67, 85, 49, 0x31, 57, 0, 21, 0, 0x12,
            0xd6, 0x44, 0, 0, 65, 80, 0, 0, 65, 80, 0, 0, 7, 8, 9
        ]
    );
    assert_eq!(pad_id(b"ECU12"), *b"ECU1");
    assert_eq!(pad_id(b""), [0, 0, 0, 0]);
}

#[test]
fn writer_reader_round_trip() {
    let zeros = vec![0u8; 1 << 20];
    let mut out = vec![];
    for (counter, chunk) in zeros.chunks(128).enumerate() {
        out.extend_from_slice(&write_record(pad_id(b"ECU1"), pad_id(b"APP1"), counter as u32, chunk));
    }
    let mut it = dltit_offset(&out);
    let mut n: u32 = 0;
    while let Some((offset, entry)) = it.next() {
        assert_eq!(offset, n as usize * (34 + 128));
        assert_eq!(entry.dlt.payload().unwrap().len(), 128);
        assert_eq!(entry.dlt.timestamp(), Some(n * 100));
        assert_eq!(entry.storage_header.secs, n / 100);
        assert_eq!(entry.storage_header.msecs, (n % 100) as i32 * 10000);
        assert_eq!(entry.dlt.header.message_counter, n as u8);
        assert_eq!(entry.storage_header.ecu, *b"ECU1");
        n += 1;
    }
    assert_eq!(n, 8192);
}

#[test]
fn payload_round_trip() {
    let payload = b"some payload with DLT\x01 in it";
    let rec = write_record(pad_id(b"E"), pad_id(b"A"), 7, payload);
    let (n, entry) = DltStorageEntry::try_read(&rec).unwrap();
    assert_eq!(n, rec.len());
    assert_eq!(entry.dlt.payload(), Some(&payload[..]));
    assert_eq!(entry.dlt.timestamp(), Some(700));
    assert_eq!(count(&rec), 1);
}

#[test]
fn contained_by_finds_outermost() {
    let payload = b"xxDLT\x01yy";
    let bytes = stream(3, payload);
    let len = 34 + payload.len();
    let search = ContainedBySearch::<DltStorageEntry>::new();
    // a range inside the second record
    let (c, r) = search.contained_by(&bytes, (len + 40, len + 41)).unwrap();
    assert_eq!(c, len);
    assert_eq!(r.len(), len);
    // the marker inside the payload of the second record
    let (c, _) = search.contained_by(&bytes, (len + 36, len + 40)).unwrap();
    assert_eq!(c, len);
    // the start of a record lies in no record
    assert!(search.contained_by(&bytes, (len, len + 4)).is_none());
    assert!(search.contained_by(&bytes, (0, 1)).is_none());
    // ranges that are refused
    assert!(search.contained_by(&bytes, (5, 5)).is_none());
    assert!(search.contained_by(&bytes, (6, 5)).is_none());
    assert!(search.contained_by(&bytes, (bytes.len(), bytes.len() + 1)).is_none());
    assert!(search.contained_by(&bytes, (bytes.len() - 1, bytes.len())).is_none());
    assert!(search.contained_by(&[], (0, 0)).is_none());
}

#[test]
fn partition_keeps_records_whole() {
    let bytes = stream(1000, b"0123456789");
    for num in [1usize, 2, 3, 7, 16] {
        let slices = partition_from::<DltStorageEntry>(&bytes, num);
        assert!(!slices.is_empty());
        assert!(slices.len() <= num);
        let mut total = 0;
        let mut counted = 0;
        for slice in slices.iter() {
            assert!(DltStorageEntry::try_read(slice).is_some());
            assert_eq!(slice.as_ptr(), bytes[total..].as_ptr());
            total += slice.len();
            counted += count(slice);
        }
        assert_eq!(total, bytes.len());
        assert_eq!(counted, 1000);
    }
}

#[test]
fn partition_nasty_payloads() {
    // every payload holds the marker, once followed by what reads as a record
    let mut nested = b"DLT\x01".to_vec();
    nested.extend_from_slice(&[0; 12]);
    nested.extend_from_slice(&[0x20, 0, 0, 4]);
    nested.extend_from_slice(b"DLT\x01 and more");
    let bytes = stream(5000, &nested);
    assert_eq!(count(&bytes), 5000);
    let slices = partition_from::<DltStorageEntry>(&bytes, 500);
    let mut total = 0;
    let mut counted = 0;
    for slice in slices.iter() {
        total += slice.len();
        counted += count(slice);
    }
    assert_eq!(total, bytes.len());
    assert_eq!(counted, 5000);
}

#[test]
fn partition_of_few_bytes() {
    assert!(partition_from::<DltStorageEntry>(&[], 4).is_empty());
    let slices = partition_from::<DltStorageEntry>(&[1, 2, 3], 1);
    assert_eq!(slices, vec![&[1u8, 2, 3][..]]);
    // a partition length of zero cuts nothing
    assert!(partition_from::<DltStorageEntry>(&[1, 2, 3], 4).is_empty());
}

#[test]
fn grep_containment() {
    let mut bytes = vec![];
    for counter in 200..203 {
        bytes.extend_from_slice(&write_record(pad_id(b"ECU1"), pad_id(b"APP1"), counter, b"Hello foo world"));
    }
    let mut it = GrepIterator::<DltStorageEntry>::new("H.* world", &bytes, 0);
    let mut offsets = vec![];
    while let Some((offset, entry)) = it.next() {
        assert_eq!(entry.dlt.payload(), Some(&b"Hello foo world"[..]));
        offsets.push(offset);
    }
    assert_eq!(offsets, vec![0, 49, 98]);
}

#[test]
fn grep_passes_over_a_match_across_records() {
    let mut bytes = vec![];
    for counter in 200..203 {
        bytes.extend_from_slice(&write_record(pad_id(b"ECU1"), pad_id(b"APP1"), counter, b"Hello foo world"));
    }
    // from the payload of the first record into the second
    let mut it = GrepIterator::<DltStorageEntry>::new(r"(?s-u)world.*DLT\x01", &bytes, 0);
    let mut offsets = vec![];
    while let Some((offset, _)) = it.next() {
        offsets.push(offset);
    }
    assert!(offsets.is_empty());
    // a pattern that matches the empty string gives each record once
    let mut it = GrepIterator::<DltStorageEntry>::new("x*", &bytes, 0);
    let mut n = 0;
    while it.next().is_some() {
        n += 1;
    }
    assert!(n <= 3);
}

#[test]
fn grep_pattern_that_does_not_compile() {
    assert!(GrepIterator::<DltStorageEntry>::try_new("foo(bar", &[], 0).is_none());
    assert!(GrepIterator::<DltStorageEntry>::try_new("foo(bar)", &[], 0).is_some());
}

#[test]
fn partition_may_leave_a_tail() {
    // ten records of 50 bytes in three partitions: the cuts fall back to the
    // starts of records, and what is left behind the last cut is more than
    // a quarter of a partition and less than a whole one
    let bytes = stream(10, &[0; 16]);
    assert_eq!(bytes.len(), 500);
    let slices = partition_from::<DltStorageEntry>(&bytes, 3);
    let lens: Vec<usize> = slices.iter().map(|s| s.len()).collect();
    assert_eq!(lens, vec![150, 150, 150]);
    // a record that is longer than a partition stops the cutting
    let bytes = stream(2, &[0; 100]);
    assert!(partition_from::<DltStorageEntry>(&bytes, 4).is_empty());
}

#[test]
fn overlapping_spans_are_merged() {
    // the records with the numbers 100 * s were recorded in the second s
    let bytes = stream(901, &[]);
    let at = |secs: usize| DltStorageEntry::try_read(&bytes[secs * 100 * 34..]).unwrap().1;
    let secs = |r: Option<(DltStorageEntry, DltStorageEntry)>| {
        r.map(|(first, last)| (first.storage_header.secs, last.storage_header.secs))
    };
    assert_eq!(at(3).storage_header.secs, 3);
    assert_eq!(secs(merge_overlapping_timestamps(&(at(0), at(3)), &(at(2), at(5)))), Some((0, 5)));
    assert_eq!(secs(merge_overlapping_timestamps(&(at(2), at(5)), &(at(0), at(3)))), Some((0, 5)));
    assert_eq!(secs(merge_overlapping_timestamps(&(at(0), at(9)), &(at(2), at(5)))), Some((0, 9)));
    assert_eq!(secs(merge_overlapping_timestamps(&(at(0), at(2)), &(at(2), at(2)))), Some((0, 2)));
    assert_eq!(secs(merge_overlapping_timestamps(&(at(0), at(1)), &(at(2), at(5)))), None);
    assert_eq!(secs(merge_overlapping_timestamps(&(at(6), at(7)), &(at(2), at(5)))), None);
}

#[test]
fn partition_of_records_with_gaps() {
    // bytes that hold no marker stand before, between and behind the records
    let mut bytes = vec![];
    for counter in 0..1000u32 {
        bytes.extend_from_slice(b"no record here");
        bytes.extend_from_slice(&write_record(pad_id(b"ECU1"), pad_id(b"APP1"), counter, b"0123456789"));
    }
    bytes.extend_from_slice(b"nor here");
    assert_eq!(count(&bytes), 1000);
    for num in [1usize, 2, 3, 7, 16] {
        let slices = partition_from::<DltStorageEntry>(&bytes, num);
        let mut total = 0;
        let mut counted = 0;
        for slice in slices.iter() {
            assert_eq!(slice.as_ptr(), bytes[total..].as_ptr());
            total += slice.len();
            counted += count(slice);
        }
        assert_eq!(total, bytes.len());
        assert_eq!(counted, 1000);
    }
}

#[test]
fn partition_cut_drawn_into_a_record() {
    // the first record ends with the first half of the marker, and the gap
    // behind it begins with the second half and goes on as a record would
    let mut payload = vec![0u8; 62];
    payload.extend_from_slice(b"DL");
    let mut bytes = write_record(pad_id(b"ECU1"), pad_id(b"APP1"), 0, &payload);
    assert_eq!(bytes.len(), 98);
    bytes.extend_from_slice(b"T\x01");
    bytes.extend_from_slice(&[0; 12]);
    bytes.extend_from_slice(&[0x20, 0, 0, 100]);
    bytes.extend_from_slice(&[0; 96]);
    assert_eq!(bytes.len(), 212);
    bytes.extend_from_slice(&stream(2, &[0; 16]));
    assert_eq!(bytes.len(), 312);
    // read as a whole, the buffer gives the three records that it holds
    let mut it = dltit_offset(&bytes);
    let mut offsets = vec![];
    while let Some((offset, _)) = it.next() {
        offsets.push(offset);
    }
    assert_eq!(offsets, vec![0, 212, 262]);
    // what reads as a record at 96 covers the place of the first cut
    let search = ContainedBySearch::<DltStorageEntry>::new();
    let (c, r) = search.contained_by(&bytes, (156, 157)).unwrap();
    assert_eq!((c, r.len()), (96, 116));
    let slices = partition_from::<DltStorageEntry>(&bytes, 2);
    let lens: Vec<usize> = slices.iter().map(|s| s.len()).collect();
    assert_eq!(lens, vec![96, 116]);
    // the first record is cut short and lost
    assert_eq!(count(slices[0]), 0);
    assert_eq!(count(slices[1]), 1);
}
