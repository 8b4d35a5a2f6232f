use rapiddlt::readable::{RecordIterator, TIterator, WithOffset};
use rapiddlt::readit::ReadIterator;
use rapiddlt::searchable::grepit::{GrepIterator, RegExMatcherIterator};
use rapiddlt::searchable::readfallbackit::ReadFallbackIterator;
use rapiddlt::searchable::searchit::{RevSearchIterator, SearchIterator};
use rapiddlt::searchable::testit::WrapTestStruct;

enum TestKind {
    Forward,
    Backward,
}

fn collect<I: RecordIterator>(mut it: I) -> Vec<WithOffset<I::Item>> {
    let mut all = vec![];
    while let Some(found) = it.next() {
        all.push(found);
    }
    all
}

fn test_num_matches<'bytes, I>(bytes: &'bytes [u8], kind: TestKind)
where
    I: TIterator<'bytes> + RecordIterator<Item = WrapTestStruct>,
{
    const N: usize = 4;
    let it = match kind {
        TestKind::Forward => I::new(bytes, 0),
        TestKind::Backward => I::new(bytes, bytes.len()),
    };

    let mut i = 0;
    for (offset, val) in collect(it) {
        i += 1;
        println!("it={:?}", (offset, val));
        assert_eq!(0, offset % 8);
    }
    assert_eq!(N, i);
}

fn test_robust_offset<'bytes, I>(bytes: &'bytes [u8], kind: TestKind)
where
    I: TIterator<'bytes> + RecordIterator<Item = WrapTestStruct>,
{
    const N: usize = 4;
    let it = match kind {
        TestKind::Forward => I::new(bytes, 0),
        TestKind::Backward => I::new(bytes, bytes.len()),
    };

    let mut i = 0;
    for (offset, val) in collect(it) {
        i += 1;
        println!("it={:?}", (offset, val));
        match kind {
            TestKind::Forward => assert_eq!(0, (offset - 2) * i % 10),
            TestKind::Backward => assert_eq!(0, (offset - 2) * i % 10),
        };
    }
    assert_eq!(N, i);
}

fn test_skipped_simple<'bytes, I>(bytes: &'bytes [u8])
where
    I: TIterator<'bytes> + RecordIterator<Item = WrapTestStruct>,
{
    let mut it = I::new(bytes, 0);

    let (offset, val) = it.next().expect("expect valid first entry");
    assert_eq!(0, offset);
    assert_eq!(val.inner.val, 0x1);
    let (offset, val) = it.next().expect("expect valid second entry");
    assert_eq!(9, offset);
    assert_eq!(val.inner.val, 0x1);
}

fn test_wrap_values<'bytes, I>(bytes: &'bytes [u8])
where
    I: TIterator<'bytes> + RecordIterator<Item = WrapTestStruct>,
{
    let it = I::new(bytes, 0);
    assert!(collect(it).into_iter().map(|(_, val)| val.inner.val).all(|v| v == 0xFF));
}

fn num_matches_bytes() -> Vec<u8> {
    [0x1, 0x2, 0x3, 0x4, 0x0, 0x0, 0x0, 0x1].repeat(4)
}

fn robust_offset_bytes() -> Vec<u8> {
    [34, 34, 0x1, 0x2, 0x3, 0x4, 0x0, 0x0, 0x0, 0x1].repeat(4)
}

fn skipped_simple_bytes() -> Vec<u8> {
    [0x1, 0x2, 0x3, 0x4, 0x0, 0x0, 0x0, 0x1, 34].repeat(2)
}

fn wrap_values_bytes() -> Vec<u8> {
    [0x1, 0x2, 0x3, 0x22, 0x22, 0x1, 0x2, 0x3, 0x4, 0x0, 0x0, 0x0, 0xFF, 0x1, 0x2, 0x3].repeat(2)
}

#[test]
fn searchit_num_matches() {
    test_num_matches::<SearchIterator<WrapTestStruct>>(&num_matches_bytes(), TestKind::Forward);
}

#[test]
fn searchit_robust_offset() {
    test_robust_offset::<SearchIterator<WrapTestStruct>>(&robust_offset_bytes(), TestKind::Forward);
}

#[test]
fn searchit_skipped_simple() {
    test_skipped_simple::<SearchIterator<WrapTestStruct>>(&skipped_simple_bytes());
}

#[test]
fn searchit_wrap_values() {
    test_wrap_values::<SearchIterator<WrapTestStruct>>(&wrap_values_bytes());
}

#[test]
fn revsearchit_num_matches() {
    test_num_matches::<RevSearchIterator<WrapTestStruct>>(&num_matches_bytes(), TestKind::Backward);
}

#[test]
fn revsearchit_robust_offset() {
    test_robust_offset::<RevSearchIterator<WrapTestStruct>>(&robust_offset_bytes(), TestKind::Backward);
}

#[test]
fn revsearchit_wrap_values() {
    test_wrap_values::<RevSearchIterator<WrapTestStruct>>(&wrap_values_bytes());
}

#[test]
fn readit_num_matches() {
    test_num_matches::<ReadFallbackIterator<WrapTestStruct>>(&num_matches_bytes(), TestKind::Forward);
}

#[test]
fn readit_robust_offset() {
    test_robust_offset::<ReadFallbackIterator<WrapTestStruct>>(&robust_offset_bytes(), TestKind::Forward);
}

#[test]
fn readit_skipped_simple() {
    test_skipped_simple::<ReadFallbackIterator<WrapTestStruct>>(&skipped_simple_bytes());
}

#[test]
fn readit_wrap_values() {
    test_wrap_values::<ReadFallbackIterator<WrapTestStruct>>(&wrap_values_bytes());
}

#[test]
fn grepit_test() {
    const N: usize = 4;
    let bytes = [
        0x1, 0x2, 0x3, 0x4, 0x0, 0x0, 0x0, 0xFF, 0x1, 0x2, 0x3, 0x4, 0xC, 0xA, 0xF, 0xF, 0x1, 0x2, 0x3,
        0x4, 0x0, 0x0, 0x0, 0xFF,
    ]
    .repeat(N);
    let it = GrepIterator::<WrapTestStruct>::new(r"\x0C\x0A\x0F\x0F", &bytes, 0);

    let mut i = 0;
    for (offset, val) in collect(it) {
        println!("it={:?}", (offset, val));
        assert_eq!(24 * i + 8, offset);
        i += 1;
    }
    assert_eq!(N, i);
}

#[test]
fn grepit_test2() {
    const N: usize = 1;
    let bytes = [
        0xC, 0xA, 0xF, 0xF, 0xC, 0xA, 0xF, 0xF, 0x1, 0x2, 0x3, 0x4, 0xC, 0xA, 0xF, 0xF, 0x1, 0x2, 0x3,
        0x4, 0x0, 0x0, 0x0, 0xFF, 0xC, 0xA, 0xF, 0xF,
    ];
    let it = GrepIterator::<WrapTestStruct>::new(r"\x0C\x0A\x0F\x0F", &bytes, 0);

    let mut i = 0;
    for (offset, val) in collect(it) {
        i += 1;
        println!("it={:?}", (offset, val));
        assert_eq!(i * 8, offset);
    }
    assert_eq!(N, i);
}

#[test]
fn rev_search_gives_records_in_reverse() {
    let bytes = robust_offset_bytes();
    let forward: Vec<usize> = collect(SearchIterator::<WrapTestStruct>::new(&bytes, 0))
        .into_iter()
        .map(|(offset, _)| offset)
        .collect();
    let mut backward: Vec<usize> = collect(RevSearchIterator::<WrapTestStruct>::new(&bytes, bytes.len()))
        .into_iter()
        .map(|(offset, _)| offset)
        .collect();
    assert_eq!(forward, vec![2, 12, 22, 32]);
    backward.reverse();
    assert_eq!(forward, backward);
    let fallback: Vec<usize> = collect(ReadFallbackIterator::<WrapTestStruct>::new(&bytes, 0))
        .into_iter()
        .map(|(offset, _)| offset)
        .collect();
    assert_eq!(forward, fallback);
}

#[test]
fn exhausted_iterators_stay_exhausted() {
    let bytes = num_matches_bytes();
    let mut rev = RevSearchIterator::<WrapTestStruct>::new(&bytes, bytes.len());
    while rev.next().is_some() {}
    assert!(rev.next().is_none());
    assert_eq!(rev.offset, usize::MAX);
    let mut fwd = SearchIterator::<WrapTestStruct>::new(&bytes, 0);
    while fwd.next().is_some() {}
    assert!(fwd.next().is_none());
    let mut past = SearchIterator::<WrapTestStruct>::new(&bytes, bytes.len() + 5);
    assert!(past.next().is_none());
    let mut past = RevSearchIterator::<WrapTestStruct>::new(&bytes, bytes.len() + 5);
    assert_eq!(past.next().map(|(offset, _)| offset), Some(24));
}

#[test]
fn read_iterator_ends_at_a_gap() {
    let bytes = skipped_simple_bytes();
    let all = collect(ReadIterator::<WrapTestStruct>::new(&bytes, 0));
    assert_eq!(all.len(), 1);
    assert_eq!(all[0].0, 0);
    let bytes = num_matches_bytes();
    let all = collect(ReadIterator::<WrapTestStruct>::new(&bytes, 0));
    assert_eq!(all.iter().map(|(offset, _)| *offset).collect::<Vec<_>>(), vec![0, 8, 16, 24]);
}

#[test]
fn fallback_ends_at_an_invalid_record() {
    // a marker with too few bytes behind it, then a whole record
    let mut bytes = vec![0x1, 0x2, 0x3, 0x4, 0x0];
    bytes.extend_from_slice(&[0x1, 0x2, 0x3, 0x4, 0x0, 0x0, 0x0, 0x1, 0x0]);
    let all = collect(ReadFallbackIterator::<WrapTestStruct>::new(&bytes, 0));
    assert_eq!(all.iter().map(|(offset, _)| *offset).collect::<Vec<_>>(), vec![0]);
    let all = collect(SearchIterator::<WrapTestStruct>::new(&bytes, 1));
    assert_eq!(all.iter().map(|(offset, _)| *offset).collect::<Vec<_>>(), vec![5]);
}

#[test]
fn regex_matcher_gives_the_capture_group() {
    let bytes = [
        0x1, 0x2, 0x3, 0x4, 0x0, 0x0, 0x0, 0xFF, 0x1, 0x2, 0x3, 0x4, 0xC, 0xA, 0xF, 0xF, 0x1, 0x2, 0x3,
        0x4, 0x0, 0x0, 0x0, 0xFF,
    ];
    let mut it = RegExMatcherIterator::<WrapTestStruct>::new(r"(?-u)\x0C(\x0A\x0F)\x0F", &bytes, 0);
    assert_eq!(it.next(), Some((8, (13, 15))));
    assert_eq!(it.offset, 23);
    assert_eq!(it.next(), None);
    // without a capture group nothing is given
    let mut it = RegExMatcherIterator::<WrapTestStruct>::new(r"(?-u)\x0C\x0A\x0F\x0F", &bytes, 0);
    assert_eq!(it.next(), None);
    assert!(RegExMatcherIterator::<WrapTestStruct>::try_new("(", &bytes, 0).is_none());
}
