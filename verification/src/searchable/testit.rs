//! A small record type for trying the iterators: the marker `01 02 03 04`
//! and a big-endian number behind it.

use super::readfallbackit::has_at;
use super::{occurs_at, SearchableMarkerTrait};
use crate::bytes::{be_u32, four, read_be_u32, read_typed, FixedLayout};
use crate::readable::FromBytesReadableTrait;
use vstd::prelude::*;
use vstd::slice::slice_subrange;

verus! {

/// The marker of a `WrapTestStruct`.
pub const TEST_MARKER: [u8; 4] = [0x1, 0x2, 0x3, 0x4];

/// Eight bytes: a pattern of four bytes and a big-endian number.
#[derive(Debug, Clone, Copy)]
pub struct TestStruct {
    pub pattern: [u8; 4],
    pub val: u32,
}

impl FixedLayout for TestStruct {
    open spec fn spec_size() -> nat {
        8
    }

    open spec fn decoded_from(&self, bytes: Seq<u8>) -> bool {
        &&& self.pattern@ == bytes.subrange(0, 4)
        &&& self.val == be_u32(bytes.subrange(4, 8))
    }

    fn size() -> (n: usize) {
        8
    }

    fn read(bytes: &[u8]) -> (r: Self) {
        let val = match read_be_u32(slice_subrange(bytes, 4, 8)) {
            Some(v) => v,
            None => 0,
        };
        TestStruct { pattern: four(bytes), val }
    }
}

/// A record that holds one `TestStruct`.
#[derive(Debug, Copy, Clone)]
pub struct WrapTestStruct {
    pub inner: TestStruct,
}

/// The length of the test record at the front of `bytes`, the marker taken
/// to be in place.
pub open spec fn test_len(bytes: Seq<u8>) -> Option<nat> {
    if bytes.len() >= 8 {
        Some(8)
    } else {
        None
    }
}

fn try_read(bytes: &[u8]) -> (r: Option<(usize, WrapTestStruct)>)
    ensures
        match r {
            Some((n, v)) => test_len(bytes@) == Some(n as nat) && v.inner.decoded_from(bytes@),
            None => test_len(bytes@) is None,
        },
{
    match read_typed::<TestStruct>(bytes) {
        Some((read_bytes, val)) => Some((read_bytes, WrapTestStruct { inner: val })),
        None => None,
    }
}

impl<'bytes> SearchableMarkerTrait<'bytes> for WrapTestStruct {
    open spec fn spec_marker() -> Seq<u8> {
        TEST_MARKER@
    }

    open spec fn marked_len(bytes: Seq<u8>) -> Option<nat> {
        test_len(bytes)
    }

    proof fn lemma_marker() {
    }

    proof fn lemma_marked_len(bytes: Seq<u8>) {
    }

    proof fn lemma_marked_len_bounds(bytes: Seq<u8>) {
    }

    fn marker() -> (m: &'static [u8]) {
        &TEST_MARKER
    }

    fn try_read_valid_marker(bytes: &'bytes [u8]) -> (r: Option<(usize, Self)>) {
        try_read(bytes)
    }
}

impl<'bytes> FromBytesReadableTrait<'bytes> for WrapTestStruct {
    open spec fn record_len(bytes: Seq<u8>) -> Option<nat> {
        if occurs_at(bytes, TEST_MARKER@, 0) {
            test_len(bytes)
        } else {
            None
        }
    }

    open spec fn read_from(&self, bytes: Seq<u8>) -> bool {
        &&& occurs_at(bytes, TEST_MARKER@, 0)
        &&& test_len(bytes) is Some
        &&& self.inner.decoded_from(bytes)
    }

    open spec fn spec_len(&self) -> nat {
        8
    }

    open spec fn spec_max_len() -> nat {
        8
    }

    proof fn lemma_record_len_bounds(bytes: Seq<u8>) {
    }

    proof fn lemma_record_len_local(bytes: Seq<u8>, other: Seq<u8>, n: nat) {
        if n >= 4 {
            assert(bytes.subrange(0, 4) =~= bytes.subrange(0, n as int).subrange(0, 4));
            assert(other.subrange(0, 4) =~= other.subrange(0, n as int).subrange(0, 4));
        }
    }

    proof fn lemma_read_len(&self, bytes: Seq<u8>) {
    }

    fn try_read(bytes: &'bytes [u8]) -> (r: Option<(usize, Self)>) {
        if !has_at(bytes, 0, &TEST_MARKER) {
            return None;
        }
        try_read(bytes)
    }

    fn len(&self) -> (n: usize) {
        8
    }

    fn max_len() -> (n: usize) {
        8
    }
}

} // verus!
