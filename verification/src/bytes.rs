//! Byte-view readers: integers of a given byte order and structures of a
//! fixed layout, decoded from the front of a byte slice.

use vstd::prelude::*;

verus! {

/// The value of two bytes read most significant byte first.
pub open spec fn be_u16(b: Seq<u8>) -> int
    recommends
        b.len() >= 2,
{
    b[0] as int * 0x100 + b[1] as int
}

/// The value of four bytes read most significant byte first.
pub open spec fn be_u32(b: Seq<u8>) -> int
    recommends
        b.len() >= 4,
{
    b[0] as int * 0x100_0000 + b[1] as int * 0x1_0000 + b[2] as int * 0x100 + b[3] as int
}

/// The value of four bytes read least significant byte first.
pub open spec fn le_u32(b: Seq<u8>) -> int
    recommends
        b.len() >= 4,
{
    b[0] as int + b[1] as int * 0x100 + b[2] as int * 0x1_0000 + b[3] as int * 0x100_0000
}

/// The two's complement reading of an unsigned 32-bit value.
pub open spec fn as_i32(v: int) -> int
    recommends
        0 <= v < 0x1_0000_0000,
{
    if v >= 0x8000_0000 {
        v - 0x1_0000_0000
    } else {
        v
    }
}

/// The unsigned 32-bit value whose two's complement reading is `v`.
pub open spec fn as_u32(v: int) -> int
    recommends
        -0x8000_0000 <= v < 0x8000_0000,
{
    if v < 0 {
        v + 0x1_0000_0000
    } else {
        v
    }
}

/// Calls `zerocopy::byteorder::big_endian::U16::read_from_prefix` and `get`:
/// the first two bytes are read as a big-endian number, and a slice shorter
/// than two bytes gives `None`.
#[verifier::external_body]
pub(crate) fn read_be_u16(bytes: &[u8]) -> (r: Option<u16>)
    ensures
        bytes@.len() < 2 ==> r is None,
        bytes@.len() >= 2 ==> r == Some(be_u16(bytes@) as u16),
{
    let v = <zerocopy::byteorder::big_endian::U16 as zerocopy::FromBytes>::read_from_prefix(bytes)?;
    Some(v.get())
}

/// Calls `zerocopy::byteorder::big_endian::U32::read_from_prefix` and `get`:
/// the first four bytes are read as a big-endian number, and a slice shorter
/// than four bytes gives `None`.
#[verifier::external_body]
pub(crate) fn read_be_u32(bytes: &[u8]) -> (r: Option<u32>)
    ensures
        bytes@.len() < 4 ==> r is None,
        bytes@.len() >= 4 ==> r == Some(be_u32(bytes@) as u32),
{
    let v = <zerocopy::byteorder::big_endian::U32 as zerocopy::FromBytes>::read_from_prefix(bytes)?;
    Some(v.get())
}

/// Calls `zerocopy::byteorder::little_endian::U32::read_from_prefix` and
/// `get`: the first four bytes are read as a little-endian number, and a
/// slice shorter than four bytes gives `None`.
#[verifier::external_body]
pub(crate) fn read_le_u32(bytes: &[u8]) -> (r: Option<u32>)
    ensures
        bytes@.len() < 4 ==> r is None,
        bytes@.len() >= 4 ==> r == Some(le_u32(bytes@) as u32),
{
    let v = <zerocopy::byteorder::little_endian::U32 as zerocopy::FromBytes>::read_from_prefix(
        bytes,
    )?;
    Some(v.get())
}

/// Calls `zerocopy::byteorder::little_endian::I32::read_from_prefix` and
/// `get`: the first four bytes are read as a little-endian number in two's
/// complement, and a slice shorter than four bytes gives `None`.
#[verifier::external_body]
pub(crate) fn read_le_i32(bytes: &[u8]) -> (r: Option<i32>)
    ensures
        bytes@.len() < 4 ==> r is None,
        bytes@.len() >= 4 ==> r == Some(as_i32(le_u32(bytes@)) as i32),
{
    let v = <zerocopy::byteorder::little_endian::I32 as zerocopy::FromBytes>::read_from_prefix(
        bytes,
    )?;
    Some(v.get())
}

/// Calls `zerocopy::byteorder::big_endian::U16::new` and `as_bytes`: the two
/// bytes of `v`, most significant first.
#[verifier::external_body]
pub(crate) fn be_u16_bytes(v: u16) -> (r: [u8; 2])
    ensures
        be_u16(r@) == v,
{
    let n = zerocopy::byteorder::big_endian::U16::new(v);
    let b = zerocopy::AsBytes::as_bytes(&n);
    [b[0], b[1]]
}

/// Calls `zerocopy::byteorder::big_endian::U32::new` and `as_bytes`: the
/// four bytes of `v`, most significant first.
#[verifier::external_body]
pub(crate) fn be_u32_bytes(v: u32) -> (r: [u8; 4])
    ensures
        be_u32(r@) == v,
{
    let n = zerocopy::byteorder::big_endian::U32::new(v);
    let b = zerocopy::AsBytes::as_bytes(&n);
    [b[0], b[1], b[2], b[3]]
}

/// Calls `zerocopy::byteorder::little_endian::U32::new` and `as_bytes`: the
/// four bytes of `v`, least significant first.
#[verifier::external_body]
pub(crate) fn le_u32_bytes(v: u32) -> (r: [u8; 4])
    ensures
        le_u32(r@) == v,
{
    let n = zerocopy::byteorder::little_endian::U32::new(v);
    let b = zerocopy::AsBytes::as_bytes(&n);
    [b[0], b[1], b[2], b[3]]
}

/// Calls `zerocopy::byteorder::little_endian::I32::new` and `as_bytes`: the
/// four bytes of `v` in two's complement, least significant first.
#[verifier::external_body]
pub(crate) fn le_i32_bytes(v: i32) -> (r: [u8; 4])
    ensures
        le_u32(r@) == as_u32(v as int),
{
    let n = zerocopy::byteorder::little_endian::I32::new(v);
    let b = zerocopy::AsBytes::as_bytes(&n);
    [b[0], b[1], b[2], b[3]]
}

/// A structure that is read from a fixed number of bytes at fixed offsets.
pub trait FixedLayout: Sized {
    /// The number of bytes that the structure takes.
    spec fn spec_size() -> nat;

    /// `self` is what the first `spec_size()` bytes of `bytes` hold.
    spec fn decoded_from(&self, bytes: Seq<u8>) -> bool;

    fn size() -> (n: usize)
        ensures
            n == Self::spec_size(),
    ;

    fn read(bytes: &[u8]) -> (r: Self)
        requires
            bytes@.len() >= Self::spec_size(),
        ensures
            r.decoded_from(bytes@),
    ;
}

/// Reads a `T` from the front of `bytes`: the bytes taken and the structure,
/// or `None` where `bytes` is shorter than a `T`.
pub fn read_typed<T: FixedLayout>(bytes: &[u8]) -> (r: Option<(usize, T)>)
    ensures
        r is Some <==> bytes@.len() >= T::spec_size(),
        r matches Some((n, v)) ==> n == T::spec_size() && v.decoded_from(bytes@),
{
    if bytes.len() < T::size() {
        return None;
    }
    Some((T::size(), T::read(bytes)))
}

/// Reads a `T` from the front of `bytes` as `read_typed` does, and gives it
/// only if `predicate` holds of it.
pub fn read_valid<T: FixedLayout, P: Fn(&T) -> bool>(bytes: &[u8], predicate: P) -> (r: Option<
    (usize, T),
>)
    requires
        forall|v: T| v.decoded_from(bytes@) ==> call_requires(predicate, (&v,)),
    ensures
        r is Some ==> bytes@.len() >= T::spec_size(),
        r matches Some((n, v)) ==> n == T::spec_size() && v.decoded_from(bytes@) && call_ensures(
            predicate,
            (&v,),
            true,
        ),
        r is None && bytes@.len() >= T::spec_size() ==> exists|v: T|
            v.decoded_from(bytes@) && call_ensures(predicate, (&v,), false),
{
    match read_typed::<T>(bytes) {
        Some((n, v)) => {
            if predicate(&v) {
                Some((n, v))
            } else {
                None
            }
        },
        None => None,
    }
}

/// The first four bytes of `bytes`.
pub fn four(bytes: &[u8]) -> (r: [u8; 4])
    requires
        bytes@.len() >= 4,
    ensures
        r@ == bytes@.subrange(0, 4),
{
    let r = [bytes[0], bytes[1], bytes[2], bytes[3]];
    assert(r@ =~= bytes@.subrange(0, 4));
    r
}

} // verus!
