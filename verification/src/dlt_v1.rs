//! The DLT v1 record model: the storage header that recorders put before
//! each message, the standard and extended headers of the message itself,
//! and the entries that are read from a capture file.

use crate::bytes::{
    as_i32,
    be_u16,
    be_u32,
    four,
    le_u32,
    read_be_u16,
    read_be_u32,
    read_le_i32,
    read_le_u32,
    FixedLayout,
};
use crate::contained::unbordered;
use crate::readable::{FromBytesReadableTrait, NoOffsetIterator};
use crate::searchable::layout::{count_records, fallback_run};
use crate::searchable::readfallbackit::{has_at, ReadFallbackIterator};
use crate::searchable::{occurs_at, SearchableMarkerTrait};
use vstd::prelude::*;
use vstd::slice::slice_subrange;

verus! {

/// The header type byte of the standard header: five flags and a version.
#[derive(Debug, Clone, Copy)]
pub struct DltHTyp {
    pub htyp: u8,
}

/// Bit 0: an extended header follows the optional fields.
pub const HTYP_UEH: u8 = 0x01;

/// Bit 1: the payload is most significant byte first.
pub const HTYP_MSBF: u8 = 0x02;

/// Bit 2: the ECU id is among the optional fields.
pub const HTYP_WEID: u8 = 0x04;

/// Bit 3: the session id is among the optional fields.
pub const HTYP_WSID: u8 = 0x08;

/// Bit 4: the timestamp is among the optional fields.
pub const HTYP_WTMS: u8 = 0x10;

/// Bits 5 to 7: the version.
pub const HTYP_VERS: u8 = 0xe0;

impl DltHTyp {
    /// The header type byte with the given flags and the version in its
    /// three bits.
    pub fn new(
        is_extended_header: bool,
        is_msb_first: bool,
        is_with_ecu_id: bool,
        is_with_session_id: bool,
        is_with_timestamp: bool,
        version: u8,
    ) -> (r: Self)
        ensures
            r.is_extended_header() == is_extended_header,
            r.is_msb_first() == is_msb_first,
            r.is_with_ecu_id() == is_with_ecu_id,
            r.is_with_session_id() == is_with_session_id,
            r.is_with_timestamp() == is_with_timestamp,
            r.version() == version % 8,
    {
        let ueh: u8 = if is_extended_header {
            HTYP_UEH
        } else {
            0
        };
        let msbf: u8 = if is_msb_first {
            HTYP_MSBF
        } else {
            0
        };
        let weid: u8 = if is_with_ecu_id {
            HTYP_WEID
        } else {
            0
        };
        let wsid: u8 = if is_with_session_id {
            HTYP_WSID
        } else {
            0
        };
        let wtms: u8 = if is_with_timestamp {
            HTYP_WTMS
        } else {
            0
        };
        let htyp: u8 = ueh | msbf | weid | wsid | wtms | ((version & 0x07) << 5);
        assert({
            &&& (htyp & 0x01 != 0) == (ueh == 0x01)
            &&& (htyp & 0x02 != 0) == (msbf == 0x02)
            &&& (htyp & 0x04 != 0) == (weid == 0x04)
            &&& (htyp & 0x08 != 0) == (wsid == 0x08)
            &&& (htyp & 0x10 != 0) == (wtms == 0x10)
            &&& (htyp & 0xe0) >> 5 == version % 8
        }) by (bit_vector)
            requires
                htyp == ueh | msbf | weid | wsid | wtms | ((version & 0x07) << 5),
                ueh == 0 || ueh == 0x01,
                msbf == 0 || msbf == 0x02,
                weid == 0 || weid == 0x04,
                wsid == 0 || wsid == 0x08,
                wtms == 0 || wtms == 0x10,
        ;
        Self { htyp }
    }

    /// Whether an extended header follows the optional fields.
    #[verifier::when_used_as_spec(spec_is_extended_header)]
    #[inline(always)]
    pub fn is_extended_header(&self) -> (r: bool)
        ensures
            r == self.spec_is_extended_header(),
    {
        (self.htyp & HTYP_UEH) > 0
    }

    pub open spec fn spec_is_extended_header(&self) -> bool {
        self.htyp & 0x01 != 0
    }

    /// Whether the payload is most significant byte first.
    #[verifier::when_used_as_spec(spec_is_msb_first)]
    #[inline(always)]
    pub fn is_msb_first(&self) -> (r: bool)
        ensures
            r == self.spec_is_msb_first(),
    {
        (self.htyp & HTYP_MSBF) > 0
    }

    pub open spec fn spec_is_msb_first(&self) -> bool {
        self.htyp & 0x02 != 0
    }

    /// Whether the ECU id is among the optional fields.
    #[verifier::when_used_as_spec(spec_is_with_ecu_id)]
    #[inline(always)]
    pub fn is_with_ecu_id(&self) -> (r: bool)
        ensures
            r == self.spec_is_with_ecu_id(),
    {
        (self.htyp & HTYP_WEID) > 0
    }

    pub open spec fn spec_is_with_ecu_id(&self) -> bool {
        self.htyp & 0x04 != 0
    }

    /// Whether the session id is among the optional fields.
    #[verifier::when_used_as_spec(spec_is_with_session_id)]
    #[inline(always)]
    pub fn is_with_session_id(&self) -> (r: bool)
        ensures
            r == self.spec_is_with_session_id(),
    {
        (self.htyp & HTYP_WSID) > 0
    }

    pub open spec fn spec_is_with_session_id(&self) -> bool {
        self.htyp & 0x08 != 0
    }

    /// Whether the timestamp is among the optional fields.
    #[verifier::when_used_as_spec(spec_is_with_timestamp)]
    #[inline(always)]
    pub fn is_with_timestamp(&self) -> (r: bool)
        ensures
            r == self.spec_is_with_timestamp(),
    {
        (self.htyp & HTYP_WTMS) > 0
    }

    pub open spec fn spec_is_with_timestamp(&self) -> bool {
        self.htyp & 0x10 != 0
    }

    /// The version.
    #[verifier::when_used_as_spec(spec_version)]
    #[inline(always)]
    pub fn version(&self) -> (r: u8)
        ensures
            r == self.spec_version(),
    {
        (self.htyp & HTYP_VERS) >> 5
    }

    pub open spec fn spec_version(&self) -> u8 {
        (self.htyp & 0xe0) >> 5
    }

    /// The number of bytes that the optional fields take.
    pub open spec fn optional_size(&self) -> nat {
        ((if self.is_with_ecu_id() {
            4int
        } else {
            0
        }) + (if self.is_with_session_id() {
            4int
        } else {
            0
        }) + (if self.is_with_timestamp() {
            4int
        } else {
            0
        })) as nat
    }
}

/// The first four bytes of every storage header.
pub const DLT_PATTERN: [u8; 4] = [0x44, 0x4c, 0x54, 0x01];

/// The standard header, with which every DLT message starts.
#[derive(Debug, Clone, Copy)]
pub struct DltStandardHeader {
    pub header_type: DltHTyp,
    /// The message counter, which goes up with each message that is sent.
    pub message_counter: u8,
    /// The length of the whole message: this header, the optional fields,
    /// the extended header and the payload, without the storage header.
    pub length: u16,
}

impl DltStandardHeader {
    pub fn new(header_type: DltHTyp, message_counter: u8, length: u16) -> (r: Self)
        ensures
            r.header_type == header_type,
            r.message_counter == message_counter,
            r.length == length,
    {
        Self { header_type, message_counter, length }
    }

    /// The length of the whole message, without the storage header.
    #[verifier::when_used_as_spec(spec_length)]
    pub fn length(&self) -> (n: usize)
        ensures
            n == self.spec_length(),
    {
        self.length as usize
    }

    pub open spec fn spec_length(&self) -> usize {
        self.length as usize
    }
}

impl FixedLayout for DltStandardHeader {
    open spec fn spec_size() -> nat {
        4
    }

    open spec fn decoded_from(&self, bytes: Seq<u8>) -> bool {
        &&& self.header_type.htyp == bytes[0]
        &&& self.message_counter == bytes[1]
        &&& self.length == be_u16(bytes.subrange(2, 4))
    }

    fn size() -> (n: usize) {
        4
    }

    fn read(bytes: &[u8]) -> (r: Self) {
        let length = match read_be_u16(slice_subrange(bytes, 2, 4)) {
            Some(v) => v,
            None => 0,
        };
        DltStandardHeader {
            header_type: DltHTyp { htyp: bytes[0] },
            message_counter: bytes[1],
            length,
        }
    }
}

/// The storage header, which a recorder puts before each DLT message.
#[derive(Debug, Clone, Copy)]
pub struct DltStorageHeader {
    /// The pattern `DLT\x01`.
    pub pattern: [u8; 4],
    /// Seconds since 1.1.1970.
    pub secs: u32,
    /// Microseconds.
    pub msecs: i32,
    /// The ECU id, for messages that do not hold it themselves.
    pub ecu: [u8; 4],
}

impl DltStorageHeader {
    pub fn new(pattern: [u8; 4], secs: u32, msecs: i32, ecu: [u8; 4]) -> (r: Self)
        ensures
            r.pattern == pattern,
            r.secs == secs,
            r.msecs == msecs,
            r.ecu == ecu,
    {
        DltStorageHeader { pattern, secs, msecs, ecu }
    }

    /// The storage header that `bytes` starts with, or `None` where `bytes`
    /// is shorter than a storage header.
    pub fn ref_from_prefix(bytes: &[u8]) -> (r: Option<Self>)
        ensures
            r is Some <==> bytes@.len() >= 16,
            r matches Some(h) ==> h.decoded_from(bytes@),
    {
        if bytes.len() < 16 {
            None
        } else {
            Some(Self::read(bytes))
        }
    }
}

impl FixedLayout for DltStorageHeader {
    open spec fn spec_size() -> nat {
        16
    }

    open spec fn decoded_from(&self, bytes: Seq<u8>) -> bool {
        &&& self.pattern@ == bytes.subrange(0, 4)
        &&& self.secs == le_u32(bytes.subrange(4, 8))
        &&& self.msecs == as_i32(le_u32(bytes.subrange(8, 12)))
        &&& self.ecu@ == bytes.subrange(12, 16)
    }

    fn size() -> (n: usize) {
        16
    }

    fn read(bytes: &[u8]) -> (r: Self) {
        let secs = match read_le_u32(slice_subrange(bytes, 4, 8)) {
            Some(v) => v,
            None => 0,
        };
        let msecs = match read_le_i32(slice_subrange(bytes, 8, 12)) {
            Some(v) => v,
            None => 0,
        };
        let pattern = four(bytes);
        let ecu = four(slice_subrange(bytes, 12, 16));
        assert(bytes@.subrange(12, 16).subrange(0, 4) =~= bytes@.subrange(12, 16));
        DltStorageHeader { pattern, secs, msecs, ecu }
    }
}

/// What a log message is about.
#[derive(PartialEq, PartialOrd, Ord, Eq, Copy, Clone, Debug)]
pub enum DltLogMessageTypeInfo {
    /// Fatal system error.
    DltLogFatal,
    /// Application error.
    DltLogDltError,
    /// Correct behaviour cannot be ensured.
    DltLogWarn,
    /// Information.
    DltLogInfo,
    /// Debug.
    DltLogDebug,
    /// Verbose.
    DltLogVerbose,
}

impl DltLogMessageTypeInfo {
    /// The variant with the number `v`.
    pub open spec fn spec_from_u8(v: u8) -> Option<Self> {
        if v == 1 {
            Some(Self::DltLogFatal)
        } else if v == 2 {
            Some(Self::DltLogDltError)
        } else if v == 3 {
            Some(Self::DltLogWarn)
        } else if v == 4 {
            Some(Self::DltLogInfo)
        } else if v == 5 {
            Some(Self::DltLogDebug)
        } else if v == 6 {
            Some(Self::DltLogVerbose)
        } else {
            None
        }
    }

    /// The number of the variant.
    pub open spec fn spec_to_u8(self) -> u8 {
        match self {
            Self::DltLogFatal => 1,
            Self::DltLogDltError => 2,
            Self::DltLogWarn => 3,
            Self::DltLogInfo => 4,
            Self::DltLogDebug => 5,
            Self::DltLogVerbose => 6,
        }
    }

    /// The variant with the number `v`.
    pub fn from_u8(v: u8) -> (r: Option<Self>)
        ensures
            r == Self::spec_from_u8(v),
    {
        match v {
            1 => Some(Self::DltLogFatal),
            2 => Some(Self::DltLogDltError),
            3 => Some(Self::DltLogWarn),
            4 => Some(Self::DltLogInfo),
            5 => Some(Self::DltLogDebug),
            6 => Some(Self::DltLogVerbose),
            _ => None,
        }
    }

    /// The number of the variant.
    pub fn to_u8(self) -> (v: u8)
        ensures
            v == self.spec_to_u8(),
            1 <= v <= 6,
            Self::spec_from_u8(v) == Some(self),
    {
        match self {
            Self::DltLogFatal => 1,
            Self::DltLogDltError => 2,
            Self::DltLogWarn => 3,
            Self::DltLogInfo => 4,
            Self::DltLogDebug => 5,
            Self::DltLogVerbose => 6,
        }
    }
}

/// What an application trace message is about.
#[derive(PartialEq, PartialOrd, Ord, Eq, Copy, Clone, Debug)]
pub enum DltTraceMessageTypeInfo {
    /// Value of a variable.
    DltTraceVariable,
    /// Call of a function.
    DltTraceFunctionIn,
    /// Return of a function.
    DltTraceFunctionOut,
    /// State of a state machine.
    DltTraceState,
    /// RTE events.
    DltTraceVfb,
}

impl DltTraceMessageTypeInfo {
    /// The variant with the number `v`.
    pub open spec fn spec_from_u8(v: u8) -> Option<Self> {
        if v == 1 {
            Some(Self::DltTraceVariable)
        } else if v == 2 {
            Some(Self::DltTraceFunctionIn)
        } else if v == 3 {
            Some(Self::DltTraceFunctionOut)
        } else if v == 4 {
            Some(Self::DltTraceState)
        } else if v == 5 {
            Some(Self::DltTraceVfb)
        } else {
            None
        }
    }

    /// The number of the variant.
    pub open spec fn spec_to_u8(self) -> u8 {
        match self {
            Self::DltTraceVariable => 1,
            Self::DltTraceFunctionIn => 2,
            Self::DltTraceFunctionOut => 3,
            Self::DltTraceState => 4,
            Self::DltTraceVfb => 5,
        }
    }

    /// The variant with the number `v`.
    pub fn from_u8(v: u8) -> (r: Option<Self>)
        ensures
            r == Self::spec_from_u8(v),
    {
        match v {
            1 => Some(Self::DltTraceVariable),
            2 => Some(Self::DltTraceFunctionIn),
            3 => Some(Self::DltTraceFunctionOut),
            4 => Some(Self::DltTraceState),
            5 => Some(Self::DltTraceVfb),
            _ => None,
        }
    }

    /// The number of the variant.
    pub fn to_u8(self) -> (v: u8)
        ensures
            v == self.spec_to_u8(),
            1 <= v <= 5,
            Self::spec_from_u8(v) == Some(self),
    {
        match self {
            Self::DltTraceVariable => 1,
            Self::DltTraceFunctionIn => 2,
            Self::DltTraceFunctionOut => 3,
            Self::DltTraceState => 4,
            Self::DltTraceVfb => 5,
        }
    }
}

/// What a network trace message is about.
#[derive(PartialEq, PartialOrd, Ord, Eq, Copy, Clone, Debug)]
pub enum DltNetworkMessageTypeInfo {
    /// Inter-process communication.
    DltNwTraceIpc,
    /// CAN communications bus.
    DltNwTraceCan,
    /// FlexRay communications bus.
    DltNwTraceFlexray,
    /// MOST communications bus.
    DltNwTraceMost,
    /// Ethernet communications bus.
    DltNwTraceEthernet,
    /// SOME/IP communication.
    DltNwTraceSomeip,
}

impl DltNetworkMessageTypeInfo {
    /// The variant with the number `v`.
    pub open spec fn spec_from_u8(v: u8) -> Option<Self> {
        if v == 1 {
            Some(Self::DltNwTraceIpc)
        } else if v == 2 {
            Some(Self::DltNwTraceCan)
        } else if v == 3 {
            Some(Self::DltNwTraceFlexray)
        } else if v == 4 {
            Some(Self::DltNwTraceMost)
        } else if v == 5 {
            Some(Self::DltNwTraceEthernet)
        } else if v == 6 {
            Some(Self::DltNwTraceSomeip)
        } else {
            None
        }
    }

    /// The number of the variant.
    pub open spec fn spec_to_u8(self) -> u8 {
        match self {
            Self::DltNwTraceIpc => 1,
            Self::DltNwTraceCan => 2,
            Self::DltNwTraceFlexray => 3,
            Self::DltNwTraceMost => 4,
            Self::DltNwTraceEthernet => 5,
            Self::DltNwTraceSomeip => 6,
        }
    }

    /// The variant with the number `v`.
    pub fn from_u8(v: u8) -> (r: Option<Self>)
        ensures
            r == Self::spec_from_u8(v),
    {
        match v {
            1 => Some(Self::DltNwTraceIpc),
            2 => Some(Self::DltNwTraceCan),
            3 => Some(Self::DltNwTraceFlexray),
            4 => Some(Self::DltNwTraceMost),
            5 => Some(Self::DltNwTraceEthernet),
            6 => Some(Self::DltNwTraceSomeip),
            _ => None,
        }
    }

    /// The number of the variant.
    pub fn to_u8(self) -> (v: u8)
        ensures
            v == self.spec_to_u8(),
            1 <= v <= 6,
            Self::spec_from_u8(v) == Some(self),
    {
        match self {
            Self::DltNwTraceIpc => 1,
            Self::DltNwTraceCan => 2,
            Self::DltNwTraceFlexray => 3,
            Self::DltNwTraceMost => 4,
            Self::DltNwTraceEthernet => 5,
            Self::DltNwTraceSomeip => 6,
        }
    }
}

/// What a control message is.
#[derive(PartialEq, PartialOrd, Ord, Eq, Copy, Clone, Debug)]
pub enum DltControlMessageTypeInfo {
    /// A request.
    DltControlRequest,
    /// A response.
    DltControlResponse,
}

impl DltControlMessageTypeInfo {
    /// The variant with the number `v`.
    pub open spec fn spec_from_u8(v: u8) -> Option<Self> {
        if v == 1 {
            Some(Self::DltControlRequest)
        } else if v == 2 {
            Some(Self::DltControlResponse)
        } else {
            None
        }
    }

    /// The number of the variant.
    pub open spec fn spec_to_u8(self) -> u8 {
        match self {
            Self::DltControlRequest => 1,
            Self::DltControlResponse => 2,
        }
    }

    /// The variant with the number `v`.
    pub fn from_u8(v: u8) -> (r: Option<Self>)
        ensures
            r == Self::spec_from_u8(v),
    {
        match v {
            1 => Some(Self::DltControlRequest),
            2 => Some(Self::DltControlResponse),
            _ => None,
        }
    }

    /// The number of the variant.
    pub fn to_u8(self) -> (v: u8)
        ensures
            v == self.spec_to_u8(),
            1 <= v <= 2,
            Self::spec_from_u8(v) == Some(self),
    {
        match self {
            Self::DltControlRequest => 1,
            Self::DltControlResponse => 2,
        }
    }
}

/// The type of a message, with what the message is about.
#[derive(PartialEq, PartialOrd, Ord, Eq, Copy, Clone, Debug)]
pub enum DltMessageType {
    /// A log message.
    DltTypeLog(DltLogMessageTypeInfo),
    /// An application trace message.
    DltTypeAppTrace(DltTraceMessageTypeInfo),
    /// A network trace message.
    DltTypeNwTrace(DltNetworkMessageTypeInfo),
    /// A control message.
    DltTypeControl(DltControlMessageTypeInfo),
}

/// The message info byte of the extended header: bit 0 is the verbose flag,
/// bits 1 to 3 are the message type, bits 4 to 7 say what the message is
/// about.
#[derive(PartialEq, PartialOrd, Ord, Eq, Copy, Clone, Debug)]
pub struct MessageType {
    pub msin: u8,
}

impl MessageType {
    /// Whether the payload is in verbose mode.
    #[verifier::when_used_as_spec(spec_is_verbose)]
    pub fn is_verbose(&self) -> (r: bool)
        ensures
            r == self.spec_is_verbose(),
    {
        self.msin & 0x01 > 0
    }

    pub open spec fn spec_is_verbose(&self) -> bool {
        self.msin & 0x01 != 0
    }

    /// The message type, or `None` where the bits name none.
    #[verifier::when_used_as_spec(spec_message_type)]
    pub fn message_type(&self) -> (r: Option<DltMessageType>)
        ensures
            r == self.spec_message_type(),
    {
        let mtin = (self.msin & 0xf0) >> 4;
        let code = (self.msin & 0x0e) >> 1;
        match code {
            0x0 => match DltLogMessageTypeInfo::from_u8(mtin) {
                Some(info) => Some(DltMessageType::DltTypeLog(info)),
                None => None,
            },
            0x1 => match DltTraceMessageTypeInfo::from_u8(mtin) {
                Some(info) => Some(DltMessageType::DltTypeAppTrace(info)),
                None => None,
            },
            0x2 => match DltNetworkMessageTypeInfo::from_u8(mtin) {
                Some(info) => Some(DltMessageType::DltTypeNwTrace(info)),
                None => None,
            },
            0x3 => match DltControlMessageTypeInfo::from_u8(mtin) {
                Some(info) => Some(DltMessageType::DltTypeControl(info)),
                None => None,
            },
            _ => None,
        }
    }

    pub open spec fn spec_message_type(&self) -> Option<DltMessageType> {
        let mtin = (self.msin & 0xf0) >> 4;
        let code = (self.msin & 0x0e) >> 1;
        if code == 0 {
            match DltLogMessageTypeInfo::spec_from_u8(mtin) {
                Some(info) => Some(DltMessageType::DltTypeLog(info)),
                None => None,
            }
        } else if code == 1 {
            match DltTraceMessageTypeInfo::spec_from_u8(mtin) {
                Some(info) => Some(DltMessageType::DltTypeAppTrace(info)),
                None => None,
            }
        } else if code == 2 {
            match DltNetworkMessageTypeInfo::spec_from_u8(mtin) {
                Some(info) => Some(DltMessageType::DltTypeNwTrace(info)),
                None => None,
            }
        } else if code == 3 {
            match DltControlMessageTypeInfo::spec_from_u8(mtin) {
                Some(info) => Some(DltMessageType::DltTypeControl(info)),
                None => None,
            }
        } else {
            None
        }
    }

    /// The verbose flag and the message type.
    pub fn info(&self) -> (r: (bool, Option<DltMessageType>))
        ensures
            r.0 == self.is_verbose(),
            r.1 == self.message_type(),
    {
        (self.is_verbose(), self.message_type())
    }

    /// The message info byte of a message of the type `typ`, verbose or not.
    pub fn create_message_type(verbose: bool, typ: DltMessageType) -> (r: Self)
        ensures
            r.is_verbose() == verbose,
            r.message_type() == Some(typ),
    {
        let flag: u8 = if verbose {
            0x1
        } else {
            0
        };
        let (code, mtin): (u8, u8) = match typ {
            DltMessageType::DltTypeLog(mtin) => (0, mtin.to_u8()),
            DltMessageType::DltTypeAppTrace(mtin) => (1, mtin.to_u8()),
            DltMessageType::DltTypeNwTrace(mtin) => (2, mtin.to_u8()),
            DltMessageType::DltTypeControl(mtin) => (3, mtin.to_u8()),
        };
        let msin: u8 = flag | ((code << 1) & 0x0e) | ((mtin << 4) & 0xf0);
        assert({
            &&& (msin & 0x01 != 0) == (flag == 1)
            &&& (msin & 0x0e) >> 1 == code
            &&& (msin & 0xf0) >> 4 == mtin
        }) by (bit_vector)
            requires
                msin == flag | ((code << 1) & 0x0e) | ((mtin << 4) & 0xf0),
                flag == 0 || flag == 1,
                code <= 3,
                mtin <= 6,
        ;
        Self { msin }
    }
}

/// The extended header, which carries the application and context ids.
#[derive(Debug, Clone, Copy)]
pub struct DltExtendedHeader {
    /// The message info.
    pub msin: MessageType,
    /// The number of arguments.
    pub noar: u8,
    /// The application id.
    pub apid: [u8; 4],
    /// The context id.
    pub ctid: [u8; 4],
}

impl DltExtendedHeader {
    pub fn new(msin: MessageType, noar: u8, apid: [u8; 4], ctid: [u8; 4]) -> (r: Self)
        ensures
            r.msin == msin,
            r.noar == noar,
            r.apid == apid,
            r.ctid == ctid,
    {
        Self { msin, noar, apid, ctid }
    }
}

impl FixedLayout for DltExtendedHeader {
    open spec fn spec_size() -> nat {
        10
    }

    open spec fn decoded_from(&self, bytes: Seq<u8>) -> bool {
        &&& self.msin.msin == bytes[0]
        &&& self.noar == bytes[1]
        &&& self.apid@ == bytes.subrange(2, 6)
        &&& self.ctid@ == bytes.subrange(6, 10)
    }

    fn size() -> (n: usize) {
        10
    }

    fn read(bytes: &[u8]) -> (r: Self) {
        let apid = four(slice_subrange(bytes, 2, 6));
        let ctid = four(slice_subrange(bytes, 6, 10));
        assert(bytes@.subrange(2, 6).subrange(0, 4) =~= bytes@.subrange(2, 6));
        assert(bytes@.subrange(6, 10).subrange(0, 4) =~= bytes@.subrange(6, 10));
        DltExtendedHeader { msin: MessageType { msin: bytes[0] }, noar: bytes[1], apid, ctid }
    }
}

/// A DLT message: its standard header and the bytes behind it.
#[derive(Debug, Clone, Copy)]
pub struct DltEntry<'bytes> {
    pub header: DltStandardHeader,
    /// The bytes of the message behind the standard header: the optional
    /// fields, the extended header and the payload.
    pub tail: &'bytes [u8],
}

/// The number of bytes that those of the optional fields take that are
/// present: four bytes each.
pub open spec fn field_offset(ecu: bool, session: bool, timestamp: bool) -> int {
    (if ecu {
        4int
    } else {
        0
    }) + (if session {
        4int
    } else {
        0
    }) + (if timestamp {
        4int
    } else {
        0
    })
}

impl<'bytes> DltEntry<'bytes> {
    /// The offset of the session id in the tail.
    pub open spec fn session_offset(&self) -> int {
        field_offset(self.header.header_type.is_with_ecu_id(), false, false)
    }

    /// The offset of the timestamp in the tail.
    pub open spec fn timestamp_offset(&self) -> int {
        field_offset(
            self.header.header_type.is_with_ecu_id(),
            self.header.header_type.is_with_session_id(),
            false,
        )
    }

    /// The offset of the extended header in the tail.
    pub open spec fn extended_offset(&self) -> int {
        field_offset(
            self.header.header_type.is_with_ecu_id(),
            self.header.header_type.is_with_session_id(),
            self.header.header_type.is_with_timestamp(),
        )
    }

    /// The offset of the payload in the tail.
    pub open spec fn payload_offset(&self) -> int {
        self.extended_offset() + if self.header.header_type.is_extended_header() {
            10int
        } else {
            0
        }
    }

    /// The big-endian number at `offset` in the tail that the flag `present`
    /// announces.
    pub open spec fn field_at(&self, present: bool, offset: int) -> Option<u32> {
        if present && offset + 4 <= self.tail@.len() {
            Some(be_u32(self.tail@.skip(offset)) as u32)
        } else {
            None
        }
    }

    pub open spec fn spec_ecu_id(&self) -> Option<u32> {
        self.field_at(self.header.header_type.is_with_ecu_id(), 0)
    }

    pub open spec fn spec_session_id(&self) -> Option<u32> {
        self.field_at(self.header.header_type.is_with_session_id(), self.session_offset())
    }

    pub open spec fn spec_timestamp(&self) -> Option<u32> {
        self.field_at(self.header.header_type.is_with_timestamp(), self.timestamp_offset())
    }

    /// Whether the extended header is announced and lies within the tail.
    pub open spec fn has_extended_header(&self) -> bool {
        self.header.header_type.is_extended_header() && self.extended_offset() + 10
            <= self.tail@.len()
    }

    pub open spec fn spec_payload(&self) -> Option<Seq<u8>> {
        if self.payload_offset() <= self.tail@.len() {
            Some(self.tail@.skip(self.payload_offset()))
        } else {
            None
        }
    }

    /// The number of bytes that the ECU id takes and, where they are asked
    /// for, the session id and the timestamp.
    fn offset_of(&self, session: bool, timestamp: bool) -> (offset: usize)
        ensures
            offset == field_offset(
                self.header.header_type.is_with_ecu_id(),
                session && self.header.header_type.is_with_session_id(),
                timestamp && self.header.header_type.is_with_timestamp(),
            ),
    {
        let mut offset = 0usize;
        if self.header.header_type.is_with_ecu_id() {
            offset += 4;
        }
        if session && self.header.header_type.is_with_session_id() {
            offset += 4;
        }
        if timestamp && self.header.header_type.is_with_timestamp() {
            offset += 4;
        }
        offset
    }

    /// The big-endian number at `offset` in the tail, if it lies within it.
    fn number_at(&self, offset: usize) -> (r: Option<u32>)
        requires
            offset <= 12,
        ensures
            r == self.field_at(true, offset as int),
    {
        if offset > self.tail.len() {
            return None;
        }
        let rest = slice_subrange(self.tail, offset, self.tail.len());
        assert(rest@ =~= self.tail@.skip(offset as int));
        read_be_u32(rest)
    }

    /// The ECU id, where the header announces it and the message holds it.
    #[verifier::when_used_as_spec(spec_ecu_id)]
    #[inline(always)]
    pub fn ecu_id(&self) -> (r: Option<u32>)
        ensures
            r == self.spec_ecu_id(),
    {
        if self.header.header_type.is_with_ecu_id() {
            self.number_at(0)
        } else {
            None
        }
    }

    /// The session id, where the header announces it and the message holds
    /// it.
    #[verifier::when_used_as_spec(spec_session_id)]
    #[inline(always)]
    pub fn session_id(&self) -> (r: Option<u32>)
        ensures
            r == self.spec_session_id(),
    {
        if self.header.header_type.is_with_session_id() {
            self.number_at(self.offset_of(false, false))
        } else {
            None
        }
    }

    /// The timestamp, in tenths of a millisecond since the system started,
    /// where the header announces it and the message holds it.
    #[verifier::when_used_as_spec(spec_timestamp)]
    #[inline(always)]
    pub fn timestamp(&self) -> (r: Option<u32>)
        ensures
            r == self.spec_timestamp(),
    {
        if self.header.header_type.is_with_timestamp() {
            self.number_at(self.offset_of(true, false))
        } else {
            None
        }
    }

    /// The extended header, where the header announces it and the message
    /// holds it.
    #[inline(always)]
    pub fn extended_header(&self) -> (r: Option<DltExtendedHeader>)
        ensures
            r is Some <==> self.has_extended_header(),
            r matches Some(h) ==> h.decoded_from(self.tail@.skip(self.extended_offset())),
    {
        if !self.header.header_type.is_extended_header() {
            return None;
        }
        let offset = self.offset_of(true, true);
        if offset > self.tail.len() || self.tail.len() - offset < 10 {
            return None;
        }
        let rest = slice_subrange(self.tail, offset, self.tail.len());
        assert(rest@ =~= self.tail@.skip(offset as int));
        Some(DltExtendedHeader::read(rest))
    }

    /// The payload: what follows the optional fields and the extended
    /// header, if the message holds all of them.
    #[inline(always)]
    pub fn payload(&self) -> (r: Option<&'bytes [u8]>)
        ensures
            match r {
                Some(p) => self.spec_payload() == Some(p@),
                None => self.spec_payload() is None,
            },
    {
        let mut offset = self.offset_of(true, true);
        if self.header.header_type.is_extended_header() {
            offset += 10;
        }
        if offset > self.tail.len() {
            return None;
        }
        let rest = slice_subrange(self.tail, offset, self.tail.len());
        assert(rest@ =~= self.tail@.skip(offset as int));
        Some(rest)
    }
}

/// The length that the standard header at the front of `bytes` gives, if
/// `bytes` holds a message of that length.
pub open spec fn message_len(bytes: Seq<u8>) -> Option<nat> {
    if bytes.len() >= 4 && 4 <= be_u16(bytes.subrange(2, 4)) <= bytes.len() {
        Some(be_u16(bytes.subrange(2, 4)) as nat)
    } else {
        None
    }
}

impl<'bytes> FromBytesReadableTrait<'bytes> for DltEntry<'bytes> {
    open spec fn record_len(bytes: Seq<u8>) -> Option<nat> {
        message_len(bytes)
    }

    open spec fn read_from(&self, bytes: Seq<u8>) -> bool {
        &&& message_len(bytes) is Some
        &&& self.header.decoded_from(bytes)
        &&& self.tail@ == bytes.subrange(4, self.header.length as int)
    }

    open spec fn spec_len(&self) -> nat {
        self.header.length as nat
    }

    open spec fn spec_max_len() -> nat {
        0xffff
    }

    proof fn lemma_record_len_bounds(bytes: Seq<u8>) {
    }

    proof fn lemma_record_len_local(bytes: Seq<u8>, other: Seq<u8>, n: nat) {
        if n >= 4 {
            assert(bytes.subrange(2, 4) =~= bytes.subrange(0, n as int).subrange(2, 4));
            assert(other.subrange(2, 4) =~= other.subrange(0, n as int).subrange(2, 4));
        }
    }

    proof fn lemma_read_len(&self, bytes: Seq<u8>) {
    }

    #[inline(always)]
    fn try_read(bytes: &'bytes [u8]) -> (r: Option<(usize, Self)>) {
        if bytes.len() < 4 {
            return None;
        }
        let h = DltStandardHeader::read(bytes);
        let size2 = h.length();
        if 4 > size2 || size2 > bytes.len() {
            return None;
        }
        let p = slice_subrange(bytes, 4, size2);
        Some((size2, DltEntry { header: h, tail: p }))
    }

    #[inline(always)]
    fn len(&self) -> (n: usize) {
        self.header.length()
    }

    fn max_len() -> (n: usize) {
        0xffff
    }
}

/// A DLT message as a capture file holds it: behind a storage header.
#[derive(Debug, Clone, Copy)]
pub struct DltStorageEntry<'bytes> {
    pub storage_header: DltStorageHeader,
    pub dlt: DltEntry<'bytes>,
}

/// The length of the storage entry at the front of `bytes`, the pattern
/// taken to be in place: `bytes` holds a storage header and a message
/// behind it, and the message holds the extended header if it announces one.
pub open spec fn storage_len(bytes: Seq<u8>) -> Option<nat> {
    if bytes.len() >= 16 {
        match message_len(bytes.skip(16)) {
            Some(n) => if bytes[16] & 0x01 != 0 && n < 14 + (DltHTyp {
                htyp: bytes[16],
            }).optional_size() {
                None
            } else {
                Some(16 + n)
            },
            None => None,
        }
    } else {
        None
    }
}

/// Whether a storage entry of `n` bytes stands at the front of `bytes`
/// depends on those `n` bytes alone.
proof fn lemma_storage_len_local(bytes: Seq<u8>, other: Seq<u8>, n: nat)
    requires
        n <= bytes.len(),
        n <= other.len(),
        bytes.subrange(0, n as int) == other.subrange(0, n as int),
        storage_len(bytes) == Some(n),
    ensures
        storage_len(other) == Some(n),
        occurs_at(bytes, DLT_PATTERN@, 0) == occurs_at(other, DLT_PATTERN@, 0),
{
    let a = bytes.subrange(0, n as int);
    let b = other.subrange(0, n as int);
    assert(n >= 20);
    assert(bytes.skip(16).subrange(2, 4) =~= a.subrange(18, 20));
    assert(other.skip(16).subrange(2, 4) =~= b.subrange(18, 20));
    assert(bytes[16] == a[16]);
    assert(other[16] == b[16]);
    assert(bytes.subrange(0, 4) =~= a.subrange(0, 4));
    assert(other.subrange(0, 4) =~= b.subrange(0, 4));
}

/// Reads the storage entry at the front of `bytes`, the pattern taken to be
/// in place.
#[inline(always)]
fn try_read<'bytes>(bytes: &'bytes [u8]) -> (r: Option<(usize, DltStorageEntry<'bytes>)>)
    ensures
        match r {
            Some((n, v)) => {
                &&& storage_len(bytes@) == Some(n as nat)
                &&& v.spec_len() == n
                &&& v.storage_header.decoded_from(bytes@)
                &&& v.dlt.read_from(bytes@.skip(16))
            },
            None => storage_len(bytes@) is None,
        },
{
    let sh = match DltStorageHeader::ref_from_prefix(bytes) {
        Some(sh) => sh,
        None => {
            return None;
        },
    };
    let rest = slice_subrange(bytes, 16, bytes.len());
    assert(rest@ =~= bytes@.skip(16));
    let (size2, entry) = match DltEntry::try_read(rest) {
        Some(read) => read,
        None => {
            return None;
        },
    };
    assert(entry.header.header_type.htyp == bytes@[16]);
    if entry.header.header_type.is_extended_header() && entry.extended_header().is_none() {
        return None;
    }
    Some((16 + size2, DltStorageEntry { storage_header: sh, dlt: entry }))
}

impl<'bytes> SearchableMarkerTrait<'bytes> for DltStorageEntry<'bytes> {
    open spec fn spec_marker() -> Seq<u8> {
        DLT_PATTERN@
    }

    open spec fn marked_len(bytes: Seq<u8>) -> Option<nat> {
        storage_len(bytes)
    }

    proof fn lemma_marker() {
    }

    proof fn lemma_marked_len(bytes: Seq<u8>) {
    }

    proof fn lemma_marked_len_bounds(bytes: Seq<u8>) {
    }

    #[inline(always)]
    fn marker() -> (m: &'static [u8]) {
        &DLT_PATTERN
    }

    #[inline(always)]
    fn try_read_valid_marker(bytes: &'bytes [u8]) -> (r: Option<(usize, Self)>) {
        try_read(bytes)
    }
}

impl<'bytes> FromBytesReadableTrait<'bytes> for DltStorageEntry<'bytes> {
    open spec fn record_len(bytes: Seq<u8>) -> Option<nat> {
        if occurs_at(bytes, DLT_PATTERN@, 0) {
            storage_len(bytes)
        } else {
            None
        }
    }

    open spec fn read_from(&self, bytes: Seq<u8>) -> bool {
        &&& occurs_at(bytes, DLT_PATTERN@, 0)
        &&& storage_len(bytes) is Some
        &&& self.storage_header.decoded_from(bytes)
        &&& self.dlt.read_from(bytes.skip(16))
    }

    open spec fn spec_len(&self) -> nat {
        self.dlt.header.length as nat + 16
    }

    open spec fn spec_max_len() -> nat {
        0xffff + 16
    }

    proof fn lemma_record_len_bounds(bytes: Seq<u8>) {
    }

    proof fn lemma_record_len_local(bytes: Seq<u8>, other: Seq<u8>, n: nat) {
        if storage_len(bytes) == Some(n) {
            lemma_storage_len_local(bytes, other, n);
        }
        if storage_len(other) == Some(n) {
            lemma_storage_len_local(other, bytes, n);
        }
    }

    proof fn lemma_read_len(&self, bytes: Seq<u8>) {
    }

    #[inline(always)]
    fn try_read(bytes: &'bytes [u8]) -> (r: Option<(usize, Self)>) {
        if bytes.len() < 4 {
            return None;
        }
        if !has_at(bytes, 0, &DLT_PATTERN) {
            return None;
        }
        try_read(bytes)
    }

    #[inline(always)]
    fn len(&self) -> (n: usize) {
        self.dlt.header.length() + 16
    }

    fn max_len() -> (n: usize) {
        0xffff + 16
    }
}

/// The forward iterator over the storage entries of `b`, with their
/// offsets.
pub fn dltit_offset<'bytes>(b: &'bytes [u8]) -> (r: ReadFallbackIterator<
    'bytes,
    DltStorageEntry<'bytes>,
>)
    ensures
        r.bytes@ == b@,
        r.offset == 0,
{
    ReadFallbackIterator::new(b, 0)
}

/// The forward iterator over the storage entries of `b`.
pub fn dltit<'bytes>(b: &'bytes [u8]) -> (r: NoOffsetIterator<
    ReadFallbackIterator<'bytes, DltStorageEntry<'bytes>>,
    DltStorageEntry<'bytes>,
>)
    ensures
        r.iter.bytes@ == b@,
        r.iter.offset == 0,
{
    NoOffsetIterator::new(ReadFallbackIterator::new(b, 0))
}

/// The number of storage entries that a forward iteration over `mmap`
/// gives.
pub fn count<'bytes>(mmap: &'bytes [u8]) -> (n: usize)
    ensures
        n == fallback_run::<DltStorageEntry<'bytes>>(mmap@, 0).len(),
{
    count_records::<DltStorageEntry<'bytes>>(mmap)
}

/// The span of two spans of storage entries whose times of recording
/// overlap, or `None` where they do not overlap.
///
/// A span is given by its first and its last entry. Two spans overlap where
/// one of them starts, by the seconds of its first entry, within the other.
/// Their span starts with the entry that starts the earlier span and ends
/// with the later of the two last entries, the one of `a` where both are
/// equally late.
#[inline(always)]
pub fn merge_overlapping_timestamps<'a>(
    a: &(DltStorageEntry<'a>, DltStorageEntry<'a>),
    b: &(DltStorageEntry<'a>, DltStorageEntry<'a>),
) -> (r: Option<(DltStorageEntry<'a>, DltStorageEntry<'a>)>)
    ensures
        r == if a.0.storage_header.secs <= b.0.storage_header.secs <= a.1.storage_header.secs {
            Some((a.0, later(a.1, b.1)))
        } else if b.0.storage_header.secs <= a.0.storage_header.secs <= b.1.storage_header.secs {
            Some((b.0, later(a.1, b.1)))
        } else {
            None
        },
{
    if b.0.storage_header.secs >= a.0.storage_header.secs && b.0.storage_header.secs
        <= a.1.storage_header.secs {
        Some((a.0, max_by_secs(a.1, b.1)))
    } else if a.0.storage_header.secs >= b.0.storage_header.secs && a.0.storage_header.secs
        <= b.1.storage_header.secs {
        Some((b.0, max_by_secs(a.1, b.1)))
    } else {
        None
    }
}

/// The one of two entries that was recorded later, by the seconds, and `a`
/// where both were recorded in the same second.
pub open spec fn later<'a>(a: DltStorageEntry<'a>, b: DltStorageEntry<'a>) -> DltStorageEntry<'a> {
    if a.storage_header.secs >= b.storage_header.secs {
        a
    } else {
        b
    }
}

fn max_by_secs<'a>(a: DltStorageEntry<'a>, b: DltStorageEntry<'a>) -> (r: DltStorageEntry<'a>)
    ensures
        r == later(a, b),
{
    if a.storage_header.secs >= b.storage_header.secs {
        a
    } else {
        b
    }
}

/// No two occurrences of the pattern overlap.
pub proof fn lemma_pattern_unbordered()
    ensures
        unbordered(DLT_PATTERN@),
{
    let p = DLT_PATTERN@;
    assert forall|k: int| 0 < k < p.len() implies #[trigger] p.subrange(k, p.len() as int)
        != p.subrange(0, p.len() - k) by {
        assert(p.subrange(k, p.len() as int)[0] == p[k]);
        assert(p.subrange(0, p.len() - k)[0] == p[0]);
    }
}

} // verus!
