//! A parser and analytics toolkit for capture files of AUTOSAR Diagnostic
//! Log and Trace (DLT) v1.
//!
//! The record layer reads storage entries from the bytes of a capture file
//! without copying their payloads, finds the records again behind stretches
//! of other bytes, and cuts a buffer into partitions that hold whole
//! records. The pipeline engine composes adapters and reducers into single
//! passes over a stream of records. Every function is verified against its
//! contract; the calls into `memchr`, `regex` and `zerocopy` stand behind
//! wrappers whose contracts are taken on trust.

pub mod bytes;
pub mod combine;
pub mod contained;
pub mod dlt_v1;
pub mod fromgenerator;
pub mod generator;
pub mod groupby;
pub mod hashmapit;
pub mod matcher;
pub mod readable;
pub mod readit;
pub mod searchable;
pub mod whole;
pub mod writer;
