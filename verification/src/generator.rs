//! The streaming pipeline engine: adapters transform a pushed stream value
//! by value, reducers fold it into one result, and both follow a finalize
//! protocol that lets stateful operators emit what they still hold.

pub mod adapter;
pub mod generator;
pub mod groupby;
pub mod laws;
pub mod reducer;
