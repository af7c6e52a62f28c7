//! Decoding of a columnar file format's page encodings: bit-packed integers,
//! definition levels, dictionary indices, optional values and row selections.

pub mod error;
pub mod interval;
pub mod bit_packed;
pub mod optional;
pub mod slice_filter;
pub mod page;
pub mod levels;
