//! Verified core of a temperature logger: fixed-point readings, CSV log
//! formatting and parsing, sorting, and fixed-window averaging.
//!
//! Numeric values (degrees, and timestamps once parsed back from a log) are
//! modelled as exact decimal thousandths held in an `i128`, so every
//! contract speaks of plain integers.

pub mod averager;
pub mod bytes;
pub mod clock;
pub mod error;
pub mod fixed;
pub mod parser;
pub mod roundtrip;
pub mod sorting;
pub mod writer;
