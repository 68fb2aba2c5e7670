//! A verified IPv4-range lookup engine.
//!
//! The library loads a table of IP-range-to-location records from
//! comma-separated rows and answers point lookups ("which record's range
//! contains this address?") over a small line-based command protocol.
//! Everything here is plain data in, plain data out: reading the backing
//! file and the command stream is the caller's business.

pub mod addr;
pub mod index;
pub mod record;
pub mod session;
pub mod text;
