//! CSV reading and writing for Ruby strings and arrays, with verified
//! buffer handling around the `csv` and `csv-core` crates.

pub mod capacity;
pub mod value;
pub mod record;
pub mod format;
pub mod writer;
pub mod reader;
pub mod grammar;
pub mod roundtrip;
pub mod enumerator;
pub mod strings;
