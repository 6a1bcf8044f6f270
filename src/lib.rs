//! Row selection for delimited text: keep the rows whose value in one column
//! belongs to a set of selector strings (or, inverted, does not).
//!
//! `selector` holds the set of strings, `codec` reads and writes delimited
//! records, `filter` decides which rows are kept and writes them out, and
//! `laws` proves what holds of every run.
pub mod codec;
pub mod filter;
pub mod laws;
pub mod selector;

pub use filter::{
    delimiter_byte, filter_targets, process_target, select_record, select_rows, write_rows,
    MashError,
};
pub use selector::{create_selector, Selector};
