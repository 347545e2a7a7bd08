//! Scan a newline-delimited JSON-like dataset and count the records that
//! satisfy a fixed nested-field predicate, under three interchangeable
//! representations of a parsed record: fully owned, borrowed (byte ranges
//! into the input buffer), and string-interned.
//!
//! `model` holds the abstract value every representation maps to, and the
//! meaning of field lookup, the substring test and the fixed predicate.
//! `parse` turns one record's bytes into a borrowed tree; `value_owned` and
//! `value_intern` convert that tree into the other two representations.
//! `queryable` is the uniform query capability and the predicate evaluator;
//! `engine` splits a buffer into records and counts the matches. Whichever
//! representation is selected, the count is the same.

pub mod engine;
pub mod model;
pub mod parse;
pub mod queryable;
pub mod value_borrow;
pub mod value_intern;
pub mod value_owned;
