//! A verified engine for diffing two delimited text tables.
//!
//! Two tables (header line plus data lines, fields separated by a configured
//! delimiter character, optionally quote-trimmed) are compared row by row and
//! column by column: rows are matched across the tables by a composite
//! identity key drawn from two designated key columns, columns are matched by
//! name, and a difference record is produced for every shared row and shared
//! column whose two values disagree.
//!
//! The engine works on plain values: a table is handed in as its sequence of
//! lines, already read from wherever it lives. Reading files, parsing command
//! lines and printing results are left to the surrounding program.

pub mod catalog;
pub mod descriptor;
pub mod codec;
pub mod diff;
pub mod error;
pub mod fetch;
pub mod index;
pub mod intersect;

