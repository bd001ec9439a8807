//! The structural errors that abort a diff run.

use vstd::prelude::*;

verus! {

/// A structural fault in one of the two tables (or in its configuration).
/// Every such fault is fatal: the whole diff run aborts with it, and no
/// partial result is produced.
#[derive(Debug, Clone, PartialEq, Eq)]
pub enum StructuralError {
    /// The table has no lines at all, so there is no header to read.
    HeaderMissing,
    /// The header names the same column twice; the payload is the repeated
    /// name. An ambiguous name-to-ordinal mapping would make every later
    /// comparison meaningless.
    DuplicateColumn(String),
    /// A data row decoded to no fields at all; the payload is the row's
    /// zero-based ordinal among the data rows. The bundled row codec always
    /// yields at least one field, so its own scans never report this; the
    /// kind is part of the error vocabulary all the same.
    EmptyRow(usize),
    /// A data row's field count differs from the count established by the
    /// first data row. `ordinal` is the offending row's zero-based ordinal
    /// among the data rows.
    ColumnCountMismatch { ordinal: usize, expected: usize, actual: usize },
    /// A recorded row locator no longer points inside the table.
    SeekError,
    /// A table descriptor was supplied with no delimiter character.
    InvalidConfiguration,
}

} // verus!
