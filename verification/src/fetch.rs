//! The row fetcher: re-reads exactly one row of a table by its recorded
//! locator and decodes it.

use vstd::prelude::*;
use crate::codec::{decode_row, spec_decode_row};
use crate::descriptor::TableDescriptor;
use crate::error::StructuralError;

verus! {

/// Re-positions at the line the locator names and decodes exactly that one
/// line with the row codec. Fails with `SeekError` when the locator no longer
/// lies inside the table (the table shrank after the index was built). Each
/// call is independent of every other.
pub fn fetch_row(desc: &TableDescriptor, lines: &Vec<String>, locator: usize) -> (r: Result<
    Vec<String>,
    StructuralError,
>)
    ensures
        match r {
            Ok(fields) => locator < lines@.len() && fields.deep_view() == spec_decode_row(
                lines.deep_view()[locator as int],
                desc.delimiter,
                desc.quote,
            ),
            Err(e) => locator >= lines@.len() && e == StructuralError::SeekError,
        },
{
    if locator >= lines.len() {
        return Err(StructuralError::SeekError);
    }
    Ok(decode_row(lines[locator].as_str(), desc.delimiter, desc.quote))
}

} // verus!
