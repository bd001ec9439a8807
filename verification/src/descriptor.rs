//! Table descriptors and their construction from raw argument strings.

use vstd::prelude::*;
use crate::error::StructuralError;

verus! {

/// Everything the engine needs to know about one table: where it lives, what
/// separates its fields, and (optionally) what quote character to trim from
/// field ends. The descriptor owns its location outright and is never mutated;
/// every engine operation borrows it.
#[derive(Debug, Clone, PartialEq, Eq)]
pub struct TableDescriptor {
    pub location: String,
    pub delimiter: char,
    pub quote: Option<char>,
}

/// Builds a [`TableDescriptor`] from three raw argument strings: a location, a
/// delimiter and a quote. The delimiter argument must supply at least one
/// character (its first character is the delimiter); an empty delimiter
/// argument is an invalid configuration. The quote argument may be empty, in
/// which case no quote trimming is configured; otherwise its first character
/// is the quote.
pub fn parse_args(path_arg: &String, delimiter_arg: &String, quote_arg: &String) -> (r: Result<
    TableDescriptor,
    StructuralError,
>)
    ensures
        match r {
            Ok(desc) => {
                &&& delimiter_arg@.len() > 0
                &&& desc.location@ == path_arg@
                &&& desc.delimiter == delimiter_arg@[0]
                &&& desc.quote == (if quote_arg@.len() > 0 {
                    Some(quote_arg@[0])
                } else {
                    None::<char>
                })
            },
            Err(e) => {
                &&& delimiter_arg@.len() == 0
                &&& e == StructuralError::InvalidConfiguration
            },
        },
{
    if delimiter_arg.as_str().unicode_len() == 0 {
        return Err(StructuralError::InvalidConfiguration);
    }
    let delimiter = delimiter_arg.as_str().get_char(0);
    let quote = if quote_arg.as_str().unicode_len() == 0 {
        None
    } else {
        Some(quote_arg.as_str().get_char(0))
    };
    Ok(TableDescriptor { location: path_arg.clone(), delimiter, quote })
}

} // verus!
