//! Resolving the command flags to a selection mode.
//!
//! Exactly one of byte, character, or field selection drives a run.
//! Field selection is requested by giving a delimiter and needs a field
//! range list; a field range list without a delimiter is equally a usage
//! error.  When neither byte nor field selection is requested, character
//! selection is the default, unless ASCII handling is asked for, which
//! selects bytes.

use vstd::prelude::*;

verus! {

/// How positions on a line are addressed.
#[derive(Debug, Clone, Copy, PartialEq, Eq, Structural)]
pub enum SelectionMode {
    Chars,
    Bytes,
    Fields,
}

/// A rejected flag combination.
#[derive(Debug, Clone, Copy, PartialEq, Eq, Structural)]
pub enum UsageError {
    MissingMode,
    FieldsWithoutDelimiter,
    DelimiterWithoutFields,
}

/// The mode that a flag combination selects, or why it is rejected.
pub open spec fn selected_mode(
    byte_mode: bool,
    char_mode: bool,
    field_mode: bool,
    fields_given: bool,
    ascii_mode: bool,
) -> Result<SelectionMode, UsageError> {
    if !byte_mode && !char_mode && !field_mode {
        Err(UsageError::MissingMode)
    } else if fields_given && !field_mode {
        Err(UsageError::FieldsWithoutDelimiter)
    } else if field_mode && !fields_given {
        Err(UsageError::DelimiterWithoutFields)
    } else if field_mode {
        Ok(SelectionMode::Fields)
    } else if ascii_mode || byte_mode {
        Ok(SelectionMode::Bytes)
    } else {
        Ok(SelectionMode::Chars)
    }
}

/// Decide the run's selection mode from the flags: `byte_mode`,
/// `char_mode`, and `field_mode` say which selection flags were given
/// (`field_mode`: a delimiter was given), `fields_given` whether a field
/// range list was given, and `ascii_mode` whether ASCII handling was
/// asked for.
pub fn select_mode(
    byte_mode: bool,
    char_mode: bool,
    field_mode: bool,
    fields_given: bool,
    ascii_mode: bool,
) -> (r: Result<SelectionMode, UsageError>)
    ensures
        r == selected_mode(byte_mode, char_mode, field_mode, fields_given, ascii_mode),
{
    if !byte_mode && !char_mode && !field_mode {
        Err(UsageError::MissingMode)
    } else if fields_given && !field_mode {
        Err(UsageError::FieldsWithoutDelimiter)
    } else if field_mode && !fields_given {
        Err(UsageError::DelimiterWithoutFields)
    } else if field_mode {
        Ok(SelectionMode::Fields)
    } else if ascii_mode || byte_mode {
        Ok(SelectionMode::Bytes)
    } else {
        Ok(SelectionMode::Chars)
    }
}

} // verus!
