use rcut::config::select_mode;
use rcut::config::SelectionMode;
use rcut::config::UsageError;
use rcut::version;

#[test]
fn test_version() {
    assert_eq!(version(), "0.1.0");
}

#[test]
fn test_select_mode_missing() {
    assert_eq!(
        select_mode(false, false, false, false, false),
        Err(UsageError::MissingMode)
    );
}

#[test]
fn test_select_mode_fields_without_delimiter() {
    assert_eq!(
        select_mode(false, true, false, true, false),
        Err(UsageError::FieldsWithoutDelimiter)
    );
}

#[test]
fn test_select_mode_delimiter_without_fields() {
    assert_eq!(
        select_mode(false, false, true, false, false),
        Err(UsageError::DelimiterWithoutFields)
    );
}

#[test]
fn test_select_mode_fields() {
    assert_eq!(
        select_mode(false, false, true, true, false),
        Ok(SelectionMode::Fields)
    );
}

#[test]
fn test_select_mode_bytes() {
    assert_eq!(select_mode(true, false, false, false, false), Ok(SelectionMode::Bytes));
}

#[test]
fn test_select_mode_chars_default() {
    assert_eq!(select_mode(false, true, false, false, false), Ok(SelectionMode::Chars));
}

#[test]
fn test_select_mode_ascii_forces_bytes() {
    assert_eq!(select_mode(false, true, false, false, true), Ok(SelectionMode::Bytes));
}
