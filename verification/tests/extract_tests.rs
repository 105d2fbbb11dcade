use rcut::context::CharContext;
use rcut::context::CharUtf8LineProcessor;
use rcut::context::ByteLineProcessor;
use rcut::context::FieldContext;
use rcut::context::FieldUtf8LineProcessor;
use rcut::context::LineProcessorT;
use rcut::extract::process_line_by_byte;
use rcut::extract::process_line_by_char_utf8;
use rcut::extract::process_line_by_field_utf8;
use rcut::ranges::extract_ranged_pairs;

const STR_RANGES_01: &str = "9,4,7,3,12,5-15";
const STR_BIRDS: &str = "🦃🐔🐓🐣🐤🐥🐦🐧🕊🦅🦆🦢🦉🦚🦜";
const STR_BIRDS_OUTPUT: &str = "🕊🐣🐦🐓🦢🐤🐥🐦🐧🕊🦅🦆🦢🦉🦚🦜\n";
const STR_ALPHABET: &str = "abcdefghijklmnopqrstuvwxyz";
const STR_ALPHABET_OUTPUT: &str = "idgclefghijklmno\n";

#[test]
fn test_process_line_utf8() {
    let char_processor = CharUtf8LineProcessor {};
    let ranged_pairs = extract_ranged_pairs(STR_RANGES_01).unwrap();
    assert_eq!(
        STR_BIRDS_OUTPUT.as_bytes().to_vec(),
        char_processor.process(STR_BIRDS, &CharContext::new(&ranged_pairs))
    );
}

#[test]
fn lib_test_process_line_utf8() {
    let char_processor = CharUtf8LineProcessor {};
    let ranged_pairs = extract_ranged_pairs(STR_RANGES_01).unwrap();
    assert_eq!(
        STR_BIRDS_OUTPUT.as_bytes().to_vec(),
        char_processor.process(STR_BIRDS, &CharContext::new(&ranged_pairs))
    );
}

#[test]
fn test_process_line_ascii() {
    let char_processor = ByteLineProcessor {};
    let ranged_pairs = extract_ranged_pairs(STR_RANGES_01).unwrap();
    assert_eq!(
        STR_ALPHABET_OUTPUT.as_bytes().to_vec(),
        char_processor.process(STR_ALPHABET, &CharContext::new(&ranged_pairs))
    );
}

#[test]
fn lib_test_process_line_ascii() {
    let char_processor = ByteLineProcessor {};
    let ranged_pairs = extract_ranged_pairs(STR_RANGES_01).unwrap();
    assert_eq!(
        STR_ALPHABET_OUTPUT.as_bytes().to_vec(),
        char_processor.process(STR_ALPHABET, &CharContext::new(&ranged_pairs))
    );
}

#[test]
fn test_process_line_ascii_on_multibyte_differs() {
    // On multi-byte text, byte selection slices raw UTF-8 bytes and does
    // not reproduce character selection.
    let ranged_pairs = extract_ranged_pairs(STR_RANGES_01).unwrap();
    let by_byte = process_line_by_byte(STR_BIRDS, &ranged_pairs);
    assert_ne!(STR_BIRDS_OUTPUT.as_bytes().to_vec(), by_byte);
}

#[test]
fn test_byte_char_equivalence_on_ascii() {
    // Mode equivalence: on all-ASCII input the byte extractor selects the
    // same output as the character extractor.
    let ranged_pairs = extract_ranged_pairs(STR_RANGES_01).unwrap();
    let by_char = process_line_by_char_utf8(STR_ALPHABET, &ranged_pairs);
    let by_byte = process_line_by_byte(STR_ALPHABET, &ranged_pairs);
    assert_eq!(by_char, by_byte);
}

#[test]
fn test_process_line_char_empty_line() {
    let ranged_pairs = extract_ranged_pairs("2-4").unwrap();
    assert_eq!(process_line_by_char_utf8("", &ranged_pairs), b"\n".to_vec());
}

#[test]
fn test_process_line_byte_range_beyond_line_stops() {
    // The byte walk stops at the first range starting beyond the line,
    // skipping the later range.
    let ranged_pairs = vec![(9, 9), (1, 2)];
    assert_eq!(process_line_by_byte("abc", &ranged_pairs), b"\n".to_vec());
}

#[test]
fn test_process_line_char_range_beyond_line_continues() {
    // The character walk skips only the range beyond the line.
    let ranged_pairs = vec![(9, 9), (1, 2)];
    assert_eq!(process_line_by_char_utf8("abc", &ranged_pairs), b"ab\n".to_vec());
}

#[test]
fn test_process_ascii_fields_for_line_ignored_delim() {
    let line_processor = FieldUtf8LineProcessor {};
    let line = "1234";
    let delim = ":";
    let ranged_pairs: Vec<(usize, usize)> = vec![(2, 2), (4, 6)];
    assert_eq!(
        vec![10],
        line_processor.process(line, &FieldContext::new(&ranged_pairs, delim))
    );
}

#[test]
fn lib_test_process_ascii_fields_for_line_ignored_delim() {
    let line_processor = FieldUtf8LineProcessor {};
    let line = "1234";
    let delim = ":";
    let ranged_pairs: Vec<(usize, usize)> = vec![(2, 2), (4, 6)];
    assert_eq!(
        vec![10],
        line_processor.process(line, &FieldContext::new(&ranged_pairs, delim))
    );
}

#[test]
fn test_process_ascii_fields_for_line_leading_delim() {
    let line_processor = FieldUtf8LineProcessor {};
    let line = ":1234";
    let delim = ":";
    let ranged_pairs: Vec<(usize, usize)> = vec![(2, 2), (4, 6)];
    assert_eq!(
        "1234\n".as_bytes().to_vec(),
        line_processor.process(line, &FieldContext::new(&ranged_pairs, delim))
    );
}

#[test]
fn lib_test_process_ascii_fields_for_line_leading_delim() {
    let line_processor = FieldUtf8LineProcessor {};
    let line = ":1234";
    let delim = ":";
    let ranged_pairs: Vec<(usize, usize)> = vec![(2, 2), (4, 6)];
    assert_eq!(
        "1234\n".as_bytes().to_vec(),
        line_processor.process(line, &FieldContext::new(&ranged_pairs, delim))
    );
}

#[test]
fn test_process_ascii_fields_for_line_trailing_delim() {
    let line_processor = FieldUtf8LineProcessor {};
    let line = "1234:";
    let delim = ":";
    let ranged_pairs: Vec<(usize, usize)> = vec![(2, 2), (4, 6)];
    assert_eq!(
        "\n".as_bytes().to_vec(),
        line_processor.process(line, &FieldContext::new(&ranged_pairs, delim))
    );
}

#[test]
fn lib_test_process_ascii_fields_for_line_trailing_delim() {
    let line_processor = FieldUtf8LineProcessor {};
    let line = "1234:";
    let delim = ":";
    let ranged_pairs: Vec<(usize, usize)> = vec![(2, 2), (4, 6)];
    assert_eq!(
        "\n".as_bytes().to_vec(),
        line_processor.process(line, &FieldContext::new(&ranged_pairs, delim))
    );
}

#[test]
fn test_process_ascii_fields_for_line_1st_field_empty() {
    let line_processor = FieldUtf8LineProcessor {};
    let line = ":1:2:3";
    let delim = ":";
    assert_eq!(
        ":2\n".as_bytes().to_vec(),
        line_processor.process(line, &FieldContext::new(&vec![(1, 1), (3, 3)], delim))
    );
    assert_eq!(
        ":2:3\n".as_bytes().to_vec(),
        line_processor.process(line, &FieldContext::new(&vec![(1, 1), (3, 3), (4, 4)], delim))
    );
    assert_eq!(
        ":3\n".as_bytes().to_vec(),
        line_processor.process(line, &FieldContext::new(&vec![(1, 1), (4, 4)], delim))
    );
    assert_eq!(
        ":2:3\n".as_bytes().to_vec(),
        line_processor.process(line, &FieldContext::new(&vec![(1, 1), (3, 4)], delim))
    );
    assert_eq!(
        ":2:3\n".as_bytes().to_vec(),
        line_processor.process(line, &FieldContext::new(&vec![(1, 1), (3, 5)], delim))
    );
}

#[test]
fn lib_test_process_ascii_fields_for_line_1st_field_empty() {
    let line_processor = FieldUtf8LineProcessor {};
    let line = ":1:2:3";
    let delim = ":";
    assert_eq!(
        ":2\n".as_bytes().to_vec(),
        line_processor.process(line, &FieldContext::new(&vec![(1, 1), (3, 3)], delim))
    );
    assert_eq!(
        ":2:3\n".as_bytes().to_vec(),
        line_processor.process(line, &FieldContext::new(&vec![(1, 1), (3, 3), (4, 4)], delim))
    );
    assert_eq!(
        ":3\n".as_bytes().to_vec(),
        line_processor.process(line, &FieldContext::new(&vec![(1, 1), (4, 4)], delim))
    );
    assert_eq!(
        ":2:3\n".as_bytes().to_vec(),
        line_processor.process(line, &FieldContext::new(&vec![(1, 1), (3, 4)], delim))
    );
    assert_eq!(
        ":2:3\n".as_bytes().to_vec(),
        line_processor.process(line, &FieldContext::new(&vec![(1, 1), (3, 5)], delim))
    );
}

#[test]
fn test_process_utf8_fields_for_line_1st_field_empty() {
    let line_processor = FieldUtf8LineProcessor {};
    let line = ":🐣:🐥:🐓";
    let delim = ":";
    assert_eq!(
        ":🐥\n".as_bytes().to_vec(),
        line_processor.process(line, &FieldContext::new(&vec![(1, 1), (3, 3)], delim))
    );
    assert_eq!(
        ":🐥:🐓\n".as_bytes().to_vec(),
        line_processor.process(line, &FieldContext::new(&vec![(1, 1), (3, 3), (4, 4)], delim))
    );
    assert_eq!(
        ":🐓\n".as_bytes().to_vec(),
        line_processor.process(line, &FieldContext::new(&vec![(1, 1), (4, 4)], delim))
    );
    assert_eq!(
        ":🐥:🐓\n".as_bytes().to_vec(),
        line_processor.process(line, &FieldContext::new(&vec![(1, 1), (3, 4)], delim))
    );
    assert_eq!(
        ":🐥:🐓\n".as_bytes().to_vec(),
        line_processor.process(line, &FieldContext::new(&vec![(1, 1), (3, 5)], delim))
    );
}

#[test]
fn lib_test_process_utf8_fields_for_line_1st_field_empty() {
    let line_processor = FieldUtf8LineProcessor {};
    let line = ":🐣:🐥:🐓";
    let delim = ":";
    assert_eq!(
        ":🐥\n".as_bytes().to_vec(),
        line_processor.process(line, &FieldContext::new(&vec![(1, 1), (3, 3)], delim))
    );
    assert_eq!(
        ":🐥:🐓\n".as_bytes().to_vec(),
        line_processor.process(line, &FieldContext::new(&vec![(1, 1), (3, 3), (4, 4)], delim))
    );
    assert_eq!(
        ":🐓\n".as_bytes().to_vec(),
        line_processor.process(line, &FieldContext::new(&vec![(1, 1), (4, 4)], delim))
    );
    assert_eq!(
        ":🐥:🐓\n".as_bytes().to_vec(),
        line_processor.process(line, &FieldContext::new(&vec![(1, 1), (3, 4)], delim))
    );
    assert_eq!(
        ":🐥:🐓\n".as_bytes().to_vec(),
        line_processor.process(line, &FieldContext::new(&vec![(1, 1), (3, 5)], delim))
    );
}

#[test]
fn test_process_field_no_delim_occurrence() {
    // A line without the delimiter is a single field; range (1,1) selects
    // the whole line.
    let ranged_pairs = vec![(1, 1)];
    assert_eq!(
        process_line_by_field_utf8("1234", &ranged_pairs, ":"),
        "1234\n".as_bytes().to_vec()
    );
}

#[test]
fn test_process_field_multichar_delim() {
    let ranged_pairs = vec![(2, 3)];
    assert_eq!(
        process_line_by_field_utf8("a::b::c", &ranged_pairs, "::"),
        "b::c\n".as_bytes().to_vec()
    );
}

#[test]
fn test_process_line_byte_open_ended_range() {
    let ranged_pairs = vec![(2, usize::MAX)];
    assert_eq!(process_line_by_byte("hello", &ranged_pairs), b"ello\n".to_vec());
}

#[test]
fn test_process_field_open_ended_range() {
    let ranged_pairs = vec![(2, usize::MAX)];
    assert_eq!(
        process_line_by_field_utf8("a:b:c", &ranged_pairs, ":"),
        b"b:c\n".to_vec()
    );
}
