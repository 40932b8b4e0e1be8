use kakuro::model::Signature;
use kakuro::text::{parse_signature, scan, signature_text, split_lines, split_tokens, ByteClass};

fn owned(parts: &[&str]) -> Vec<Vec<u8>> {
    parts.iter().map(|p| p.as_bytes().to_vec()).collect()
}

#[test]
fn an_empty_text_has_no_lines() {
    assert_eq!(split_lines(b""), Vec::<Vec<u8>>::new());
}

#[test]
fn a_final_line_feed_starts_no_line() {
    assert_eq!(split_lines(b"ab\ncd\n"), owned(&["ab", "cd"]));
    assert_eq!(split_lines(b"ab\ncd"), owned(&["ab", "cd"]));
}

#[test]
fn empty_lines_are_lines() {
    assert_eq!(split_lines(b"ab\n\ncd"), owned(&["ab", "", "cd"]));
    assert_eq!(split_lines(b"\n"), owned(&[""]));
    assert_eq!(split_lines(b"\n\n"), owned(&["", ""]));
}

#[test]
fn a_carriage_return_stays_in_the_line() {
    assert_eq!(split_lines(b"ab\r\ncd"), owned(&["ab\r", "cd"]));
}

#[test]
fn tokens_are_separated_by_blanks() {
    assert_eq!(split_tokens(b"\\xx -\\11-2"), owned(&["\\xx", "-\\11-2"]));
    assert_eq!(split_tokens(b"  a \t b\r"), owned(&["a", "b"]));
    assert_eq!(split_tokens(b"abc"), owned(&["abc"]));
}

#[test]
fn a_blank_line_has_no_tokens() {
    assert_eq!(split_tokens(b""), Vec::<Vec<u8>>::new());
    assert_eq!(split_tokens(b" \t\r "), Vec::<Vec<u8>>::new());
}

#[test]
fn scan_stops_at_the_first_byte_outside_the_class() {
    assert_eq!(scan(b"ab cd", 0, ByteClass::InToken), 2);
    assert_eq!(scan(b"ab cd", 2, ByteClass::Blank), 3);
    assert_eq!(scan(b"ab cd", 3, ByteClass::InToken), 5);
    assert_eq!(scan(b"ab\ncd", 0, ByteClass::InLine), 2);
    assert_eq!(scan(b"4-2\\6-2", 0, ByteClass::InPart), 3);
    assert_eq!(scan(b"abc", 3, ByteClass::InToken), 3);
}

#[test]
fn signatures_are_read() {
    assert_eq!(parse_signature(b"11-2"), Some(Signature { sum: 11, length: 2 }));
    assert_eq!(parse_signature(b"4-2"), Some(Signature { sum: 4, length: 2 }));
    assert_eq!(parse_signature(b"45-9"), Some(Signature { sum: 45, length: 9 }));
    assert_eq!(parse_signature(b"1-1"), Some(Signature { sum: 1, length: 1 }));
    assert_eq!(parse_signature(b"10-4"), Some(Signature { sum: 10, length: 4 }));
}

#[test]
fn malformed_signatures_are_refused() {
    assert_eq!(parse_signature(b""), None);
    assert_eq!(parse_signature(b"-"), None);
    assert_eq!(parse_signature(b"46-9"), None);
    assert_eq!(parse_signature(b"0-1"), None);
    assert_eq!(parse_signature(b"04-2"), None);
    assert_eq!(parse_signature(b"4-0"), None);
    assert_eq!(parse_signature(b"4-10"), None);
    assert_eq!(parse_signature(b"4+2"), None);
    assert_eq!(parse_signature(b"4-"), None);
    assert_eq!(parse_signature(b"-2"), None);
    assert_eq!(parse_signature(b"x-2"), None);
    assert_eq!(parse_signature(b"4-x"), None);
    assert_eq!(parse_signature(b"1x-2"), None);
    assert_eq!(parse_signature(b"11-2 "), None);
    assert_eq!(parse_signature(b"111-2"), None);
}

#[test]
fn signatures_are_written() {
    assert_eq!(signature_text(Signature { sum: 11, length: 2 }), Some(b"11-2".to_vec()));
    assert_eq!(signature_text(Signature { sum: 4, length: 2 }), Some(b"4-2".to_vec()));
    assert_eq!(signature_text(Signature { sum: 45, length: 9 }), Some(b"45-9".to_vec()));
    assert_eq!(signature_text(Signature { sum: 10, length: 1 }), Some(b"10-1".to_vec()));
}

#[test]
fn signatures_that_are_not_valid_are_not_written() {
    assert_eq!(signature_text(Signature { sum: 0, length: 2 }), None);
    assert_eq!(signature_text(Signature { sum: 46, length: 2 }), None);
    assert_eq!(signature_text(Signature { sum: 11, length: 0 }), None);
    assert_eq!(signature_text(Signature { sum: 11, length: 10 }), None);
    assert!(Signature { sum: 45, length: 9 }.is_valid());
    assert!(Signature { sum: 1, length: 1 }.is_valid());
    assert!(!Signature { sum: 46, length: 9 }.is_valid());
}

#[test]
fn a_scan_from_behind_the_end_stays_where_it_is() {
    assert_eq!(scan(b"abc", 7, ByteClass::InToken), 7);
    assert_eq!(scan(b"", 0, ByteClass::Blank), 0);
}

#[test]
fn every_valid_signature_is_read_back_as_written() {
    for sum in 1..=45u8 {
        for length in 1..=9u8 {
            let sig = Signature { sum, length };
            assert_eq!(parse_signature(&signature_text(sig).unwrap()), Some(sig));
        }
    }
}
