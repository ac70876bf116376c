//! Tokenizer tests: the well-formed token stream and every lexical error
//! with its exact byte offset.

use qvs20::reader::{Qvs20ErrorReader, ReaderForQvs20, Token};

#[test]
pub fn test_01_well_formed() {
    // fields, escaped, row_delimiter, eof
    let mut rdr = ReaderForQvs20::new(
        "[one][two][1\\\\2\\]3\\[4\\n5\\r6\\t]\n[four]\n".as_bytes(),
    );
    // first field
    let token = rdr.next().unwrap().unwrap();
    assert_eq!(token, Token::Field("one".as_bytes()));
    // second field
    let token = rdr.next().unwrap().unwrap();
    assert_eq!(token, Token::Field("two".as_bytes()));
    // third field
    let token = rdr.next().unwrap().unwrap();
    // here is raw bytes, not unescaped
    assert_eq!(token, Token::Field("1\\\\2\\]3\\[4\\n5\\r6\\t".as_bytes()));
    // row_delimiter only one byte
    let token = rdr.next().unwrap().unwrap();
    assert_eq!(token, Token::RowDelimiter(b'\n'));
    // fourth field
    let token = rdr.next().unwrap().unwrap();
    assert_eq!(token, Token::Field("four".as_bytes()));
    // row_delimiter only one byte. Must end with row delimiter
    let token = rdr.next().unwrap().unwrap();
    assert_eq!(token, Token::RowDelimiter(b'\n'));
    // None is returned to signal the end for iteration
    let next = rdr.next();
    assert!(next.is_none());
}

#[test]
pub fn test_02_not_field() {
    let mut rdr = ReaderForQvs20::new("this is not a field".as_bytes());
    // first field
    let result = rdr.next().unwrap();
    assert_eq!(
        result.err().unwrap().message(),
        Qvs20ErrorReader::NoFieldStart { pos: 0 }.message()
    );
}

#[test]
pub fn test_03_empty() {
    let mut rdr = ReaderForQvs20::new("".as_bytes());
    // first field
    let opt_result = rdr.next();
    assert!(opt_result.is_none());
}

#[test]
pub fn test_04_premature() {
    let mut rdr = ReaderForQvs20::new("[".as_bytes());
    // first field
    let result = rdr.next().unwrap();
    assert_eq!(
        result.err().unwrap().message(),
        "Error: Premature end of file. pos: 1"
    );
}

#[test]
pub fn test_05_no_last_bracket() {
    let mut rdr = ReaderForQvs20::new("[no last bracket".as_bytes());
    // first field
    let result = rdr.next().unwrap();
    assert_eq!(
        result.err().unwrap().message(),
        Qvs20ErrorReader::NoFieldEnd { pos: 1 }.message()
    );
}

#[test]
pub fn test_06_no_last_bracket() {
    let mut rdr = ReaderForQvs20::new("[one][no last bracket".as_bytes());
    // first field
    let token = rdr.next().unwrap().unwrap();
    assert_eq!(token, Token::Field("one".as_bytes()));
    // second field
    let result = rdr.next().unwrap();
    assert_eq!(
        result.err().unwrap().message(),
        Qvs20ErrorReader::NoFieldEnd { pos: 6 }.message()
    );
}

#[test]
pub fn test_07_premature_end() {
    let mut rdr = ReaderForQvs20::new("[escaped \\]".as_bytes());
    let result = rdr.next().unwrap();
    assert_eq!(
        result.err().unwrap().message(),
        "Error: Premature end of file. pos: 11"
    );
}

#[test]
pub fn test_08_no_row_delimiter() {
    let mut rdr = ReaderForQvs20::new("[one]".as_bytes());
    // first field
    let token = rdr.next().unwrap().unwrap();
    assert_eq!(token, Token::Field("one".as_bytes()));
    // second field
    let result = rdr.next().unwrap();
    assert_eq!(
        result.err().unwrap().message(),
        Qvs20ErrorReader::NoLastRowDelimiter { pos: 5 }.message()
    );
}

#[test]
pub fn test_09_row_delimiter_too_big() {
    let mut rdr = ReaderForQvs20::new("[one]\n\n".as_bytes());
    // first field
    let token = rdr.next().unwrap().unwrap();
    assert_eq!(token, Token::Field("one".as_bytes()));
    // second field
    let result = rdr.next().unwrap();
    assert_eq!(
        result.err().unwrap().message(),
        Qvs20ErrorReader::RowDelimiterMoreThan1Byte { pos: 5 }.message()
    );
}

#[test]
pub fn error_messages_carry_the_offset() {
    assert_eq!(
        Qvs20ErrorReader::NoFieldStart { pos: 0 }.message(),
        "Error: The field must start with [. pos: 0"
    );
    assert_eq!(
        Qvs20ErrorReader::NoFieldEnd { pos: 14 }.message(),
        "Error: Last bracket is missing. pos: 14"
    );
    assert_eq!(
        Qvs20ErrorReader::NoLastRowDelimiter { pos: 18 }.message(),
        "Error: Last row delimiter is missing. pos: 18"
    );
    assert_eq!(
        Qvs20ErrorReader::RowDelimiterMoreThan1Byte { pos: 23 }.message(),
        "Error: The row delimiter has more than 1 byte. pos: 23"
    );
    assert_eq!(
        Qvs20ErrorReader::PrematureEndOfFile { pos: 105 }.message(),
        "Error: Premature end of file. pos: 105"
    );
}

#[test]
pub fn find_u8_from_finds_first_occurrence() {
    let haystack = "abcabc".as_bytes();
    assert_eq!(ReaderForQvs20::find_u8_from(haystack, 0, b'b'), Some(1));
    assert_eq!(ReaderForQvs20::find_u8_from(haystack, 2, b'b'), Some(4));
    assert_eq!(ReaderForQvs20::find_u8_from(haystack, 5, b'b'), None);
    assert_eq!(ReaderForQvs20::find_u8_from(haystack, 6, b'b'), None);
}

#[test]
pub fn escaped_bracket_does_not_close_a_field() {
    let mut rdr = ReaderForQvs20::new("[a\\]b]\n".as_bytes());
    let token = rdr.next().unwrap().unwrap();
    assert_eq!(token, Token::Field("a\\]b".as_bytes()));
    let token = rdr.next().unwrap().unwrap();
    assert_eq!(token, Token::RowDelimiter(b'\n'));
    assert!(rdr.next().is_none());
}
