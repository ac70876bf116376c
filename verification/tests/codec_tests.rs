//! Escape-codec tests: the two-byte escape pairs, the lenient fallback,
//! and the two inversion laws on concrete values.

use qvs20::codec::{escape, unescape};

#[test]
pub fn escape_replaces_the_six_reserved_bytes() {
    let raw = "1[2]3\\4\n5\r6\t7".as_bytes();
    let escaped = escape(raw);
    assert_eq!(escaped, "1\\[2\\]3\\\\4\\n5\\r6\\t7".as_bytes().to_vec());
}

#[test]
pub fn escape_leaves_plain_content_unchanged() {
    let raw = "plain text 123".as_bytes();
    assert_eq!(escape(raw), raw.to_vec());
}

#[test]
pub fn unescape_resolves_the_six_escape_pairs() {
    let enc = "1\\[2\\]3\\\\4\\n5\\r6\\t7".as_bytes();
    assert_eq!(unescape(enc), "1[2]3\\4\n5\r6\t7".as_bytes().to_vec());
}

#[test]
pub fn unescape_maps_an_unrecognized_escape_to_question_mark() {
    let enc = "a\\zb".as_bytes();
    assert_eq!(unescape(enc), "a?b".as_bytes().to_vec());
}

#[test]
pub fn unescape_after_escape_is_identity() {
    let raw: Vec<u8> = vec![0, b'[', b']', b'\\', b'\n', b'\r', b'\t', 200, b'x'];
    let there_and_back = unescape(escape(raw.as_slice()).as_slice());
    assert_eq!(there_and_back, raw);
}

#[test]
pub fn escape_after_unescape_is_identity_on_well_formed_input() {
    let enc = "ab\\[c\\]d\\\\e\\nf\\rg\\th".as_bytes();
    let back = escape(unescape(enc).as_slice());
    assert_eq!(back, enc.to_vec());
}
