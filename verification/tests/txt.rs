use dnskit::protocol::records::txt::TXT;
use dnskit::{ParseError, TextError};

#[test]
fn txt_single_and_text() {
    let t = TXT::with_single("hello world").unwrap();
    assert_eq!(t.text(), "hello world");
    assert_eq!(t.serialize(), [&[11u8][..], b"hello world"].concat());
}

#[test]
fn txt_multiple_joins_with_newlines() {
    let t = TXT::with_multiple(vec!["a".to_string(), "bc".to_string(), String::new()]).unwrap();
    assert_eq!(t.text(), "a\nbc\n");
    assert_eq!(t.serialize(), vec![1, b'a', 2, b'b', b'c', 0]);
}

#[test]
fn txt_limits() {
    let ok = "x".repeat(254);
    assert!(TXT::with_single(&ok).is_ok());
    let long = "y".repeat(255);
    match TXT::with_single(&long) {
        Err(TextError::InvalidNameSize { text }) => assert_eq!(text, long),
        Ok(_) => panic!("accepted an entry of 255 bytes"),
    }
    match TXT::with_multiple(vec!["a".to_string(), long.clone(), "z".repeat(300)]) {
        Err(TextError::InvalidNameSize { text }) => assert_eq!(text, long),
        Ok(_) => panic!("accepted an entry of 255 bytes"),
    }
}

#[test]
fn txt_parse_roundtrip() {
    let t = TXT::with_multiple(vec!["v=spf1".to_string(), "-all".to_string()]).unwrap();
    let back = TXT::parse(&t.serialize()).unwrap();
    assert_eq!(back.text(), "v=spf1\n-all");
    assert_eq!(TXT::parse(&[]).unwrap().text(), "");
}

#[test]
fn txt_parse_lossy_and_truncated() {
    let lossy = TXT::parse(&[2, b'o', 0xff]).unwrap();
    assert_eq!(lossy.text(), "o\u{fffd}");
    assert!(matches!(TXT::parse(&[5, b'a', b'b']), Err(ParseError::InvalidSliceSize)));
    assert!(matches!(TXT::parse(&[1, b'a', 3]), Err(ParseError::InvalidSliceSize)));
}
