use dnskit::protocol::allocate_udp_recv_buffer;
use dnskit::protocol::message::{Class, OpCode, QClass, QType, QueryResponse, ResponseCode, Type};
use dnskit::protocol::parser::{parse, parse_header, parse_question, parse_resource_record, parse_resource_record_name};
use dnskit::ParseError;

const PAYLOAD: &'static str =
    "33B80120000100000000000104616C6561036E657400000100010000291000000000000000";

#[test]
fn test_parse_header() {
    let mut recv_buffer = allocate_udp_recv_buffer();
    hex::decode_to_slice(PAYLOAD, &mut recv_buffer[..PAYLOAD.len() / 2]).unwrap();
    let message = parse(&recv_buffer).unwrap();
    let header = message.header;

    assert_eq!(header.id, 13240);
    assert_eq!(header.query_response, QueryResponse::Query);
    assert_eq!(header.opcode, OpCode::Query);
    assert_eq!(header.authoritative_answer, false);
    assert_eq!(header.truncation, false);
    assert_eq!(header.recursion_available, false);
    assert_eq!(header.recursion_desired, true);
    assert_eq!(header.authentic_data, true);
    assert_eq!(header.checking_disabled, false);
    assert_eq!(header.response_code, ResponseCode::NoErrorCondition);
    assert_eq!(message.questions.len(), 1);
    assert_eq!(message.answers.len(), 0);
    assert_eq!(message.authority.len(), 0);
    assert_eq!(message.additional.len(), 1);
}

#[test]
fn test_parse_question() {
    let mut recv_buffer = allocate_udp_recv_buffer();
    hex::decode_to_slice(PAYLOAD, &mut recv_buffer[..PAYLOAD.len() / 2]).unwrap();
    let message = parse(&recv_buffer).unwrap();
    assert_eq!(message.questions.len(), 1);
    let question = message.questions.iter().next().unwrap();

    assert_eq!(&question.name(), "alea.net");
    assert_eq!(question.qtype, QType::Type(Type::A));
    assert_eq!(question.qclass, QClass::Class(Class::Internet));
}

#[test]
fn test_parse_rr_name_no_offsets() {
    let labels = vec!["www", "alea", "net"];
    let result = "www.alea.net";
    let mut buffer = Vec::new();
    for label in &labels {
        buffer.push(label.len() as u8);
        buffer.extend_from_slice(label.as_bytes());
    }
    buffer.push(0);
    let parse_result = parse_resource_record_name(&mut &buffer[..], &buffer).unwrap();
    assert_eq!(parse_result.name(), result);
}

#[test]
fn test_parse_rr_name_offsets_immediate() {
    let labels = vec!["www", "alea", "net"];
    let result = "www.alea.net";
    let mut buffer = Vec::new();
    buffer.extend_from_slice(&0xC003_u16.to_be_bytes()); // Starting at offset 3
    buffer.push(0); // padding
    for label in &labels {
        buffer.push(label.len() as u8);
        buffer.extend_from_slice(label.as_bytes());
    }
    buffer.push(0);
    let parse_result = parse_resource_record_name(&mut &buffer[..], &buffer).unwrap();
    assert_eq!(parse_result.name(), result);
}

#[test]
fn test_parse_rr_name_label_max() {
    let long_label = "a".repeat(63);
    let labels = vec![&long_label, "alea", "net"];
    let result = long_label.clone() + ".alea.net";
    let mut buffer = Vec::new();
    for label in &labels {
        buffer.push(label.len() as u8);
        buffer.extend_from_slice(label.as_bytes());
    }
    buffer.push(0);
    let parse_result = parse_resource_record_name(&mut &buffer[..], &buffer).unwrap();
    assert_eq!(parse_result.name(), result);
}

#[test]
#[should_panic]
fn test_parse_rr_name_label_oversize() {
    let long_label = "a".repeat(64);
    let labels = vec![&long_label, "alea", "net"];
    let mut buffer = Vec::new();
    for label in &labels {
        buffer.push(label.len() as u8);
        buffer.extend_from_slice(label.as_bytes());
    }
    buffer.push(0);
    parse_resource_record_name(&mut &buffer[..], &buffer).unwrap();
}

#[test]
fn test_parse_rr_name_total_max() {
    let long_label = "a".repeat(49);
    let labels = vec![
        &long_label,
        &long_label,
        &long_label,
        &long_label,
        &long_label,
        "123",
    ];
    let mut buffer = Vec::new();
    for label in &labels {
        buffer.push(label.len() as u8);
        buffer.extend_from_slice(label.as_bytes());
    }
    buffer.push(0);
    assert_eq!(buffer.len(), 255);
    let result = parse_resource_record_name(&mut &buffer[..], &buffer).unwrap();
    assert_eq!(result.name().len(), 253);
}

#[test]
#[should_panic]
fn test_parse_rr_name_total_oversize() {
    let long_label = "a".repeat(49);
    let labels = vec![
        &long_label,
        &long_label,
        &long_label,
        &long_label,
        &long_label,
        "1234",
    ];
    let mut buffer = Vec::new();
    for label in &labels {
        buffer.push(label.len() as u8);
        buffer.extend_from_slice(label.as_bytes());
    }
    assert_eq!(buffer.len(), 256);
    buffer.push(0);
    parse_resource_record_name(&mut &buffer[..], &buffer).unwrap();
}

#[test]
fn rr_name_offsets_are_recorded_and_cursor_moves() {
    // "alea.net" at 0, then "www" followed by a pointer to 0.
    let buffer: Vec<u8> = vec![
        4, b'a', b'l', b'e', b'a', 3, b'n', b'e', b't', 0, 3, b'w', b'w', b'w', 0xC0, 0x00, 0xAA,
    ];
    let mut cursor = &buffer[10..];
    let name = parse_resource_record_name(&mut cursor, &buffer).unwrap();
    assert_eq!(name.name(), "www.alea.net");
    assert_eq!(name.labels(), vec!["www".to_string(), "alea".to_string(), "net".to_string()]);
    assert!(name.0[0].offsets.is_empty());
    assert_eq!(name.0[1].offsets, vec![0]);
    assert!(name.0[2].offsets.is_empty());
    assert_eq!(cursor, &[0xAA]);
}

#[test]
fn rr_name_pointer_loop_is_refused() {
    let buffer: Vec<u8> = vec![0xC0, 0x00];
    let res = parse_resource_record_name(&mut &buffer[..], &buffer);
    assert!(matches!(res, Err(ParseError::UnexpectedValue(_))));
}

#[test]
fn rr_name_bad_marker_is_refused() {
    let buffer: Vec<u8> = vec![0x40, 0x00];
    let res = parse_resource_record_name(&mut &buffer[..], &buffer);
    assert!(matches!(res, Err(ParseError::UnexpectedValue(_))));
}

#[test]
fn rr_name_truncated() {
    let buffer: Vec<u8> = vec![3, b'w', b'w'];
    let res = parse_resource_record_name(&mut &buffer[..], &buffer);
    assert!(matches!(res, Err(ParseError::InvalidSliceSize)));
    let empty: Vec<u8> = Vec::new();
    let res = parse_resource_record_name(&mut &empty[..], &empty);
    assert!(matches!(res, Err(ParseError::InvalidSliceSize)));
}

#[test]
fn rr_name_label_length_byte_above_63_is_a_bad_marker() {
    let mut buffer = vec![64u8];
    buffer.extend_from_slice(&[b'a'; 64]);
    buffer.push(0);
    let res = parse_resource_record_name(&mut &buffer[..], &buffer);
    assert!(matches!(res, Err(ParseError::UnexpectedValue(_))));
}

#[test]
fn rr_name_too_long_reports_sizes() {
    let long_label = "a".repeat(49);
    let mut buffer = Vec::new();
    for label in [&long_label, &long_label, &long_label, &long_label, &long_label, "1234"] {
        buffer.push(label.len() as u8);
        buffer.extend_from_slice(label.as_bytes());
    }
    buffer.push(0);
    match parse_resource_record_name(&mut &buffer[..], &buffer) {
        Err(ParseError::InvalidStringSize { expected_max, actual }) => {
            assert_eq!(expected_max, 255);
            assert_eq!(actual, 256);
        }
        other => panic!("unexpected {other:?}"),
    }
}

#[test]
fn rr_name_bad_utf8() {
    let buffer: Vec<u8> = vec![2, 0xff, 0xfe, 0];
    let res = parse_resource_record_name(&mut &buffer[..], &buffer);
    assert!(matches!(res, Err(ParseError::CharacterConversion(_))));
}

#[test]
fn question_parse_moves_cursor() {
    let buffer: Vec<u8> = vec![1, b'x', 0, 0, 16, 0, 1, 0x99];
    let mut cursor = &buffer[..];
    let q = parse_question(&mut cursor).unwrap();
    assert_eq!(q.qname, vec!["x".to_string()]);
    assert_eq!(q.qtype, QType::Type(Type::TXT));
    assert_eq!(q.qclass, QClass::Class(Class::Internet));
    assert_eq!(cursor, &[0x99]);
}

#[test]
fn record_parse_reads_all_fields() {
    let buffer: Vec<u8> = vec![
        1, b'x', 0, 0, 1, 0, 1, 0, 0, 0, 60, 0, 4, 10, 0, 0, 1, 0x77,
    ];
    let mut cursor = &buffer[..];
    let r = parse_resource_record(&mut cursor, &buffer).unwrap();
    assert_eq!(r.name, vec!["x".to_string()]);
    assert_eq!(r.rtype, Type::A);
    assert_eq!(r.class, Class::Internet);
    assert_eq!(r.rdata, vec![10, 0, 0, 1]);
    assert_eq!(cursor, &[0x77]);
    let left = r.ttl.saturating_duration_since(std::time::Instant::now()).as_secs();
    assert!(left <= 60 && left >= 58);
}

#[test]
fn record_parse_truncated_data() {
    let buffer: Vec<u8> = vec![1, b'x', 0, 0, 1, 0, 1, 0, 0, 0, 60, 0, 4, 10, 0];
    let res = parse_resource_record(&mut &buffer[..], &buffer);
    assert!(matches!(res, Err(ParseError::InvalidSliceSize)));
}

#[test]
fn message_parse_truncated_header() {
    let buffer: Vec<u8> = vec![0x12, 0x34, 0x01];
    assert!(matches!(parse(&buffer), Err(ParseError::InvalidSliceSize)));
    assert!(matches!(parse(&[]), Err(ParseError::InvalidSliceSize)));
}

#[test]
fn message_parse_counts_beyond_data() {
    // One question announced, none present.
    let buffer: Vec<u8> = vec![0, 1, 0, 0, 0, 1, 0, 0, 0, 0, 0, 0];
    assert!(matches!(parse(&buffer), Err(ParseError::InvalidSliceSize)));
}

#[test]
fn message_parse_reads_reserved_fields() {
    // opcode 7, rcode 9
    let buffer: Vec<u8> = vec![0, 1, 0x38, 0x09, 0, 0, 0, 0, 0, 0, 0, 0];
    let message = parse(&buffer).unwrap();
    assert_eq!(message.header.opcode, OpCode::Reserved(7));
    assert_eq!(message.header.response_code, ResponseCode::Reserved(9));
    assert!(message.questions.is_empty());
}

#[test]
fn header_parse_reads_header_and_counts() {
    let buffer: Vec<u8> = vec![0x33, 0xB8, 0x81, 0x80, 0, 1, 0, 2, 0, 3, 0, 4, 0xEE];
    let mut cursor = &buffer[..];
    let fh = parse_header(&mut cursor).unwrap();
    assert_eq!(fh.header.id, 0x33B8);
    assert_eq!(fh.header.query_response, QueryResponse::Response);
    assert!(fh.header.recursion_desired && fh.header.recursion_available);
    assert_eq!((fh.qd_count, fh.an_count, fh.ns_count, fh.ar_count), (1, 2, 3, 4));
    assert_eq!(cursor, &[0xEE]);
    assert!(matches!(parse_header(&mut &buffer[..11]), Err(ParseError::InvalidSliceSize)));
}

#[test]
fn trailing_bytes_after_the_last_record_are_ignored() {
    let payload = hex::decode(PAYLOAD).unwrap();
    let short = parse(&payload).unwrap();
    let mut longer = payload.clone();
    longer.extend_from_slice(&[0xde, 0xad, 0xbe, 0xef]);
    let long = parse(&longer).unwrap();
    assert_eq!(short.header, long.header);
    assert_eq!(short.questions, long.questions);
    assert_eq!(short.additional.len(), long.additional.len());
    assert_eq!(short.additional[0].rdata, long.additional[0].rdata);
}
