use dnskit::protocol::message::{
    Class, Header, Message, OpCode, QClass, QType, Question, QueryResponse, ResourceRecord,
    ResponseCode, Type,
};
use dnskit::protocol::parser::parse;
use dnskit::{NamingError, QueryMessageError, ResponseMessageError};
use std::time::{Duration, Instant};

fn query_header() -> Header {
    Header {
        id: 42,
        query_response: QueryResponse::Query,
        opcode: OpCode::Query,
        authoritative_answer: false,
        truncation: false,
        recursion_desired: true,
        recursion_available: false,
        reserved: false,
        authentic_data: false,
        checking_disabled: true,
        response_code: ResponseCode::NoErrorCondition,
    }
}

#[test]
fn test_serialize_deserialize_full() {
    let qmessage = Message {
        header: Header {
            id: 42,
            query_response: QueryResponse::Query,
            opcode: OpCode::Query,
            authoritative_answer: false,
            truncation: false,
            recursion_desired: true,
            recursion_available: false,
            reserved: false,
            authentic_data: false,
            checking_disabled: true,
            response_code: ResponseCode::NoErrorCondition,
        },
        questions: vec![Question::new(
            "www.alea.net",
            QClass::Class(Class::Internet),
            QType::Type(Type::A),
        )
        .unwrap()],
        answers: Vec::new(),
        authority: Vec::new(),
        additional: Vec::new(),
    };
    let bin_message = qmessage.serialize();
    assert_eq!(qmessage, parse(&bin_message).unwrap());
}

#[test]
fn serialize_query_exact_bytes() {
    let message = Message {
        header: query_header(),
        questions: vec![Question::new("a.b", QClass::Any, QType::All).unwrap()],
        answers: Vec::new(),
        authority: Vec::new(),
        additional: Vec::new(),
    };
    assert_eq!(
        message.serialize(),
        vec![
            0x00, 0x2a, 0x01, 0x10, 0, 1, 0, 0, 0, 0, 0, 0, 1, b'a', 1, b'b', 0, 0, 255, 0, 255
        ]
    );
}

#[test]
fn header_flags_every_bit() {
    let message = Message {
        header: Header {
            id: 0x1234,
            query_response: QueryResponse::Response,
            opcode: OpCode::Status,
            authoritative_answer: true,
            truncation: true,
            recursion_desired: true,
            recursion_available: true,
            reserved: true,
            authentic_data: true,
            checking_disabled: true,
            response_code: ResponseCode::Refused,
        },
        questions: Vec::new(),
        answers: Vec::new(),
        authority: Vec::new(),
        additional: Vec::new(),
    };
    let bytes = message.serialize();
    // QR=1, OPCODE=2, AA TC RD RA Z AD CD all set, RCODE=5.
    assert_eq!(&bytes[..4], &[0x12, 0x34, 0x97, 0xf5]);
    assert_eq!(parse(&bytes).unwrap(), message);
}

#[test]
fn roundtrip_with_records_keeps_everything_but_ttl() {
    let expires = Instant::now() + Duration::from_secs(3600);
    let record = ResourceRecord {
        name: vec!["www".to_string(), "alea".to_string(), "net".to_string()],
        rtype: Type::A,
        class: Class::Internet,
        ttl: expires,
        rdata: vec![192, 0, 2, 1],
    };
    let message = Message {
        header: query_header(),
        questions: vec![Question::new("www.alea.net", QClass::Class(Class::Internet), QType::Type(Type::A)).unwrap()],
        answers: vec![record.clone()],
        authority: Vec::new(),
        additional: vec![record.clone()],
    };
    let parsed = parse(&message.serialize()).unwrap();
    assert_eq!(parsed.header, message.header);
    assert_eq!(parsed.questions, message.questions);
    assert_eq!(parsed.answers.len(), 1);
    assert_eq!(parsed.additional.len(), 1);
    assert!(parsed.authority.is_empty());
    let back = &parsed.answers[0];
    assert_eq!(back.name, record.name);
    assert_eq!(back.rtype, record.rtype);
    assert_eq!(back.class, record.class);
    assert_eq!(back.rdata, record.rdata);
}

#[test]
fn record_serialize_with_ttl_exact_bytes() {
    let record = ResourceRecord {
        name: vec!["a".to_string()],
        rtype: Type::TXT,
        class: Class::CHAOS,
        ttl: Instant::now(),
        rdata: vec![7, 8],
    };
    assert_eq!(
        record.serialize_with_ttl(0x01020304),
        vec![1, b'a', 0, 0, 16, 0, 3, 1, 2, 3, 4, 0, 2, 7, 8]
    );
}

#[test]
fn record_serialize_uses_remaining_seconds() {
    let record = ResourceRecord {
        name: vec!["a".to_string()],
        rtype: Type::A,
        class: Class::Internet,
        ttl: Instant::now() + Duration::from_secs(100),
        rdata: vec![1, 2, 3, 4],
    };
    let bytes = record.serialize();
    let ttl = u32::from_be_bytes([bytes[7], bytes[8], bytes[9], bytes[10]]);
    assert!(ttl <= 100 && ttl >= 98);
    let expired = ResourceRecord { ttl: Instant::now(), ..record };
    let bytes = expired.serialize();
    assert_eq!(&bytes[7..11], &[0, 0, 0, 0]);
}

#[test]
fn question_name_gives_back_the_written_name() {
    for name in ["www.alea.net", "alea.net", "net", "", "a..b", "xn--caf-dma.example", "café.fr"] {
        let q = Question::new(name, QClass::Any, QType::MAILA).unwrap();
        assert_eq!(q.name(), name);
    }
}

#[test]
fn question_new_splits_labels() {
    let q = Question::new("www.alea.net", QClass::Class(Class::Internet), QType::Type(Type::AAAA)).unwrap();
    assert_eq!(q.qname, vec!["www".to_string(), "alea".to_string(), "net".to_string()]);
    assert_eq!(q.qtype, QType::Type(Type::AAAA));
    assert_eq!(q.qclass, QClass::Class(Class::Internet));
    let root = Question::new("", QClass::Any, QType::All).unwrap();
    assert_eq!(root.qname, vec![String::new()]);
}

#[test]
fn question_new_label_limits() {
    let max = "a".repeat(63);
    let q = Question::new(&format!("{max}.net"), QClass::Any, QType::All).unwrap();
    assert_eq!(q.qname[0].len(), 63);
    let over = "b".repeat(64);
    match Question::new(&format!("ok.{over}.{}", "c".repeat(70)), QClass::Any, QType::All) {
        Err(NamingError::InvalidLabelSize { label }) => assert_eq!(label, over),
        other => panic!("unexpected {other:?}"),
    }
}

#[test]
fn question_new_name_limits() {
    let label = "a".repeat(50);
    let name254 = format!("{label}.{label}.{label}.{label}.{}", "b".repeat(50));
    assert_eq!(name254.len(), 254);
    assert!(Question::new(&name254, QClass::Any, QType::All).is_ok());
    let name255 = format!("{name254}c");
    match Question::new(&name255, QClass::Any, QType::All) {
        Err(NamingError::InvalidNameSize { name }) => assert_eq!(name, name255),
        other => panic!("unexpected {other:?}"),
    }
}

#[test]
fn check_valid_query_and_response() {
    let q = Question::new("alea.net", QClass::Any, QType::All).unwrap();
    let mut message = Message {
        header: query_header(),
        questions: Vec::new(),
        answers: Vec::new(),
        authority: Vec::new(),
        additional: Vec::new(),
    };
    assert_eq!(message.check_valid_query(), Err(QueryMessageError::NoQuestions));
    assert_eq!(message.check_valid_response(), Err(ResponseMessageError::NoQuestions));
    message.questions.push(q);
    assert_eq!(message.check_valid_query(), Ok(()));
    assert_eq!(message.check_valid_response(), Err(ResponseMessageError::NotResponse));
    message.header.query_response = QueryResponse::Response;
    assert_eq!(message.check_valid_query(), Err(QueryMessageError::NotQuery));
    assert_eq!(message.check_valid_response(), Ok(()));
}

#[test]
fn code_conversions() {
    assert_eq!(Class::from(1u16), Class::Internet);
    assert_eq!(Class::from(4u16), Class::Hesiod);
    assert_eq!(Class::from(9u16), Class::Other(9));
    assert_eq!(u16::from(Class::CSNet), 2);
    assert_eq!(u16::from(Class::Other(1)), 1);
    assert_eq!(Class::from(u16::from(Class::Other(1))), Class::Internet);
    assert_eq!(QClass::from(255u16), QClass::Any);
    assert_eq!(QClass::from(3u16), QClass::Class(Class::CHAOS));
    assert_eq!(u16::from(QClass::Any), 255);
    assert_eq!(Type::from(28u16), Type::AAAA);
    assert_eq!(Type::from(16u16), Type::TXT);
    assert_eq!(Type::from(41u16), Type::Other(41));
    assert_eq!(u16::from(Type::MX), 15);
    assert_eq!(QType::from(252u16), QType::AXFR);
    assert_eq!(QType::from(255u16), QType::All);
    assert_eq!(QType::from(5u16), QType::Type(Type::CNAME));
    assert_eq!(u16::from(QType::MAILB), 253);
    assert_eq!(u16::from(QType::Type(Type::Other(300))), 300);
    for v in 0..=u16::MAX {
        assert_eq!(u16::from(Class::from(v)), v);
        assert_eq!(u16::from(QClass::from(v)), v);
        assert_eq!(u16::from(Type::from(v)), v);
        assert_eq!(u16::from(QType::from(v)), v);
    }
}

#[test]
fn flag_conversions() {
    assert_eq!(QueryResponse::try_from(0u8).unwrap(), QueryResponse::Query);
    assert_eq!(QueryResponse::try_from(1u8).unwrap(), QueryResponse::Response);
    assert!(QueryResponse::try_from(2u8).is_err());
    assert_eq!(OpCode::try_from(2u8).unwrap(), OpCode::Status);
    assert_eq!(OpCode::try_from(9u8).unwrap(), OpCode::Reserved(9));
    let err = OpCode::try_from(16u8).unwrap_err();
    assert_eq!(err.message(), "This value should not happen: 16");
    assert_eq!(ResponseCode::try_from(3u8).unwrap(), ResponseCode::NameError);
    assert_eq!(ResponseCode::try_from(6u8).unwrap(), ResponseCode::Reserved(6));
    assert!(ResponseCode::try_from(200u8).is_err());
    for v in 0..16u8 {
        assert_eq!(u16::from(OpCode::try_from(v).unwrap()), v as u16);
        assert_eq!(u16::from(ResponseCode::try_from(v).unwrap()), v as u16);
    }
    assert_eq!(u16::from(QueryResponse::Response), 1);
}

#[test]
fn record_name_joins_labels() {
    let record = ResourceRecord {
        name: vec!["mail".to_string(), "alea".to_string(), "net".to_string()],
        rtype: Type::MX,
        class: Class::Internet,
        ttl: Instant::now(),
        rdata: Vec::new(),
    };
    assert_eq!(record.name(), "mail.alea.net");
}
