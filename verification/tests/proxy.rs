use dnskit::cache::{DnsCache, DnsCacheMemory};
use dnskit::protocol::message::{
    Class, Header, Message, OpCode, QClass, QType, Question, QueryResponse, ResourceRecord,
    ResponseCode, Type,
};
use dnskit::protocol::parser::parse;
use dnskit::proxy::{answer_message, upstream_query, Resolution, ResolutionStep};
use std::time::{Duration, Instant};

fn record(last: u8) -> ResourceRecord {
    ResourceRecord {
        name: vec!["alea".to_string(), "net".to_string()],
        rtype: Type::A,
        class: Class::Internet,
        ttl: Instant::now() + Duration::from_secs(300),
        rdata: vec![10, 0, 0, last],
    }
}

fn question(name: &str) -> Question {
    Question::new(name, QClass::Class(Class::Internet), QType::Type(Type::A)).unwrap()
}

fn last_bytes(records: &[ResourceRecord]) -> Vec<u8> {
    records.iter().map(|r| r.rdata[3]).collect()
}

#[test]
fn upstream_query_asks_one_question_with_recursion() {
    let q = question("www.alea.net");
    let m = upstream_query(&q);
    assert_eq!(m.header.id, 42);
    assert_eq!(m.header.query_response, QueryResponse::Query);
    assert_eq!(m.header.opcode, OpCode::Query);
    assert!(m.header.recursion_desired);
    assert!(!m.header.recursion_available);
    assert_eq!(m.questions, vec![q]);
    assert!(m.answers.is_empty() && m.authority.is_empty() && m.additional.is_empty());
    assert_eq!(parse(&m.serialize()).unwrap(), m);
}

#[test]
fn answer_message_copies_id_and_questions() {
    let query = Message {
        header: Header {
            id: 0xbeef,
            query_response: QueryResponse::Query,
            opcode: OpCode::Query,
            authoritative_answer: false,
            truncation: false,
            recursion_desired: true,
            recursion_available: false,
            reserved: false,
            authentic_data: true,
            checking_disabled: false,
            response_code: ResponseCode::NoErrorCondition,
        },
        questions: vec![question("alea.net")],
        answers: Vec::new(),
        authority: Vec::new(),
        additional: Vec::new(),
    };
    let r = answer_message(&query, vec![record(7)]);
    assert_eq!(r.header.id, 0xbeef);
    assert_eq!(r.header.query_response, QueryResponse::Response);
    assert!(r.header.recursion_available);
    assert!(!r.header.recursion_desired);
    assert!(!r.header.authentic_data);
    assert_eq!(r.header.response_code, ResponseCode::NoErrorCondition);
    assert_eq!(r.questions, query.questions);
    assert_eq!(last_bytes(&r.answers), vec![7]);
    assert_eq!(r.check_valid_response(), Ok(()));
}

#[test]
fn resolution_uses_cache_then_upstream_in_question_order() {
    let mut cache = DnsCacheMemory::new();
    let q1 = question("one.net");
    let q2 = question("two.net");
    let q3 = question("three.net");
    cache.replace(&q1, vec![record(1)]);
    cache.replace(&q3, vec![record(3), record(4)]);
    let questions = vec![q1.clone(), q2.clone(), q3.clone()];
    let mut resolution = Resolution::new(&mut cache, &questions);
    match resolution.advance() {
        ResolutionStep::Resolve(q) => assert_eq!(q, q2),
        ResolutionStep::Done(_) => panic!("q2 is not cached"),
    }
    // Asking again while waiting names the same question.
    match resolution.advance() {
        ResolutionStep::Resolve(q) => assert_eq!(q, q2),
        ResolutionStep::Done(_) => panic!("still waiting for q2"),
    }
    resolution.resolved(&mut cache, vec![record(2)]);
    let answers = match resolution.advance() {
        ResolutionStep::Done(answers) => answers,
        ResolutionStep::Resolve(_) => panic!("everything is answered"),
    };
    assert_eq!(last_bytes(&answers), vec![1, 2, 3, 4]);
    // The upstream answer went to the cache.
    assert_eq!(last_bytes(&cache.get(&q2).unwrap()), vec![2]);
}

#[test]
fn resolution_of_no_question_is_done_at_once() {
    let mut cache = DnsCacheMemory::new();
    let mut resolution = Resolution::new(&mut cache, &Vec::new());
    assert!(matches!(resolution.advance(), ResolutionStep::Done(a) if a.is_empty()));
}

#[test]
fn resolution_ignores_answers_nobody_waits_for() {
    let mut cache = DnsCacheMemory::new();
    let q = question("x.net");
    cache.replace(&q, vec![record(9)]);
    let mut resolution = Resolution::new(&mut cache, &vec![q.clone()]);
    resolution.resolved(&mut cache, vec![record(1)]);
    match resolution.advance() {
        ResolutionStep::Done(a) => assert_eq!(last_bytes(&a), vec![9]),
        ResolutionStep::Resolve(_) => panic!("cached"),
    }
}
