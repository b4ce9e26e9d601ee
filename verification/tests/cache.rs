use dnskit::cache::{retain_marked, same_question, DnsCache, DnsCacheMemory};
use dnskit::protocol::message::{Class, QClass, QType, Question, ResourceRecord, Type};
use dnskit::NamingError;
use std::time::{Duration, Instant};

fn record(label: &str, ttl: Instant, last: u8) -> ResourceRecord {
    ResourceRecord {
        name: vec![label.to_string()],
        rtype: Type::A,
        class: Class::Internet,
        ttl,
        rdata: vec![10, 0, 0, last],
    }
}

#[test]
fn test() -> Result<(), NamingError> {
    let cache = &mut DnsCacheMemory::new();
    let question = &Question::new(
        "www.alea.net",
        QClass::Class(Class::Internet),
        QType::Type(Type::A),
    )?;

    assert!(matches!(cache.get(question), None));

    Ok(())
}

#[test]
fn get_after_replace_finds_unexpired_records_in_order() {
    let cache = &mut DnsCacheMemory::new();
    let question = Question::new("alea.net", QClass::Class(Class::Internet), QType::Type(Type::A)).unwrap();
    let later = Instant::now() + Duration::from_secs(3600);
    let past = Instant::now();
    let records = vec![record("a", later, 1), record("b", past, 2), record("c", later, 3)];
    cache.replace(&question, records);
    let found = cache.get(&question).unwrap();
    let rdata: Vec<u8> = found.iter().map(|r| r.rdata[3]).collect();
    assert_eq!(rdata, vec![1, 3]);
    assert_eq!(found[0].ttl, later);
    // The expired record is gone for good; a second lookup agrees with the first.
    let again = cache.get(&question).unwrap();
    assert_eq!(again.len(), 2);
}

#[test]
fn all_expired_gives_empty_answer() {
    let cache = &mut DnsCacheMemory::new();
    let question = Question::new("alea.net", QClass::Any, QType::All).unwrap();
    cache.replace(&question, vec![record("x", Instant::now(), 1)]);
    assert_eq!(cache.get(&question).map(|v| v.len()), Some(0));
}

#[test]
fn replace_overwrites_and_keeps_other_questions() {
    let cache = &mut DnsCacheMemory::new();
    let later = Instant::now() + Duration::from_secs(600);
    let q1 = Question::new("one.net", QClass::Any, QType::All).unwrap();
    let q2 = Question::new("two.net", QClass::Any, QType::All).unwrap();
    let q1_other_type = Question::new("one.net", QClass::Any, QType::AXFR).unwrap();
    cache.replace(&q1, vec![record("a", later, 1)]);
    cache.replace(&q2, vec![record("b", later, 2)]);
    cache.replace(&q1, vec![record("c", later, 3), record("d", later, 4)]);
    let found1: Vec<u8> = cache.get(&q1).unwrap().iter().map(|r| r.rdata[3]).collect();
    assert_eq!(found1, vec![3, 4]);
    let found2: Vec<u8> = cache.get(&q2).unwrap().iter().map(|r| r.rdata[3]).collect();
    assert_eq!(found2, vec![2]);
    assert!(cache.get(&q1_other_type).is_none());
}

#[test]
fn questions_compare_by_labels_type_and_class() {
    let a = Question::new("alea.net", QClass::Any, QType::All).unwrap();
    let b = Question::new("alea.net", QClass::Any, QType::All).unwrap();
    let c = Question::new("alea.ne", QClass::Any, QType::All).unwrap();
    let d = Question::new("alea.net", QClass::Class(Class::Internet), QType::All).unwrap();
    let e = Question::new("alea.net.x", QClass::Any, QType::All).unwrap();
    assert!(same_question(&a, &b));
    assert!(!same_question(&a, &c));
    assert!(!same_question(&a, &d));
    assert!(!same_question(&a, &e));
}

#[test]
fn retain_marked_keeps_marked_records() {
    let now = Instant::now();
    let records = vec![record("a", now, 1), record("b", now, 2), record("c", now, 3)];
    let kept = retain_marked(&records, &vec![false, true, true]);
    let rdata: Vec<u8> = kept.iter().map(|r| r.rdata[3]).collect();
    assert_eq!(rdata, vec![2, 3]);
    assert!(retain_marked(&records, &vec![false, false, false]).is_empty());
}
