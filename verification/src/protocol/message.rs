//! DNS messages (RFC 1035, 4.1) and their serialization.

use std::time::Instant;
use vstd::prelude::*;
use vstd::std_specs::convert::{FromSpecImpl, TryFromSpecImpl};
use vstd::utf8::{
    encode_utf8, encode_utf8_valid_utf8, is_char_boundary, is_char_boundary_iff_not_is_continuation_byte,
    valid_utf8,
};

use crate::protocol::format::{dot_split, lemma_join_dot_pieces, is_dot, lemma_dot_split_first, lemma_dot_split_len, lemma_dot_split_none, chars_of, count16, join, join_strings, labels_bytes, push_bytes, push_u16, push_u32, u16_bytes, u32_bytes, lemma_labels_bytes_step};
use crate::protocol::{LABEL_LEN_MAX, NAME_LEN_MAX};
use crate::sys::{
    instant_now, instant_plus_secs, secs_between, whole_secs_between, unexpected_value_text,
    unexpected_value_message,
};
use crate::{NamingError, QueryMessageError, ResponseMessageError, UnexpectedValueError};

verus! {

/// The class of a resource record (RFC 1035, 3.2.4).
#[derive(Debug, Clone, Copy, PartialEq, Eq, Hash, Structural)]
pub enum Class {
    Internet,
    CSNet,
    CHAOS,
    Hesiod,
    Other(u16),
}

impl Class {
    /// The class that a 16-bit code stands for.
    pub open spec fn of_code(v: u16) -> Class {
        if v == 1 {
            Class::Internet
        } else if v == 2 {
            Class::CSNet
        } else if v == 3 {
            Class::CHAOS
        } else if v == 4 {
            Class::Hesiod
        } else {
            Class::Other(v)
        }
    }

    /// The 16-bit code of the class.
    pub open spec fn code(self) -> u16 {
        match self {
            Class::Internet => 1,
            Class::CSNet => 2,
            Class::CHAOS => 3,
            Class::Hesiod => 4,
            Class::Other(v) => v,
        }
    }
}

impl From<u16> for Class {
    fn from(value: u16) -> Self {
        match value {
            1 => Class::Internet,
            2 => Class::CSNet,
            3 => Class::CHAOS,
            4 => Class::Hesiod,
            v => Class::Other(v),
        }
    }
}

impl FromSpecImpl<u16> for Class {
    open spec fn obeys_from_spec() -> bool {
        true
    }

    open spec fn from_spec(v: u16) -> Class {
        Class::of_code(v)
    }
}

impl From<Class> for u16 {
    fn from(value: Class) -> Self {
        match value {
            Class::Internet => 1,
            Class::CSNet => 2,
            Class::CHAOS => 3,
            Class::Hesiod => 4,
            Class::Other(v) => v,
        }
    }
}

impl FromSpecImpl<Class> for u16 {
    open spec fn obeys_from_spec() -> bool {
        true
    }

    open spec fn from_spec(v: Class) -> u16 {
        v.code()
    }
}

/// The class asked for by a question: a class, or any class (RFC 1035, 3.2.5).
#[derive(Debug, Clone, Copy, PartialEq, Eq, Hash, Structural)]
pub enum QClass {
    Class(Class),
    Any,
}

impl QClass {
    /// The question class that a 16-bit code stands for.
    pub open spec fn of_code(v: u16) -> QClass {
        if v == 255 {
            QClass::Any
        } else {
            QClass::Class(Class::of_code(v))
        }
    }

    /// The 16-bit code of the question class.
    pub open spec fn code(self) -> u16 {
        match self {
            QClass::Any => 255,
            QClass::Class(c) => c.code(),
        }
    }
}

impl From<u16> for QClass {
    fn from(value: u16) -> Self {
        match value {
            255 => Self::Any,
            other => Self::Class(Class::from(other)),
        }
    }
}

impl FromSpecImpl<u16> for QClass {
    open spec fn obeys_from_spec() -> bool {
        true
    }

    open spec fn from_spec(v: u16) -> QClass {
        QClass::of_code(v)
    }
}

impl From<QClass> for u16 {
    fn from(value: QClass) -> Self {
        match value {
            QClass::Any => 255,
            QClass::Class(c) => u16::from(c),
        }
    }
}

impl FromSpecImpl<QClass> for u16 {
    open spec fn obeys_from_spec() -> bool {
        true
    }

    open spec fn from_spec(v: QClass) -> u16 {
        v.code()
    }
}

/// The type of a resource record (RFC 1035, 3.2.2; RFC 3596 for AAAA).
#[derive(Debug, Clone, Copy, PartialEq, Eq, Hash, Structural)]
pub enum Type {
    A,
    NS,
    MD,
    MF,
    CNAME,
    SOA,
    MB,
    MG,
    MR,
    NULL,
    WKS,
    PTR,
    HINFO,
    MINFO,
    MX,
    TXT,
    AAAA,
    Other(u16),
}

impl Type {
    /// The type that a 16-bit code stands for.
    pub open spec fn of_code(v: u16) -> Type {
        if 1 <= v <= 16 {
            Type::named(v)
        } else if v == 28 {
            Type::AAAA
        } else {
            Type::Other(v)
        }
    }

    /// The named types of codes 1 to 16.
    pub open spec fn named(v: u16) -> Type {
        if v == 1 {
            Type::A
        } else if v == 2 {
            Type::NS
        } else if v == 3 {
            Type::MD
        } else if v == 4 {
            Type::MF
        } else if v == 5 {
            Type::CNAME
        } else if v == 6 {
            Type::SOA
        } else if v == 7 {
            Type::MB
        } else if v == 8 {
            Type::MG
        } else if v == 9 {
            Type::MR
        } else if v == 10 {
            Type::NULL
        } else if v == 11 {
            Type::WKS
        } else if v == 12 {
            Type::PTR
        } else if v == 13 {
            Type::HINFO
        } else if v == 14 {
            Type::MINFO
        } else if v == 15 {
            Type::MX
        } else {
            Type::TXT
        }
    }

    /// The 16-bit code of the type.
    pub open spec fn code(self) -> u16 {
        match self {
            Type::A => 1,
            Type::NS => 2,
            Type::MD => 3,
            Type::MF => 4,
            Type::CNAME => 5,
            Type::SOA => 6,
            Type::MB => 7,
            Type::MG => 8,
            Type::MR => 9,
            Type::NULL => 10,
            Type::WKS => 11,
            Type::PTR => 12,
            Type::HINFO => 13,
            Type::MINFO => 14,
            Type::MX => 15,
            Type::TXT => 16,
            Type::AAAA => 28,
            Type::Other(v) => v,
        }
    }
}

impl From<u16> for Type {
    fn from(value: u16) -> Self {
        match value {
            1 => Type::A,
            2 => Type::NS,
            3 => Type::MD,
            4 => Type::MF,
            5 => Type::CNAME,
            6 => Type::SOA,
            7 => Type::MB,
            8 => Type::MG,
            9 => Type::MR,
            10 => Type::NULL,
            11 => Type::WKS,
            12 => Type::PTR,
            13 => Type::HINFO,
            14 => Type::MINFO,
            15 => Type::MX,
            16 => Type::TXT,
            28 => Type::AAAA,
            v => Type::Other(v),
        }
    }
}

impl FromSpecImpl<u16> for Type {
    open spec fn obeys_from_spec() -> bool {
        true
    }

    open spec fn from_spec(v: u16) -> Type {
        Type::of_code(v)
    }
}

impl From<Type> for u16 {
    fn from(value: Type) -> Self {
        match value {
            Type::A => 1,
            Type::NS => 2,
            Type::MD => 3,
            Type::MF => 4,
            Type::CNAME => 5,
            Type::SOA => 6,
            Type::MB => 7,
            Type::MG => 8,
            Type::MR => 9,
            Type::NULL => 10,
            Type::WKS => 11,
            Type::PTR => 12,
            Type::HINFO => 13,
            Type::MINFO => 14,
            Type::MX => 15,
            Type::TXT => 16,
            Type::AAAA => 28,
            Type::Other(v) => v,
        }
    }
}

impl FromSpecImpl<Type> for u16 {
    open spec fn obeys_from_spec() -> bool {
        true
    }

    open spec fn from_spec(v: Type) -> u16 {
        v.code()
    }
}

/// The type asked for by a question: a type, or one of the question-only
/// types (RFC 1035, 3.2.3).
#[derive(Debug, Clone, Copy, PartialEq, Eq, Hash, Structural)]
pub enum QType {
    Type(Type),
    AXFR,
    MAILB,
    MAILA,
    All,
}

impl QType {
    /// The question type that a 16-bit code stands for.
    pub open spec fn of_code(v: u16) -> QType {
        if v == 252 {
            QType::AXFR
        } else if v == 253 {
            QType::MAILB
        } else if v == 254 {
            QType::MAILA
        } else if v == 255 {
            QType::All
        } else {
            QType::Type(Type::of_code(v))
        }
    }

    /// The 16-bit code of the question type.
    pub open spec fn code(self) -> u16 {
        match self {
            QType::AXFR => 252,
            QType::MAILB => 253,
            QType::MAILA => 254,
            QType::All => 255,
            QType::Type(t) => t.code(),
        }
    }
}

impl From<u16> for QType {
    fn from(value: u16) -> Self {
        match value {
            252 => Self::AXFR,
            253 => Self::MAILB,
            254 => Self::MAILA,
            255 => Self::All,
            other => Self::Type(Type::from(other)),
        }
    }
}

impl FromSpecImpl<u16> for QType {
    open spec fn obeys_from_spec() -> bool {
        true
    }

    open spec fn from_spec(v: u16) -> QType {
        QType::of_code(v)
    }
}

impl From<QType> for u16 {
    fn from(value: QType) -> Self {
        match value {
            QType::AXFR => 252,
            QType::MAILB => 253,
            QType::MAILA => 254,
            QType::All => 255,
            QType::Type(t) => u16::from(t),
        }
    }
}

impl FromSpecImpl<QType> for u16 {
    open spec fn obeys_from_spec() -> bool {
        true
    }

    open spec fn from_spec(v: QType) -> u16 {
        v.code()
    }
}


/// Whether a message is a query or a response (the QR bit).
#[derive(Debug, PartialEq, Eq, Clone, Copy, Structural)]
pub enum QueryResponse {
    Query,
    Response,
}

impl QueryResponse {
    /// The value of the QR bit.
    pub open spec fn code(self) -> u16 {
        match self {
            QueryResponse::Query => 0,
            QueryResponse::Response => 1,
        }
    }
}

impl TryFrom<u8> for QueryResponse {
    type Error = UnexpectedValueError;

    fn try_from(value: u8) -> (res: Result<Self, Self::Error>)
        ensures
            value == 0 ==> res == Ok::<QueryResponse, UnexpectedValueError>(QueryResponse::Query),
            value == 1 ==> res == Ok::<QueryResponse, UnexpectedValueError>(QueryResponse::Response),
            value > 1 ==> (res matches Err(e) && e@ == unexpected_value_text(value)),
    {
        Ok(match value {
            0 => QueryResponse::Query,
            1 => QueryResponse::Response,
            other => return Err(UnexpectedValueError::new(unexpected_value_message(other))),
        })
    }
}

/// The error of a conversion holds a text that no spec value stands for, so
/// the exact result is stated on `try_from` itself rather than here.
impl TryFromSpecImpl<u8> for QueryResponse {
    open spec fn obeys_try_from_spec() -> bool {
        false
    }

    open spec fn try_from_spec(v: u8) -> Result<QueryResponse, UnexpectedValueError> {
        if v == 0 {
            Ok(QueryResponse::Query)
        } else if v == 1 {
            Ok(QueryResponse::Response)
        } else {
            Err(arbitrary())
        }
    }
}

impl From<QueryResponse> for u16 {
    fn from(value: QueryResponse) -> Self {
        match value {
            QueryResponse::Query => 0,
            QueryResponse::Response => 1,
        }
    }
}

impl FromSpecImpl<QueryResponse> for u16 {
    open spec fn obeys_from_spec() -> bool {
        true
    }

    open spec fn from_spec(v: QueryResponse) -> u16 {
        v.code()
    }
}


/// The kind of query of a message (RFC 1035, 4.1.1).
#[derive(Debug, PartialEq, Eq, Clone, Copy, Structural)]
pub enum OpCode {
    Query,
    InverseQuery,
    Status,
    Reserved(u8),
}

impl OpCode {
    /// The operation that a 4-bit field value stands for.
    pub open spec fn of_bits(v: u8) -> OpCode {
        if v == 0 {
            OpCode::Query
        } else if v == 1 {
            OpCode::InverseQuery
        } else if v == 2 {
            OpCode::Status
        } else {
            OpCode::Reserved(v)
        }
    }

    /// The field value of the operation.
    pub open spec fn code(self) -> u16 {
        match self {
            OpCode::Query => 0,
            OpCode::InverseQuery => 1,
            OpCode::Status => 2,
            OpCode::Reserved(v) => v as u16,
        }
    }
}

impl TryFrom<u8> for OpCode {
    type Error = UnexpectedValueError;

    fn try_from(value: u8) -> (res: Result<Self, Self::Error>)
        ensures
            value <= 15 ==> res == Ok::<OpCode, UnexpectedValueError>(OpCode::of_bits(value)),
            value > 15 ==> (res matches Err(e) && e@ == unexpected_value_text(value)),
    {
        Ok(match value {
            0 => OpCode::Query,
            1 => OpCode::InverseQuery,
            2 => OpCode::Status,
            x @ 3..=15 => OpCode::Reserved(x),
            other => return Err(UnexpectedValueError::new(unexpected_value_message(other))),
        })
    }
}

/// The error of a conversion holds a text that no spec value stands for, so
/// the exact result is stated on `try_from` itself rather than here.
impl TryFromSpecImpl<u8> for OpCode {
    open spec fn obeys_try_from_spec() -> bool {
        false
    }

    open spec fn try_from_spec(v: u8) -> Result<OpCode, UnexpectedValueError> {
        if v <= 15 {
            Ok(OpCode::of_bits(v))
        } else {
            Err(arbitrary())
        }
    }
}

impl From<OpCode> for u16 {
    fn from(value: OpCode) -> Self {
        match value {
            OpCode::Query => 0,
            OpCode::InverseQuery => 1,
            OpCode::Status => 2,
            OpCode::Reserved(v) => v as u16,
        }
    }
}

impl FromSpecImpl<OpCode> for u16 {
    open spec fn obeys_from_spec() -> bool {
        true
    }

    open spec fn from_spec(v: OpCode) -> u16 {
        v.code()
    }
}

/// The outcome of a query (RFC 1035, 4.1.1).
#[derive(Debug, PartialEq, Eq, Clone, Copy, Structural)]
pub enum ResponseCode {
    NoErrorCondition,
    FormatError,
    ServerFailure,
    NameError,
    NotImplemented,
    Refused,
    Reserved(u8),
}

impl ResponseCode {
    /// The outcome that a 4-bit field value stands for.
    pub open spec fn of_bits(v: u8) -> ResponseCode {
        if v == 0 {
            ResponseCode::NoErrorCondition
        } else if v == 1 {
            ResponseCode::FormatError
        } else if v == 2 {
            ResponseCode::ServerFailure
        } else if v == 3 {
            ResponseCode::NameError
        } else if v == 4 {
            ResponseCode::NotImplemented
        } else if v == 5 {
            ResponseCode::Refused
        } else {
            ResponseCode::Reserved(v)
        }
    }

    /// The field value of the outcome.
    pub open spec fn code(self) -> u16 {
        match self {
            ResponseCode::NoErrorCondition => 0,
            ResponseCode::FormatError => 1,
            ResponseCode::ServerFailure => 2,
            ResponseCode::NameError => 3,
            ResponseCode::NotImplemented => 4,
            ResponseCode::Refused => 5,
            ResponseCode::Reserved(r) => r as u16,
        }
    }
}

impl TryFrom<u8> for ResponseCode {
    type Error = UnexpectedValueError;

    fn try_from(value: u8) -> (res: Result<Self, Self::Error>)
        ensures
            value <= 15 ==> res == Ok::<ResponseCode, UnexpectedValueError>(ResponseCode::of_bits(value)),
            value > 15 ==> (res matches Err(e) && e@ == unexpected_value_text(value)),
    {
        Ok(match value {
            0 => ResponseCode::NoErrorCondition,
            1 => ResponseCode::FormatError,
            2 => ResponseCode::ServerFailure,
            3 => ResponseCode::NameError,
            4 => ResponseCode::NotImplemented,
            5 => ResponseCode::Refused,
            x @ 6..=15 => ResponseCode::Reserved(x),
            other => return Err(UnexpectedValueError::new(unexpected_value_message(other))),
        })
    }
}

/// The error of a conversion holds a text that no spec value stands for, so
/// the exact result is stated on `try_from` itself rather than here.
impl TryFromSpecImpl<u8> for ResponseCode {
    open spec fn obeys_try_from_spec() -> bool {
        false
    }

    open spec fn try_from_spec(v: u8) -> Result<ResponseCode, UnexpectedValueError> {
        if v <= 15 {
            Ok(ResponseCode::of_bits(v))
        } else {
            Err(arbitrary())
        }
    }
}

impl From<ResponseCode> for u16 {
    fn from(value: ResponseCode) -> Self {
        match value {
            ResponseCode::NoErrorCondition => 0,
            ResponseCode::FormatError => 1,
            ResponseCode::ServerFailure => 2,
            ResponseCode::NameError => 3,
            ResponseCode::NotImplemented => 4,
            ResponseCode::Refused => 5,
            ResponseCode::Reserved(r) => r as u16,
        }
    }
}

impl FromSpecImpl<ResponseCode> for u16 {
    open spec fn obeys_from_spec() -> bool {
        true
    }

    open spec fn from_spec(v: ResponseCode) -> u16 {
        v.code()
    }
}


/// The identifier that a response copies from its query.
pub type Id = u16;

/// The header section of a message (RFC 1035, 4.1.1; the AD and CD bits
/// are from RFC 2535).
#[derive(Debug, PartialEq, Eq, Clone, Copy, Structural)]
pub struct Header {
    pub id: Id,
    pub query_response: QueryResponse,
    pub opcode: OpCode,
    pub authoritative_answer: bool,
    pub truncation: bool,
    pub recursion_desired: bool,
    pub recursion_available: bool,
    pub reserved: bool,
    pub authentic_data: bool,
    pub checking_disabled: bool,
    pub response_code: ResponseCode,
}

/// One bit of value `b`.
pub open spec fn bit(b: bool) -> u16 {
    if b {
        1
    } else {
        0
    }
}

fn bit_of(b: bool) -> (res: u16)
    ensures
        res == bit(b),
{
    if b {
        1
    } else {
        0
    }
}

impl Header {
    /// The 16 bits that follow the identifier: QR, OPCODE, AA, TC, RD, RA,
    /// Z, AD, CD and RCODE, from the most significant bit down. A field value
    /// wider than its place is cut to the 16 bits.
    pub open spec fn flags(self) -> u16 {
        (self.query_response.code() << 15u16) | (self.opcode.code() << 11u16) | (bit(
            self.authoritative_answer,
        ) << 10u16) | (bit(self.truncation) << 9u16) | (bit(self.recursion_desired) << 8u16) | (
        bit(self.recursion_available) << 7u16) | (bit(self.reserved) << 6u16) | (bit(
            self.authentic_data,
        ) << 5u16) | (bit(self.checking_disabled) << 4u16) | self.response_code.code()
    }

    /// The wire form of the header without its four counts.
    pub open spec fn wire(self) -> Seq<u8> {
        u16_bytes(self.id) + u16_bytes(self.flags())
    }

    fn serialize(&self) -> (res: Vec<u8>)
        ensures
            res@ == self.wire(),
    {
        let mut chunk = Vec::new();
        push_u16(&mut chunk, self.id);
        let mut flags: u16 = u16::from(self.query_response) << 15u16;
        flags = flags | (u16::from(self.opcode) << 11u16);
        flags = flags | (bit_of(self.authoritative_answer) << 10u16);
        flags = flags | (bit_of(self.truncation) << 9u16);
        flags = flags | (bit_of(self.recursion_desired) << 8u16);
        flags = flags | (bit_of(self.recursion_available) << 7u16);
        flags = flags | (bit_of(self.reserved) << 6u16);
        flags = flags | (bit_of(self.authentic_data) << 5u16);
        flags = flags | (bit_of(self.checking_disabled) << 4u16);
        flags = flags | u16::from(self.response_code);
        push_u16(&mut chunk, flags);
        assert(chunk@ =~= self.wire());
        chunk
    }
}

/// The bytes of each label of a name, as UTF-8.
pub open spec fn name_bytes(labels: Seq<String>) -> Seq<Seq<u8>> {
    labels.map_values(|s: String| encode_utf8(s@))
}

/// What a question says: its name, as the bytes of each label, and what
/// it asks for.
pub struct QuestionModel {
    pub qname: Seq<Seq<u8>>,
    pub qtype: QType,
    pub qclass: QClass,
}

/// A question of the question section (RFC 1035, 4.1.2).
#[derive(Debug, PartialEq, Eq, Hash)]
pub struct Question {
    pub qname: Vec<String>,
    pub qtype: QType,
    pub qclass: QClass,
}

impl Clone for Question {
    /// A copy of the question, label for label.
    fn clone(&self) -> (res: Self)
        ensures
            res.qname@ == self.qname@,
            res.qtype == self.qtype,
            res.qclass == self.qclass,
    {
        let qname = self.qname.clone();
        assert(qname@ =~= self.qname@);
        Question { qname, qtype: self.qtype, qclass: self.qclass }
    }
}

impl View for Question {
    type V = QuestionModel;

    open spec fn view(&self) -> QuestionModel {
        QuestionModel { qname: name_bytes(self.qname@), qtype: self.qtype, qclass: self.qclass }
    }
}

impl QuestionModel {
    /// The wire form of the question.
    pub open spec fn wire(self) -> Seq<u8> {
        labels_bytes(self.qname) + u16_bytes(self.qtype.code()) + u16_bytes(self.qclass.code())
    }
}

/// The wire form of a sequence of questions, one after the other.
pub open spec fn questions_wire(qs: Seq<QuestionModel>) -> Seq<u8>
    decreases qs.len(),
{
    if qs.len() == 0 {
        seq![]
    } else {
        qs[0].wire() + questions_wire(qs.drop_first())
    }
}

/// Appends the wire form of a name given as its labels.
fn push_labels(out: &mut Vec<u8>, labels: &Vec<String>)
    ensures
        final(out)@ == old(out)@ + labels_bytes(name_bytes(labels@)),
{
    let ghost start = old(out)@;
    let ghost all = name_bytes(labels@);
    let mut i: usize = 0;
    assert(all.skip(0) =~= all);
    while i < labels.len()
        invariant
            0 <= i <= labels@.len(),
            all == name_bytes(labels@),
            start + labels_bytes(all) == out@ + labels_bytes(all.skip(i as int)),
        decreases labels@.len() - i,
    {
        let label = labels[i].as_str();
        let bytes = label.as_bytes();
        proof {
            lemma_labels_bytes_step(all, i as int);
        }
        let ghost before = out@;
        assert(all[i as int] == encode_utf8(labels@[i as int]@));
        assert(bytes@ == all[i as int]);
        let n = bytes.len();
        assert(n == all[i as int].len());
        out.push((n % 256) as u8);
        assert(out@ =~= before.push((n % 256) as u8));
        push_bytes(out, bytes);
        assert(out@ =~= before + seq![(all[i as int].len() % 256) as u8] + all[i as int]);
        i = i + 1;
    }
    assert(all.skip(i as int) =~= Seq::<Seq<u8>>::empty());
    out.push(0u8);
    assert(labels_bytes(all.skip(i as int)) =~= seq![0u8]);
}

/// The index of the first dot of `s`, or its length if it has none.
fn first_dot(s: &str) -> (res: usize)
    ensures
        res <= encode_utf8(s@).len(),
        res < encode_utf8(s@).len() ==> is_dot(encode_utf8(s@)[res as int]),
        forall|i: int| 0 <= i < res ==> !is_dot(#[trigger] encode_utf8(s@)[i]),
{
    let bytes = s.as_bytes();
    let mut j: usize = 0;
    while j < bytes.len() && bytes[j] != 0x2e
        invariant
            bytes@ == encode_utf8(s@),
            0 <= j <= bytes@.len(),
            forall|i: int| 0 <= i < j ==> !is_dot(#[trigger] bytes@[i]),
        decreases bytes@.len() - j,
    {
        j = j + 1;
    }
    j
}

/// The labels of a written name: the pieces of its text between dots.
fn split_labels(name: &str) -> (res: Vec<String>)
    ensures
        name_bytes(res@) == dot_split(encode_utf8(name@)),
{
    let ghost whole = encode_utf8(name@);
    let mut labels: Vec<String> = Vec::new();
    let mut rest: &str = name;
    loop
        invariant
            whole == encode_utf8(name@),
            name_bytes(labels@) + dot_split(encode_utf8(rest@)) == dot_split(whole),
        decreases encode_utf8(rest@).len(),
    {
        let ghost bytes = encode_utf8(rest@);
        let j = first_dot(rest);
        proof {
            lemma_dot_split_len(bytes);
        }
        if j == rest.as_bytes().len() {
            proof {
                lemma_dot_split_none(bytes);
            }
            let label = rest.to_owned();
            let ghost before = labels@;
            labels.push(label);
            assert(name_bytes(labels@) =~= name_bytes(before) + seq![bytes]);
            return labels;
        }
        proof {
            encode_utf8_valid_utf8(rest@);
            is_char_boundary_iff_not_is_continuation_byte(bytes, j as int);
            lemma_dot_split_first(bytes, j as int);
        }
        let (head, tail) = rest.split_at(j);
        proof {
            let tb = encode_utf8(tail@);
            encode_utf8_valid_utf8(tail@);
            assert(tb =~= bytes.subrange(j as int, bytes.len() as int));
            assert(tb[0] == 0x2e);
            reveal_with_fuel(is_char_boundary, 2);
            assert(is_char_boundary(tb, 1));
        }
        let (_dot, after) = tail.split_at(1);
        proof {
            assert(encode_utf8(after@) =~= bytes.skip(j + 1));
            assert(encode_utf8(head@) =~= bytes.take(j as int));
        }
        let ghost before = labels@;
        labels.push(head.to_owned());
        assert(name_bytes(labels@) =~= name_bytes(before) + seq![bytes.take(j as int)]);
        rest = after;
    }
}

impl Question {
    /// A question for a name written with dots between its labels.
    ///
    /// Fails if the name is longer than 254 bytes, or else if one of its
    /// labels is longer than 63 bytes; the error carries the name, or the
    /// first label that is too long.
    pub fn new(name: &str, qclass: QClass, qtype: QType) -> (res: Result<Question, NamingError>)
        ensures
            encode_utf8(name@).len() > NAME_LEN_MAX - 1 ==> (res matches Err(
                NamingError::InvalidNameSize { name: n },
            ) && n@ == name@),
            encode_utf8(name@).len() <= NAME_LEN_MAX - 1 ==> {
                let labels = dot_split(encode_utf8(name@));
                &&& (forall|i: int|
                    0 <= i < labels.len() ==> #[trigger] labels[i].len() <= LABEL_LEN_MAX) ==> (
                res matches Ok(q) && q@ == QuestionModel {
                    qname: labels,
                    qtype,
                    qclass,
                })
                &&& (exists|i: int|
                    0 <= i < labels.len() && #[trigger] labels[i].len() > LABEL_LEN_MAX) ==> (
                res matches Err(NamingError::InvalidLabelSize { label }) && exists|i: int|
                    0 <= i < labels.len() && labels[i].len() > LABEL_LEN_MAX && (forall|j: int|
                        0 <= j < i ==> #[trigger] labels[j].len() <= LABEL_LEN_MAX)
                        && #[trigger] encode_utf8(label@) == labels[i])
            },
            res matches Ok(q) ==> join(chars_of(q.qname@), "."@) == name@,
    {
        if name.as_bytes().len() > NAME_LEN_MAX - 1 {
            return Err(NamingError::InvalidNameSize { name: name.to_owned() });
        }
        let qname = split_labels(name);
        let ghost labels = dot_split(encode_utf8(name@));
        let mut i: usize = 0;
        while i < qname.len()
            invariant
                0 <= i <= qname@.len(),
                encode_utf8(name@).len() <= NAME_LEN_MAX - 1,
                labels == dot_split(encode_utf8(name@)),
                name_bytes(qname@) == labels,
                forall|j: int| 0 <= j < i ==> #[trigger] labels[j].len() <= LABEL_LEN_MAX,
            decreases qname@.len() - i,
        {
            let label_len = qname[i].as_str().as_bytes().len();
            assert(labels[i as int] == encode_utf8(qname@[i as int]@));
            if label_len > LABEL_LEN_MAX {
                let label = qname[i].clone();
                assert(encode_utf8(label@) == labels[i as int]);
                return Err(NamingError::InvalidLabelSize { label });
            }
            i = i + 1;
        }
        proof {
            reveal_strlit(".");
            let parts = chars_of(qname@);
            assert(parts.map_values(|p: Seq<char>| encode_utf8(p)) =~= name_bytes(qname@));
            lemma_join_dot_pieces(parts, name@);
            assert("."@ =~= seq!['.']);
        }
        Ok(Question { qname, qtype, qclass })
    }

    /// The name of the question, its labels joined by dots.
    pub fn name(&self) -> (res: String)
        ensures
            res@ == join(chars_of(self.qname@), "."@),
    {
        join_strings(&self.qname, ".")
    }

    fn serialize(&self) -> (res: Vec<u8>)
        ensures
            res@ == self@.wire(),
    {
        let mut chunk = Vec::new();
        push_labels(&mut chunk, &self.qname);
        push_u16(&mut chunk, u16::from(self.qtype));
        push_u16(&mut chunk, u16::from(self.qclass));
        assert(chunk@ =~= self@.wire());
        chunk
    }
}


/// A label of a name read from a message, with the compression pointers
/// that were followed to reach it.
#[derive(Debug, Clone)]
pub struct Label {
    pub value: String,
    pub offsets: Vec<usize>,
}

/// A name read from a message, whose labels may have been reached through
/// compression pointers (RFC 1035, 4.1.4).
#[derive(Debug, Clone)]
pub struct CompressedName(pub Vec<Label>);

/// A label of a name read from a message: its bytes, and the compression
/// pointers followed to reach it.
pub struct LabelModel {
    pub value: Seq<u8>,
    pub offsets: Seq<usize>,
}

impl View for Label {
    type V = LabelModel;

    open spec fn view(&self) -> LabelModel {
        LabelModel { value: encode_utf8(self.value@), offsets: self.offsets@ }
    }
}

/// What each label is.
pub open spec fn label_models(labels: Seq<Label>) -> Seq<LabelModel> {
    labels.map_values(|l: Label| l@)
}

impl View for CompressedName {
    type V = Seq<LabelModel>;

    open spec fn view(&self) -> Seq<LabelModel> {
        label_models(self.0@)
    }
}

/// The value of each label.
pub open spec fn label_values(labels: Seq<Label>) -> Seq<String> {
    labels.map_values(|l: Label| l.value)
}

impl CompressedName {
    /// The name, its labels joined by dots.
    pub fn name(&self) -> (res: String)
        ensures
            res@ == join(chars_of(label_values(self.0@)), "."@),
    {
        let labels = self.labels();
        assert(labels@ =~= label_values(self.0@));
        join_strings(&labels, ".")
    }

    /// The value of each label, in order.
    pub fn labels(&self) -> (res: Vec<String>)
        ensures
            res@ == label_values(self.0@),
    {
        let mut res: Vec<String> = Vec::new();
        let mut i: usize = 0;
        while i < self.0.len()
            invariant
                0 <= i <= self.0@.len(),
                res@ == label_values(self.0@).take(i as int),
            decreases self.0@.len() - i,
        {
            res.push(self.0[i].value.clone());
            i = i + 1;
            assert(res@ =~= label_values(self.0@).take(i as int));
        }
        assert(label_values(self.0@).take(i as int) =~= label_values(self.0@));
        res
    }
}

/// What a resource record says, but for its time to live: its name, as the
/// bytes of each label, its type, its class and its data.
pub struct RecordModel {
    pub name: Seq<Seq<u8>>,
    pub rtype: Type,
    pub class: Class,
    pub rdata: Seq<u8>,
}

impl RecordModel {
    /// The wire form of the record when its time to live is `ttl` seconds.
    pub open spec fn wire(self, ttl: u32) -> Seq<u8> {
        labels_bytes(self.name) + u16_bytes(self.rtype.code()) + u16_bytes(self.class.code())
            + u32_bytes(ttl) + u16_bytes(count16(self.rdata.len())) + self.rdata
    }
}

/// The wire form of a sequence of records, one after the other, the i-th
/// with `ttls[i]` seconds to live.
pub open spec fn records_wire(rs: Seq<RecordModel>, ttls: Seq<u32>) -> Seq<u8>
    decreases rs.len(),
{
    if rs.len() == 0 {
        seq![]
    } else {
        rs[0].wire(ttls[0]) + records_wire(rs.drop_first(), ttls.drop_first())
    }
}

/// A resource record (RFC 1035, 4.1.3). Its time to live is kept as the
/// instant at which it expires.
#[derive(Debug, PartialEq)]
pub struct ResourceRecord {
    pub name: Vec<String>,
    pub rtype: Type,
    pub class: Class,
    pub ttl: Instant,
    pub rdata: Vec<u8>,
}

impl Clone for ResourceRecord {
    /// A copy of the record, expiring at the same instant.
    fn clone(&self) -> (res: Self)
        ensures
            res.name@ == self.name@,
            res.rtype == self.rtype,
            res.class == self.class,
            res.ttl == self.ttl,
            res.rdata@ == self.rdata@,
    {
        let name = self.name.clone();
        assert(name@ =~= self.name@);
        let rdata = self.rdata.clone();
        assert(rdata@ =~= self.rdata@);
        ResourceRecord { name, rtype: self.rtype, class: self.class, ttl: self.ttl.clone(), rdata }
    }
}

impl View for ResourceRecord {
    type V = RecordModel;

    open spec fn view(&self) -> RecordModel {
        RecordModel {
            name: name_bytes(self.name@),
            rtype: self.rtype,
            class: self.class,
            rdata: self.rdata@,
        }
    }
}

/// The time to live of a record that expires at `expiry`, when the clock
/// reads `now`: the whole seconds left, cut to 32 bits.
pub open spec fn ttl_left(expiry: Instant, now: Instant) -> u32 {
    (secs_between(expiry, now) % 0x1_0000_0000) as u32
}

/// When a record read with a time to live of `secs` seconds expires, if the
/// clock read `now`: that many seconds later, or at once when that instant
/// cannot be represented.
pub open spec fn expiry_at(now: Instant, secs: u32) -> Instant {
    match instant_plus_secs(now, secs as u64) {
        Some(t) => t,
        None => now,
    }
}

/// Whether the record `r` expires `secs` seconds after some reading of the
/// clock.
pub open spec fn expires_after(r: ResourceRecord, secs: u32) -> bool {
    exists|now: Instant| r.ttl == #[trigger] expiry_at(now, secs)
}

/// Each record expires its time to live after some reading of the clock.
pub open spec fn expire_after(rs: Seq<ResourceRecord>, ttls: Seq<u32>) -> bool {
    &&& rs.len() == ttls.len()
    &&& forall|i: int| 0 <= i < rs.len() ==> #[trigger] expires_after(rs[i], ttls[i])
}

/// Expiry of one more record, after those of others.
pub proof fn lemma_expire_after_push(rs: Seq<ResourceRecord>, ttls: Seq<u32>, r: ResourceRecord, t: u32)
    requires
        expire_after(rs, ttls),
        expires_after(r, t),
    ensures
        expire_after(rs.push(r), ttls.push(t)),
{
    assert forall|j: int| 0 <= j < rs.len() + 1 implies #[trigger] expires_after(
        rs.push(r)[j],
        ttls.push(t)[j],
    ) by {
        if j < rs.len() {
            assert(ttls.push(t)[j] == ttls[j]);
            assert(rs.push(r)[j] == rs[j]);
        }
    }
}

/// Whether `ttl` is what is left to live of the record `r`, as the clock
/// read at some instant.
pub open spec fn is_ttl_left(r: ResourceRecord, ttl: u32) -> bool {
    exists|now: Instant| ttl == #[trigger] ttl_left(r.ttl, now)
}

/// What is left to live of each record when the clock reads `now`.
pub open spec fn ttls_at(rs: Seq<ResourceRecord>, now: Instant) -> Seq<u32> {
    rs.map_values(|r: ResourceRecord| ttl_left(r.ttl, now))
}

/// Each time to live is what is left of its record's, as the clock read at
/// some instant.
pub open spec fn ttls_left(rs: Seq<ResourceRecord>, ttls: Seq<u32>) -> bool {
    &&& rs.len() == ttls.len()
    &&& forall|i: int| 0 <= i < rs.len() ==> #[trigger] is_ttl_left(rs[i], ttls[i])
}

impl ResourceRecord {
    /// The name of the record, its labels joined by dots.
    pub fn name(&self) -> (res: String)
        ensures
            res@ == join(chars_of(self.name@), "."@),
    {
        join_strings(&self.name, ".")
    }

    /// The whole seconds that are left until the record expires, cut to
    /// 32 bits, as the clock reads now.
    fn remaining_ttl(&self) -> (res: u32)
        ensures
            is_ttl_left(*self, res),
    {
        let now = instant_now();
        self.ttl_at(&now)
    }

    /// The whole seconds that are left until the record expires, cut to
    /// 32 bits, when the clock reads `now`.
    fn ttl_at(&self, now: &Instant) -> (res: u32)
        ensures
            res == ttl_left(self.ttl, *now),
    {
        let secs = whole_secs_between(&self.ttl, now);
        (secs % 0x1_0000_0000) as u32
    }

    /// The wire form of the record with a time to live of `ttl` seconds.
    pub fn serialize_with_ttl(&self, ttl: u32) -> (res: Vec<u8>)
        ensures
            res@ == self@.wire(ttl),
    {
        let mut chunk = Vec::new();
        push_labels(&mut chunk, &self.name);
        push_u16(&mut chunk, u16::from(self.rtype));
        push_u16(&mut chunk, u16::from(self.class));
        push_u32(&mut chunk, ttl);
        push_u16(&mut chunk, (self.rdata.len() % 0x1_0000) as u16);
        push_bytes(&mut chunk, self.rdata.as_slice());
        assert(chunk@ =~= self@.wire(ttl));
        chunk
    }

    /// The wire form of the record, with the seconds left until it expires
    /// as its time to live; these depend on the time of the call.
    pub fn serialize(&self) -> (res: Vec<u8>)
        ensures
            exists|now: Instant| res@ == self@.wire(#[trigger] ttl_left(self.ttl, now)),
    {
        let ttl = self.remaining_ttl();
        let res = self.serialize_with_ttl(ttl);
        let ghost now = choose|now: Instant| ttl == #[trigger] ttl_left(self.ttl, now);
        assert(res@ == self@.wire(ttl_left(self.ttl, now)));
        res
    }
}

/// What a message says, but for the times to live of its records.
pub struct MessageModel {
    pub header: Header,
    pub questions: Seq<QuestionModel>,
    pub answers: Seq<RecordModel>,
    pub authority: Seq<RecordModel>,
    pub additional: Seq<RecordModel>,
}

impl MessageModel {
    /// The wire form of the message (RFC 1035, 4.1), with `ans`, `auth` and
    /// `add` as the times to live of the records of the three sections.
    pub open spec fn wire(self, ans: Seq<u32>, auth: Seq<u32>, add: Seq<u32>) -> Seq<u8> {
        self.header.wire() + u16_bytes(count16(self.questions.len())) + u16_bytes(
            count16(self.answers.len()),
        ) + u16_bytes(count16(self.authority.len())) + u16_bytes(count16(self.additional.len()))
            + questions_wire(self.questions) + records_wire(self.answers, ans) + records_wire(
            self.authority,
            auth,
        ) + records_wire(self.additional, add)
    }
}

/// What each question says.
pub open spec fn question_models(qs: Seq<Question>) -> Seq<QuestionModel> {
    qs.map_values(|q: Question| q@)
}

/// What each record says.
pub open spec fn record_models(rs: Seq<ResourceRecord>) -> Seq<RecordModel> {
    rs.map_values(|r: ResourceRecord| r@)
}

/// A DNS message (RFC 1035, 4.1).
#[derive(Debug, PartialEq)]
pub struct Message {
    pub header: Header,
    pub questions: Vec<Question>,
    pub answers: Vec<ResourceRecord>,
    pub authority: Vec<ResourceRecord>,
    pub additional: Vec<ResourceRecord>,
}

impl View for Message {
    type V = MessageModel;

    open spec fn view(&self) -> MessageModel {
        MessageModel {
            header: self.header,
            questions: question_models(self.questions@),
            answers: record_models(self.answers@),
            authority: record_models(self.authority@),
            additional: record_models(self.additional@),
        }
    }
}

/// The wire form of questions with one more at the end.
pub proof fn lemma_questions_wire_push(qs: Seq<QuestionModel>, q: QuestionModel)
    ensures
        questions_wire(qs.push(q)) == questions_wire(qs) + q.wire(),
    decreases qs.len(),
{
    if qs.len() == 0 {
        assert(qs.push(q).drop_first() =~= Seq::<QuestionModel>::empty());
        assert(questions_wire(qs.push(q).drop_first()) == Seq::<u8>::empty());
        assert(questions_wire(qs.push(q)) =~= q.wire());
    } else {
        lemma_questions_wire_push(qs.drop_first(), q);
        assert(qs.push(q).drop_first() =~= qs.drop_first().push(q));
        assert(questions_wire(qs.push(q)) =~= questions_wire(qs) + q.wire());
    }
}

/// The wire form of records with one more at the end.
pub proof fn lemma_records_wire_push(rs: Seq<RecordModel>, ttls: Seq<u32>, r: RecordModel, t: u32)
    requires
        rs.len() == ttls.len(),
    ensures
        records_wire(rs.push(r), ttls.push(t)) == records_wire(rs, ttls) + r.wire(t),
    decreases rs.len(),
{
    if rs.len() == 0 {
        assert(rs.push(r).drop_first() =~= Seq::<RecordModel>::empty());
        assert(records_wire(rs.push(r).drop_first(), ttls.push(t).drop_first()) == Seq::<u8>::empty());
        assert(records_wire(rs.push(r), ttls.push(t)) =~= r.wire(t));
    } else {
        lemma_records_wire_push(rs.drop_first(), ttls.drop_first(), r, t);
        assert(rs.push(r).drop_first() =~= rs.drop_first().push(r));
        assert(ttls.push(t).drop_first() =~= ttls.drop_first().push(t));
        assert(records_wire(rs.push(r), ttls.push(t)) =~= records_wire(rs, ttls) + r.wire(t));
    }
}

/// What is left to live of one more record, after those of others.
proof fn lemma_ttls_left_push(rs: Seq<ResourceRecord>, ttls: Seq<u32>, r: ResourceRecord, t: u32)
    requires
        ttls_left(rs, ttls),
        is_ttl_left(r, t),
    ensures
        ttls_left(rs.push(r), ttls.push(t)),
{
    assert forall|j: int| 0 <= j < rs.len() + 1 implies #[trigger] is_ttl_left(
        rs.push(r)[j],
        ttls.push(t)[j],
    ) by {
        if j < rs.len() {
            assert(ttls.push(t)[j] == ttls[j]);
            assert(rs.push(r)[j] == rs[j]);
        }
    }
}

/// What is left to live of each record at one reading of the clock is what
/// is left of its record's at some reading.
proof fn lemma_ttls_at_left(rs: Seq<ResourceRecord>, now: Instant)
    ensures
        ttls_left(rs, ttls_at(rs, now)),
    decreases rs.len(),
{
    if rs.len() == 0 {
    } else {
        let r = rs.last();
        let init = rs.drop_last();
        lemma_ttls_at_left(init, now);
        assert(is_ttl_left(r, ttl_left(r.ttl, now)));
        lemma_ttls_left_push(init, ttls_at(init, now), r, ttl_left(r.ttl, now));
        assert(init.push(r) =~= rs);
        assert(ttls_at(init, now).push(ttl_left(r.ttl, now)) =~= ttls_at(rs, now));
    }
}

/// Appends each record with the time it has left to live when the clock
/// reads `now`.
fn push_records(out: &mut Vec<u8>, rrs: &Vec<ResourceRecord>, now: &Instant)
    ensures
        final(out)@ == old(out)@ + records_wire(record_models(rrs@), ttls_at(rrs@, *now)),
{
    let ghost start = old(out)@;
    let ghost all = record_models(rrs@);
    let ghost ttls = ttls_at(rrs@, *now);
    let mut i: usize = 0;
    assert(records_wire(all.take(0), ttls.take(0)) =~= Seq::<u8>::empty());
    assert(out@ =~= start + Seq::<u8>::empty());
    while i < rrs.len()
        invariant
            0 <= i <= rrs@.len(),
            all == record_models(rrs@),
            ttls == ttls_at(rrs@, *now),
            out@ == start + records_wire(all.take(i as int), ttls.take(i as int)),
        decreases rrs@.len() - i,
    {
        let ttl = rrs[i].ttl_at(now);
        let mut bytes = rrs[i].serialize_with_ttl(ttl);
        proof {
            lemma_records_wire_push(all.take(i as int), ttls.take(i as int), all[i as int], ttl);
            assert(all.take(i as int).push(all[i as int]) =~= all.take(i + 1));
            assert(ttls.take(i as int).push(ttl) =~= ttls.take(i + 1));
        }
        out.append(&mut bytes);
        i = i + 1;
    }
    assert(all.take(i as int) =~= all);
    assert(ttls.take(i as int) =~= ttls);
}

impl Message {
    /// The wire form of the message (RFC 1035, 4.1). The counts of the
    /// sections are cut to 16 bits; the times to live of the records are the
    /// seconds they have left at one reading of the clock, taken by the call.
    pub fn serialize(&self) -> (res: Vec<u8>)
        ensures
            exists|ans: Seq<u32>, auth: Seq<u32>, add: Seq<u32>|
                {
                    &&& ttls_left(self.answers@, ans)
                    &&& ttls_left(self.authority@, auth)
                    &&& ttls_left(self.additional@, add)
                    &&& res@ == #[trigger] self@.wire(ans, auth, add)
                },
            exists|now: Instant|
                res@ == self@.wire(
                    #[trigger] ttls_at(self.answers@, now),
                    ttls_at(self.authority@, now),
                    ttls_at(self.additional@, now),
                ),
    {
        let now = instant_now();
        let res = self.serialize_at(&now);
        proof {
            lemma_ttls_at_left(self.answers@, now);
            lemma_ttls_at_left(self.authority@, now);
            lemma_ttls_at_left(self.additional@, now);
            assert(res@ == self@.wire(
                ttls_at(self.answers@, now),
                ttls_at(self.authority@, now),
                ttls_at(self.additional@, now),
            ));
        }
        res
    }

    /// The wire form of the message (RFC 1035, 4.1) when the clock reads
    /// `now`: the times to live of the records are the whole seconds each has
    /// left at `now`, cut to 32 bits.
    pub fn serialize_at(&self, now: &Instant) -> (res: Vec<u8>)
        ensures
            res@ == self@.wire(
                ttls_at(self.answers@, *now),
                ttls_at(self.authority@, *now),
                ttls_at(self.additional@, *now),
            ),
    {
        let mut payload = Vec::new();
        let mut header = self.header.serialize();
        payload.append(&mut header);
        push_u16(&mut payload, (self.questions.len() % 0x1_0000) as u16);
        push_u16(&mut payload, (self.answers.len() % 0x1_0000) as u16);
        push_u16(&mut payload, (self.authority.len() % 0x1_0000) as u16);
        push_u16(&mut payload, (self.additional.len() % 0x1_0000) as u16);
        let ghost prefix = payload@;
        let ghost qs = question_models(self.questions@);
        let mut i: usize = 0;
        assert(questions_wire(qs.take(0)) =~= Seq::<u8>::empty());
        assert(payload@ =~= prefix + Seq::<u8>::empty());
        while i < self.questions.len()
            invariant
                0 <= i <= self.questions@.len(),
                qs == question_models(self.questions@),
                payload@ == prefix + questions_wire(qs.take(i as int)),
            decreases self.questions@.len() - i,
        {
            let mut chunk = self.questions[i].serialize();
            proof {
                lemma_questions_wire_push(qs.take(i as int), qs[i as int]);
                assert(qs.take(i as int).push(qs[i as int]) =~= qs.take(i + 1));
            }
            payload.append(&mut chunk);
            i = i + 1;
        }
        assert(qs.take(i as int) =~= qs);
        push_records(&mut payload, &self.answers, now);
        push_records(&mut payload, &self.authority, now);
        push_records(&mut payload, &self.additional, now);
        assert(payload@ =~= self@.wire(
            ttls_at(self.answers@, *now),
            ttls_at(self.authority@, *now),
            ttls_at(self.additional@, *now),
        ));
        payload
    }

    /// Checks that the message is a query with at least one question.
    pub fn check_valid_query(&self) -> (res: Result<(), QueryMessageError>)
        ensures
            self.questions@.len() == 0 ==> res == Err::<(), QueryMessageError>(
                QueryMessageError::NoQuestions,
            ),
            self.questions@.len() > 0 && self.header.query_response != QueryResponse::Query
                ==> res == Err::<(), QueryMessageError>(QueryMessageError::NotQuery),
            self.questions@.len() > 0 && self.header.query_response == QueryResponse::Query
                ==> res is Ok,
    {
        if self.questions.len() == 0 {
            return Err(QueryMessageError::NoQuestions);
        }
        if self.header.query_response != QueryResponse::Query {
            return Err(QueryMessageError::NotQuery);
        }
        Ok(())
    }

    /// Checks that the message is a response with at least one question.
    pub fn check_valid_response(&self) -> (res: Result<(), ResponseMessageError>)
        ensures
            self.questions@.len() == 0 ==> res == Err::<(), ResponseMessageError>(
                ResponseMessageError::NoQuestions,
            ),
            self.questions@.len() > 0 && self.header.query_response != QueryResponse::Response
                ==> res == Err::<(), ResponseMessageError>(ResponseMessageError::NotResponse),
            self.questions@.len() > 0 && self.header.query_response == QueryResponse::Response
                ==> res is Ok,
    {
        if self.questions.len() == 0 {
            return Err(ResponseMessageError::NoQuestions);
        }
        if self.header.query_response != QueryResponse::Response {
            return Err(ResponseMessageError::NotResponse);
        }
        Ok(())
    }
}

} // verus!
