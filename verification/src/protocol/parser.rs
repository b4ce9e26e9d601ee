//! Reading DNS messages from their wire form (RFC 1035, 4.1).

use std::time::Instant;
use vstd::arithmetic::div_mod::lemma_small_mod;
use vstd::arithmetic::power2::{lemma2_to64, pow2};
use vstd::bits::{low_bits_mask, lemma_u8_low_bits_mask_is_mod, lemma_u8_pow2_no_overflow, lemma_u8_shl_is_mul, lemma_u8_shr_is_div};
use vstd::prelude::*;
use vstd::slice::slice_to_vec;
use vstd::utf8::{decode_utf8, decode_utf8_encode_utf8, valid_utf8};

use crate::protocol::format::{be_u16, be_u32};
use crate::protocol::message::{
    expire_after, expires_after, expiry_at, lemma_expire_after_push,
    name_bytes, label_models, label_values, question_models, record_models, Message, ResourceRecord, CompressedName, Label, LabelModel, Question, Class, Header, MessageModel, OpCode, QClass, QType, QueryResponse, QuestionModel, RecordModel,
    ResponseCode, Type,
};
use crate::protocol::{LABEL_LEN_MAX, NAME_LEN_MAX};
use crate::sys::{instant_after_secs, instant_now, string_from_utf8};
use crate::{ParseError, UnexpectedValueError};

verus! {

/// Why reading failed, as the contracts speak of it.
pub enum Failure {
    /// A name or a label is longer than `max` bytes: it has `actual`.
    TooLong { max: usize, actual: usize },
    /// The data ends before the field that is being read.
    Truncated,
    /// A label is not valid UTF-8.
    BadUtf8,
    /// A field holds a value that is not allowed there.
    Unexpected,
}

impl ParseError {
    /// The failure that the error reports.
    pub open spec fn failure(&self) -> Failure {
        match self {
            ParseError::InvalidStringSize { expected_max, actual } => Failure::TooLong {
                max: *expected_max,
                actual: *actual,
            },
            ParseError::InvalidSliceSize => Failure::Truncated,
            ParseError::CharacterConversion(_) => Failure::BadUtf8,
            ParseError::UnexpectedValue(_) => Failure::Unexpected,
        }
    }
}

/// The 16-bit value at `pos`, and the position after it.
pub open spec fn read_u16(buf: Seq<u8>, pos: int) -> Result<(u16, int), Failure> {
    if 0 <= pos && pos + 2 <= buf.len() {
        Ok((be_u16(buf[pos], buf[pos + 1]), pos + 2))
    } else {
        Err(Failure::Truncated)
    }
}

/// The 32-bit value at `pos`, and the position after it.
pub open spec fn read_u32(buf: Seq<u8>, pos: int) -> Result<(u32, int), Failure> {
    if 0 <= pos && pos + 4 <= buf.len() {
        Ok((be_u32(buf[pos], buf[pos + 1], buf[pos + 2], buf[pos + 3]), pos + 4))
    } else {
        Err(Failure::Truncated)
    }
}

/// The header that a buffer starts with, and its four counts
/// (questions, answers, authority records, additional records).
pub open spec fn read_header(buf: Seq<u8>) -> Result<(Header, Seq<u16>), Failure> {
    if buf.len() < 12 {
        Err(Failure::Truncated)
    } else {
        let hi = buf[2];
        let lo = buf[3];
        Ok(
            (
                Header {
                    id: be_u16(buf[0], buf[1]),
                    query_response: if hi / 128 == 0 {
                        QueryResponse::Query
                    } else {
                        QueryResponse::Response
                    },
                    opcode: OpCode::of_bits(((hi / 8) % 16) as u8),
                    authoritative_answer: (hi / 4) % 2 == 1,
                    truncation: (hi / 2) % 2 == 1,
                    recursion_desired: hi % 2 == 1,
                    recursion_available: lo / 128 == 1,
                    reserved: (lo / 64) % 2 == 1,
                    authentic_data: (lo / 32) % 2 == 1,
                    checking_disabled: (lo / 16) % 2 == 1,
                    response_code: ResponseCode::of_bits((lo % 16) as u8),
                },
                seq![
                    be_u16(buf[4], buf[5]),
                    be_u16(buf[6], buf[7]),
                    be_u16(buf[8], buf[9]),
                    be_u16(buf[10], buf[11]),
                ],
            ),
        )
    }
}

/// The labels of an uncompressed name at `pos`, up to its zero length
/// byte, and the position after that byte. Lengths are taken as they come.
pub open spec fn read_plain_labels(buf: Seq<u8>, pos: int) -> Result<(Seq<Seq<u8>>, int), Failure>
    decreases buf.len() - pos,
{
    if pos < 0 || pos >= buf.len() {
        Err(Failure::Truncated)
    } else if buf[pos] == 0 {
        Ok((seq![], pos + 1))
    } else if pos + 1 + buf[pos] > buf.len() {
        Err(Failure::Truncated)
    } else {
        let label = buf.subrange(pos + 1, pos + 1 + buf[pos]);
        if !valid_utf8(label) {
            Err(Failure::BadUtf8)
        } else {
            match read_plain_labels(buf, pos + 1 + buf[pos]) {
                Ok((rest, end)) => Ok((seq![label] + rest, end)),
                Err(f) => Err(f),
            }
        }
    }
}

/// The question at the start of `buf`, and the position after it.
pub open spec fn read_question(buf: Seq<u8>) -> Result<(QuestionModel, int), Failure> {
    match read_plain_labels(buf, 0) {
        Err(f) => Err(f),
        Ok((qname, p)) => match read_u16(buf, p) {
            Err(f) => Err(f),
            Ok((t, p)) => match read_u16(buf, p) {
                Err(f) => Err(f),
                Ok((c, p)) => Ok(
                    (QuestionModel { qname, qtype: QType::of_code(t), qclass: QClass::of_code(c) }, p),
                ),
            },
        },
    }
}

/// The pointer that two bytes hold: their low 14 bits.
pub open spec fn pointer(hi: u8, lo: u8) -> usize {
    (be_u16(hi, lo) % 0x4000) as usize
}

/// The kind of a length byte: its two high bits.
pub open spec fn marker(b: u8) -> u8 {
    b / 64
}

/// Follows a name from `offset` in the whole message, after compression
/// pointers. `name_len` counts the bytes of the name so far, `labels` are
/// the labels read so far, `offsets` the pointers followed since the last
/// label and `run` their number. A run of pointers longer than the message
/// goes round a cycle forever: it is refused.
pub open spec fn follow_name(
    full: Seq<u8>,
    offset: int,
    name_len: usize,
    labels: Seq<LabelModel>,
    offsets: Seq<usize>,
    run: nat,
) -> Result<Seq<LabelModel>, Failure>
    decreases NAME_LEN_MAX + 1 - name_len, full.len() + 1 - run,
    when name_len <= NAME_LEN_MAX && run <= full.len()
{
    if offset < 0 || offset >= full.len() {
        Err(Failure::Truncated)
    } else if marker(full[offset]) == 3 {
        if offset + 2 > full.len() {
            Err(Failure::Truncated)
        } else if run >= full.len() {
            Err(Failure::Unexpected)
        } else {
            let next = pointer(full[offset], full[offset + 1]);
            follow_name(full, next as int, name_len, labels, offsets.push(next), run + 1)
        }
    } else if marker(full[offset]) == 0 {
        let n = full[offset] as usize;
        if n == 0 {
            if name_len + 1 > NAME_LEN_MAX {
                Err(Failure::TooLong { max: NAME_LEN_MAX, actual: (name_len + 1) as usize })
            } else {
                Ok(labels)
            }
        } else if n > LABEL_LEN_MAX {
            Err(Failure::TooLong { max: LABEL_LEN_MAX, actual: n })
        } else if name_len + n + 1 > NAME_LEN_MAX {
            Err(Failure::TooLong { max: NAME_LEN_MAX, actual: (name_len + n + 1) as usize })
        } else if offset + 1 + n > full.len() {
            Err(Failure::Truncated)
        } else {
            let value = full.subrange(offset + 1, offset + 1 + n);
            if !valid_utf8(value) {
                Err(Failure::BadUtf8)
            } else {
                follow_name(
                    full,
                    offset + 1 + n,
                    (name_len + n + 1) as usize,
                    labels.push(LabelModel { value, offsets }),
                    seq![],
                    0,
                )
            }
        }
    } else {
        Err(Failure::Unexpected)
    }
}

/// Reads a name from `buf` at `pos`, where `full` is the whole message
/// that compression pointers point into: the labels, and the position in
/// `buf` after the name (after the first pointer, if there is one).
pub open spec fn read_name(
    buf: Seq<u8>,
    full: Seq<u8>,
    pos: int,
    name_len: usize,
    labels: Seq<LabelModel>,
) -> Result<(Seq<LabelModel>, int), Failure>
    decreases buf.len() - pos,
    when name_len <= NAME_LEN_MAX
{
    if pos < 0 || pos >= buf.len() {
        Err(Failure::Truncated)
    } else if marker(buf[pos]) == 3 {
        if pos + 2 > buf.len() {
            Err(Failure::Truncated)
        } else {
            let target = pointer(buf[pos], buf[pos + 1]);
            match follow_name(full, target as int, name_len, labels, seq![target], 0) {
                Ok(all) => Ok((all, pos + 2)),
                Err(f) => Err(f),
            }
        }
    } else if marker(buf[pos]) != 0 {
        Err(Failure::Unexpected)
    } else {
        let n = buf[pos] as usize;
        if n == 0 {
            if name_len + 1 > NAME_LEN_MAX {
                Err(Failure::TooLong { max: NAME_LEN_MAX, actual: (name_len + 1) as usize })
            } else {
                Ok((labels, pos + 1))
            }
        } else if n > LABEL_LEN_MAX {
            Err(Failure::TooLong { max: LABEL_LEN_MAX, actual: n })
        } else if name_len + 1 + n > NAME_LEN_MAX {
            Err(Failure::TooLong { max: NAME_LEN_MAX, actual: (name_len + 1 + n) as usize })
        } else if pos + 1 + n > buf.len() {
            Err(Failure::Truncated)
        } else {
            let value = buf.subrange(pos + 1, pos + 1 + n);
            if !valid_utf8(value) {
                Err(Failure::BadUtf8)
            } else {
                read_name(
                    buf,
                    full,
                    pos + 1 + n,
                    (name_len + 1 + n) as usize,
                    labels.push(LabelModel { value, offsets: seq![] }),
                )
            }
        }
    }
}

/// A name read from `pos` ends after `pos`, and within the buffer.
pub proof fn lemma_read_name_end(
    buf: Seq<u8>,
    full: Seq<u8>,
    pos: int,
    name_len: usize,
    labels: Seq<LabelModel>,
)
    requires
        name_len <= NAME_LEN_MAX,
    ensures
        read_name(buf, full, pos, name_len, labels) matches Ok((_, k)) ==> pos < k <= buf.len(),
    decreases buf.len() - pos,
{
    if 0 <= pos < buf.len() && marker(buf[pos]) == 0 {
        let n = buf[pos] as usize;
        if n != 0 && n <= LABEL_LEN_MAX && name_len + 1 + n <= NAME_LEN_MAX && pos + 1 + n
            <= buf.len() {
            let value = buf.subrange(pos + 1, pos + 1 + n);
            lemma_read_name_end(
                buf,
                full,
                pos + 1 + n,
                (name_len + 1 + n) as usize,
                labels.push(LabelModel { value, offsets: seq![] }),
            );
        }
    }
}

/// The bytes of each label.
pub open spec fn label_model_values(labels: Seq<LabelModel>) -> Seq<Seq<u8>> {
    labels.map_values(|l: LabelModel| l.value)
}

/// The record at the start of `buf`, where `full` is the whole message,
/// with its time to live in seconds, and the position after it.
pub open spec fn read_record(buf: Seq<u8>, full: Seq<u8>) -> Result<((RecordModel, u32), int), Failure> {
    match read_name(buf, full, 0, 0, seq![]) {
        Err(f) => Err(f),
        Ok((labels, p)) => match read_u16(buf, p) {
            Err(f) => Err(f),
            Ok((t, p)) => match read_u16(buf, p) {
                Err(f) => Err(f),
                Ok((c, p)) => match read_u32(buf, p) {
                    Err(f) => Err(f),
                    Ok((ttl, p)) => match read_u16(buf, p) {
                        Err(f) => Err(f),
                        Ok((len, p)) => if p + len > buf.len() {
                            Err(Failure::Truncated)
                        } else {
                            Ok(
                                (
                                    (
                                        RecordModel {
                                            name: label_model_values(labels),
                                            rtype: Type::of_code(t),
                                            class: Class::of_code(c),
                                            rdata: buf.subrange(p, p + len),
                                        },
                                        ttl,
                                    ),
                                    p + len,
                                ),
                            )
                        },
                    },
                },
            },
        },
    }
}

/// `n` questions one after the other from `pos`, and the position after
/// the last.
pub open spec fn read_questions(full: Seq<u8>, pos: int, n: nat) -> Result<
    (Seq<QuestionModel>, int),
    Failure,
>
    decreases n,
{
    if n == 0 {
        Ok((seq![], pos))
    } else {
        match read_questions(full, pos, (n - 1) as nat) {
            Err(f) => Err(f),
            Ok((qs, p)) => match read_question(full.subrange(p, full.len() as int)) {
                Err(f) => Err(f),
                Ok((q, k)) => Ok((qs.push(q), p + k)),
            },
        }
    }
}

/// `n` records one after the other from `pos`, their times to live, and
/// the position after the last.
pub open spec fn read_records(full: Seq<u8>, pos: int, n: nat) -> Result<
    (Seq<RecordModel>, Seq<u32>, int),
    Failure,
>
    decreases n,
{
    if n == 0 {
        Ok((seq![], seq![], pos))
    } else {
        match read_records(full, pos, (n - 1) as nat) {
            Err(f) => Err(f),
            Ok((rs, ts, p)) => match read_record(full.subrange(p, full.len() as int), full) {
                Err(f) => Err(f),
                Ok(((r, t), k)) => Ok((rs.push(r), ts.push(t), p + k)),
            },
        }
    }
}

/// A message read from its wire form, with the time to live, in seconds,
/// of each record of its three record sections.
pub struct ParsedMessage {
    pub message: MessageModel,
    pub answer_ttls: Seq<u32>,
    pub authority_ttls: Seq<u32>,
    pub additional_ttls: Seq<u32>,
}

/// The message that a buffer holds: the header, then as many questions,
/// answers, authority and additional records as its counts say. Bytes
/// after the last record are not read.
#[verifier::opaque]
pub open spec fn read_message(buf: Seq<u8>) -> Result<ParsedMessage, Failure> {
    match read_header(buf) {
        Err(f) => Err(f),
        Ok((header, counts)) => match read_questions(buf, 12, counts[0] as nat) {
            Err(f) => Err(f),
            Ok((questions, p)) => match read_records(buf, p, counts[1] as nat) {
                Err(f) => Err(f),
                Ok((answers, ans_ttls, p)) => match read_records(buf, p, counts[2] as nat) {
                    Err(f) => Err(f),
                    Ok((authority, auth_ttls, p)) => match read_records(buf, p, counts[3] as nat) {
                        Err(f) => Err(f),
                        Ok((additional, add_ttls, _p)) => Ok(
                            ParsedMessage {
                                message: MessageModel {
                                    header,
                                    questions,
                                    answers,
                                    authority,
                                    additional,
                                },
                                answer_ttls: ans_ttls,
                                authority_ttls: auth_ttls,
                                additional_ttls: add_ttls,
                            },
                        ),
                    },
                },
            },
        },
    }
}

/// The bits `min_idx` to `max_idx` (both included, 0 the least
/// significant) of a byte, as a number.
fn extract_from_u8(buffer: u8, min_idx: u8, max_idx: u8) -> (res: u8)
    requires
        min_idx <= max_idx,
        max_idx < 8,
        max_idx - min_idx < 7,
    ensures
        res as nat == (buffer as nat / pow2(min_idx as nat)) % pow2((max_idx - min_idx + 1) as nat),
{
    let width: u8 = max_idx - min_idx + 1;
    proof {
        lemma_u8_shr_is_div(buffer, min_idx);
        lemma_u8_pow2_no_overflow(width as nat);
        lemma_u8_shl_is_mul(1, width);
        lemma_u8_pow2_no_overflow(min_idx as nat);
        lemma_u8_low_bits_mask_is_mod(buffer >> min_idx, width as nat);
        assert(low_bits_mask(width as nat) == pow2(width as nat) - 1) by {
            reveal(low_bits_mask);
        }
    }
    (buffer >> min_idx) & ((1u8 << width) - 1)
}

/// Whether bit `index` (0 the least significant) of a byte is set.
fn bool_from_u8(buffer: u8, index: u8) -> (res: bool)
    requires
        index < 8,
    ensures
        res == ((buffer as nat / pow2(index as nat)) % 2 == 1),
{
    proof {
        lemma_u8_shr_is_div(buffer, index);
        lemma_u8_low_bits_mask_is_mod(buffer >> index, 1);
        lemma2_to64();
        assert(low_bits_mask(1) == 1) by {
            reveal(low_bits_mask);
            lemma2_to64();
        }
    }
    (buffer >> index) & 0x01 == 1
}


/// Drops the first `count` bytes of the buffer.
fn consume<'a>(buffer: &mut &'a [u8], count: usize)
    requires
        count <= old(buffer)@.len(),
    ensures
        final(buffer)@ == old(buffer)@.skip(count as int),
{
    *buffer = &buffer[count..buffer.len()];
}

/// Takes the first `count` bytes of the buffer.
fn consume_slice<'a>(buffer: &mut &'a [u8], count: usize) -> (res: Result<&'a [u8], ParseError>)
    ensures
        count <= old(buffer)@.len() ==> (res matches Ok(s) && s@ == old(buffer)@.take(count as int)
            && final(buffer)@ == old(buffer)@.skip(count as int)),
        count > old(buffer)@.len() ==> (res matches Err(e) && e.failure() == Failure::Truncated),
{
    if count > buffer.len() {
        return Err(ParseError::InvalidSliceSize);
    }
    let result = &buffer[0..count];
    consume(buffer, count);
    Ok(result)
}

/// The 16-bit value that the buffer starts with.
fn peek_u16(buffer: &[u8]) -> (res: Result<u16, ParseError>)
    ensures
        res matches Ok(v) ==> read_u16(buffer@, 0) == Ok::<(u16, int), Failure>((v, 2)),
        res matches Err(e) ==> read_u16(buffer@, 0) == Err::<(u16, int), Failure>(e.failure()),
        res is Ok <==> read_u16(buffer@, 0) is Ok,
{
    if buffer.len() < 2 {
        return Err(ParseError::InvalidSliceSize);
    }
    Ok((buffer[0] as u16) * 256 + buffer[1] as u16)
}

/// Takes the byte that the buffer starts with.
fn consume_u8(buffer: &mut &[u8]) -> (res: Result<u8, ParseError>)
    ensures
        old(buffer)@.len() > 0 ==> (res matches Ok(v) && v == old(buffer)@[0] && final(buffer)@
            == old(buffer)@.skip(1)),
        old(buffer)@.len() == 0 ==> (res matches Err(e) && e.failure() == Failure::Truncated),
{
    if buffer.len() < 1 {
        return Err(ParseError::InvalidSliceSize);
    }
    let val = buffer[0];
    consume(buffer, 1);
    Ok(val)
}

/// Takes the 16-bit value that the buffer starts with.
fn consume_u16(buffer: &mut &[u8]) -> (res: Result<u16, ParseError>)
    ensures
        res matches Ok(v) ==> read_u16(old(buffer)@, 0) == Ok::<(u16, int), Failure>((v, 2))
            && final(buffer)@ == old(buffer)@.skip(2),
        res matches Err(e) ==> read_u16(old(buffer)@, 0) == Err::<(u16, int), Failure>(e.failure()),
        res is Ok <==> read_u16(old(buffer)@, 0) is Ok,
{
    let val = match peek_u16(buffer) {
        Ok(v) => v,
        Err(e) => return Err(e),
    };
    consume(buffer, 2);
    Ok(val)
}

/// Takes the 32-bit value that the buffer starts with.
fn consume_u32(buffer: &mut &[u8]) -> (res: Result<u32, ParseError>)
    ensures
        res matches Ok(v) ==> read_u32(old(buffer)@, 0) == Ok::<(u32, int), Failure>((v, 4))
            && final(buffer)@ == old(buffer)@.skip(4),
        res matches Err(e) ==> read_u32(old(buffer)@, 0) == Err::<(u32, int), Failure>(e.failure()),
        res is Ok <==> read_u32(old(buffer)@, 0) is Ok,
{
    if buffer.len() < 4 {
        return Err(ParseError::InvalidSliceSize);
    }
    let val = (buffer[0] as u32) * 0x100_0000 + (buffer[1] as u32) * 0x1_0000 + (buffer[2] as u32)
        * 256 + buffer[3] as u32;
    consume(buffer, 4);
    Ok(val)
}


/// A header with the four counts of the sections that follow it.
pub struct FullHeader {
    pub header: Header,
    pub qd_count: u16,
    pub an_count: u16,
    pub ns_count: u16,
    pub ar_count: u16,
}

/// Reads the header and the counts, twelve bytes in all.
pub fn parse_header(buffer: &mut &[u8]) -> (res: Result<FullHeader, ParseError>)
    ensures
        match read_header(old(buffer)@) {
            Ok((h, c)) => res matches Ok(fh) && fh.header == h && fh.qd_count == c[0]
                && fh.an_count == c[1] && fh.ns_count == c[2] && fh.ar_count == c[3]
                && final(buffer)@ == old(buffer)@.skip(12),
            Err(f) => res matches Err(e) && e.failure() == f,
        },
{
    let ghost start = old(buffer)@;
    let id = match consume_u16(buffer) {
        Ok(v) => v,
        Err(e) => return Err(e),
    };
    if buffer.len() < 10 {
        return Err(ParseError::InvalidSliceSize);
    }
    proof {
        lemma2_to64();
    }
    let qr_bit = extract_from_u8(buffer[0], 7, 7);
    assert(qr_bit == buffer@[0] / 128) by {
        let b = buffer@[0];
        assert(pow2(7) == 128);
        assert(pow2(1) == 2);
        assert(qr_bit as nat == (b as nat / 128) % 2);
        lemma_small_mod(b as nat / 128, 2);
    }
    let query_response = match QueryResponse::try_from(qr_bit) {
        Ok(v) => v,
        Err(e) => return Err(ParseError::UnexpectedValue(e)),
    };
    let opcode = match OpCode::try_from(extract_from_u8(buffer[0], 3, 6)) {
        Ok(v) => v,
        Err(e) => return Err(ParseError::UnexpectedValue(e)),
    };
    let authoritative_answer: bool = bool_from_u8(buffer[0], 2);
    let truncation: bool = bool_from_u8(buffer[0], 1);
    let recursion_desired: bool = bool_from_u8(buffer[0], 0);
    consume(buffer, 1);
    let recursion_available = bool_from_u8(buffer[0], 7);
    let reserved = bool_from_u8(buffer[0], 6);
    let authentic_data = bool_from_u8(buffer[0], 5);
    let checking_disabled = bool_from_u8(buffer[0], 4);
    let response_code = match ResponseCode::try_from(extract_from_u8(buffer[0], 0, 3)) {
        Ok(v) => v,
        Err(e) => return Err(ParseError::UnexpectedValue(e)),
    };
    consume(buffer, 1);
    let qd_count = match consume_u16(buffer) {
        Ok(v) => v,
        Err(e) => return Err(e),
    };
    let an_count = match consume_u16(buffer) {
        Ok(v) => v,
        Err(e) => return Err(e),
    };
    let ns_count = match consume_u16(buffer) {
        Ok(v) => v,
        Err(e) => return Err(e),
    };
    let ar_count = match consume_u16(buffer) {
        Ok(v) => v,
        Err(e) => return Err(e),
    };
    let header = Header {
        id,
        query_response,
        opcode,
        authoritative_answer,
        truncation,
        recursion_desired,
        recursion_available,
        reserved,
        authentic_data,
        checking_disabled,
        response_code,
    };
    assert(buffer@ =~= start.skip(12));
    proof {
        let hi = start[2];
        let lo = start[3];
        assert(id == be_u16(start[0], start[1]));
        assert(query_response == (if hi / 128 == 0 {
            QueryResponse::Query
        } else {
            QueryResponse::Response
        }));
        assert(opcode == OpCode::of_bits(((hi / 8) % 16) as u8));
        assert(authoritative_answer == ((hi / 4) % 2 == 1));
        assert(truncation == ((hi / 2) % 2 == 1));
        assert(recursion_desired == (hi % 2 == 1));
        assert(recursion_available == (lo / 128 == 1));
        assert(reserved == ((lo / 64) % 2 == 1));
        assert(authentic_data == ((lo / 32) % 2 == 1));
        assert(checking_disabled == ((lo / 16) % 2 == 1));
        assert(response_code == ResponseCode::of_bits((lo % 16) as u8));
        assert(qd_count == be_u16(start[4], start[5]));
        assert(ar_count == be_u16(start[10], start[11]));
    }
    Ok(FullHeader { header, qd_count, an_count, ns_count, ar_count })
}


/// The labels of a result, after `prefix`.
pub open spec fn after_labels(prefix: Seq<Seq<u8>>, r: Result<(Seq<Seq<u8>>, int), Failure>) -> Result<
    (Seq<Seq<u8>>, int),
    Failure,
> {
    match r {
        Ok((ls, end)) => Ok((prefix + ls, end)),
        Err(f) => Err(f),
    }
}

/// Decodes a label; fails on bytes that are not UTF-8.
fn label_from_bytes(bytes: &[u8]) -> (res: Result<String, ParseError>)
    ensures
        valid_utf8(bytes@) ==> (res matches Ok(s) && vstd::utf8::encode_utf8(s@) == bytes@),
        !valid_utf8(bytes@) ==> (res matches Err(e) && e.failure() == Failure::BadUtf8),
{
    match string_from_utf8(slice_to_vec(bytes)) {
        Ok(s) => {
            proof {
                decode_utf8_encode_utf8(bytes@);
            }
            Ok(s)
        },
        Err(e) => Err(ParseError::CharacterConversion(e)),
    }
}

/// `read_u16` on what is left of a buffer after `pos` bytes.
proof fn lemma_read_u16_skip(buf: Seq<u8>, pos: int)
    requires
        0 <= pos <= buf.len(),
    ensures
        read_u16(buf.skip(pos), 0) matches Ok((v, k)) ==> read_u16(buf, pos) == Ok::<(u16, int), Failure>((v, pos + k)),
        read_u16(buf.skip(pos), 0) matches Err(f) ==> read_u16(buf, pos) == Err::<(u16, int), Failure>(f),
{
}

/// `read_u32` on what is left of a buffer after `pos` bytes.
proof fn lemma_read_u32_skip(buf: Seq<u8>, pos: int)
    requires
        0 <= pos <= buf.len(),
    ensures
        read_u32(buf.skip(pos), 0) matches Ok((v, k)) ==> read_u32(buf, pos) == Ok::<(u32, int), Failure>((v, pos + k)),
        read_u32(buf.skip(pos), 0) matches Err(f) ==> read_u32(buf, pos) == Err::<(u32, int), Failure>(f),
{
}

/// Reads a question (RFC 1035, 4.1.2); its name must not be compressed.
pub fn parse_question(buffer: &mut &[u8]) -> (res: Result<Question, ParseError>)
    ensures
        match read_question(old(buffer)@) {
            Ok((q, k)) => res matches Ok(question) && question@ == q && final(buffer)@ == old(
                buffer,
            )@.skip(k),
            Err(f) => res matches Err(e) && e.failure() == f,
        },
{
    let ghost start = old(buffer)@;
    let ghost mut pos: int = 0;
    let mut qname: Vec<String> = Vec::new();
    assert(start.skip(0) =~= start);
    assert(read_plain_labels(start, 0) =~= after_labels(name_bytes(qname@), read_plain_labels(start, 0)));
    loop
        invariant_except_break
            0 <= pos <= start.len(),
            buffer@ == start.skip(pos),
            read_plain_labels(start, 0) == after_labels(name_bytes(qname@), read_plain_labels(start, pos)),
        invariant
            start == old(buffer)@,
        ensures
            0 <= pos <= start.len(),
            buffer@ == start.skip(pos),
            read_plain_labels(start, 0) == Ok::<(Seq<Seq<u8>>, int), Failure>((name_bytes(qname@), pos)),
        decreases start.len() - pos,
    {
        let length = match consume_u8(buffer) {
            Ok(v) => v,
            Err(e) => {
                assert(read_plain_labels(start, pos) == Err::<(Seq<Seq<u8>>, int), Failure>(Failure::Truncated));
                assert(read_plain_labels(start, 0) == Err::<(Seq<Seq<u8>>, int), Failure>(Failure::Truncated));
                return Err(e);
            },
        };
        assert(length == start[pos]);
        if length == 0 {
            proof {
                assert(name_bytes(qname@) + Seq::<Seq<u8>>::empty() =~= name_bytes(qname@));
                pos = pos + 1;
                assert(buffer@ =~= start.skip(pos));
            }
            break;
        }
        let slice = match consume_slice(buffer, length as usize) {
            Ok(s) => s,
            Err(e) => {
                assert(read_plain_labels(start, pos) == Err::<(Seq<Seq<u8>>, int), Failure>(Failure::Truncated));
                assert(read_plain_labels(start, 0) == Err::<(Seq<Seq<u8>>, int), Failure>(Failure::Truncated));
                return Err(e);
            },
        };
        assert(slice@ =~= start.subrange(pos + 1, pos + 1 + length));
        let label = match label_from_bytes(slice) {
            Ok(s) => s,
            Err(e) => {
                assert(read_plain_labels(start, pos) == Err::<(Seq<Seq<u8>>, int), Failure>(Failure::BadUtf8));
                assert(read_plain_labels(start, 0) == Err::<(Seq<Seq<u8>>, int), Failure>(Failure::BadUtf8));
                return Err(e);
            },
        };
        let ghost before = name_bytes(qname@);
        qname.push(label);
        proof {
            assert(name_bytes(qname@) =~= before.push(slice@));
            let next = pos + 1 + length;
            match read_plain_labels(start, next) {
                Ok((rest, end)) => {
                    assert(before + (seq![slice@] + rest) =~= name_bytes(qname@) + rest);
                },
                Err(f) => {},
            }
            pos = next;
            assert(buffer@ =~= start.skip(pos));
        }
    }
    proof {
        lemma_read_u16_skip(start, pos);
    }
    let qtype = match consume_u16(buffer) {
        Ok(v) => QType::from(v),
        Err(e) => return Err(e),
    };
    proof {
        assert(buffer@ =~= start.skip(pos + 2));
        lemma_read_u16_skip(start, pos + 2);
    }
    let qclass = match consume_u16(buffer) {
        Ok(v) => QClass::from(v),
        Err(e) => return Err(e),
    };
    proof {
        assert(buffer@ =~= start.skip(pos + 4));
    }
    Ok(Question { qname, qtype, qclass })
}


/// The two high bits of a length byte.
fn marker_of(b: u8) -> (res: u8)
    ensures
        res == marker(b),
{
    assert((b & 0xc0u8) >> 6u8 == b / 64) by (bit_vector);
    (b & 0b11000000) >> 6
}

/// The pointer that a 16-bit value holds: its low 14 bits.
fn pointer_of(v: u16) -> (res: usize)
    ensures
        res == (v % 0x4000) as usize,
{
    assert(v & 0x3fffu16 == v % 0x4000) by (bit_vector);
    (v & 0x3FFF) as usize
}

/// The error of a length byte whose two high bits are neither 00 nor 11.
fn bad_marker() -> (res: ParseError)
    ensures
        res.failure() == Failure::Unexpected,
        res matches ParseError::UnexpectedValue(e) && e@ == "unexpected label marker"@,
{
    ParseError::UnexpectedValue(UnexpectedValueError::new("unexpected label marker".to_owned()))
}

/// The error of compression pointers that point round a cycle.
fn pointer_loop() -> (res: ParseError)
    ensures
        res.failure() == Failure::Unexpected,
        res matches ParseError::UnexpectedValue(e) && e@ == "compression pointers loop"@,
{
    ParseError::UnexpectedValue(UnexpectedValueError::new("compression pointers loop".to_owned()))
}

/// Reads a name at the start of `buffer`; `full_buffer` is the whole
/// message that compression pointers point into (RFC 1035, 4.1.4). The
/// buffer is left after the name, or after its first pointer.
///
/// Fails when the data ends too soon, on a length byte whose two high bits
/// are 01 or 10, on labels that are not UTF-8, when the name is longer than
/// 255 bytes, and on pointers that only lead to pointers, round a cycle.
pub fn parse_resource_record_name(buffer: &mut &[u8], full_buffer: &[u8]) -> (res: Result<
    CompressedName,
    ParseError,
>)
    ensures
        match read_name(old(buffer)@, full_buffer@, 0, 0, seq![]) {
            Ok((labels, k)) => res matches Ok(name) && name@ == labels && final(buffer)@ == old(
                buffer,
            )@.skip(k),
            Err(f) => res matches Err(e) && e.failure() == f,
        },
{
    let ghost start = old(buffer)@;
    let ghost full = full_buffer@;
    let ghost goal = read_name(start, full, 0, 0, seq![]);
    let ghost mut pos: int = 0;
    let mut name_len: usize = 0;
    let mut name: Vec<Label> = Vec::new();
    let mut offsets: Vec<usize> = Vec::new();
    assert(start.skip(0) =~= start);
    assert(label_models(name@) =~= Seq::<LabelModel>::empty());
    loop
        invariant_except_break
            0 <= pos <= start.len(),
            buffer@ == start.skip(pos),
            name_len <= NAME_LEN_MAX,
            offsets@ == Seq::<usize>::empty(),
            goal == read_name(start, full, pos, name_len, label_models(name@)),
        invariant
            start == old(buffer)@,
            full == full_buffer@,
            goal == read_name(start, full, 0, 0, seq![]),
        ensures
            0 <= pos && pos + 2 <= start.len(),
            buffer@ == start.skip(pos + 2),
            name_len <= NAME_LEN_MAX,
            marker(start[pos]) == 3,
            offsets@ == seq![pointer(start[pos], start[pos + 1])],
            goal == match follow_name(
                full,
                pointer(start[pos], start[pos + 1]) as int,
                name_len,
                label_models(name@),
                offsets@,
                0,
            ) {
                Ok(all) => Ok((all, pos + 2)),
                Err(f) => Err(f),
            },
        decreases start.len() - pos,
    {
        if buffer.len() == 0 {
            return Err(ParseError::InvalidSliceSize);
        }
        let marker = marker_of(buffer[0]);
        assert(buffer@[0] == start[pos]);
        if marker == 0b11 {
            let ptr = match consume_u16(buffer) {
                Ok(v) => pointer_of(v),
                Err(e) => return Err(e),
            };
            offsets.push(ptr);
            proof {
                assert(buffer@ =~= start.skip(pos + 2));
                assert(offsets@ =~= seq![pointer(start[pos], start[pos + 1])]);
            }
            break;
        }
        if marker != 0b00 {
            return Err(bad_marker());
        }
        let length = match consume_u8(buffer) {
            Ok(v) => v as usize,
            Err(e) => return Err(e),
        };
        if length == 0 {
            if name_len + 1 > NAME_LEN_MAX {
                return Err(ParseError::InvalidStringSize { expected_max: NAME_LEN_MAX, actual: name_len + 1 });
            }
            proof {
                assert(buffer@ =~= start.skip(pos + 1));
            }
            return Ok(CompressedName(name));
        }
        if length > LABEL_LEN_MAX {
            return Err(ParseError::InvalidStringSize { expected_max: LABEL_LEN_MAX, actual: length });
        }
        name_len = name_len + 1 + length;
        if name_len > NAME_LEN_MAX {
            return Err(ParseError::InvalidStringSize { expected_max: NAME_LEN_MAX, actual: name_len });
        }
        let slice = match consume_slice(buffer, length) {
            Ok(s) => s,
            Err(e) => return Err(e),
        };
        assert(slice@ =~= start.subrange(pos + 1, pos + 1 + length));
        let value = match label_from_bytes(slice) {
            Ok(s) => s,
            Err(e) => return Err(e),
        };
        let ghost before = label_models(name@);
        name.push(Label { offsets: Vec::new(), value });
        proof {
            assert(label_models(name@) =~= before.push(LabelModel { value: slice@, offsets: seq![] }));
            pos = pos + 1 + length;
            assert(buffer@ =~= start.skip(pos));
        }
    }
    let ghost consumed = pos + 2;
    let ghost phase2 = follow_name(
        full,
        offsets@[0] as int,
        name_len,
        label_models(name@),
        offsets@,
        0,
    );
    let mut offset: usize = offsets[0];
    let mut run: usize = 0;
    loop
        invariant
            full == full_buffer@,
            name_len <= NAME_LEN_MAX,
            run <= full.len(),
            goal == match phase2 {
                Ok(all) => Ok((all, consumed)),
                Err(f) => Err(f),
            },
            phase2 == follow_name(full, offset as int, name_len, label_models(name@), offsets@, run as nat),
            buffer@ == start.skip(consumed),
            start == old(buffer)@,
            goal == read_name(start, full, 0, 0, seq![]),
        decreases NAME_LEN_MAX + 1 - name_len, full.len() + 1 - run,
    {
        if offset >= full_buffer.len() {
            return Err(ParseError::InvalidSliceSize);
        }
        let marker = marker_of(full_buffer[offset]);
        if marker == 0b11 {
            if full_buffer.len() - offset < 2 {
                return Err(ParseError::InvalidSliceSize);
            }
            if run >= full_buffer.len() {
                return Err(pointer_loop());
            }
            let v = match peek_u16(&full_buffer[offset..offset + 2]) {
                Ok(v) => v,
                Err(e) => return Err(e),
            };
            offset = pointer_of(v);
            offsets.push(offset);
            run = run + 1;
        } else if marker == 0b00 {
            let length = full_buffer[offset] as usize;
            if length == 0 {
                if name_len + 1 > NAME_LEN_MAX {
                    return Err(ParseError::InvalidStringSize { expected_max: NAME_LEN_MAX, actual: name_len + 1 });
                }
                return Ok(CompressedName(name));
            }
            if length > LABEL_LEN_MAX {
                return Err(ParseError::InvalidStringSize { expected_max: LABEL_LEN_MAX, actual: length });
            }
            name_len = name_len + length + 1;
            if name_len > NAME_LEN_MAX {
                return Err(ParseError::InvalidStringSize { expected_max: NAME_LEN_MAX, actual: name_len });
            }
            if full_buffer.len() - offset - 1 < length {
                return Err(ParseError::InvalidSliceSize);
            }
            let value = match label_from_bytes(&full_buffer[offset + 1..offset + 1 + length]) {
                Ok(s) => s,
                Err(e) => return Err(e),
            };
            let ghost before = label_models(name@);
            let ghost label_offsets = offsets@;
            name.push(Label { offsets, value });
            offsets = Vec::new();
            proof {
                assert(label_models(name@) =~= before.push(
                    LabelModel { value: full.subrange(offset + 1, offset + 1 + length), offsets: label_offsets },
                ));
            }
            offset = offset + length + 1;
            run = 0;
        } else {
            return Err(bad_marker());
        }
    }
}


/// Reads a resource record (RFC 1035, 4.1.3) at the start of `buffer`;
/// `full_buffer` is the whole message. The record expires its time to
/// live after the clock's reading at the call.
pub fn parse_resource_record(buffer: &mut &[u8], full_buffer: &[u8]) -> (res: Result<
    ResourceRecord,
    ParseError,
>)
    ensures
        match read_record(old(buffer)@, full_buffer@) {
            Ok(((r, ttl), k)) => res matches Ok(record) && record@ == r && final(buffer)@ == old(
                buffer,
            )@.skip(k) && expires_after(record, ttl),
            Err(f) => res matches Err(e) && e.failure() == f,
        },
{
    let ghost start = old(buffer)@;
    let name = match parse_resource_record_name(buffer, full_buffer) {
        Ok(n) => n,
        Err(e) => return Err(e),
    };
    let ghost p = read_name(start, full_buffer@, 0, 0, seq![])->Ok_0.1;
    proof {
        lemma_read_name_end(start, full_buffer@, 0, 0, seq![]);
        lemma_read_u16_skip(start, p);
    }
    let rtype = match consume_u16(buffer) {
        Ok(v) => Type::from(v),
        Err(e) => return Err(e),
    };
    proof {
        assert(buffer@ =~= start.skip(p + 2));
        lemma_read_u16_skip(start, p + 2);
    }
    let class = match consume_u16(buffer) {
        Ok(v) => Class::from(v),
        Err(e) => return Err(e),
    };
    proof {
        assert(buffer@ =~= start.skip(p + 4));
        lemma_read_u32_skip(start, p + 4);
    }
    let secs = match consume_u32(buffer) {
        Ok(v) => v,
        Err(e) => return Err(e),
    };
    let now = instant_now();
    let ttl = match instant_after_secs(&now, secs as u64) {
        Some(t) => t,
        None => now,
    };
    assert(ttl == expiry_at(now, secs));
    proof {
        assert(buffer@ =~= start.skip(p + 8));
        lemma_read_u16_skip(start, p + 8);
    }
    let rdlength = match consume_u16(buffer) {
        Ok(v) => v,
        Err(e) => return Err(e),
    };
    proof {
        assert(buffer@ =~= start.skip(p + 10));
    }
    let rdata = match consume_slice(buffer, rdlength as usize) {
        Ok(s) => slice_to_vec(s),
        Err(e) => return Err(e),
    };
    let labels = name.labels();
    proof {
        assert(read_record(start, full_buffer@) matches Ok(((_, t), _)) && t == secs);
        assert(rdata@ =~= start.subrange(p + 10, p + 10 + rdlength));
        assert(buffer@ =~= start.skip(p + 10 + rdlength));
        assert(name_bytes(labels@) =~= label_model_values(name@));
    }
    Ok(ResourceRecord { name: labels, rtype, class, ttl, rdata })
}


/// An uncompressed name read from `pos` ends after `pos`, within the buffer.
pub proof fn lemma_read_plain_labels_end(buf: Seq<u8>, pos: int)
    ensures
        read_plain_labels(buf, pos) matches Ok((_, k)) ==> pos < k <= buf.len(),
    decreases buf.len() - pos,
{
    if 0 <= pos < buf.len() && buf[pos] != 0 && pos + 1 + buf[pos] <= buf.len() {
        lemma_read_plain_labels_end(buf, pos + 1 + buf[pos]);
    }
}

/// A question ends within the buffer it is read from.
pub proof fn lemma_read_question_end(buf: Seq<u8>)
    ensures
        read_question(buf) matches Ok((_, k)) ==> 0 < k <= buf.len(),
{
    lemma_read_plain_labels_end(buf, 0);
}

/// A record ends within the buffer it is read from.
pub proof fn lemma_read_record_end(buf: Seq<u8>, full: Seq<u8>)
    ensures
        read_record(buf, full) matches Ok((_, k)) ==> 0 < k <= buf.len(),
{
    lemma_read_name_end(buf, full, 0, 0, seq![]);
}

/// Once reading questions fails, reading more fails the same way.
pub proof fn lemma_read_questions_fail(full: Seq<u8>, pos: int, n: nat, m: nat)
    requires
        n <= m,
        read_questions(full, pos, n) is Err,
    ensures
        read_questions(full, pos, m) == read_questions(full, pos, n),
    decreases m,
{
    if m > n {
        lemma_read_questions_fail(full, pos, n, (m - 1) as nat);
    }
}

/// Once reading records fails, reading more fails the same way.
pub proof fn lemma_read_records_fail(full: Seq<u8>, pos: int, n: nat, m: nat)
    requires
        n <= m,
        read_records(full, pos, n) is Err,
    ensures
        read_records(full, pos, m) == read_records(full, pos, n),
    decreases m,
{
    if m > n {
        lemma_read_records_fail(full, pos, n, (m - 1) as nat);
    }
}

/// Reads `count` questions one after the other.
fn parse_questions(
    buffer: &mut &[u8],
    count: u16,
    Ghost(full): Ghost<Seq<u8>>,
    Ghost(pos): Ghost<int>,
) -> (res: Result<Vec<Question>, ParseError>)
    requires
        0 <= pos <= full.len(),
        old(buffer)@ == full.skip(pos),
    ensures
        match read_questions(full, pos, count as nat) {
            Ok((qs, p)) => res matches Ok(v) && question_models(v@) == qs && final(buffer)@
                == full.skip(p) && pos <= p <= full.len(),
            Err(f) => res matches Err(e) && e.failure() == f,
        },
{
    let mut questions: Vec<Question> = Vec::new();
    let mut i: u16 = 0;
    let ghost mut p: int = pos;
    assert(question_models(questions@) =~= Seq::<QuestionModel>::empty());
    while i < count
        invariant
            0 <= i <= count,
            0 <= pos <= p <= full.len(),
            buffer@ == full.skip(p),
            read_questions(full, pos, i as nat) == Ok::<(Seq<QuestionModel>, int), Failure>(
                (question_models(questions@), p),
            ),
        decreases count - i,
    {
        proof {
            assert(full.subrange(p, full.len() as int) =~= full.skip(p));
            lemma_read_question_end(full.skip(p));
        }
        let q = match parse_question(buffer) {
            Ok(q) => q,
            Err(e) => {
                proof {
                    lemma_read_questions_fail(full, pos, (i + 1) as nat, count as nat);
                }
                return Err(e);
            },
        };
        let ghost before = question_models(questions@);
        questions.push(q);
        proof {
            assert(question_models(questions@) =~= before.push(q@));
            assert(read_question(full.skip(p)) is Ok);
            let k = read_question(full.skip(p))->Ok_0.1;
            assert(buffer@ =~= full.skip(p + k));
            p = p + k;
        }
        i = i + 1;
    }
    Ok(questions)
}

/// Reads `count` records one after the other; `full_buffer` is the whole
/// message.
fn parse_records(
    buffer: &mut &[u8],
    full_buffer: &[u8],
    count: u16,
    Ghost(pos): Ghost<int>,
) -> (res: Result<Vec<ResourceRecord>, ParseError>)
    requires
        0 <= pos <= full_buffer@.len(),
        old(buffer)@ == full_buffer@.skip(pos),
    ensures
        match read_records(full_buffer@, pos, count as nat) {
            Ok((rs, ttls, p)) => res matches Ok(v) && record_models(v@) == rs && final(buffer)@
                == full_buffer@.skip(p) && pos <= p <= full_buffer@.len() && expire_after(v@, ttls),
            Err(f) => res matches Err(e) && e.failure() == f,
        },
{
    let ghost full = full_buffer@;
    let mut records: Vec<ResourceRecord> = Vec::new();
    let mut i: u16 = 0;
    let ghost mut p: int = pos;
    let ghost mut ttls: Seq<u32> = seq![];
    assert(record_models(records@) =~= Seq::<RecordModel>::empty());
    while i < count
        invariant
            full == full_buffer@,
            0 <= i <= count,
            0 <= pos <= p <= full.len(),
            buffer@ == full.skip(p),
            read_records(full, pos, i as nat) == Ok::<(Seq<RecordModel>, Seq<u32>, int), Failure>(
                (record_models(records@), ttls, p),
            ),
            expire_after(records@, ttls),
        decreases count - i,
    {
        proof {
            assert(full.subrange(p, full.len() as int) =~= full.skip(p));
            lemma_read_record_end(full.skip(p), full);
        }
        let r = match parse_resource_record(buffer, full_buffer) {
            Ok(r) => r,
            Err(e) => {
                proof {
                    lemma_read_records_fail(full, pos, (i + 1) as nat, count as nat);
                }
                return Err(e);
            },
        };
        let ghost before = record_models(records@);
        let ghost old_records = records@;
        let ghost old_ttls = ttls;
        records.push(r);
        proof {
            assert(record_models(records@) =~= before.push(r@));
            let step = read_record(full.skip(p), full)->Ok_0;
            let k = step.1;
            assert(buffer@ =~= full.skip(p + k));
            lemma_expire_after_push(old_records, old_ttls, records@.last(), step.0.1);
            assert(old_records.push(records@.last()) =~= records@);
            ttls = ttls.push(step.0.1);
            p = p + k;
        }
        i = i + 1;
    }
    Ok(records)
}

/// Reads a DNS message (RFC 1035, 4.1): the header, then as many
/// questions, answers, authority and additional records as its counts say.
/// Bytes after the last record are not read. Each record expires its time to
/// live after the clock's reading when it is read.
pub fn parse(buffer: &[u8]) -> (res: Result<Message, ParseError>)
    ensures
        match read_message(buffer@) {
            Ok(parsed) => res matches Ok(message) && message@ == parsed.message && expire_after(
                message.answers@,
                parsed.answer_ttls,
            ) && expire_after(message.authority@, parsed.authority_ttls) && expire_after(
                message.additional@,
                parsed.additional_ttls,
            ),
            Err(f) => res matches Err(e) && e.failure() == f,
        },
{
    proof {
        reveal(read_message);
    }
    let full_payload = buffer;
    let mut buffer = buffer;
    let FullHeader { header, qd_count, an_count, ns_count, ar_count } = match parse_header(
        &mut buffer,
    ) {
        Ok(h) => h,
        Err(e) => return Err(e),
    };
    let ghost full = full_payload@;
    proof {
        assert(full.skip(12).len() == full.len() - 12);
    }
    let questions = match parse_questions(&mut buffer, qd_count, Ghost(full), Ghost(12)) {
        Ok(v) => v,
        Err(e) => return Err(e),
    };
    let ghost p1 = read_questions(full, 12, qd_count as nat)->Ok_0.1;
    let answers = match parse_records(&mut buffer, full_payload, an_count, Ghost(p1)) {
        Ok(v) => v,
        Err(e) => return Err(e),
    };
    let ghost p2 = read_records(full, p1, an_count as nat)->Ok_0.2;
    let authority = match parse_records(&mut buffer, full_payload, ns_count, Ghost(p2)) {
        Ok(v) => v,
        Err(e) => return Err(e),
    };
    let ghost p3 = read_records(full, p2, ns_count as nat)->Ok_0.2;
    let additional = match parse_records(&mut buffer, full_payload, ar_count, Ghost(p3)) {
        Ok(v) => v,
        Err(e) => return Err(e),
    };
    Ok(Message { header, questions, answers, authority, additional })
}

} // verus!
