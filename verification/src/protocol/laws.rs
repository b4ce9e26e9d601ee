//! What holds of the serializer and the parser together: a well-formed
//! message, written out and read back, is the same message.

use vstd::prelude::*;
use vstd::utf8::valid_utf8;

use crate::protocol::format::{be_u16, be_u32, count16, labels_bytes, u16_bytes, u32_bytes};
use crate::protocol::message::{
    bit, ttls_at, Message,
    lemma_questions_wire_push, lemma_records_wire_push, questions_wire, records_wire, Header, LabelModel,
    Class, MessageModel, OpCode, QClass, QType, QuestionModel, QueryResponse, RecordModel, ResponseCode, Type,
};
use crate::protocol::parser::{
    follow_name, label_model_values, marker, pointer, read_header, read_message, read_name,
    read_plain_labels,
    read_question, read_questions, read_record, read_records, read_u16, read_u32,
    ParsedMessage,
};
use crate::protocol::{LABEL_LEN_MAX, NAME_LEN_MAX};
use crate::sys::secs_between;
use std::time::Instant;

verus! {

/// Two bytes written from a 16-bit value read back as that value.
pub proof fn lemma_u16_bytes(v: u16)
    ensures
        be_u16(u16_bytes(v)[0], u16_bytes(v)[1]) == v,
{
}

/// Four bytes written from a 32-bit value read back as that value.
pub proof fn lemma_u32_bytes(v: u32)
    ensures
        be_u32(u32_bytes(v)[0], u32_bytes(v)[1], u32_bytes(v)[2], u32_bytes(v)[3]) == v,
{
}

/// Reading a 16-bit value where one was written.
pub proof fn lemma_read_u16_wire(buf: Seq<u8>, pos: int, v: u16)
    requires
        0 <= pos,
        pos + 2 <= buf.len(),
        buf.subrange(pos, pos + 2) == u16_bytes(v),
    ensures
        read_u16(buf, pos) == Ok::<(u16, int), crate::protocol::parser::Failure>((v, pos + 2)),
{
    assert(buf[pos] == buf.subrange(pos, pos + 2)[0]);
    assert(buf[pos + 1] == buf.subrange(pos, pos + 2)[1]);
    lemma_u16_bytes(v);
}

/// Reading a 32-bit value where one was written.
pub proof fn lemma_read_u32_wire(buf: Seq<u8>, pos: int, v: u32)
    requires
        0 <= pos,
        pos + 4 <= buf.len(),
        buf.subrange(pos, pos + 4) == u32_bytes(v),
    ensures
        read_u32(buf, pos) == Ok::<(u32, int), crate::protocol::parser::Failure>((v, pos + 4)),
{
    assert(buf[pos] == buf.subrange(pos, pos + 4)[0]);
    assert(buf[pos + 1] == buf.subrange(pos, pos + 4)[1]);
    assert(buf[pos + 2] == buf.subrange(pos, pos + 4)[2]);
    assert(buf[pos + 3] == buf.subrange(pos, pos + 4)[3]);
    lemma_u32_bytes(v);
}


/// Labels that a question's name can carry through the wire: each of 1 to
/// 255 bytes of UTF-8.
pub open spec fn plain_labels_ok(labels: Seq<Seq<u8>>) -> bool {
    forall|i: int|
        0 <= i < labels.len() ==> 1 <= #[trigger] labels[i].len() <= 255 && valid_utf8(labels[i])
}

/// Reading an uncompressed name where one was written.
pub proof fn lemma_read_plain_labels_wire(buf: Seq<u8>, pos: int, labels: Seq<Seq<u8>>)
    requires
        0 <= pos,
        pos + labels_bytes(labels).len() <= buf.len(),
        buf.subrange(pos, pos + labels_bytes(labels).len()) == labels_bytes(labels),
        plain_labels_ok(labels),
    ensures
        read_plain_labels(buf, pos) == Ok::<(Seq<Seq<u8>>, int), crate::protocol::parser::Failure>(
            (labels, pos + labels_bytes(labels).len()),
        ),
    decreases labels.len(),
{
    let w = labels_bytes(labels);
    assert(buf[pos] == buf.subrange(pos, pos + w.len())[0]);
    if labels.len() == 0 {
        assert(labels =~= Seq::<Seq<u8>>::empty());
    } else {
        let l0 = labels[0];
        let rest = labels.drop_first();
        let n = l0.len() as int;
        assert(w == seq![(l0.len() % 256) as u8] + l0 + labels_bytes(rest));
        assert(buf[pos] == n);
        assert(buf.subrange(pos + 1, pos + 1 + n) =~= w.subrange(1, 1 + n));
        assert(w.subrange(1, 1 + n) =~= l0);
        let np = pos + 1 + n;
        assert(buf.subrange(np, np + labels_bytes(rest).len()) =~= w.subrange(1 + n, w.len() as int));
        assert(w.subrange(1 + n, w.len() as int) =~= labels_bytes(rest));
        assert(plain_labels_ok(rest)) by {
            assert forall|i: int| 0 <= i < rest.len() implies 1 <= #[trigger] rest[i].len() <= 255
                && valid_utf8(rest[i]) by {
                assert(rest[i] == labels[i + 1]);
            }
        }
        lemma_read_plain_labels_wire(buf, np, rest);
        assert(seq![l0] + rest =~= labels);
    }
}


/// Labels that a record's name can carry through the wire: each of 1 to
/// 63 bytes of UTF-8, and the whole name within 255 bytes.
pub open spec fn record_labels_ok(labels: Seq<Seq<u8>>) -> bool {
    &&& forall|i: int|
        0 <= i < labels.len() ==> 1 <= #[trigger] labels[i].len() <= LABEL_LEN_MAX && valid_utf8(
            labels[i],
        )
    &&& labels_bytes(labels).len() <= NAME_LEN_MAX
}

/// The labels of an uncompressed name, as a name read from a message
/// gives them: no pointer was followed to reach them.
pub open spec fn plain_label_models(labels: Seq<Seq<u8>>) -> Seq<LabelModel> {
    labels.map_values(|v: Seq<u8>| LabelModel { value: v, offsets: seq![] })
}

/// Reading a record's name where one was written, uncompressed.
pub proof fn lemma_read_name_wire(
    buf: Seq<u8>,
    full: Seq<u8>,
    pos: int,
    name_len: usize,
    acc: Seq<LabelModel>,
    labels: Seq<Seq<u8>>,
)
    requires
        0 <= pos,
        pos + labels_bytes(labels).len() <= buf.len(),
        buf.subrange(pos, pos + labels_bytes(labels).len()) == labels_bytes(labels),
        forall|i: int|
            0 <= i < labels.len() ==> 1 <= #[trigger] labels[i].len() <= LABEL_LEN_MAX
                && valid_utf8(labels[i]),
        name_len + labels_bytes(labels).len() <= NAME_LEN_MAX,
    ensures
        read_name(buf, full, pos, name_len, acc) == Ok::<
            (Seq<LabelModel>, int),
            crate::protocol::parser::Failure,
        >((acc + plain_label_models(labels), pos + labels_bytes(labels).len())),
    decreases labels.len(),
{
    let w = labels_bytes(labels);
    assert(buf[pos] == buf.subrange(pos, pos + w.len())[0]);
    if labels.len() == 0 {
        assert(acc + plain_label_models(labels) =~= acc);
    } else {
        let l0 = labels[0];
        let rest = labels.drop_first();
        let n = l0.len() as int;
        assert(w == seq![(l0.len() % 256) as u8] + l0 + labels_bytes(rest));
        assert(buf[pos] == n);
        assert(marker(buf[pos]) == 0);
        assert(buf.subrange(pos + 1, pos + 1 + n) =~= w.subrange(1, 1 + n));
        assert(w.subrange(1, 1 + n) =~= l0);
        let np = pos + 1 + n;
        assert(buf.subrange(np, np + labels_bytes(rest).len()) =~= w.subrange(1 + n, w.len() as int));
        assert(w.subrange(1 + n, w.len() as int) =~= labels_bytes(rest));
        assert forall|i: int| 0 <= i < rest.len() implies 1 <= #[trigger] rest[i].len()
            <= LABEL_LEN_MAX && valid_utf8(rest[i]) by {
            assert(rest[i] == labels[i + 1]);
        }
        let acc2 = acc.push(LabelModel { value: l0, offsets: seq![] });
        lemma_read_name_wire(buf, full, np, (name_len + 1 + n) as usize, acc2, rest);
        assert(acc2 + plain_label_models(rest) =~= acc + plain_label_models(labels));
    }
}


/// A question that reads back as itself: labels of 1 to 255 bytes of
/// UTF-8, and a type and a class that their codes stand for.
pub open spec fn question_ok(q: QuestionModel) -> bool {
    &&& plain_labels_ok(q.qname)
    &&& QType::of_code(q.qtype.code()) == q.qtype
    &&& QClass::of_code(q.qclass.code()) == q.qclass
}

/// Reading a question where one was written.
pub proof fn lemma_read_question_wire(buf: Seq<u8>, q: QuestionModel)
    requires
        q.wire().len() <= buf.len(),
        buf.subrange(0, q.wire().len() as int) == q.wire(),
        question_ok(q),
    ensures
        read_question(buf) == Ok::<(QuestionModel, int), crate::protocol::parser::Failure>(
            (q, q.wire().len() as int),
        ),
{
    let w = q.wire();
    let a = labels_bytes(q.qname).len() as int;
    assert(buf.subrange(0, a) =~= w.subrange(0, a));
    assert(w.subrange(0, a) =~= labels_bytes(q.qname));
    lemma_read_plain_labels_wire(buf, 0, q.qname);
    assert(buf.subrange(a, a + 2) =~= w.subrange(a, a + 2));
    assert(w.subrange(a, a + 2) =~= u16_bytes(q.qtype.code()));
    lemma_read_u16_wire(buf, a, q.qtype.code());
    assert(buf.subrange(a + 2, a + 4) =~= w.subrange(a + 2, a + 4));
    assert(w.subrange(a + 2, a + 4) =~= u16_bytes(q.qclass.code()));
    lemma_read_u16_wire(buf, a + 2, q.qclass.code());
}

/// A record that reads back as itself: a name that fits the wire
/// uncompressed, a type and a class that their codes stand for, and less
/// than 2^16 bytes of data.
pub open spec fn record_ok(r: RecordModel) -> bool {
    &&& record_labels_ok(r.name)
    &&& Type::of_code(r.rtype.code()) == r.rtype
    &&& Class::of_code(r.class.code()) == r.class
    &&& r.rdata.len() < 0x1_0000
}

/// Reading a record where one was written.
pub proof fn lemma_read_record_wire(buf: Seq<u8>, full: Seq<u8>, r: RecordModel, ttl: u32)
    requires
        r.wire(ttl).len() <= buf.len(),
        buf.subrange(0, r.wire(ttl).len() as int) == r.wire(ttl),
        record_ok(r),
    ensures
        read_record(buf, full) == Ok::<((RecordModel, u32), int), crate::protocol::parser::Failure>(
            ((r, ttl), r.wire(ttl).len() as int),
        ),
{
    let w = r.wire(ttl);
    let a = labels_bytes(r.name).len() as int;
    assert(buf.subrange(0, a) =~= w.subrange(0, a));
    assert(w.subrange(0, a) =~= labels_bytes(r.name));
    lemma_read_name_wire(buf, full, 0, 0, seq![], r.name);
    assert(seq![] + plain_label_models(r.name) =~= plain_label_models(r.name));
    assert(label_model_values(plain_label_models(r.name)) =~= r.name);
    assert(buf.subrange(a, a + 2) =~= w.subrange(a, a + 2));
    assert(w.subrange(a, a + 2) =~= u16_bytes(r.rtype.code()));
    lemma_read_u16_wire(buf, a, r.rtype.code());
    assert(buf.subrange(a + 2, a + 4) =~= w.subrange(a + 2, a + 4));
    assert(w.subrange(a + 2, a + 4) =~= u16_bytes(r.class.code()));
    lemma_read_u16_wire(buf, a + 2, r.class.code());
    assert(buf.subrange(a + 4, a + 8) =~= w.subrange(a + 4, a + 8));
    assert(w.subrange(a + 4, a + 8) =~= u32_bytes(ttl));
    lemma_read_u32_wire(buf, a + 4, ttl);
    assert(buf.subrange(a + 8, a + 10) =~= w.subrange(a + 8, a + 10));
    assert(w.subrange(a + 8, a + 10) =~= u16_bytes(count16(r.rdata.len())));
    lemma_read_u16_wire(buf, a + 8, count16(r.rdata.len()));
    assert(count16(r.rdata.len()) == r.rdata.len());
    assert(buf.subrange(a + 10, a + 10 + r.rdata.len()) =~= w.subrange(a + 10, w.len() as int));
    assert(w.subrange(a + 10, w.len() as int) =~= r.rdata);
}


/// Reading questions where they were written.
pub proof fn lemma_read_questions_wire(full: Seq<u8>, pos: int, qs: Seq<QuestionModel>)
    requires
        0 <= pos,
        pos + questions_wire(qs).len() <= full.len(),
        full.subrange(pos, pos + questions_wire(qs).len()) == questions_wire(qs),
        forall|i: int| 0 <= i < qs.len() ==> question_ok(#[trigger] qs[i]),
    ensures
        read_questions(full, pos, qs.len()) == Ok::<
            (Seq<QuestionModel>, int),
            crate::protocol::parser::Failure,
        >((qs, pos + questions_wire(qs).len())),
    decreases qs.len(),
{
    if qs.len() == 0 {
        assert(qs =~= Seq::<QuestionModel>::empty());
    } else {
        let init = qs.drop_last();
        let last = qs.last();
        lemma_questions_wire_push(init, last);
        assert(init.push(last) =~= qs);
        let w = questions_wire(qs);
        let a = questions_wire(init).len() as int;
        assert(full.subrange(pos, pos + a) =~= w.subrange(0, a));
        assert(w.subrange(0, a) =~= questions_wire(init));
        assert forall|i: int| 0 <= i < init.len() implies question_ok(#[trigger] init[i]) by {
            assert(init[i] == qs[i]);
        }
        lemma_read_questions_wire(full, pos, init);
        let p = pos + a;
        let sub = full.subrange(p, full.len() as int);
        assert(sub.subrange(0, last.wire().len() as int) =~= w.subrange(a, w.len() as int));
        assert(w.subrange(a, w.len() as int) =~= last.wire());
        assert(question_ok(qs[qs.len() - 1]));
        lemma_read_question_wire(sub, last);
    }
}

/// Reading records where they were written.
#[verifier::rlimit(40)]
pub proof fn lemma_read_records_wire(full: Seq<u8>, pos: int, rs: Seq<RecordModel>, ttls: Seq<u32>)
    requires
        0 <= pos,
        rs.len() == ttls.len(),
        pos + records_wire(rs, ttls).len() <= full.len(),
        full.subrange(pos, pos + records_wire(rs, ttls).len()) == records_wire(rs, ttls),
        forall|i: int| 0 <= i < rs.len() ==> record_ok(#[trigger] rs[i]),
    ensures
        read_records(full, pos, rs.len()) == Ok::<
            (Seq<RecordModel>, Seq<u32>, int),
            crate::protocol::parser::Failure,
        >((rs, ttls, pos + records_wire(rs, ttls).len())),
    decreases rs.len(),
{
    if rs.len() == 0 {
        assert(rs =~= Seq::<RecordModel>::empty());
        assert(ttls =~= Seq::<u32>::empty());
    } else {
        let init = rs.drop_last();
        let last = rs.last();
        let tinit = ttls.drop_last();
        let tlast = ttls.last();
        lemma_records_wire_push(init, tinit, last, tlast);
        assert(init.push(last) =~= rs);
        assert(tinit.push(tlast) =~= ttls);
        let w = records_wire(rs, ttls);
        let a = records_wire(init, tinit).len() as int;
        assert(full.subrange(pos, pos + a) =~= w.subrange(0, a));
        assert(w.subrange(0, a) =~= records_wire(init, tinit));
        assert forall|i: int| 0 <= i < init.len() implies record_ok(#[trigger] init[i]) by {
            assert(init[i] == rs[i]);
        }
        lemma_read_records_wire(full, pos, init, tinit);
        let p = pos + a;
        let sub = full.subrange(p, full.len() as int);
        assert(sub.subrange(0, last.wire(tlast).len() as int) =~= w.subrange(a, w.len() as int));
        assert(w.subrange(a, w.len() as int) =~= last.wire(tlast));
        assert(record_ok(rs[rs.len() - 1]));
        lemma_read_record_wire(sub, full, last, tlast);
    }
}


/// The flag bits of a header read back one by one.
proof fn lemma_flags_fields(
    qr: u16,
    op: u16,
    aa: u16,
    tc: u16,
    rd: u16,
    ra: u16,
    z: u16,
    ad: u16,
    cd: u16,
    rc: u16,
)
    by (bit_vector)
    requires
        qr <= 1,
        op <= 15,
        aa <= 1,
        tc <= 1,
        rd <= 1,
        ra <= 1,
        z <= 1,
        ad <= 1,
        cd <= 1,
        rc <= 15,
    ensures
        ({
            let f = (qr << 15u16) | (op << 11u16) | (aa << 10u16) | (tc << 9u16) | (rd << 8u16) | (ra
                << 7u16) | (z << 6u16) | (ad << 5u16) | (cd << 4u16) | rc;
            &&& (f / 256) / 128 == qr
            &&& ((f / 256) / 8) % 16 == op
            &&& ((f / 256) / 4) % 2 == aa
            &&& ((f / 256) / 2) % 2 == tc
            &&& (f / 256) % 2 == rd
            &&& (f % 256) / 128 == ra
            &&& ((f % 256) / 64) % 2 == z
            &&& ((f % 256) / 32) % 2 == ad
            &&& ((f % 256) / 16) % 2 == cd
            &&& (f % 256) % 16 == rc
        }),
{
}

/// A header that reads back as itself: its reserved operation and outcome
/// codes are ones that do not stand for a named one.
pub open spec fn header_ok(h: Header) -> bool {
    &&& (h.opcode matches OpCode::Reserved(v) ==> 3 <= v <= 15)
    &&& (h.response_code matches ResponseCode::Reserved(v) ==> 6 <= v <= 15)
}

/// Reading a header and its counts where they were written.
pub proof fn lemma_read_header_wire(buf: Seq<u8>, h: Header, counts: Seq<u16>)
    requires
        counts.len() == 4,
        12 <= buf.len(),
        buf.subrange(0, 12) == h.wire() + u16_bytes(counts[0]) + u16_bytes(counts[1]) + u16_bytes(
            counts[2],
        ) + u16_bytes(counts[3]),
        header_ok(h),
    ensures
        read_header(buf) == Ok::<(Header, Seq<u16>), crate::protocol::parser::Failure>((h, counts)),
{
    let w = buf.subrange(0, 12);
    assert(buf[0] == w[0] && buf[1] == w[1] && buf[2] == w[2] && buf[3] == w[3]);
    assert(buf[4] == w[4] && buf[5] == w[5] && buf[6] == w[6] && buf[7] == w[7]);
    assert(buf[8] == w[8] && buf[9] == w[9] && buf[10] == w[10] && buf[11] == w[11]);
    lemma_u16_bytes(h.id);
    lemma_u16_bytes(counts[0]);
    lemma_u16_bytes(counts[1]);
    lemma_u16_bytes(counts[2]);
    lemma_u16_bytes(counts[3]);
    let f = h.flags();
    lemma_flags_fields(
        h.query_response.code(),
        h.opcode.code(),
        bit(h.authoritative_answer),
        bit(h.truncation),
        bit(h.recursion_desired),
        bit(h.recursion_available),
        bit(h.reserved),
        bit(h.authentic_data),
        bit(h.checking_disabled),
        h.response_code.code(),
    );
    let hi = buf[2];
    let lo = buf[3];
    assert(hi == f / 256);
    assert(lo == f % 256);
    let (rh, rc) = read_header(buf)->Ok_0;
    assert(rh.opcode == h.opcode);
    assert(rh.response_code == h.response_code);
    assert(rh == h);
    assert(rc =~= counts);
}


/// A header of unshadowed codes and any four counts, written out and read
/// back, with any bytes after them, gives the same header and counts.
pub proof fn law_header_roundtrip(h: Header, counts: Seq<u16>, rest: Seq<u8>)
    requires
        header_ok(h),
        counts.len() == 4,
    ensures
        read_header(
            h.wire() + u16_bytes(counts[0]) + u16_bytes(counts[1]) + u16_bytes(counts[2])
                + u16_bytes(counts[3]) + rest,
        ) == Ok::<(Header, Seq<u16>), crate::protocol::parser::Failure>((h, counts)),
{
    let head = h.wire() + u16_bytes(counts[0]) + u16_bytes(counts[1]) + u16_bytes(counts[2])
        + u16_bytes(counts[3]);
    assert((head + rest).subrange(0, 12) =~= head);
    lemma_read_header_wire(head + rest, h, counts);
}

/// A message that reads back as itself once written: a header of
/// unshadowed codes, fewer than 2^16 entries in each section, questions and
/// records that read back as themselves.
pub open spec fn message_ok(m: MessageModel) -> bool {
    &&& header_ok(m.header)
    &&& m.questions.len() < 0x1_0000
    &&& m.answers.len() < 0x1_0000
    &&& m.authority.len() < 0x1_0000
    &&& m.additional.len() < 0x1_0000
    &&& forall|i: int| 0 <= i < m.questions.len() ==> question_ok(#[trigger] m.questions[i])
    &&& forall|i: int| 0 <= i < m.answers.len() ==> record_ok(#[trigger] m.answers[i])
    &&& forall|i: int| 0 <= i < m.authority.len() ==> record_ok(#[trigger] m.authority[i])
    &&& forall|i: int| 0 <= i < m.additional.len() ==> record_ok(#[trigger] m.additional[i])
}

/// The parts of five pieces written one after the other.
proof fn lemma_five_parts(a: Seq<u8>, b: Seq<u8>, c: Seq<u8>, d: Seq<u8>, e: Seq<u8>)
    ensures
        ({
            let w = a + b + c + d + e;
            let p1 = a.len() as int;
            let p2 = p1 + b.len();
            let p3 = p2 + c.len();
            let p4 = p3 + d.len();
            &&& w.len() == p4 + e.len()
            &&& w.subrange(0, p1) == a
            &&& w.subrange(p1, p2) == b
            &&& w.subrange(p2, p3) == c
            &&& w.subrange(p3, p4) == d
            &&& w.subrange(p4, w.len() as int) == e
        }),
{
    let w = a + b + c + d + e;
    let p1 = a.len() as int;
    let p2 = p1 + b.len();
    let p3 = p2 + c.len();
    let p4 = p3 + d.len();
    assert(w.subrange(0, p1) =~= a);
    assert(w.subrange(p1, p2) =~= b);
    assert(w.subrange(p2, p3) =~= c);
    assert(w.subrange(p3, p4) =~= d);
    assert(w.subrange(p4, w.len() as int) =~= e);
}

/// A message is read from its parts.
proof fn lemma_read_message_parts(
    w: Seq<u8>,
    m: MessageModel,
    counts: Seq<u16>,
    ans: Seq<u32>,
    auth: Seq<u32>,
    add: Seq<u32>,
    p1: int,
    p2: int,
    p3: int,
    p4: int,
)
    requires
        counts.len() == 4,
        counts[0] == m.questions.len(),
        counts[1] == m.answers.len(),
        counts[2] == m.authority.len(),
        counts[3] == m.additional.len(),
        read_header(w) == Ok::<(Header, Seq<u16>), crate::protocol::parser::Failure>((m.header, counts)),
        read_questions(w, 12, m.questions.len()) == Ok::<
            (Seq<QuestionModel>, int),
            crate::protocol::parser::Failure,
        >((m.questions, p1)),
        read_records(w, p1, m.answers.len()) == Ok::<
            (Seq<RecordModel>, Seq<u32>, int),
            crate::protocol::parser::Failure,
        >((m.answers, ans, p2)),
        read_records(w, p2, m.authority.len()) == Ok::<
            (Seq<RecordModel>, Seq<u32>, int),
            crate::protocol::parser::Failure,
        >((m.authority, auth, p3)),
        read_records(w, p3, m.additional.len()) == Ok::<
            (Seq<RecordModel>, Seq<u32>, int),
            crate::protocol::parser::Failure,
        >((m.additional, add, p4)),
    ensures
        read_message(w) == Ok::<ParsedMessage, crate::protocol::parser::Failure>(
            ParsedMessage {
                message: m,
                answer_ttls: ans,
                authority_ttls: auth,
                additional_ttls: add,
            },
        ),
{
    reveal(read_message);
}

/// Where the parts of a written message stand.
proof fn lemma_wire_layout(m: MessageModel, ans: Seq<u32>, auth: Seq<u32>, add: Seq<u32>)
    ensures
        ({
            let w = m.wire(ans, auth, add);
            let qw = questions_wire(m.questions);
            let aw = records_wire(m.answers, ans);
            let nw = records_wire(m.authority, auth);
            let dw = records_wire(m.additional, add);
            let p1 = 12 + qw.len() as int;
            let p2 = p1 + aw.len();
            let p3 = p2 + nw.len();
            &&& w.len() == p3 + dw.len()
            &&& w.subrange(0, 12) == m.header.wire() + u16_bytes(count16(m.questions.len()))
                + u16_bytes(count16(m.answers.len())) + u16_bytes(count16(m.authority.len()))
                + u16_bytes(count16(m.additional.len()))
            &&& w.subrange(12, p1) == qw
            &&& w.subrange(p1, p2) == aw
            &&& w.subrange(p2, p3) == nw
            &&& w.subrange(p3, w.len() as int) == dw
        }),
{
    let head = m.header.wire() + u16_bytes(count16(m.questions.len())) + u16_bytes(
        count16(m.answers.len()),
    ) + u16_bytes(count16(m.authority.len())) + u16_bytes(count16(m.additional.len()));
    let qw = questions_wire(m.questions);
    let aw = records_wire(m.answers, ans);
    let nw = records_wire(m.authority, auth);
    let dw = records_wire(m.additional, add);
    assert(m.wire(ans, auth, add) =~= head + qw + aw + nw + dw);
    lemma_five_parts(head, qw, aw, nw, dw);
}

/// A length below 2^16 is written as itself.
proof fn lemma_count16(n: nat)
    requires
        n < 0x1_0000,
    ensures
        count16(n) == n,
{
}

/// A well-formed message, written with any times to live for its records,
/// reads back as the same message with the same times to live.
pub proof fn law_message_roundtrip(m: MessageModel, ans: Seq<u32>, auth: Seq<u32>, add: Seq<u32>)
    requires
        message_ok(m),
        ans.len() == m.answers.len(),
        auth.len() == m.authority.len(),
        add.len() == m.additional.len(),
    ensures
        read_message(m.wire(ans, auth, add)) == Ok::<ParsedMessage, crate::protocol::parser::Failure>(
            ParsedMessage {
                message: m,
                answer_ttls: ans,
                authority_ttls: auth,
                additional_ttls: add,
            },
        ),
{
    let w = m.wire(ans, auth, add);
    lemma_wire_layout(m, ans, auth, add);
    let counts = seq![
        count16(m.questions.len()),
        count16(m.answers.len()),
        count16(m.authority.len()),
        count16(m.additional.len()),
    ];
    let p1: int = 12 + questions_wire(m.questions).len() as int;
    let p2: int = p1 + records_wire(m.answers, ans).len();
    let p3: int = p2 + records_wire(m.authority, auth).len();
    let p4: int = p3 + records_wire(m.additional, add).len();
    assert(read_header(w) == Ok::<(Header, Seq<u16>), crate::protocol::parser::Failure>(
        (m.header, counts),
    )) by {
        lemma_read_header_wire(w, m.header, counts);
    }
    assert(read_questions(w, 12, m.questions.len()) == Ok::<
        (Seq<QuestionModel>, int),
        crate::protocol::parser::Failure,
    >((m.questions, p1))) by {
        lemma_read_questions_wire(w, 12, m.questions);
    }
    assert(read_records(w, p1, m.answers.len()) == Ok::<
        (Seq<RecordModel>, Seq<u32>, int),
        crate::protocol::parser::Failure,
    >((m.answers, ans, p2))) by {
        lemma_read_records_wire(w, p1, m.answers, ans);
    }
    assert(read_records(w, p2, m.authority.len()) == Ok::<
        (Seq<RecordModel>, Seq<u32>, int),
        crate::protocol::parser::Failure,
    >((m.authority, auth, p3))) by {
        lemma_read_records_wire(w, p2, m.authority, auth);
    }
    assert(read_records(w, p3, m.additional.len()) == Ok::<
        (Seq<RecordModel>, Seq<u32>, int),
        crate::protocol::parser::Failure,
    >((m.additional, add, p4))) by {
        lemma_read_records_wire(w, p3, m.additional, add);
    }
    lemma_count16(m.questions.len());
    lemma_count16(m.answers.len());
    lemma_count16(m.authority.len());
    lemma_count16(m.additional.len());
    lemma_read_message_parts(w, m, counts, ans, auth, add, p1, p2, p3, p4);
}

/// The class that a code stands for has that code.
pub proof fn law_class_code(v: u16)
    ensures
        Class::of_code(v).code() == v,
{
}

/// A class is what its code stands for, unless it is `Other` holding the
/// code of a named class.
pub proof fn law_class_of_own_code(c: Class)
    ensures
        Class::of_code(c.code()) == c <==> !(c matches Class::Other(v) && 1 <= v <= 4),
{
}

/// The question class that a code stands for has that code.
pub proof fn law_qclass_code(v: u16)
    ensures
        QClass::of_code(v).code() == v,
{
}

/// A question class is what its code stands for, unless it holds a class
/// whose code stands for something else.
pub proof fn law_qclass_of_own_code(q: QClass)
    ensures
        QClass::of_code(q.code()) == q <==> match q {
            QClass::Any => true,
            QClass::Class(c) => Class::of_code(c.code()) == c && c.code() != 255,
        },
{
}

/// The type that a code stands for has that code.
pub proof fn law_type_code(v: u16)
    ensures
        Type::of_code(v).code() == v,
{
}

/// A type is what its code stands for, unless it is `Other` holding the
/// code of a named type.
pub proof fn law_type_of_own_code(t: Type)
    ensures
        Type::of_code(t.code()) == t <==> !(t matches Type::Other(v) && (1 <= v <= 16 || v == 28)),
{
}

/// The question type that a code stands for has that code.
pub proof fn law_qtype_code(v: u16)
    ensures
        QType::of_code(v).code() == v,
{
}

/// A question type is what its code stands for, unless it holds a type
/// whose code stands for something else.
pub proof fn law_qtype_of_own_code(q: QType)
    ensures
        QType::of_code(q.code()) == q <==> match q {
            QType::Type(t) => Type::of_code(t.code()) == t && !(252 <= t.code() <= 255),
            _ => true,
        },
{
}

/// The operation that a 4-bit value stands for has that value as its code.
pub proof fn law_opcode_bits(v: u8)
    requires
        v <= 15,
    ensures
        OpCode::of_bits(v).code() == v,
{
}

/// An operation with a 4-bit code is what its code stands for, unless it
/// is `Reserved` holding the code of a named operation.
pub proof fn law_opcode_of_own_bits(op: OpCode)
    requires
        op.code() <= 15,
    ensures
        OpCode::of_bits(op.code() as u8) == op <==> !(op matches OpCode::Reserved(v) && v <= 2),
{
}

/// The outcome that a 4-bit value stands for has that value as its code.
pub proof fn law_response_code_bits(v: u8)
    requires
        v <= 15,
    ensures
        ResponseCode::of_bits(v).code() == v,
{
}

/// An outcome with a 4-bit code is what its code stands for, unless it is
/// `Reserved` holding the code of a named outcome.
pub proof fn law_response_code_of_own_bits(rc: ResponseCode)
    requires
        rc.code() <= 15,
    ensures
        ResponseCode::of_bits(rc.code() as u8) == rc <==> !(rc matches ResponseCode::Reserved(v) && v <= 5),
{
}

/// Bytes added after a buffer do not change what a successful read of a
/// 16-bit value found in it.
proof fn lemma_read_u16_extend(buf: Seq<u8>, extra: Seq<u8>, pos: int)
    requires
        read_u16(buf, pos) is Ok,
    ensures
        read_u16(buf + extra, pos) == read_u16(buf, pos),
{
    assert((buf + extra)[pos] == buf[pos] && (buf + extra)[pos + 1] == buf[pos + 1]);
}

/// Bytes added after a buffer do not change what a successful read of a
/// 32-bit value found in it.
proof fn lemma_read_u32_extend(buf: Seq<u8>, extra: Seq<u8>, pos: int)
    requires
        read_u32(buf, pos) is Ok,
    ensures
        read_u32(buf + extra, pos) == read_u32(buf, pos),
{
    assert((buf + extra)[pos] == buf[pos] && (buf + extra)[pos + 1] == buf[pos + 1]);
    assert((buf + extra)[pos + 2] == buf[pos + 2] && (buf + extra)[pos + 3] == buf[pos + 3]);
}

/// Bytes added after a buffer do not change an uncompressed name read
/// from it.
proof fn lemma_read_plain_labels_extend(buf: Seq<u8>, extra: Seq<u8>, pos: int)
    requires
        read_plain_labels(buf, pos) is Ok,
    ensures
        read_plain_labels(buf + extra, pos) == read_plain_labels(buf, pos),
    decreases buf.len() - pos,
{
    let b2 = buf + extra;
    assert(b2[pos] == buf[pos]);
    if buf[pos] != 0 {
        let n = buf[pos] as int;
        assert(b2.subrange(pos + 1, pos + 1 + n) =~= buf.subrange(pos + 1, pos + 1 + n));
        lemma_read_plain_labels_extend(buf, extra, pos + 1 + n);
    }
}

/// Bytes added after a message do not change a name that a successful read
/// found by following pointers in it.
proof fn lemma_follow_name_extend(
    full: Seq<u8>,
    extra: Seq<u8>,
    offset: int,
    name_len: usize,
    labels: Seq<LabelModel>,
    offsets: Seq<usize>,
    run: nat,
)
    requires
        name_len <= NAME_LEN_MAX,
        run <= full.len(),
        follow_name(full, offset, name_len, labels, offsets, run) is Ok,
    ensures
        follow_name(full + extra, offset, name_len, labels, offsets, run) == follow_name(
            full,
            offset,
            name_len,
            labels,
            offsets,
            run,
        ),
    decreases NAME_LEN_MAX + 1 - name_len, full.len() + 1 - run,
{
    let f2 = full + extra;
    assert(f2[offset] == full[offset]);
    if marker(full[offset]) == 3 {
        assert(f2[offset + 1] == full[offset + 1]);
        let next = pointer(full[offset], full[offset + 1]);
        lemma_follow_name_extend(full, extra, next as int, name_len, labels, offsets.push(next), run + 1);
    } else {
        let n = full[offset] as usize;
        if n != 0 {
            let value = full.subrange(offset + 1, offset + 1 + n);
            assert(f2.subrange(offset + 1, offset + 1 + n) =~= value);
            lemma_follow_name_extend(
                full,
                extra,
                offset + 1 + n,
                (name_len + n + 1) as usize,
                labels.push(LabelModel { value, offsets }),
                seq![],
                0,
            );
        }
    }
}

/// Bytes added after the data and after the message do not change a name
/// that a successful read found.
proof fn lemma_read_name_extend(
    buf: Seq<u8>,
    extra: Seq<u8>,
    full: Seq<u8>,
    full_extra: Seq<u8>,
    pos: int,
    name_len: usize,
    labels: Seq<LabelModel>,
)
    requires
        name_len <= NAME_LEN_MAX,
        read_name(buf, full, pos, name_len, labels) is Ok,
    ensures
        read_name(buf + extra, full + full_extra, pos, name_len, labels) == read_name(
            buf,
            full,
            pos,
            name_len,
            labels,
        ),
    decreases buf.len() - pos,
{
    let b2 = buf + extra;
    assert(b2[pos] == buf[pos]);
    if marker(buf[pos]) == 3 {
        assert(b2[pos + 1] == buf[pos + 1]);
        let target = pointer(buf[pos], buf[pos + 1]);
        lemma_follow_name_extend(full, full_extra, target as int, name_len, labels, seq![target], 0);
    } else {
        let n = buf[pos] as usize;
        if n != 0 {
            let value = buf.subrange(pos + 1, pos + 1 + n);
            assert(b2.subrange(pos + 1, pos + 1 + n) =~= value);
            lemma_read_name_extend(
                buf,
                extra,
                full,
                full_extra,
                pos + 1 + n,
                (name_len + 1 + n) as usize,
                labels.push(LabelModel { value, offsets: seq![] }),
            );
        }
    }
}

/// Bytes added after the data do not change a question read from it.
proof fn lemma_read_question_extend(buf: Seq<u8>, extra: Seq<u8>)
    requires
        read_question(buf) is Ok,
    ensures
        read_question(buf + extra) == read_question(buf),
{
    lemma_read_plain_labels_extend(buf, extra, 0);
    let p = read_plain_labels(buf, 0)->Ok_0.1;
    lemma_read_u16_extend(buf, extra, p);
    lemma_read_u16_extend(buf, extra, p + 2);
}

/// Bytes added after the data and after the message do not change a record
/// read from them.
proof fn lemma_read_record_extend(buf: Seq<u8>, extra: Seq<u8>, full: Seq<u8>, full_extra: Seq<u8>)
    requires
        read_record(buf, full) is Ok,
    ensures
        read_record(buf + extra, full + full_extra) == read_record(buf, full),
{
    let b2 = buf + extra;
    lemma_read_name_extend(buf, extra, full, full_extra, 0, 0, seq![]);
    let p = read_name(buf, full, 0, 0, seq![])->Ok_0.1;
    lemma_read_u16_extend(buf, extra, p);
    lemma_read_u16_extend(buf, extra, p + 2);
    lemma_read_u32_extend(buf, extra, p + 4);
    lemma_read_u16_extend(buf, extra, p + 8);
    let len = read_u16(buf, p + 8)->Ok_0.0;
    assert(b2.subrange(p + 10, p + 10 + len) =~= buf.subrange(p + 10, p + 10 + len));
}

/// Bytes added after a message do not change questions read from it.
proof fn lemma_read_questions_extend(full: Seq<u8>, extra: Seq<u8>, pos: int, n: nat)
    requires
        0 <= pos <= full.len(),
        read_questions(full, pos, n) is Ok,
    ensures
        read_questions(full + extra, pos, n) == read_questions(full, pos, n),
    decreases n,
{
    if n > 0 {
        lemma_read_questions_extend(full, extra, pos, (n - 1) as nat);
        lemma_read_questions_bounds(full, pos, (n - 1) as nat);
        let p = read_questions(full, pos, (n - 1) as nat)->Ok_0.1;
        let f2 = full + extra;
        assert(f2.subrange(p, f2.len() as int) =~= full.subrange(p, full.len() as int) + extra);
        lemma_read_question_extend(full.subrange(p, full.len() as int), extra);
    }
}

/// Bytes added after a message do not change records read from it.
proof fn lemma_read_records_extend(full: Seq<u8>, extra: Seq<u8>, pos: int, n: nat)
    requires
        0 <= pos <= full.len(),
        read_records(full, pos, n) is Ok,
    ensures
        read_records(full + extra, pos, n) == read_records(full, pos, n),
    decreases n,
{
    if n > 0 {
        lemma_read_records_extend(full, extra, pos, (n - 1) as nat);
        lemma_read_records_bounds(full, pos, (n - 1) as nat);
        let p = read_records(full, pos, (n - 1) as nat)->Ok_0.2;
        let f2 = full + extra;
        assert(f2.subrange(p, f2.len() as int) =~= full.subrange(p, full.len() as int) + extra);
        lemma_read_record_extend(full.subrange(p, full.len() as int), extra, full, extra);
    }
}

/// Bytes after the last record that a message announces are not read: a
/// message read from a buffer reads the same with any bytes added after it.
pub proof fn law_parse_ignores_trailing_bytes(buf: Seq<u8>, extra: Seq<u8>)
    requires
        read_message(buf) is Ok,
    ensures
        read_message(buf + extra) == read_message(buf),
{
    reveal(read_message);
    let b2 = buf + extra;
    assert(b2.subrange(0, 12) =~= buf.subrange(0, 12));
    let w = buf.subrange(0, 12);
    assert(b2[0] == buf[0] && b2[1] == buf[1] && b2[2] == buf[2] && b2[3] == buf[3]);
    assert(b2[4] == buf[4] && b2[5] == buf[5] && b2[6] == buf[6] && b2[7] == buf[7]);
    assert(b2[8] == buf[8] && b2[9] == buf[9] && b2[10] == buf[10] && b2[11] == buf[11]);
    assert(read_header(b2) == read_header(buf));
    let counts = read_header(buf)->Ok_0.1;
    lemma_read_questions_extend(buf, extra, 12, counts[0] as nat);
    let p1 = read_questions(buf, 12, counts[0] as nat)->Ok_0.1;
    lemma_read_questions_bounds(buf, 12, counts[0] as nat);
    lemma_read_records_extend(buf, extra, p1, counts[1] as nat);
    let p2 = read_records(buf, p1, counts[1] as nat)->Ok_0.2;
    lemma_read_records_bounds(buf, p1, counts[1] as nat);
    lemma_read_records_extend(buf, extra, p2, counts[2] as nat);
    let p3 = read_records(buf, p2, counts[2] as nat)->Ok_0.2;
    lemma_read_records_bounds(buf, p2, counts[2] as nat);
    lemma_read_records_extend(buf, extra, p3, counts[3] as nat);
}

/// Questions read from a position in a message end at or after it, within
/// the message.
proof fn lemma_read_questions_bounds(full: Seq<u8>, pos: int, n: nat)
    requires
        0 <= pos <= full.len(),
        read_questions(full, pos, n) is Ok,
    ensures
        pos <= read_questions(full, pos, n)->Ok_0.1 <= full.len(),
    decreases n,
{
    if n > 0 {
        lemma_read_questions_bounds(full, pos, (n - 1) as nat);
        let p = read_questions(full, pos, (n - 1) as nat)->Ok_0.1;
        crate::protocol::parser::lemma_read_question_end(full.subrange(p, full.len() as int));
    }
}

/// Records read from a position in a message end at or after it, within
/// the message.
proof fn lemma_read_records_bounds(full: Seq<u8>, pos: int, n: nat)
    requires
        0 <= pos <= full.len(),
        read_records(full, pos, n) is Ok,
    ensures
        pos <= read_records(full, pos, n)->Ok_0.2 <= full.len(),
    decreases n,
{
    if n > 0 {
        lemma_read_records_bounds(full, pos, (n - 1) as nat);
        let p = read_records(full, pos, (n - 1) as nat)->Ok_0.2;
        crate::protocol::parser::lemma_read_record_end(full.subrange(p, full.len() as int), full);
    }
}


/// The codes of the named record types (RFC 1035, 3.2.2; RFC 3596, 2.1),
/// both ways.
pub proof fn law_type_table()
    ensures
        Type::A.code() == 1,
        Type::of_code(1) == Type::A,
        Type::NS.code() == 2,
        Type::of_code(2) == Type::NS,
        Type::MD.code() == 3,
        Type::of_code(3) == Type::MD,
        Type::MF.code() == 4,
        Type::of_code(4) == Type::MF,
        Type::CNAME.code() == 5,
        Type::of_code(5) == Type::CNAME,
        Type::SOA.code() == 6,
        Type::of_code(6) == Type::SOA,
        Type::MB.code() == 7,
        Type::of_code(7) == Type::MB,
        Type::MG.code() == 8,
        Type::of_code(8) == Type::MG,
        Type::MR.code() == 9,
        Type::of_code(9) == Type::MR,
        Type::NULL.code() == 10,
        Type::of_code(10) == Type::NULL,
        Type::WKS.code() == 11,
        Type::of_code(11) == Type::WKS,
        Type::PTR.code() == 12,
        Type::of_code(12) == Type::PTR,
        Type::HINFO.code() == 13,
        Type::of_code(13) == Type::HINFO,
        Type::MINFO.code() == 14,
        Type::of_code(14) == Type::MINFO,
        Type::MX.code() == 15,
        Type::of_code(15) == Type::MX,
        Type::TXT.code() == 16,
        Type::of_code(16) == Type::TXT,
        Type::AAAA.code() == 28,
        Type::of_code(28) == Type::AAAA,
{
}

/// The codes of the named classes (RFC 1035, 3.2.4), both ways.
pub proof fn law_class_table()
    ensures
        Class::Internet.code() == 1,
        Class::of_code(1) == Class::Internet,
        Class::CSNet.code() == 2,
        Class::of_code(2) == Class::CSNet,
        Class::CHAOS.code() == 3,
        Class::of_code(3) == Class::CHAOS,
        Class::Hesiod.code() == 4,
        Class::of_code(4) == Class::Hesiod,
{
}

/// The codes of the question-only types and of any class (RFC 1035, 3.2.3
/// and 3.2.5), both ways; the other codes are those of types and classes.
pub proof fn law_question_code_table()
    ensures
        QType::AXFR.code() == 252,
        QType::of_code(252) == QType::AXFR,
        QType::MAILB.code() == 253,
        QType::of_code(253) == QType::MAILB,
        QType::MAILA.code() == 254,
        QType::of_code(254) == QType::MAILA,
        QType::All.code() == 255,
        QType::of_code(255) == QType::All,
        QClass::Any.code() == 255,
        QClass::of_code(255) == QClass::Any,
        forall|t: Type| #[trigger] QType::Type(t).code() == t.code(),
        forall|c: Class| #[trigger] QClass::Class(c).code() == c.code(),
{
}

/// The values of the operation and outcome fields (RFC 1035, 4.1.1), both
/// ways, and of the QR bit.
pub proof fn law_header_code_table()
    ensures
        OpCode::Query.code() == 0,
        OpCode::of_bits(0) == OpCode::Query,
        OpCode::InverseQuery.code() == 1,
        OpCode::of_bits(1) == OpCode::InverseQuery,
        OpCode::Status.code() == 2,
        OpCode::of_bits(2) == OpCode::Status,
        ResponseCode::NoErrorCondition.code() == 0,
        ResponseCode::of_bits(0) == ResponseCode::NoErrorCondition,
        ResponseCode::FormatError.code() == 1,
        ResponseCode::of_bits(1) == ResponseCode::FormatError,
        ResponseCode::ServerFailure.code() == 2,
        ResponseCode::of_bits(2) == ResponseCode::ServerFailure,
        ResponseCode::NameError.code() == 3,
        ResponseCode::of_bits(3) == ResponseCode::NameError,
        ResponseCode::NotImplemented.code() == 4,
        ResponseCode::of_bits(4) == ResponseCode::NotImplemented,
        ResponseCode::Refused.code() == 5,
        ResponseCode::of_bits(5) == ResponseCode::Refused,
        QueryResponse::Query.code() == 0,
        QueryResponse::Response.code() == 1,
{
}


/// A compression pointer targets the offset that its two bytes hold below
/// their two high bits (RFC 1035, 4.1.4).
pub proof fn law_pointer_target(hi: u8, lo: u8)
    requires
        hi >= 0xC0,
    ensures
        marker(hi) == 3,
        pointer(hi, lo) == (hi - 0xC0) * 256 + lo,
{
}

/// The labels of a name reached through pointers: the first carries the
/// pointers followed to reach it, the others none.
pub open spec fn pointed_label_models(labels: Seq<Seq<u8>>, offsets: Seq<usize>) -> Seq<LabelModel> {
    if labels.len() == 0 {
        seq![]
    } else {
        seq![LabelModel { value: labels[0], offsets }] + plain_label_models(labels.drop_first())
    }
}

/// Following a pointer to where a name was written, uncompressed.
proof fn lemma_follow_name_wire(
    full: Seq<u8>,
    offset: int,
    name_len: usize,
    acc: Seq<LabelModel>,
    offsets: Seq<usize>,
    run: nat,
    labels: Seq<Seq<u8>>,
)
    requires
        0 <= offset,
        offset + labels_bytes(labels).len() <= full.len(),
        full.subrange(offset, offset + labels_bytes(labels).len()) == labels_bytes(labels),
        forall|i: int|
            0 <= i < labels.len() ==> 1 <= #[trigger] labels[i].len() <= LABEL_LEN_MAX
                && valid_utf8(labels[i]),
        name_len + labels_bytes(labels).len() <= NAME_LEN_MAX,
        run <= full.len(),
    ensures
        follow_name(full, offset, name_len, acc, offsets, run) == Ok::<
            Seq<LabelModel>,
            crate::protocol::parser::Failure,
        >(acc + pointed_label_models(labels, offsets)),
    decreases labels.len(),
{
    let w = labels_bytes(labels);
    assert(full[offset] == full.subrange(offset, offset + w.len())[0]);
    if labels.len() == 0 {
        assert(acc + pointed_label_models(labels, offsets) =~= acc);
    } else {
        let l0 = labels[0];
        let rest = labels.drop_first();
        let n = l0.len() as int;
        assert(w == seq![(l0.len() % 256) as u8] + l0 + labels_bytes(rest));
        assert(full[offset] == n);
        assert(marker(full[offset]) == 0);
        assert(full.subrange(offset + 1, offset + 1 + n) =~= w.subrange(1, 1 + n));
        assert(w.subrange(1, 1 + n) =~= l0);
        let np = offset + 1 + n;
        assert(full.subrange(np, np + labels_bytes(rest).len()) =~= w.subrange(1 + n, w.len() as int));
        assert(w.subrange(1 + n, w.len() as int) =~= labels_bytes(rest));
        assert forall|i: int| 0 <= i < rest.len() implies 1 <= #[trigger] rest[i].len()
            <= LABEL_LEN_MAX && valid_utf8(rest[i]) by {
            assert(rest[i] == labels[i + 1]);
        }
        let acc2 = acc.push(LabelModel { value: l0, offsets });
        lemma_follow_name_wire(full, np, (name_len + n + 1) as usize, acc2, seq![], 0, rest);
        assert(pointed_label_models(rest, seq![]) =~= plain_label_models(rest));
        assert(acc2 + plain_label_models(rest) =~= acc + pointed_label_models(labels, offsets));
    }
}

/// A name written anywhere in the first 2^14 bytes of a message, and
/// referred to by a pointer to where it starts, reads back as that name:
/// its first label carries the offset it was reached at.
pub proof fn law_pointer_reads_name(full: Seq<u8>, offset: int, labels: Seq<Seq<u8>>, rest: Seq<u8>)
    requires
        0 <= offset < 0x4000,
        offset + labels_bytes(labels).len() <= full.len(),
        full.subrange(offset, offset + labels_bytes(labels).len()) == labels_bytes(labels),
        record_labels_ok(labels),
    ensures
        read_name(
            seq![(0xC0 + offset / 256) as u8, (offset % 256) as u8] + rest,
            full,
            0,
            0,
            seq![],
        ) == Ok::<(Seq<LabelModel>, int), crate::protocol::parser::Failure>(
            (pointed_label_models(labels, seq![offset as usize]), 2),
        ),
{
    let hi = (0xC0 + offset / 256) as u8;
    let lo = (offset % 256) as u8;
    let buf = seq![hi, lo] + rest;
    assert(buf[0] == hi && buf[1] == lo);
    law_pointer_target(hi, lo);
    assert(pointer(hi, lo) == offset);
    lemma_follow_name_wire(full, offset, 0, seq![], seq![offset as usize], 0, labels);
    assert(seq![] + pointed_label_models(labels, seq![offset as usize]) =~= pointed_label_models(
        labels,
        seq![offset as usize],
    ));
}


/// A well-formed message written when the clock reads `now` reads back as
/// the same message, each record with the whole seconds it had left at
/// `now`, cut to 32 bits, as its time to live.
pub proof fn law_written_ttls(m: Message, now: Instant)
    requires
        message_ok(m@),
    ensures
        read_message(
            m@.wire(
                ttls_at(m.answers@, now),
                ttls_at(m.authority@, now),
                ttls_at(m.additional@, now),
            ),
        ) matches Ok(p) && p.message == m@ && p.answer_ttls.len() == m.answers@.len()
            && p.authority_ttls.len() == m.authority@.len() && p.additional_ttls.len()
            == m.additional@.len() && (forall|i: int|
            0 <= i < m.answers@.len() ==> #[trigger] p.answer_ttls[i] == (secs_between(
                m.answers@[i].ttl,
                now,
            ) % 0x1_0000_0000) as u32) && (forall|i: int|
            0 <= i < m.authority@.len() ==> #[trigger] p.authority_ttls[i] == (secs_between(
                m.authority@[i].ttl,
                now,
            ) % 0x1_0000_0000) as u32) && (forall|i: int|
            0 <= i < m.additional@.len() ==> #[trigger] p.additional_ttls[i] == (secs_between(
                m.additional@[i].ttl,
                now,
            ) % 0x1_0000_0000) as u32),
{
    law_message_roundtrip(
        m@,
        ttls_at(m.answers@, now),
        ttls_at(m.authority@, now),
        ttls_at(m.additional@, now),
    );
}

} // verus!
