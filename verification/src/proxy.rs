//! The decisions of a caching DNS proxy: the query it sends upstream for a
//! question, the order in which it gathers answers from its cache and from
//! upstream, and the response it builds for a client. Sending and receiving
//! datagrams is left to the caller.

use std::time::Instant;
use vstd::prelude::*;

use crate::cache::{cached_records, found_records, lookup_outcome, DnsCache};
use crate::protocol::message::{
    question_models, Header, Message, OpCode, Question, QuestionModel, QueryResponse, RecordModel,
    ResourceRecord, ResponseCode,
};

verus! {

/// The identifier of the queries that the proxy sends upstream.
pub const UPSTREAM_QUERY_ID: u16 = 42;

/// The header of a query sent upstream: a standard query that asks for
/// recursion.
pub open spec fn upstream_header() -> Header {
    Header {
        id: UPSTREAM_QUERY_ID,
        query_response: QueryResponse::Query,
        opcode: OpCode::Query,
        authoritative_answer: false,
        truncation: false,
        recursion_desired: true,
        recursion_available: false,
        reserved: false,
        authentic_data: false,
        checking_disabled: false,
        response_code: ResponseCode::NoErrorCondition,
    }
}

/// The header of the response to a query of identifier `id`: a response
/// without error, with recursion available.
pub open spec fn answer_header(id: u16) -> Header {
    Header {
        id,
        query_response: QueryResponse::Response,
        opcode: OpCode::Query,
        authoritative_answer: false,
        truncation: false,
        recursion_desired: false,
        recursion_available: true,
        reserved: false,
        authentic_data: false,
        checking_disabled: false,
        response_code: ResponseCode::NoErrorCondition,
    }
}

/// Copies of the records, each expiring at the same instant as the record
/// it copies.
pub fn copy_records(records: &Vec<ResourceRecord>) -> (res: Vec<ResourceRecord>)
    ensures
        cached_records(res@) == cached_records(records@),
{
    let mut res: Vec<ResourceRecord> = Vec::new();
    let mut i: usize = 0;
    while i < records.len()
        invariant
            0 <= i <= records@.len(),
            cached_records(res@) == cached_records(records@.take(i as int)),
        decreases records@.len() - i,
    {
        let ghost before = res@;
        res.push(records[i].clone());
        assert(records@.take(i + 1) =~= records@.take(i as int).push(records@[i as int]));
        assert(cached_records(res@) =~= cached_records(before).push(
            (records@[i as int]@, records@[i as int].ttl),
        ));
        i = i + 1;
    }
    assert(records@.take(i as int) =~= records@);
    res
}

/// Copies of the questions.
fn copy_questions(questions: &Vec<Question>) -> (res: Vec<Question>)
    ensures
        question_models(res@) == question_models(questions@),
{
    let mut res: Vec<Question> = Vec::new();
    let mut i: usize = 0;
    while i < questions.len()
        invariant
            0 <= i <= questions@.len(),
            question_models(res@) == question_models(questions@.take(i as int)),
        decreases questions@.len() - i,
    {
        let ghost before = res@;
        let q = questions[i].clone();
        assert(q@ == questions@[i as int]@);
        res.push(q);
        assert(questions@.take(i + 1) =~= questions@.take(i as int).push(questions@[i as int]));
        assert(question_models(res@) =~= question_models(before).push(questions@[i as int]@));
        i = i + 1;
    }
    assert(questions@.take(i as int) =~= questions@);
    res
}

/// The query that asks the upstream resolver the question `question`.
pub fn upstream_query(question: &Question) -> (res: Message)
    ensures
        res.header == upstream_header(),
        res.header.id == 42,
        res.header.query_response == QueryResponse::Query,
        res.header.opcode == OpCode::Query,
        !res.header.authoritative_answer,
        !res.header.truncation,
        res.header.recursion_desired,
        !res.header.recursion_available,
        !res.header.reserved,
        !res.header.authentic_data,
        !res.header.checking_disabled,
        res.header.response_code == ResponseCode::NoErrorCondition,
        question_models(res.questions@) == seq![question@],
        res.answers@.len() == 0,
        res.authority@.len() == 0,
        res.additional@.len() == 0,
{
    let q = question.clone();
    assert(q@ == question@);
    let mut questions: Vec<Question> = Vec::new();
    questions.push(q);
    assert(question_models(questions@) =~= seq![question@]);
    Message {
        header: Header {
            id: UPSTREAM_QUERY_ID,
            query_response: QueryResponse::Query,
            opcode: OpCode::Query,
            authoritative_answer: false,
            truncation: false,
            recursion_desired: true,
            recursion_available: false,
            reserved: false,
            authentic_data: false,
            checking_disabled: false,
            response_code: ResponseCode::NoErrorCondition,
        },
        questions,
        answers: Vec::new(),
        authority: Vec::new(),
        additional: Vec::new(),
    }
}

/// The response to the query `query`: its identifier and its questions,
/// with `answers` as the answer section.
pub fn answer_message(query: &Message, answers: Vec<ResourceRecord>) -> (res: Message)
    ensures
        res.header == answer_header(query.header.id),
        res.header.id == query.header.id,
        res.header.query_response == QueryResponse::Response,
        res.header.opcode == OpCode::Query,
        !res.header.authoritative_answer,
        !res.header.truncation,
        !res.header.recursion_desired,
        res.header.recursion_available,
        !res.header.reserved,
        !res.header.authentic_data,
        !res.header.checking_disabled,
        res.header.response_code == ResponseCode::NoErrorCondition,
        question_models(res.questions@) == question_models(query.questions@),
        cached_records(res.answers@) == cached_records(answers@),
        res.authority@.len() == 0,
        res.additional@.len() == 0,
{
    Message {
        header: Header {
            id: query.header.id,
            query_response: QueryResponse::Response,
            opcode: OpCode::Query,
            authoritative_answer: false,
            truncation: false,
            recursion_desired: false,
            recursion_available: true,
            reserved: false,
            authentic_data: false,
            checking_disabled: false,
            response_code: ResponseCode::NoErrorCondition,
        },
        questions: copy_questions(&query.questions),
        answers,
        authority: Vec::new(),
        additional: Vec::new(),
    }
}

/// The records found in the cache for the questions `from..to`, one
/// question after the other; a question without records adds none.
pub open spec fn gathered(
    cached: Seq<Option<Seq<(RecordModel, Instant)>>>,
    from: int,
    to: int,
) -> Seq<(RecordModel, Instant)>
    decreases to - from,
{
    if to <= from {
        seq![]
    } else {
        gathered(cached, from, to - 1) + match cached[to - 1] {
            Some(r) => r,
            None => seq![],
        }
    }
}

/// The first question from `from` on that the cache could not answer, or
/// the number of questions if there is none.
pub open spec fn first_miss(cached: Seq<Option<Seq<(RecordModel, Instant)>>>, from: int) -> int
    decreases cached.len() - from,
{
    if from >= cached.len() {
        cached.len() as int
    } else if cached[from] is None {
        from
    } else {
        first_miss(cached, from + 1)
    }
}

/// How many of the first `n` questions the cache could not answer.
pub open spec fn misses(cached: Seq<Option<Seq<(RecordModel, Instant)>>>, n: int) -> int
    decreases n,
{
    if n <= 0 {
        0
    } else {
        misses(cached, n - 1) + if cached[n - 1] is None {
            1int
        } else {
            0int
        }
    }
}

/// The answers to the first `n` questions, one question after the other:
/// what the cache held for it, or else the next answer of the upstream
/// resolver.
pub open spec fn combined(
    cached: Seq<Option<Seq<(RecordModel, Instant)>>>,
    upstream: Seq<Seq<(RecordModel, Instant)>>,
    n: int,
) -> Seq<(RecordModel, Instant)>
    decreases n,
{
    if n <= 0 {
        seq![]
    } else {
        combined(cached, upstream, n - 1) + match cached[n - 1] {
            Some(r) => r,
            None => upstream[misses(cached, n - 1)],
        }
    }
}

/// A count of questions is never negative.
pub proof fn lemma_misses_nonnegative(cached: Seq<Option<Seq<(RecordModel, Instant)>>>, n: int)
    ensures
        0 <= misses(cached, n),
    decreases n,
{
    if n > 0 {
        lemma_misses_nonnegative(cached, n - 1);
    }
}

/// Later answers of the upstream resolver do not change the answers to
/// questions that came before them.
pub proof fn lemma_combined_push(
    cached: Seq<Option<Seq<(RecordModel, Instant)>>>,
    upstream: Seq<Seq<(RecordModel, Instant)>>,
    r: Seq<(RecordModel, Instant)>,
    n: int,
)
    requires
        misses(cached, n) <= upstream.len(),
    ensures
        combined(cached, upstream.push(r), n) == combined(cached, upstream, n),
    decreases n,
{
    if n > 0 {
        let k = misses(cached, n - 1);
        lemma_misses_nonnegative(cached, n - 1);
        assert(k <= misses(cached, n));
        lemma_combined_push(cached, upstream, r, n - 1);
        if cached[n - 1] is None {
            assert(k < upstream.len());
            assert(upstream.push(r)[k] == upstream[k]);
        }
    }
}

/// What the cache held for each question.
pub open spec fn cached_answers(cached: Seq<Option<Vec<ResourceRecord>>>) -> Seq<
    Option<Seq<(RecordModel, Instant)>>,
> {
    cached.map_values(|c: Option<Vec<ResourceRecord>>| found_records(c))
}

/// The caches `models` that lookups of the questions `qs` went through, one
/// after the other, finding `found`.
pub open spec fn lookup_chain(
    models: Seq<Map<QuestionModel, Seq<(RecordModel, Instant)>>>,
    qs: Seq<QuestionModel>,
    found: Seq<Option<Seq<(RecordModel, Instant)>>>,
) -> bool {
    &&& models.len() == qs.len() + 1
    &&& found.len() == qs.len()
    &&& forall|i: int|
        0 <= i < qs.len() ==> #[trigger] lookup_outcome(models[i], qs[i], found[i], models[i + 1])
}

/// A cache that held `start` was asked the questions `qs` one after the
/// other, found `found` for them, and then held `end`.
pub open spec fn looked_up(
    start: Map<QuestionModel, Seq<(RecordModel, Instant)>>,
    qs: Seq<QuestionModel>,
    found: Seq<Option<Seq<(RecordModel, Instant)>>>,
    end: Map<QuestionModel, Seq<(RecordModel, Instant)>>,
) -> bool {
    exists|models: Seq<Map<QuestionModel, Seq<(RecordModel, Instant)>>>|
        #[trigger] lookup_chain(models, qs, found) && models[0] == start && models[qs.len() as int]
            == end
}

/// Where the gathering of the answers to the questions of a query stands.
pub struct ResolutionModel {
    /// The questions, in the order of the query.
    pub questions: Seq<QuestionModel>,
    /// What the cache held for each question when the gathering began.
    pub cached: Seq<Option<Seq<(RecordModel, Instant)>>>,
    /// The first question whose answers are not gathered yet.
    pub next: int,
    /// Whether the answers of question `next` are awaited from upstream.
    pub waiting: bool,
    /// The answers gathered so far, question after question.
    pub answers: Seq<(RecordModel, Instant)>,
    /// The answers that the upstream resolver gave, one for each question
    /// that the cache could not answer, in order.
    pub upstream: Seq<Seq<(RecordModel, Instant)>>,
}

/// The gathering of the answers to the questions of a query: each question
/// is answered from the cache when the cache holds records for it, and else
/// by the upstream resolver, whose answers then go to the cache.
pub struct Resolution {
    questions: Vec<Question>,
    cached: Vec<Option<Vec<ResourceRecord>>>,
    next: usize,
    waiting: bool,
    answers: Vec<ResourceRecord>,
    upstream: Ghost<Seq<Seq<(RecordModel, Instant)>>>,
}

/// What the caller of a resolution does next.
pub enum ResolutionStep {
    /// Ask the upstream resolver this question and hand its answers to
    /// `Resolution::resolved`.
    Resolve(Question),
    /// Every question is answered: these are the answers, in the order of
    /// the questions.
    Done(Vec<ResourceRecord>),
}

impl View for Resolution {
    type V = ResolutionModel;

    closed spec fn view(&self) -> ResolutionModel {
        ResolutionModel {
            questions: question_models(self.questions@),
            cached: cached_answers(self.cached@),
            next: self.next as int,
            waiting: self.waiting,
            answers: cached_records(self.answers@),
            upstream: self.upstream@,
        }
    }
}

impl ResolutionModel {
    /// The questions and what the cache held agree in number, the next
    /// question is in range, and an awaited question is one that the cache
    /// could not answer.
    pub open spec fn wf(self) -> bool {
        &&& self.questions.len() == self.cached.len()
        &&& 0 <= self.next <= self.questions.len()
        &&& self.waiting ==> self.next < self.questions.len() && self.cached[self.next] is None
        &&& self.upstream.len() == misses(self.cached, self.next)
        &&& self.answers == combined(self.cached, self.upstream, self.next)
    }
}

/// Appends copies of `src` to `dst`.
fn append_records(dst: &mut Vec<ResourceRecord>, src: &Vec<ResourceRecord>)
    ensures
        cached_records(final(dst)@) == cached_records(old(dst)@) + cached_records(src@),
{
    let mut copies = copy_records(src);
    let ghost before = dst@;
    dst.append(&mut copies);
    assert(cached_records(dst@) =~= cached_records(before) + cached_records(src@));
}

impl Resolution {
    /// Starts gathering the answers to `questions`, looking each of them up
    /// in `cache`, in order.
    pub fn new<C: DnsCache>(cache: &mut C, questions: &Vec<Question>) -> (res: Resolution)
        ensures
            res@.wf(),
            res@.questions == question_models(questions@),
            res@.next == 0,
            !res@.waiting,
            res@.answers.len() == 0,
            res@.upstream.len() == 0,
            looked_up(old(cache).model(), res@.questions, res@.cached, final(cache).model()),
    {
        let ghost start = cache.model();
        let ghost qs = question_models(questions@);
        let ghost mut models: Seq<Map<QuestionModel, Seq<(RecordModel, Instant)>>> = seq![start];
        let mut cached: Vec<Option<Vec<ResourceRecord>>> = Vec::new();
        let mut i: usize = 0;
        while i < questions.len()
            invariant
                0 <= i <= questions@.len(),
                qs == question_models(questions@),
                cached@.len() == i,
                lookup_chain(models, qs.take(i as int), cached_answers(cached@)),
                models[0] == start,
                models[i as int] == cache.model(),
            decreases questions@.len() - i,
        {
            let ghost before = cache.model();
            let ghost old_models = models;
            let ghost old_found = cached_answers(cached@);
            let found = cache.get(&questions[i]);
            proof {
                models = models.push(cache.model());
                assert(cached_answers(cached@.push(found)) =~= old_found.push(found_records(found)));
                assert(qs.take(i + 1) =~= qs.take(i as int).push(qs[i as int]));
                assert forall|j: int| 0 <= j < i + 1 implies #[trigger] lookup_outcome(
                    models[j],
                    qs.take(i + 1)[j],
                    old_found.push(found_records(found))[j],
                    models[j + 1],
                ) by {
                    if j < i {
                        assert(models[j] == old_models[j]);
                        assert(models[j + 1] == old_models[j + 1]);
                        assert(qs.take(i + 1)[j] == qs.take(i as int)[j]);
                        assert(old_found.push(found_records(found))[j] == old_found[j]);
                    } else {
                        assert(models[j] == before);
                    }
                }
            }
            cached.push(found);
            i = i + 1;
        }
        let res = Resolution {
            questions: copy_questions(questions),
            cached,
            next: 0,
            waiting: false,
            answers: Vec::new(),
            upstream: Ghost(Seq::empty()),
        };
        assert(res@.answers =~= Seq::<(RecordModel, Instant)>::empty());
        assert(qs.take(i as int) =~= qs);
        assert(lookup_chain(models, res@.questions, res@.cached));
        res
    }

    /// The next thing to do: the answers that the cache holds are gathered
    /// up to the first question that it could not answer, which is then to
    /// be asked upstream; when there is none, the gathering is done. While an
    /// answer is awaited, that question is asked again and nothing changes.
    pub fn advance(&mut self) -> (res: ResolutionStep)
        requires
            old(self)@.wf(),
        ensures
            final(self)@.wf(),
            final(self)@.questions == old(self)@.questions,
            final(self)@.cached == old(self)@.cached,
            final(self)@.upstream == old(self)@.upstream,
            ({
                let m = old(self)@;
                let j = first_miss(m.cached, m.next);
                if m.waiting {
                    &&& final(self)@ == m
                    &&& res matches ResolutionStep::Resolve(q) && q@ == m.questions[m.next]
                } else if j < m.questions.len() {
                    &&& res matches ResolutionStep::Resolve(q) && q@ == m.questions[j]
                    &&& final(self)@.next == j
                    &&& final(self)@.waiting
                    &&& final(self)@.answers == m.answers + gathered(m.cached, m.next, j)
                } else {
                    &&& res matches ResolutionStep::Done(a) && cached_records(a@) == m.answers
                        + gathered(m.cached, m.next, j) && cached_records(a@) == combined(
                        m.cached,
                        m.upstream,
                        m.questions.len() as int,
                    )
                    &&& final(self)@.next == m.questions.len()
                    &&& !final(self)@.waiting
                    &&& final(self)@.answers == m.answers + gathered(m.cached, m.next, j)
                }
            }),
    {
        let ghost m = self@;
        if self.waiting {
            let q = self.questions[self.next].clone();
            assert(q@ == m.questions[m.next]);
            return ResolutionStep::Resolve(q);
        }
        let ghost start = m.next;
        let mut i = self.next;
        let mut gathered_now = copy_records(&self.answers);
        while i < self.cached.len() && self.cached[i].is_some()
            invariant
                m == self@,
                m.wf(),
                !m.waiting,
                start <= i <= m.cached.len(),
                first_miss(m.cached, i as int) == first_miss(m.cached, start),
                cached_records(gathered_now@) == m.answers + gathered(m.cached, start, i as int),
                cached_records(gathered_now@) == combined(m.cached, m.upstream, i as int),
                misses(m.cached, i as int) == misses(m.cached, start),
            decreases m.cached.len() - i,
        {
            let ghost before = gathered_now@;
            match &self.cached[i] {
                Some(records) => {
                    append_records(&mut gathered_now, records);
                    assert(m.cached[i as int] == Some(cached_records(records@)));
                },
                None => {},
            }
            assert(cached_records(gathered_now@) =~= m.answers + gathered(m.cached, start, i + 1));
            assert(cached_records(gathered_now@) =~= combined(m.cached, m.upstream, i + 1));
            i = i + 1;
        }
        if i < self.cached.len() {
            let q = self.questions[i].clone();
            assert(q@ == m.questions[i as int]);
            self.next = i;
            self.waiting = true;
            self.answers = gathered_now;
            ResolutionStep::Resolve(q)
        } else {
            let done = copy_records(&gathered_now);
            self.next = i;
            self.answers = gathered_now;
            ResolutionStep::Done(done)
        }
    }

    /// Hands over the answers of the upstream resolver to the awaited
    /// question: they are gathered, and kept in `cache` as the answer to that
    /// question. When no answer is awaited, nothing changes.
    pub fn resolved<C: DnsCache>(&mut self, cache: &mut C, records: Vec<ResourceRecord>)
        requires
            old(self)@.wf(),
        ensures
            final(self)@.wf(),
            final(self)@.questions == old(self)@.questions,
            final(self)@.cached == old(self)@.cached,
            old(self)@.waiting ==> {
                &&& final(self)@.next == old(self)@.next + 1
                &&& !final(self)@.waiting
                &&& final(self)@.answers == old(self)@.answers + cached_records(records@)
                &&& final(self)@.upstream == old(self)@.upstream.push(cached_records(records@))
            },
            old(self)@.waiting ==> final(cache).model() == old(cache).model().insert(
                old(self)@.questions[old(self)@.next],
                cached_records(records@),
            ),
            !old(self)@.waiting ==> final(self)@ == old(self)@ && *final(cache) == *old(cache),
    {
        if !self.waiting {
            return;
        }
        assert(question_models(self.questions@).len() == self.questions@.len());
        let count = self.questions.len();
        assert(self.next < count);
        let after = self.next + 1;
        let ghost m = self@;
        let ghost got = cached_records(records@);
        proof {
            lemma_combined_push(m.cached, m.upstream, got, m.next);
            assert(combined(m.cached, m.upstream.push(got), m.next + 1) =~= m.answers + got);
        }
        self.upstream = Ghost(m.upstream.push(got));
        append_records(&mut self.answers, &records);
        cache.replace(&self.questions[self.next], records);
        self.next = after;
        self.waiting = false;
    }
}

/// A response to a client answers its query: it carries the query's
/// identifier, is flagged as a response to a standard query, without error,
/// complete (not truncated), not authoritative, and with recursion
/// available.
pub proof fn law_answer_header(id: u16)
    ensures
        answer_header(id).id == id,
        answer_header(id).query_response == QueryResponse::Response,
        answer_header(id).opcode == OpCode::Query,
        !answer_header(id).authoritative_answer,
        !answer_header(id).truncation,
        answer_header(id).recursion_available,
        answer_header(id).response_code == ResponseCode::NoErrorCondition,
{
}

/// A query sent upstream is a standard query, complete (not truncated),
/// that asks for recursion.
pub proof fn law_upstream_header()
    ensures
        upstream_header().query_response == QueryResponse::Query,
        upstream_header().opcode == OpCode::Query,
        !upstream_header().truncation,
        upstream_header().recursion_desired,
        upstream_header().response_code == ResponseCode::NoErrorCondition,
{
}

} // verus!
