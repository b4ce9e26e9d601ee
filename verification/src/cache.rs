//! A cache of the records that answer questions. A record is dropped from
//! the cache once it has expired, when its question is next looked up.

use std::time::Instant;
use vstd::prelude::*;
use vstd::utf8::{encode_utf8, encode_utf8_decode_utf8};

use crate::protocol::message::{name_bytes, Question, QuestionModel, RecordModel, ResourceRecord};
use crate::sys::{instant_is_after, instant_later, instant_now};

verus! {

/// What the cache keeps of each record of a sequence: what the record says
/// and the instant at which it expires.
pub open spec fn cached_records(rs: Seq<ResourceRecord>) -> Seq<(RecordModel, Instant)> {
    rs.map_values(|r: ResourceRecord| (r@, r.ttl))
}

/// The items of `s` whose mark in `keep` is set, in their order.
pub open spec fn marked<T>(s: Seq<T>, keep: Seq<bool>) -> Seq<T>
    decreases s.len(),
{
    if s.len() == 0 {
        seq![]
    } else {
        let rest = marked(s.drop_last(), keep.drop_last());
        if keep.last() {
            rest.push(s.last())
        } else {
            rest
        }
    }
}

/// Whether each item has not expired when the clock reads `now`: whether
/// its expiry is later than `now`.
pub open spec fn expiry_marks(s: Seq<(RecordModel, Instant)>, now: Instant) -> Seq<bool> {
    Seq::new(s.len(), |i: int| instant_later(s[i].1, now))
}

/// The items of `s` that have not expired when the clock reads `now`, in
/// their order.
pub open spec fn unexpired(s: Seq<(RecordModel, Instant)>, now: Instant) -> Seq<
    (RecordModel, Instant),
> {
    marked(s, expiry_marks(s, now))
}

/// What each lookup found, as the cache keeps records.
pub open spec fn found_records(found: Option<Vec<ResourceRecord>>) -> Option<
    Seq<(RecordModel, Instant)>,
> {
    match found {
        Some(v) => Some(cached_records(v@)),
        None => None,
    }
}

/// What a lookup of `q` does to a cache that held `before`: when `q` has
/// records, those that have not expired at the clock reading `now` of the
/// lookup are found, in their order, and only they stay; when it has none,
/// nothing is found and nothing changes.
pub open spec fn lookup_at(
    before: Map<QuestionModel, Seq<(RecordModel, Instant)>>,
    q: QuestionModel,
    now: Instant,
    found: Option<Seq<(RecordModel, Instant)>>,
    after: Map<QuestionModel, Seq<(RecordModel, Instant)>>,
) -> bool {
    if before.contains_key(q) {
        &&& found == Some(unexpired(before[q], now))
        &&& after == before.insert(q, unexpired(before[q], now))
    } else {
        &&& found is None
        &&& after == before
    }
}

/// What a lookup of `q` does, the clock reading at some instant.
pub open spec fn lookup_outcome(
    before: Map<QuestionModel, Seq<(RecordModel, Instant)>>,
    q: QuestionModel,
    found: Option<Seq<(RecordModel, Instant)>>,
    after: Map<QuestionModel, Seq<(RecordModel, Instant)>>,
) -> bool {
    exists|now: Instant| #[trigger] lookup_at(before, q, now, found, after)
}

/// A store of the records that answer questions.
pub trait DnsCache {
    /// What the cache holds: for each known question, the records kept for
    /// it.
    spec fn model(&self) -> Map<QuestionModel, Seq<(RecordModel, Instant)>>;

    /// The records kept for `question` that have not expired, if the
    /// question is known; the expired ones are dropped from the cache.
    fn get(&mut self, question: &Question) -> (res: Option<Vec<ResourceRecord>>)
        ensures
            lookup_outcome(old(self).model(), question@, found_records(res), final(self).model()),
    ;

    /// Keeps `records` as the answer to `question`, in place of any
    /// earlier answer.
    fn replace(&mut self, question: &Question, records: Vec<ResourceRecord>)
        ensures
            final(self).model() == old(self).model().insert(question@, cached_records(records@)),
    ;
}

/// Whether two questions ask the same thing: the same labels, type and
/// class.
pub fn same_question(a: &Question, b: &Question) -> (res: bool)
    ensures
        res == (a@ == b@),
{
    if a.qtype != b.qtype || a.qclass != b.qclass || a.qname.len() != b.qname.len() {
        proof {
            if a.qname.len() != b.qname.len() {
                assert(a@.qname.len() != b@.qname.len());
            }
        }
        return false;
    }
    let mut i: usize = 0;
    while i < a.qname.len()
        invariant
            a.qname@.len() == b.qname@.len(),
            0 <= i <= a.qname@.len(),
            forall|j: int| 0 <= j < i ==> a.qname@[j]@ == b.qname@[j]@,
        decreases a.qname@.len() - i,
    {
        if a.qname[i] != b.qname[i] {
            proof {
                let k = i as int;
                encode_utf8_decode_utf8(a.qname@[k]@);
                encode_utf8_decode_utf8(b.qname@[k]@);
                assert(a@.qname[k] == encode_utf8(a.qname@[k]@));
                assert(b@.qname[k] == encode_utf8(b.qname@[k]@));
            }
            return false;
        }
        i = i + 1;
    }
    assert(name_bytes(a.qname@) =~= name_bytes(b.qname@));
    true
}

/// The records whose mark in `keep` is set, in their order.
pub fn retain_marked(records: &Vec<ResourceRecord>, keep: &Vec<bool>) -> (res: Vec<ResourceRecord>)
    requires
        keep@.len() == records@.len(),
    ensures
        cached_records(res@) == marked(cached_records(records@), keep@),
{
    let ghost all = cached_records(records@);
    let mut res: Vec<ResourceRecord> = Vec::new();
    let mut i: usize = 0;
    while i < records.len()
        invariant
            keep@.len() == records@.len(),
            all == cached_records(records@),
            0 <= i <= records@.len(),
            cached_records(res@) == marked(all.take(i as int), keep@.take(i as int)),
        decreases records@.len() - i,
    {
        proof {
            assert(all.take(i + 1).drop_last() =~= all.take(i as int));
            assert(keep@.take(i + 1).drop_last() =~= keep@.take(i as int));
        }
        if keep[i] {
            let r = records[i].clone();
            let ghost before = res@;
            res.push(r);
            assert(cached_records(res@) =~= cached_records(before).push(all[i as int]));
        }
        i = i + 1;
    }
    assert(all.take(i as int) =~= all);
    assert(keep@.take(i as int) =~= keep@);
    res
}

/// Whether each record has not yet expired, as the clock reads `now`.
fn unexpired_marks(records: &Vec<ResourceRecord>, now: &Instant) -> (res: Vec<bool>)
    ensures
        res@.len() == records@.len(),
        forall|i: int| 0 <= i < records@.len() ==> res@[i] == instant_later(#[trigger] records@[i].ttl, *now),
{
    let mut res: Vec<bool> = Vec::new();
    let mut i: usize = 0;
    while i < records.len()
        invariant
            0 <= i <= records@.len(),
            res@.len() == i,
            forall|j: int| 0 <= j < i ==> res@[j] == instant_later(#[trigger] records@[j].ttl, *now),
        decreases records@.len() - i,
    {
        res.push(instant_is_after(&records[i].ttl, now));
        i = i + 1;
    }
    res
}

/// A cache held in memory: each known question with the records that
/// answer it.
pub struct DnsCacheMemory {
    entries: Vec<(Question, Vec<ResourceRecord>)>,
}

/// Whether some entry is for the question `k`.
pub open spec fn has_entry(entries: Seq<(Question, Vec<ResourceRecord>)>, k: QuestionModel) -> bool {
    exists|i: int| 0 <= i < entries.len() && #[trigger] entries[i].0@ == k
}

/// The place of the entry for the question `k`.
pub open spec fn entry_index(entries: Seq<(Question, Vec<ResourceRecord>)>, k: QuestionModel) -> int {
    choose|i: int| 0 <= i < entries.len() && #[trigger] entries[i].0@ == k
}

/// No question has two entries.
pub open spec fn distinct_questions(entries: Seq<(Question, Vec<ResourceRecord>)>) -> bool {
    forall|i: int, j: int|
        0 <= i < entries.len() && 0 <= j < entries.len() && i != j ==> #[trigger] entries[i].0@
            != #[trigger] entries[j].0@
}

/// The map from each question to what is kept of its records.
pub open spec fn entries_map(entries: Seq<(Question, Vec<ResourceRecord>)>) -> Map<
    QuestionModel,
    Seq<(RecordModel, Instant)>,
> {
    Map::new(
        |k: QuestionModel| has_entry(entries, k),
        |k: QuestionModel| cached_records(entries[entry_index(entries, k)].1@),
    )
}

impl View for DnsCacheMemory {
    type V = Map<QuestionModel, Seq<(RecordModel, Instant)>>;

    closed spec fn view(&self) -> Self::V {
        entries_map(self.entries@)
    }
}

impl DnsCacheMemory {
    #[verifier::type_invariant]
    closed spec fn wf(&self) -> bool {
        distinct_questions(self.entries@)
    }

    /// An empty cache.
    pub fn new() -> (res: Self)
        ensures
            res@ == Map::<QuestionModel, Seq<(RecordModel, Instant)>>::empty(),
    {
        let res = DnsCacheMemory { entries: Vec::new() };
        assert(res@ =~= Map::<QuestionModel, Seq<(RecordModel, Instant)>>::empty());
        res
    }

    /// The records kept for `question` that have not expired when the clock
    /// reads `now`, if the question is known; the others are dropped from
    /// the cache.
    pub fn get_at(&mut self, question: &Question, now: &Instant) -> (res: Option<Vec<ResourceRecord>>)
        ensures
            lookup_at(old(self)@, question@, *now, found_records(res), final(self)@),
    {
        proof {
            use_type_invariant(&*self);
        }
        match self.position(question) {
            None => None,
            Some(i) => {
                let keep = unexpired_marks(&self.entries[i].1, now);
                let kept = retain_marked(&self.entries[i].1, &keep);
                let key = self.entries[i].0.clone();
                let found = kept.clone();
                let ghost before = self.entries@;
                let ghost k = question@;
                proof {
                    assert(key@ == k) by {
                        assert(key@.qname =~= before[i as int].0@.qname);
                    }
                    assert(has_entry(before, k));
                    assert(entry_index(before, k) == i as int);
                    assert(entries_map(before)[k] == cached_records(before[i as int].1@));
                    assert(keep@ =~= expiry_marks(cached_records(before[i as int].1@), *now));
                    assert(cached_records(found@) =~= cached_records(kept@));
                    lemma_entries_set(before, i as int, (key, kept));
                }
                let mut entries = Vec::new();
                std::mem::swap(&mut entries, &mut self.entries);
                entries.set(i, (key, kept));
                self.entries = entries;
                proof {
                    let m = entries_map(before);
                    assert(self@ == m.insert(k, unexpired(m[k], *now)));
                    assert(Some(cached_records(found@)) == Some(unexpired(m[k], *now)));
                    assert(lookup_at(m, k, *now, found_records(Some(found)), self@));
                }
                Some(found)
            },
        }
    }

    /// The place of the entry for `question`, if it has one.
    fn position(&self, question: &Question) -> (res: Option<usize>)
        ensures
            match res {
                Some(i) => i < self.entries@.len() && self.entries@[i as int].0@ == question@,
                None => !has_entry(self.entries@, question@),
            },
    {
        let mut i: usize = 0;
        while i < self.entries.len()
            invariant
                0 <= i <= self.entries@.len(),
                forall|j: int| 0 <= j < i ==> #[trigger] self.entries@[j].0@ != question@,
            decreases self.entries@.len() - i,
        {
            if same_question(&self.entries[i].0, question) {
                return Some(i);
            }
            i = i + 1;
        }
        None
    }
}

/// Writing the entry at a place where its question already is changes the
/// map at that question only.
proof fn lemma_entries_set(
    entries: Seq<(Question, Vec<ResourceRecord>)>,
    i: int,
    e: (Question, Vec<ResourceRecord>),
)
    requires
        distinct_questions(entries),
        0 <= i < entries.len(),
        entries[i].0@ == e.0@,
    ensures
        distinct_questions(entries.update(i, e)),
        entries_map(entries.update(i, e)) == entries_map(entries).insert(
            e.0@,
            cached_records(e.1@),
        ),
{
    let after = entries.update(i, e);
    assert forall|k: QuestionModel| #[trigger] has_entry(after, k) == has_entry(entries, k) by {
        if has_entry(entries, k) {
            let j = entry_index(entries, k);
            assert(after[j].0@ == k);
        }
        if has_entry(after, k) {
            let j = entry_index(after, k);
            assert(entries[j].0@ == k);
        }
    }
    assert forall|k: QuestionModel| has_entry(after, k) implies entry_index(after, k) == entry_index(
        entries,
        k,
    ) by {
        let j = entry_index(after, k);
        let m = entry_index(entries, k);
        assert(entries[j].0@ == k);
    }
    assert(entries_map(after) =~= entries_map(entries).insert(e.0@, cached_records(e.1@)));
}

/// Adding an entry for a question that has none adds that question to the
/// map.
proof fn lemma_entries_push(entries: Seq<(Question, Vec<ResourceRecord>)>, e: (Question, Vec<ResourceRecord>))
    requires
        distinct_questions(entries),
        !has_entry(entries, e.0@),
    ensures
        distinct_questions(entries.push(e)),
        entries_map(entries.push(e)) == entries_map(entries).insert(e.0@, cached_records(e.1@)),
{
    let after = entries.push(e);
    let n = entries.len() as int;
    assert forall|i: int, j: int|
        0 <= i < after.len() && 0 <= j < after.len() && i != j implies #[trigger] after[i].0@
        != #[trigger] after[j].0@ by {
        if i == n {
            assert(entries[j].0@ == after[j].0@);
        } else if j == n {
            assert(entries[i].0@ == after[i].0@);
        } else {
            assert(entries[i] == after[i] && entries[j] == after[j]);
        }
    }
    assert(after[n].0@ == e.0@);
    assert forall|k: QuestionModel| #[trigger] has_entry(after, k) == (has_entry(entries, k) || k
        == e.0@) by {
        if has_entry(entries, k) {
            let j = entry_index(entries, k);
            assert(after[j].0@ == k);
        }
        if has_entry(after, k) && k != e.0@ {
            let j = entry_index(after, k);
            assert(j != n);
            assert(entries[j].0@ == k);
        }
    }
    assert forall|k: QuestionModel| has_entry(entries, k) implies entry_index(after, k)
        == entry_index(entries, k) by {
        let j = entry_index(after, k);
        let m = entry_index(entries, k);
        assert(after[m].0@ == k);
        assert(j != n);
        assert(entries[j].0@ == k);
    }
    assert(entry_index(after, e.0@) == n);
    assert(entries_map(after) =~= entries_map(entries).insert(e.0@, cached_records(e.1@)));
}

impl DnsCache for DnsCacheMemory {
    open spec fn model(&self) -> Map<QuestionModel, Seq<(RecordModel, Instant)>> {
        self@
    }

    fn get(&mut self, question: &Question) -> (res: Option<Vec<ResourceRecord>>) {
        let now = instant_now();
        let res = self.get_at(question, &now);
        assert(lookup_at(old(self)@, question@, now, found_records(res), self@));
        res
    }

    fn replace(&mut self, question: &Question, records: Vec<ResourceRecord>) {
        proof {
            use_type_invariant(&*self);
        }
        let key = question.clone();
        assert(key@.qname =~= question@.qname);
        let found = self.position(question);
        let mut entries = Vec::new();
        std::mem::swap(&mut entries, &mut self.entries);
        match found {
            Some(i) => {
                proof {
                    lemma_entries_set(entries@, i as int, (key, records));
                }
                entries.set(i, (key, records));
            },
            None => {
                proof {
                    lemma_entries_push(entries@, (key, records));
                }
                entries.push((key, records));
            },
        }
        self.entries = entries;
    }
}

/// The marks that keep the items of `s` that `a` keeps and that have not
/// expired when the clock reads `now`.
pub open spec fn marks_then_unexpired(s: Seq<(RecordModel, Instant)>, a: Seq<bool>, now: Instant) -> Seq<
    bool,
> {
    Seq::new(s.len(), |i: int| a[i] && instant_later(s[i].1, now))
}

/// Keeping by marks `a`, then dropping what has expired at `now`, is
/// keeping by both at once.
pub proof fn lemma_marked_then_unexpired(s: Seq<(RecordModel, Instant)>, a: Seq<bool>, now: Instant)
    requires
        a.len() == s.len(),
    ensures
        unexpired(marked(s, a), now) == marked(s, marks_then_unexpired(s, a, now)),
    decreases s.len(),
{
    if s.len() > 0 {
        let s1 = s.drop_last();
        let a1 = a.drop_last();
        let m1 = marked(s1, a1);
        lemma_marked_then_unexpired(s1, a1, now);
        assert(marks_then_unexpired(s, a, now).drop_last() =~= marks_then_unexpired(s1, a1, now));
        if a.last() {
            let m = m1.push(s.last());
            assert(m.drop_last() =~= m1);
            assert(expiry_marks(m, now).drop_last() =~= expiry_marks(m1, now));
        }
    }
}

/// A lookup right after a replacement finds the records that were put and
/// have not expired at the clock reading of the lookup, in their order, and
/// the cache then keeps exactly those.
pub proof fn law_lookup_after_replace(
    before: Map<QuestionModel, Seq<(RecordModel, Instant)>>,
    q: QuestionModel,
    put: Seq<(RecordModel, Instant)>,
    found: Option<Seq<(RecordModel, Instant)>>,
    after: Map<QuestionModel, Seq<(RecordModel, Instant)>>,
)
    requires
        lookup_outcome(before.insert(q, put), q, found, after),
    ensures
        exists|now: Instant|
            found == Some(#[trigger] unexpired(put, now)) && after == before.insert(
                q,
                unexpired(put, now),
            ),
{
    let m = before.insert(q, put);
    let now = choose|now: Instant| #[trigger] lookup_at(m, q, now, found, after);
    assert(m.contains_key(q) && m[q] == put);
    assert(after =~= before.insert(q, unexpired(put, now)));
}

/// A lookup of a question that has no entry finds nothing and changes
/// nothing.
pub proof fn law_lookup_unknown(
    before: Map<QuestionModel, Seq<(RecordModel, Instant)>>,
    q: QuestionModel,
    found: Option<Seq<(RecordModel, Instant)>>,
    after: Map<QuestionModel, Seq<(RecordModel, Instant)>>,
)
    requires
        !before.contains_key(q),
        lookup_outcome(before, q, found, after),
    ensures
        found is None,
        after == before,
{
}

/// A lookup leaves the entries of every other question as they were.
pub proof fn law_lookup_keeps_others(
    before: Map<QuestionModel, Seq<(RecordModel, Instant)>>,
    q: QuestionModel,
    found: Option<Seq<(RecordModel, Instant)>>,
    after: Map<QuestionModel, Seq<(RecordModel, Instant)>>,
    k: QuestionModel,
)
    requires
        lookup_outcome(before, q, found, after),
        k != q,
    ensures
        after.contains_key(k) == before.contains_key(k),
        before.contains_key(k) ==> after[k] == before[k],
{
}

/// Two lookups of one question in a row find the records that had not
/// expired at either clock reading, in their order, and the cache then keeps
/// exactly those.
pub proof fn law_lookup_twice(
    before: Map<QuestionModel, Seq<(RecordModel, Instant)>>,
    q: QuestionModel,
    first: Option<Seq<(RecordModel, Instant)>>,
    mid: Map<QuestionModel, Seq<(RecordModel, Instant)>>,
    second: Option<Seq<(RecordModel, Instant)>>,
    after: Map<QuestionModel, Seq<(RecordModel, Instant)>>,
)
    requires
        before.contains_key(q),
        lookup_outcome(before, q, first, mid),
        lookup_outcome(mid, q, second, after),
    ensures
        exists|n1: Instant, n2: Instant|
            {
                let kept = marked(
                    before[q],
                    #[trigger] marks_then_unexpired(before[q], expiry_marks(before[q], n1), n2),
                );
                &&& second == Some(kept)
                &&& after == before.insert(q, kept)
            },
{
    let s = before[q];
    let n1 = choose|now: Instant| #[trigger] lookup_at(before, q, now, first, mid);
    let m1 = unexpired(s, n1);
    assert(mid.contains_key(q) && mid[q] == m1);
    let n2 = choose|now: Instant| #[trigger] lookup_at(mid, q, now, second, after);
    lemma_marked_then_unexpired(s, expiry_marks(s, n1), n2);
    let kept = marked(s, marks_then_unexpired(s, expiry_marks(s, n1), n2));
    assert(after =~= before.insert(q, kept));
    assert(second == Some(kept) && after == before.insert(q, kept));
}

/// The records that have not expired at `now` are exactly the records of
/// `s` whose expiry is later than `now`.
proof fn lemma_unexpired_members(s: Seq<(RecordModel, Instant)>, now: Instant)
    ensures
        forall|x: (RecordModel, Instant)|
            #[trigger] unexpired(s, now).contains(x) <==> (s.contains(x) && instant_later(x.1, now)),
    decreases s.len(),
{
    if s.len() > 0 {
        let init = s.drop_last();
        let last = s.last();
        lemma_unexpired_members(init, now);
        assert(expiry_marks(s, now).drop_last() =~= expiry_marks(init, now));
        let prev = unexpired(init, now);
        assert forall|x: (RecordModel, Instant)|
            #[trigger] unexpired(s, now).contains(x) <==> (s.contains(x) && instant_later(x.1, now)) by {
            if s.contains(x) {
                let i = choose|i: int| 0 <= i < s.len() && s[i] == x;
                if i < s.len() - 1 {
                    assert(init[i] == x);
                }
            }
            if init.contains(x) {
                let i = choose|i: int| 0 <= i < init.len() && init[i] == x;
                assert(s[i] == x);
            }
            if instant_later(last.1, now) {
                assert(unexpired(s, now) == prev.push(last));
                if prev.push(last).contains(x) {
                    let j = choose|j: int| 0 <= j < prev.push(last).len() && prev.push(last)[j] == x;
                    if j < prev.len() {
                        assert(prev[j] == x);
                    }
                }
                if prev.contains(x) {
                    let j = choose|j: int| 0 <= j < prev.len() && prev[j] == x;
                    assert(prev.push(last)[j] == x);
                }
                assert(prev.push(last)[prev.len() as int] == last);
            } else {
                assert(unexpired(s, now) == prev);
            }
            assert(s[s.len() - 1] == last);
        }
    }
}

/// A lookup at the clock reading `now` finds exactly the stored records
/// whose expiry is later than `now`, and the cache keeps exactly those: no
/// record that expired at or before `now` is returned or kept, and none that
/// expires after it is lost.
pub proof fn law_lookup_at_keeps_unexpired(
    before: Map<QuestionModel, Seq<(RecordModel, Instant)>>,
    q: QuestionModel,
    now: Instant,
    found: Option<Seq<(RecordModel, Instant)>>,
    after: Map<QuestionModel, Seq<(RecordModel, Instant)>>,
)
    requires
        before.contains_key(q),
        lookup_at(before, q, now, found, after),
    ensures
        found matches Some(f) && after.contains_key(q) && after[q] == f && forall|
            x: (RecordModel, Instant),
        | #[trigger] f.contains(x) <==> (before[q].contains(x) && instant_later(x.1, now)),
{
    lemma_unexpired_members(before[q], now);
}

} // verus!
