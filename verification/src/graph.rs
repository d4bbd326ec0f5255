//! The fact store: a table of fact rows in key order, the idempotency map and
//! the vector index, with the operations that assert, scan, invalidate and
//! correct facts.

use vstd::prelude::*;
use vstd::string::*;
use crate::codec::{encode_embedding, packed, EmbeddingRow};
use crate::error::{dimension_mismatch, empty_embedding, unknown_fact, KronroeError};
use crate::fact::{is_id_char, Fact, FactId, Value};
use crate::history::{lemma_asserted_fact_is_found, lemma_correction_keeps_both};
use crate::instant::Instant;
use crate::keys::{fact_key, compose_key, compose_pair_prefix, compose_subject_prefix, key_less, key_precedes, pair_prefix, same_text, starts_with, subject_prefix};
use crate::table::{close_row, holds_id, keyed, lemma_locate, lemma_put_keeps_order, lemma_slot, locate, put, put_all, row_of, select, slot_from, sorted, TimeFilter};
use crate::lexical::lexical_hits;
use crate::rank::Scored;
use crate::search::{blank, found_by, hydrate_hits, is_blank, lemma_hydrated_distinct, lemma_hydrated_within, search_documents, texts, unique_ids};
use crate::vector::{entry_views, insert_refused, upsert, VectorIndex};

verus! {

/// One row of the fact table.
#[derive(Debug, Clone)]
pub struct Row {
    pub key: String,
    pub fact: Fact,
}

/// One row of the idempotency map: a caller's key and the id it stands for.
#[derive(Debug, Clone)]
pub struct KeyLink {
    pub key: String,
    pub id: FactId,
}

/// The rows as pairs of key text and fact.
pub open spec fn table_of(rows: Seq<Row>) -> Seq<(Seq<char>, Fact)> {
    Seq::new(rows.len(), |i: int| (rows[i].key@, rows[i].fact))
}

/// The idempotency rows as pairs of key text and id text.
pub open spec fn links_of(links: Seq<KeyLink>) -> Seq<(Seq<char>, Seq<char>)> {
    Seq::new(links.len(), |i: int| (links[i].key@, links[i].id@))
}

/// The first position at or after `from` whose row has the key, or the length
/// where there is none.
pub open spec fn link_position(links: Seq<(Seq<char>, Seq<char>)>, key: Seq<char>, from: int) -> int
    decreases links.len() - from,
{
    if from < 0 || from >= links.len() || links[from].0 == key {
        from
    } else {
        link_position(links, key, from + 1)
    }
}

/// The id that an idempotency key stands for, if it has been used.
pub open spec fn lookup(links: Seq<(Seq<char>, Seq<char>)>, key: Seq<char>) -> Option<Seq<char>> {
    let p = link_position(links, key, 0);
    if p < links.len() {
        Some(links[p].1)
    } else {
        None
    }
}

/// `after` is `before` with one newly asserted fact written: a fact with the
/// given id, subject, predicate, object and start of validity, open on both
/// axes.
pub open spec fn asserted(
    before: Seq<(Seq<char>, Fact)>,
    after: Seq<(Seq<char>, Fact)>,
    id: Seq<char>,
    subject: Seq<char>,
    predicate: Seq<char>,
    object: Value,
    valid_from: Instant,
) -> bool {
    exists|f: Fact|
        #![trigger f.is_fresh(subject, predicate, object, valid_from)]
        f.is_fresh(subject, predicate, object, valid_from) && f.id@ == id && after == put(
            before,
            row_of(f),
        )
}

/// Some row stands under the key.
pub open spec fn has_key(t: Seq<(Seq<char>, Fact)>, key: Seq<char>) -> bool {
    exists|i: int| 0 <= i < t.len() && (#[trigger] t[i]).0 == key
}

/// The fact found by the id is the one that was asserted: the given subject,
/// predicate, object and start of validity, open on both axes.
pub open spec fn found_as(
    t: Seq<(Seq<char>, Fact)>,
    id: Seq<char>,
    subject: Seq<char>,
    predicate: Seq<char>,
    object: Value,
    valid_from: Instant,
) -> bool {
    holds_id(t, id) && t[locate(t, id, 0)].1.id@ == id && t[locate(t, id, 0)].1.is_fresh(
        subject,
        predicate,
        object,
        valid_from,
    )
}

/// A fact written under a key that no row had adds one row.
pub proof fn lemma_asserted_adds_a_row(
    before: Seq<(Seq<char>, Fact)>,
    after: Seq<(Seq<char>, Fact)>,
    id: Seq<char>,
    subject: Seq<char>,
    predicate: Seq<char>,
    object: Value,
    valid_from: Instant,
)
    requires
        asserted(before, after, id, subject, predicate, object, valid_from),
    ensures
        before.len() <= after.len() <= before.len() + 1,
        !has_key(before, fact_key(subject, predicate, id)) ==> after.len() == before.len() + 1,
{
    let f = choose|f: Fact|
        #![trigger f.is_fresh(subject, predicate, object, valid_from)]
        f.is_fresh(subject, predicate, object, valid_from) && f.id@ == id && after == put(
            before,
            row_of(f),
        );
    let row = row_of(f);
    lemma_slot(before, row.0, 0);
    let q = slot_from(before, row.0, 0);
    if q < before.len() && before[q].0 == row.0 {
        assert(has_key(before, row.0));
    }
}

/// What `link_position` finds: the first row with the key.
pub proof fn lemma_link_position(links: Seq<(Seq<char>, Seq<char>)>, key: Seq<char>, from: int)
    requires
        0 <= from <= links.len(),
    ensures
        from <= link_position(links, key, from) <= links.len(),
        forall|j: int| from <= j < link_position(links, key, from) ==> (#[trigger] links[j]).0 != key,
        link_position(links, key, from) < links.len() ==> links[link_position(links, key, from)].0
            == key,
    decreases links.len() - from,
{
    if from >= links.len() || links[from].0 == key {
    } else {
        lemma_link_position(links, key, from + 1);
    }
}

/// A key that has been used keeps the id it stands for when a row is added,
/// and a key that has not been used stands for the id of the row added under
/// it.
pub proof fn lemma_lookup_after_push(
    links: Seq<(Seq<char>, Seq<char>)>,
    row: (Seq<char>, Seq<char>),
    key: Seq<char>,
)
    ensures
        lookup(links, key) is Some ==> lookup(links.push(row), key) == lookup(links, key),
        lookup(links, key) is None && row.0 == key ==> lookup(links.push(row), key) == Some(row.1),
        lookup(links, key) is None && row.0 != key ==> lookup(links.push(row), key) is None,
{
    let after = links.push(row);
    lemma_link_position(links, key, 0);
    lemma_link_position(after, key, 0);
    let p = link_position(links, key, 0);
    let q = link_position(after, key, 0);
    if p < links.len() {
        assert(after[p] == links[p]);
        if q < p {
            assert(after[q] == links[q]);
        }
    } else {
        if q < links.len() {
            assert(after[q] == links[q]);
        }
        assert(after[links.len() as int] == row);
    }
}

/// An embedded bi-temporal fact store held in memory.
#[derive(Debug, Clone)]
pub struct TemporalGraph {
    pub(crate) facts: Vec<Row>,
    pub(crate) idempotency: Vec<KeyLink>,
    pub(crate) vector_index: VectorIndex,
}

impl TemporalGraph {
    /// The fact table, in key order.
    pub closed spec fn rows(&self) -> Seq<(Seq<char>, Fact)> {
        table_of(self.facts@)
    }

    /// The idempotency map, in order of first use.
    pub closed spec fn links(&self) -> Seq<(Seq<char>, Seq<char>)> {
        links_of(self.idempotency@)
    }

    /// The vector index.
    pub closed spec fn index(&self) -> VectorIndex {
        self.vector_index
    }

    /// The table is in key order, every row stands under its fact's key, and
    /// the vector index is well formed.
    pub open spec fn wf(&self) -> bool {
        &&& sorted(self.rows())
        &&& keyed(self.rows())
        &&& self.index().wf()
    }

    /// The index that the contracts speak of is the one that the store
    /// holds.
    pub(crate) proof fn lemma_index_is_the_field(&self)
        ensures
            self.index() == self.vector_index,
    {
    }

    /// An empty store.
    pub fn new() -> (r: TemporalGraph)
        ensures
            r.wf(),
            r.rows().len() == 0,
            r.links().len() == 0,
            r.index().entries().len() == 0,
            r.index().dimension() is None,
    {
        TemporalGraph { facts: Vec::new(), idempotency: Vec::new(), vector_index: VectorIndex::new() }
    }

    /// An empty store that lives in memory only. It always succeeds.
    pub fn open_in_memory() -> (r: Result<TemporalGraph, KronroeError>)
        ensures
            r is Ok,
            r->Ok_0.wf(),
            r->Ok_0.rows().len() == 0,
            r->Ok_0.links().len() == 0,
            r->Ok_0.index().entries().len() == 0,
            r->Ok_0.index().dimension() is None,
    {
        Ok(TemporalGraph::new())
    }

    /// A store that holds the given facts, idempotency rows and vector index,
    /// as read back from durable storage. Each fact is written under its own
    /// key, in the order given.
    pub fn restore(facts: Vec<Fact>, links: Vec<KeyLink>, index: VectorIndex) -> (r: TemporalGraph)
        requires
            index.wf(),
        ensures
            r.wf(),
            r.rows() == put_all(Seq::empty(), facts@),
            r.links() == links_of(links@),
            r.index() == index,
    {
        let mut g = TemporalGraph { facts: Vec::new(), idempotency: links, vector_index: index };
        let mut facts = facts;
        let ghost all = facts@;
        let mut rest: Vec<Fact> = Vec::new();
        // Reverse once so that the facts can be taken off the end in order.
        while facts.len() > 0
            invariant
                rest@.len() + facts@.len() == all.len(),
                forall|j: int| 0 <= j < facts@.len() ==> facts@[j] == all[j],
                forall|j: int| 0 <= j < rest@.len() ==> rest@[j] == all[all.len() - 1 - j],
            decreases facts@.len(),
        {
            let f = facts.pop().unwrap();
            rest.push(f);
        }
        assert(all.take(0) =~= Seq::empty());
        while rest.len() > 0
            invariant
                rest@.len() <= all.len(),
                forall|j: int| 0 <= j < rest@.len() ==> rest@[j] == all[all.len() - 1 - j],
                g.wf(),
                g.rows() == put_all(Seq::empty(), all.take(all.len() - rest@.len())),
                g.links() == links_of(links@),
                g.index() == index,
            decreases rest@.len(),
        {
            let ghost done = all.len() - rest@.len();
            let f = rest.pop().unwrap();
            assert(f == all[done]);
            assert(all.take(done + 1).drop_last() =~= all.take(done));
            assert(all.take(done + 1).last() == f);
            g.record(f);
        }
        assert(all.take(all.len() as int) =~= all);
        g
    }

    fn find_slot(&self, key: &str) -> (p: usize)
        ensures
            p == slot_from(self.rows(), key@, 0),
            p <= self.rows().len(),
    {
        let mut i: usize = 0;
        while i < self.facts.len()
            invariant
                i <= self.facts@.len(),
                slot_from(self.rows(), key@, 0) == slot_from(self.rows(), key@, i as int),
            decreases self.facts@.len() - i,
        {
            if !key_precedes(self.facts[i].key.as_str(), key) {
                return i;
            }
            i += 1;
        }
        i
    }

    fn find_id(&self, id: &FactId) -> (p: usize)
        ensures
            p == locate(self.rows(), id@, 0),
            p <= self.rows().len(),
    {
        let mut i: usize = 0;
        while i < self.facts.len()
            invariant
                i <= self.facts@.len(),
                locate(self.rows(), id@, 0) == locate(self.rows(), id@, i as int),
            decreases self.facts@.len() - i,
        {
            if self.facts[i].fact.id.same_as(id) {
                return i;
            }
            i += 1;
        }
        i
    }

    fn find_link(&self, key: &str) -> (p: usize)
        ensures
            p == link_position(self.links(), key@, 0),
            p <= self.links().len(),
    {
        let mut i: usize = 0;
        while i < self.idempotency.len()
            invariant
                i <= self.idempotency@.len(),
                link_position(self.links(), key@, 0) == link_position(self.links(), key@, i as int),
            decreases self.idempotency@.len() - i,
        {
            if same_text(self.idempotency[i].key.as_str(), key) {
                return i;
            }
            i += 1;
        }
        i
    }

    /// Writes a fact under its key: a row with the same key is replaced, any
    /// other fact goes to its place in key order. Returns the fact's id.
    pub fn record(&mut self, fact: Fact) -> (r: FactId)
        requires
            old(self).wf(),
        ensures
            final(self).wf(),
            r@ == fact.id@,
            final(self).rows() == put(old(self).rows(), row_of(fact)),
            final(self).links() == old(self).links(),
            final(self).index() == old(self).index(),
    {
        let id = fact.id.duplicate();
        let key = compose_key(fact.subject.as_str(), fact.predicate.as_str(), fact.id.0.as_str());
        let p = self.find_slot(key.as_str());
        proof {
            lemma_slot(self.rows(), key@, 0);
            lemma_put_keeps_order(self.rows(), fact);
        }
        let replace = p < self.facts.len() && same_text(self.facts[p].key.as_str(), key.as_str());
        if replace {
            self.facts.set(p, Row { key, fact });
        } else {
            self.facts.insert(p, Row { key, fact });
        }
        assert(self.rows() =~= put(old(self).rows(), row_of(fact)));
        id
    }

    /// Asserts a new fact, recorded now under a fresh id, and returns the id.
    pub fn assert_fact(
        &mut self,
        subject: &str,
        predicate: &str,
        object: Value,
        valid_from: Instant,
    ) -> (r: Result<FactId, KronroeError>)
        requires
            old(self).wf(),
        ensures
            final(self).wf(),
            r is Ok,
            asserted(
                old(self).rows(),
                final(self).rows(),
                r->Ok_0@,
                subject@,
                predicate@,
                object,
                valid_from,
            ),
            r->Ok_0@.len() == 26,
            forall|i: int| 0 <= i < 26 ==> is_id_char(#[trigger] r->Ok_0@[i]),
            final(self).links() == old(self).links(),
            final(self).index() == old(self).index(),
            !holds_id(old(self).rows(), r->Ok_0@) ==> found_as(
                final(self).rows(),
                r->Ok_0@,
                subject@,
                predicate@,
                object,
                valid_from,
            ),
            old(self).rows().len() <= final(self).rows().len() <= old(self).rows().len() + 1,
            !has_key(old(self).rows(), fact_key(subject@, predicate@, r->Ok_0@)) ==> final(self).rows().len() == old(self).rows().len() + 1,
    {
        let fact = Fact::new(subject, predicate, object, valid_from);
        let id = self.record(fact);
        proof {
            let before = old(self).rows();
            let after = self.rows();
            lemma_asserted_adds_a_row(before, after, id@, subject@, predicate@, object, valid_from);
            if !holds_id(before, id@) {
                lemma_asserted_fact_is_found(
                    before,
                    after,
                    id@,
                    subject@,
                    predicate@,
                    object,
                    valid_from,
                );
            }
        }
        Ok(id)
    }

    /// Asserts a fact once per idempotency key.
    ///
    /// Where the key has been used, returns the id it stands for and changes
    /// nothing. Otherwise asserts the fact and binds the key to the new id.
    pub fn assert_fact_idempotent(
        &mut self,
        idempotency_key: &str,
        subject: &str,
        predicate: &str,
        object: Value,
        valid_from: Instant,
    ) -> (r: Result<FactId, KronroeError>)
        requires
            old(self).wf(),
        ensures
            final(self).wf(),
            r is Ok,
            final(self).index() == old(self).index(),
            lookup(final(self).links(), idempotency_key@) == Some(r->Ok_0@),
            lookup(old(self).links(), idempotency_key@) matches Some(id) ==> r->Ok_0@ == id
                && final(self).rows() == old(self).rows() && final(self).links() == old(self).links(),
            lookup(old(self).links(), idempotency_key@) is None ==> asserted(
                old(self).rows(),
                final(self).rows(),
                r->Ok_0@,
                subject@,
                predicate@,
                object,
                valid_from,
            ) && final(self).links() == old(self).links().push((idempotency_key@, r->Ok_0@)),
            forall|k: Seq<char>| lookup(old(self).links(), k) is Some ==> lookup(final(self).links(), k) == lookup(old(self).links(), k),
            old(self).rows().len() <= final(self).rows().len() <= old(self).rows().len() + 1,
            lookup(old(self).links(), idempotency_key@) is None && !has_key(
                old(self).rows(),
                fact_key(subject@, predicate@, r->Ok_0@),
            ) ==> final(self).rows().len() == old(self).rows().len() + 1,
            lookup(old(self).links(), idempotency_key@) is None && !holds_id(
                old(self).rows(),
                r->Ok_0@,
            ) ==> found_as(final(self).rows(), r->Ok_0@, subject@, predicate@, object, valid_from),
    {
        let p = self.find_link(idempotency_key);
        proof {
            lemma_link_position(self.links(), idempotency_key@, 0);
        }
        if p < self.idempotency.len() {
            return Ok(self.idempotency[p].id.duplicate());
        }
        let fact = Fact::new(subject, predicate, object, valid_from);
        let id = self.record(fact);
        let link = KeyLink { key: String::from_str(idempotency_key), id: id.duplicate() };
        self.idempotency.push(link);
        proof {
            let before = old(self).links();
            let after = self.links();
            assert(after =~= before.push((idempotency_key@, id@)));
            lemma_lookup_after_push(before, (idempotency_key@, id@), idempotency_key@);
            assert forall|k: Seq<char>| lookup(before, k) is Some implies lookup(after, k)
                == lookup(before, k) by {
                lemma_lookup_after_push(before, (idempotency_key@, id@), k);
            }
            lemma_asserted_adds_a_row(
                old(self).rows(),
                self.rows(),
                id@,
                subject@,
                predicate@,
                object,
                valid_from,
            );
            if !holds_id(old(self).rows(), id@) {
                lemma_asserted_fact_is_found(
                    old(self).rows(),
                    self.rows(),
                    id@,
                    subject@,
                    predicate@,
                    object,
                    valid_from,
                );
            }
        }
        Ok(id)
    }

    fn scan(&self, prefix: &str, filter: TimeFilter) -> (r: Vec<Fact>)
        ensures
            r@ == select(self.rows(), prefix@, filter),
    {
        let mut out: Vec<Fact> = Vec::new();
        let mut i: usize = 0;
        assert(self.rows().take(0) =~= Seq::empty());
        while i < self.facts.len()
            invariant
                i <= self.facts@.len(),
                out@ == select(self.rows().take(i as int), prefix@, filter),
            decreases self.facts@.len() - i,
        {
            assert(self.rows().take(i + 1).drop_last() =~= self.rows().take(i as int));
            let row = &self.facts[i];
            if starts_with(row.key.as_str(), prefix) {
                let keep = match filter {
                    TimeFilter::All => true,
                    TimeFilter::Current => row.fact.is_currently_valid(),
                    TimeFilter::At(t) => row.fact.was_valid_at(t),
                };
                if keep {
                    out.push(row.fact.duplicate());
                }
            }
            i += 1;
        }
        assert(self.rows().take(i as int) =~= self.rows());
        out
    }

    /// The facts of a subject and predicate that are open on both time axes,
    /// in key order.
    pub fn current_facts(&self, subject: &str, predicate: &str) -> (r: Result<
        Vec<Fact>,
        KronroeError,
    >)
        ensures
            r is Ok,
            r->Ok_0@ == select(self.rows(), pair_prefix(subject@, predicate@), TimeFilter::Current),
    {
        let prefix = compose_pair_prefix(subject, predicate);
        Ok(self.scan(prefix.as_str(), TimeFilter::Current))
    }

    /// The facts of a subject and predicate that held, and were believed, at
    /// `at`, in key order.
    pub fn facts_at(&self, subject: &str, predicate: &str, at: Instant) -> (r: Result<
        Vec<Fact>,
        KronroeError,
    >)
        ensures
            r is Ok,
            r->Ok_0@ == select(self.rows(), pair_prefix(subject@, predicate@), TimeFilter::At(at)),
    {
        let prefix = compose_pair_prefix(subject, predicate);
        Ok(self.scan(prefix.as_str(), TimeFilter::At(at)))
    }

    /// Every fact ever recorded about a subject, in key order.
    pub fn all_facts_about(&self, subject: &str) -> (r: Result<Vec<Fact>, KronroeError>)
        ensures
            r is Ok,
            r->Ok_0@ == select(self.rows(), subject_prefix(subject@), TimeFilter::All),
    {
        let prefix = compose_subject_prefix(subject);
        Ok(self.scan(prefix.as_str(), TimeFilter::All))
    }

    /// Every fact that meets the temporal condition, in key order.
    pub fn facts_matching(&self, filter: TimeFilter) -> (r: Vec<Fact>)
        ensures
            r@ == select(self.rows(), Seq::empty(), filter),
    {
        proof {
            reveal_strlit("");
            assert(""@ =~= Seq::<char>::empty());
        }
        self.scan("", filter)
    }

    /// The first fact, in key order, with the id; not-found where no row has
    /// it.
    pub fn fact_by_id(&self, fact_id: &FactId) -> (r: Result<Fact, KronroeError>)
        ensures
            r is Ok <==> holds_id(self.rows(), fact_id@),
            r is Ok ==> r->Ok_0 == self.rows()[locate(self.rows(), fact_id@, 0)].1,
            r is Err ==> r->Err_0 is NotFound,
    {
        let p = self.find_id(fact_id);
        if p < self.facts.len() {
            Ok(self.facts[p].fact.duplicate())
        } else {
            Err(unknown_fact(fact_id.0.as_str()))
        }
    }

    /// Closes the fact with the id at `at` on both time axes, keeping its row.
    ///
    /// Fails with not-found, and changes nothing, where no row has the id. A
    /// fact that is closed already is stamped again.
    pub fn invalidate_fact(&mut self, fact_id: &FactId, at: Instant) -> (r: Result<
        (),
        KronroeError,
    >)
        requires
            old(self).wf(),
        ensures
            final(self).wf(),
            final(self).links() == old(self).links(),
            final(self).index() == old(self).index(),
            r is Ok <==> holds_id(old(self).rows(), fact_id@),
            r is Ok ==> final(self).rows() == close_row(
                old(self).rows(),
                locate(old(self).rows(), fact_id@, 0),
                at,
            ),
            r is Err ==> r->Err_0 is NotFound && final(self).rows() == old(self).rows(),
    {
        let p = self.find_id(fact_id);
        if p < self.facts.len() {
            let key = self.facts[p].key.clone();
            let closed = self.facts[p].fact.duplicate().invalidated(at);
            self.facts.set(p, Row { key, fact: closed });
            proof {
                let before = old(self).rows();
                let after = close_row(before, p as int, at);
                assert(self.rows() =~= after);
                assert forall|i: int| 0 <= i && i + 1 < after.len() implies key_less(
                    (#[trigger] after[i]).0,
                    after[i + 1].0,
                ) by {
                    assert(key_less(before[i].0, before[i + 1].0));
                }
                assert forall|i: int| 0 <= i < after.len() implies #[trigger] after[i] == row_of(
                    after[i].1,
                ) by {
                    assert(before[i] == row_of(before[i].1));
                }
            }
            Ok(())
        } else {
            Err(unknown_fact(fact_id.0.as_str()))
        }
    }

    /// Corrects a fact while keeping history: the old fact is closed at `at`
    /// and a replacement with the same subject and predicate, the new object
    /// and validity from `at` is asserted. Returns the replacement's id.
    ///
    /// Fails with not-found, and changes nothing, where no row has the id.
    pub fn correct_fact(&mut self, fact_id: &FactId, new_value: Value, at: Instant) -> (r: Result<
        FactId,
        KronroeError,
    >)
        requires
            old(self).wf(),
        ensures
            final(self).wf(),
            final(self).links() == old(self).links(),
            final(self).index() == old(self).index(),
            r is Ok <==> holds_id(old(self).rows(), fact_id@),
            r is Err ==> r->Err_0 is NotFound && final(self).rows() == old(self).rows(),
            r is Ok ==> ({
                let p = locate(old(self).rows(), fact_id@, 0);
                let was = old(self).rows()[p].1;
                asserted(
                    close_row(old(self).rows(), p, at),
                    final(self).rows(),
                    r->Ok_0@,
                    was.subject@,
                    was.predicate@,
                    new_value,
                    at,
                )
            }),
            r is Ok && !holds_id(old(self).rows(), r->Ok_0@) ==> ({
                let was = old(self).rows()[locate(old(self).rows(), fact_id@, 0)].1;
                &&& r->Ok_0@ != fact_id@
                &&& holds_id(final(self).rows(), fact_id@)
                &&& final(self).rows()[locate(final(self).rows(), fact_id@, 0)].1 == was.closed_at(at)
                &&& found_as(
                    final(self).rows(),
                    r->Ok_0@,
                    was.subject@,
                    was.predicate@,
                    new_value,
                    at,
                )
            }),
            r is Ok ==> ({
                let was = old(self).rows()[locate(old(self).rows(), fact_id@, 0)].1;
                &&& old(self).rows().len() <= final(self).rows().len() <= old(self).rows().len() + 1
                &&& !has_key(old(self).rows(), fact_key(was.subject@, was.predicate@, r->Ok_0@))
                    ==> final(self).rows().len() == old(self).rows().len() + 1
            }),
    {
        let found = self.fact_by_id(fact_id);
        match found {
            Err(e) => Err(e),
            Ok(was) => {
                let closed = self.invalidate_fact(fact_id, at);
                match closed {
                    Err(e) => Err(e),
                    Ok(()) => {
                        let ghost mid = self.rows();
                        let made = self.assert_fact(
                            was.subject.as_str(),
                            was.predicate.as_str(),
                            new_value,
                            at,
                        );
                        proof {
                            let before = old(self).rows();
                            let id = made->Ok_0@;
                            let key = fact_key(was.subject@, was.predicate@, id);
                            lemma_locate(before, fact_id@, 0);
                            if has_key(mid, key) {
                                let i = choose|i: int| 0 <= i < mid.len() && (#[trigger] mid[i]).0 == key;
                                assert(before[i].0 == key);
                            }
                            if !holds_id(before, id) {
                                lemma_locate(self.rows(), id, 0);
                                assert(mid == close_row(before, locate(before, fact_id@, 0), at));
                                lemma_correction_keeps_both(
                                    before,
                                    fact_id@,
                                    at,
                                    self.rows(),
                                    id,
                                    new_value,
                                );
                            }
                        }
                        made
                    },
                }
            },
        }
    }

    /// Asserts a fact together with its embedding.
    ///
    /// Fails with invalid-embedding, and changes nothing, when the embedding
    /// is empty or its length differs from the established dimension.
    /// Otherwise the fact is written and its embedding indexed under the new
    /// id; the first embedding establishes the dimension.
    pub fn assert_fact_with_embedding(
        &mut self,
        subject: &str,
        predicate: &str,
        object: Value,
        valid_from: Instant,
        embedding: Vec<u32>,
    ) -> (r: Result<FactId, KronroeError>)
        requires
            old(self).wf(),
        ensures
            final(self).wf(),
            final(self).links() == old(self).links(),
            r is Err <==> insert_refused(old(self).index().dimension(), embedding@.len()),
            r is Err ==> r->Err_0 is InvalidEmbedding && final(self).rows() == old(self).rows()
                && final(self).index() == old(self).index(),
            r is Ok ==> asserted(
                old(self).rows(),
                final(self).rows(),
                r->Ok_0@,
                subject@,
                predicate@,
                object,
                valid_from,
            ) && final(self).index().dimension() == Some(embedding@.len() as usize) && final(self).index().entries() == upsert(old(self).index().entries(), (r->Ok_0@, embedding@)),
    {
        if embedding.len() == 0 {
            return Err(empty_embedding());
        }
        match self.vector_index.dim() {
            Some(d) => {
                if embedding.len() != d {
                    return Err(dimension_mismatch(d, embedding.len()));
                }
            },
            None => {},
        }
        let fact = Fact::new(subject, predicate, object, valid_from);
        let id = self.record(fact);
        let mirrored = self.vector_index.insert(id.duplicate(), embedding);
        assert(mirrored is Ok);
        Ok(id)
    }

    /// Full-text search over subjects, predicates, aliases and textual
    /// objects: the facts whose document matches the query, best first.
    ///
    /// A query of white space only, a limit of zero and an empty store give
    /// no fact. Otherwise every fact is indexed under its content, the query
    /// is run with the fuzzy fallback, and the ids that come back, each once,
    /// are turned into facts in rank order.
    pub fn search(&self, query: &str, limit: usize) -> (r: Result<Vec<Fact>, KronroeError>)
        ensures
            blank(query@) || limit == 0 || self.rows().len() == 0 ==> r is Ok && r->Ok_0@.len() == 0,
            r is Ok ==> r->Ok_0@.len() <= limit,
            r is Ok ==> forall|i: int|
                0 <= i < r->Ok_0@.len() ==> select(
                    self.rows(),
                    Seq::empty(),
                    TimeFilter::All,
                ).contains(#[trigger] r->Ok_0@[i]),
            r is Ok ==> exists|ids: Seq<Seq<char>>|
                ids.len() <= limit && ids.no_duplicates() && r->Ok_0@ == #[trigger] found_by(
                    select(self.rows(), Seq::empty(), TimeFilter::All),
                    ids,
                ),
            r is Ok ==> forall|i: int, j: int|
                0 <= i < j < r->Ok_0@.len() ==> (#[trigger] r->Ok_0@[i]).id@ != (
                #[trigger] r->Ok_0@[j]).id@,
            r is Err ==> r->Err_0 is Search,
    {
        if is_blank(query) || limit == 0 {
            assert(Seq::<Fact>::empty() == found_by(
                select(self.rows(), Seq::empty(), TimeFilter::All),
                Seq::<Seq<char>>::empty(),
            ));
            return Ok(Vec::new());
        }
        let facts = self.facts_matching(TimeFilter::All);
        if facts.len() == 0 {
            assert(Seq::<Fact>::empty() == found_by(facts@, Seq::<Seq<char>>::empty()));
            return Ok(Vec::new());
        }
        let docs = search_documents(&facts);
        match lexical_hits(&docs, query, limit) {
            Err(e) => Err(e),
            Ok(hits) => {
                let ids = unique_ids(&hits);
                proof {
                    lemma_hydrated_within(facts@, texts(ids@), ids@.len() as int);
                    lemma_hydrated_distinct(facts@, texts(ids@), ids@.len() as int);
                }
                let found = hydrate_hits(&facts, &ids);
                assert(found@ == found_by(facts@, texts(ids@)));
                Ok(found)
            },
        }
    }

    /// The facts that ranked ids stand for, in rank order.
    ///
    /// Fails with not-found where an id has no fact.
    pub fn facts_for(&self, ranked: &Vec<Scored>) -> (r: Result<Vec<Fact>, KronroeError>)
        ensures
            r is Ok <==> forall|i: int|
                0 <= i < ranked@.len() ==> holds_id(self.rows(), (#[trigger] ranked@[i]).id@),
            r is Ok ==> r->Ok_0@.len() == ranked@.len() && forall|i: int|
                0 <= i < ranked@.len() ==> #[trigger] r->Ok_0@[i] == self.rows()[locate(
                    self.rows(),
                    ranked@[i].id@,
                    0,
                )].1,
            r is Err ==> r->Err_0 is NotFound,
    {
        let mut out: Vec<Fact> = Vec::new();
        let mut i: usize = 0;
        while i < ranked.len()
            invariant
                i <= ranked@.len(),
                out@.len() == i,
                forall|j: int| 0 <= j < i ==> holds_id(self.rows(), (#[trigger] ranked@[j]).id@),
                forall|j: int|
                    0 <= j < i ==> #[trigger] out@[j] == self.rows()[locate(
                        self.rows(),
                        ranked@[j].id@,
                        0,
                    )].1,
            decreases ranked@.len() - i,
        {
            match self.fact_by_id(&ranked[i].id) {
                Err(e) => {
                    return Err(e);
                },
                Ok(f) => {
                    out.push(f);
                },
            }
            i += 1;
        }
        Ok(out)
    }

    /// The idempotency rows, for persisting: each key with the id it stands
    /// for, in order of first use.
    pub fn idempotency_rows(&self) -> (r: Vec<KeyLink>)
        ensures
            links_of(r@) == self.links(),
    {
        let mut out: Vec<KeyLink> = Vec::new();
        let mut i: usize = 0;
        while i < self.idempotency.len()
            invariant
                i <= self.idempotency@.len(),
                out@.len() == i,
                forall|j: int|
                    0 <= j < i ==> (#[trigger] out@[j]).key@ == self.idempotency@[j].key@ && out@[j].id@
                        == self.idempotency@[j].id@,
            decreases self.idempotency@.len() - i,
        {
            let link = KeyLink {
                key: self.idempotency[i].key.clone(),
                id: self.idempotency[i].id.duplicate(),
            };
            out.push(link);
            i += 1;
        }
        assert(links_of(out@) =~= self.links());
        out
    }

    /// The embedding rows, for persisting: each indexed id with its packed
    /// embedding, in index order.
    pub fn embedding_rows(&self) -> (r: Vec<EmbeddingRow>)
        ensures
            r@.len() == self.index().entries().len(),
            forall|i: int|
                0 <= i < r@.len() ==> (#[trigger] r@[i]).id@ == self.index().entries()[i].0
                    && r@[i].bytes@ == packed(self.index().entries()[i].1),
    {
        let entries = self.vector_index.all_entries();
        let mut out: Vec<EmbeddingRow> = Vec::new();
        let mut i: usize = 0;
        while i < entries.len()
            invariant
                i <= entries@.len(),
                out@.len() == i,
                entry_views(entries@) == self.index().entries(),
                forall|j: int|
                    0 <= j < i ==> (#[trigger] out@[j]).id@ == self.index().entries()[j].0
                        && out@[j].bytes@ == packed(self.index().entries()[j].1),
            decreases entries@.len() - i,
        {
            assert(entry_views(entries@)[i as int] == entries@[i as int]@);
            let row = EmbeddingRow {
                id: entries[i].id.to_text(),
                bytes: encode_embedding(&entries[i].embedding),
            };
            out.push(row);
            i += 1;
        }
        out
    }

    /// The established embedding dimension, if any.
    pub fn embedding_dim(&self) -> (r: Option<usize>)
        ensures
            r == self.index().dimension(),
    {
        self.vector_index.dim()
    }
}

} // verus!
