//! The fact model: identifiers, object values, facts and their two time axes.

use vstd::prelude::*;
use vstd::string::*;
use crate::instant::{current_instant, Instant};

verus! {

/// The bit pattern of the single-precision number 1.0: full confidence.
pub const FULL_CONFIDENCE: u32 = 0x3F80_0000;

/// A character of the Crockford base-32 alphabet: a digit or an upper-case
/// letter other than I, L, O and U.
pub open spec fn is_id_char(c: char) -> bool {
    ('0' <= c && c <= '9') || ('A' <= c && c <= 'Z' && c != 'I' && c != 'L' && c != 'O' && c
        != 'U')
}

/// A stable, time-sortable identifier of a fact. Equality is over the text.
#[derive(Debug, Clone, PartialEq, Eq, Hash)]
pub struct FactId(pub String);

impl View for FactId {
    type V = Seq<char>;

    open spec fn view(&self) -> Seq<char> {
        self.0@
    }
}

impl FactId {
    /// A fresh identifier: 26 characters of the Crockford alphabet that encode
    /// the current millisecond and a random tail.
    ///
    /// Calls `ulid::Ulid::new` and `Ulid::to_string`. The value depends on the
    /// clock and on a random source, so only its shape is stated.
    #[verifier::external_body]
    pub fn new() -> (r: FactId)
        ensures
            r@.len() == 26,
            forall|i: int| 0 <= i < 26 ==> is_id_char(#[trigger] r@[i]),
    {
        FactId(ulid::Ulid::new().to_string())
    }

    /// An identifier with the given text.
    pub fn from_text(text: &str) -> (r: FactId)
        ensures
            r@ == text@,
    {
        FactId(String::from_str(text))
    }

    /// A copy of the identifier.
    pub fn duplicate(&self) -> (r: FactId)
        ensures
            r == *self,
    {
        FactId(self.0.clone())
    }

    /// Whether two identifiers hold the same text.
    pub fn same_as(&self, other: &FactId) -> (r: bool)
        ensures
            r == (self@ == other@),
    {
        self.0 == other.0
    }

    /// The identifier's text.
    pub fn to_text(&self) -> (r: String)
        ensures
            r@ == self@,
    {
        self.0.clone()
    }
}

impl Default for FactId {
    fn default() -> (r: FactId)
        ensures
            r@.len() == 26,
    {
        FactId::new()
    }
}

/// What a fact states of its subject: a scalar or a reference to an entity.
#[derive(Debug, Clone)]
pub enum Value {
    /// A text string.
    Text(String),
    /// A number, held as the bit pattern of a double-precision value.
    Number(u64),
    /// A boolean.
    Boolean(bool),
    /// A reference to another entity by name.
    Entity(String),
}

impl Value {
    /// A text value.
    pub fn text(s: &str) -> (r: Value)
        ensures
            r matches Value::Text(t) && t@ == s@,
    {
        Value::Text(String::from_str(s))
    }

    /// An entity reference.
    pub fn entity(s: &str) -> (r: Value)
        ensures
            r matches Value::Entity(t) && t@ == s@,
    {
        Value::Entity(String::from_str(s))
    }

    /// The text of a `Text` or `Entity` value; nothing for the other kinds.
    pub open spec fn textual(self) -> Option<Seq<char>> {
        match self {
            Value::Text(s) => Some(s@),
            Value::Entity(s) => Some(s@),
            _ => None,
        }
    }

    /// The text of a `Text` or `Entity` value.
    pub fn as_text(&self) -> (r: Option<String>)
        ensures
            r is Some == self.textual() is Some,
            r is Some ==> r->0@ == self.textual()->0,
    {
        match self {
            Value::Text(s) => Some(s.clone()),
            Value::Entity(s) => Some(s.clone()),
            _ => None,
        }
    }

    /// A copy of the value.
    pub fn duplicate(&self) -> (r: Value)
        ensures
            r == *self,
    {
        match self {
            Value::Text(s) => Value::Text(s.clone()),
            Value::Number(n) => Value::Number(*n),
            Value::Boolean(b) => Value::Boolean(*b),
            Value::Entity(s) => Value::Entity(s.clone()),
        }
    }
}

impl From<String> for Value {
    fn from(s: String) -> (r: Value) {
        Value::Text(s)
    }
}

impl vstd::std_specs::convert::FromSpecImpl<String> for Value {
    open spec fn obeys_from_spec() -> bool {
        true
    }

    open spec fn from_spec(s: String) -> Value {
        Value::Text(s)
    }
}

impl From<bool> for Value {
    fn from(b: bool) -> (r: Value) {
        Value::Boolean(b)
    }
}

impl vstd::std_specs::convert::FromSpecImpl<bool> for Value {
    open spec fn obeys_from_spec() -> bool {
        true
    }

    open spec fn from_spec(b: bool) -> Value {
        Value::Boolean(b)
    }
}

/// A bi-temporal subject-predicate-object record.
///
/// Valid time (`valid_from`, `valid_to`) says when the fact held in the world;
/// transaction time (`recorded_at`, `expired_at`) says when the store believed
/// it. Both intervals are half-open: the start is included, the end is not.
#[derive(Debug, Clone)]
pub struct Fact {
    pub id: FactId,
    pub subject: String,
    pub predicate: String,
    pub object: Value,
    pub valid_from: Instant,
    pub valid_to: Option<Instant>,
    pub recorded_at: Instant,
    pub expired_at: Option<Instant>,
    /// Confidence in [0, 1], as the bit pattern of a single-precision value.
    pub confidence: u32,
    pub source: Option<String>,
}

impl Fact {
    /// Both closing timestamps are unset.
    pub open spec fn currently_valid(self) -> bool {
        self.valid_to is None && self.expired_at is None
    }

    /// The fact's valid-time and transaction-time intervals both contain `at`.
    pub open spec fn valid_at(self, at: Instant) -> bool {
        &&& self.valid_from.not_after(at)
        &&& (self.valid_to matches Some(t) ==> at.earlier_than(t))
        &&& (self.expired_at matches Some(t) ==> at.earlier_than(t))
    }

    /// The fact that an assertion creates: open on both axes, with full
    /// confidence and no source.
    pub open spec fn is_fresh(
        self,
        subject: Seq<char>,
        predicate: Seq<char>,
        object: Value,
        valid_from: Instant,
    ) -> bool {
        &&& self.subject@ == subject
        &&& self.predicate@ == predicate
        &&& self.object == object
        &&& self.valid_from == valid_from
        &&& self.valid_to is None
        &&& self.expired_at is None
        &&& self.confidence == FULL_CONFIDENCE
        &&& self.source is None
    }

    /// The fact closed at `at` on both axes, everything else kept.
    pub open spec fn closed_at(self, at: Instant) -> Fact {
        Fact { valid_to: Some(at), expired_at: Some(at), ..self }
    }

    /// A fact with the given identity and recording time, open on both axes.
    pub fn assemble(
        id: FactId,
        recorded_at: Instant,
        subject: &str,
        predicate: &str,
        object: Value,
        valid_from: Instant,
    ) -> (r: Fact)
        ensures
            r.id == id,
            r.recorded_at == recorded_at,
            r.is_fresh(subject@, predicate@, object, valid_from),
    {
        Fact {
            id,
            subject: String::from_str(subject),
            predicate: String::from_str(predicate),
            object,
            valid_from,
            valid_to: None,
            recorded_at,
            expired_at: None,
            confidence: FULL_CONFIDENCE,
            source: None,
        }
    }

    /// A new fact with a fresh identifier, recorded now.
    pub fn new(subject: &str, predicate: &str, object: Value, valid_from: Instant) -> (r: Fact)
        ensures
            r.is_fresh(subject@, predicate@, object, valid_from),
            r.id@.len() == 26,
            forall|i: int| 0 <= i < 26 ==> is_id_char(#[trigger] r.id@[i]),
    {
        let id = FactId::new();
        let recorded_at = current_instant();
        Fact::assemble(id, recorded_at, subject, predicate, object, valid_from)
    }

    /// Whether the fact is open on both time axes.
    pub fn is_currently_valid(&self) -> (r: bool)
        ensures
            r == self.currently_valid(),
    {
        self.valid_to.is_none() && self.expired_at.is_none()
    }

    /// Whether the fact held, and was believed, at `at`.
    pub fn was_valid_at(&self, at: Instant) -> (r: bool)
        ensures
            r == self.valid_at(at),
    {
        let open_in_world = match &self.valid_to {
            None => true,
            Some(t) => at.is_before(t),
        };
        let open_in_store = match &self.expired_at {
            None => true,
            Some(t) => at.is_before(t),
        };
        self.valid_from.is_at_or_before(&at) && open_in_world && open_in_store
    }

    /// The fact with both closing timestamps set to `at`.
    pub fn invalidated(self, at: Instant) -> (r: Fact)
        ensures
            r == self.closed_at(at),
    {
        let mut f = self;
        f.valid_to = Some(at);
        f.expired_at = Some(at);
        f
    }

    /// A copy of the fact.
    pub fn duplicate(&self) -> (r: Fact)
        ensures
            r == *self,
    {
        let source = match &self.source {
            None => None,
            Some(s) => Some(s.clone()),
        };
        Fact {
            id: self.id.duplicate(),
            subject: self.subject.clone(),
            predicate: self.predicate.clone(),
            object: self.object.duplicate(),
            valid_from: self.valid_from,
            valid_to: self.valid_to,
            recorded_at: self.recorded_at,
            expired_at: self.expired_at,
            confidence: self.confidence,
            source,
        }
    }
}

/// A fact that is open on both axes is valid at every instant from its
/// `valid_from` on.
pub proof fn lemma_open_fact_valid_from_start(f: Fact, t: Instant)
    requires
        f.valid_from.not_after(t),
        f.valid_to is None,
        f.expired_at is None,
    ensures
        f.valid_at(t),
{
}

/// The valid-time interval is half-open. A fact is not valid at its own
/// `valid_to`; where the store still believes it throughout, it is valid at
/// `valid_from` and at every instant from there up to, but not including,
/// `valid_to`.
pub proof fn lemma_half_open_interval(f: Fact, t: Instant)
    requires
        f.valid_to is Some,
    ensures
        !f.valid_at(f.valid_to->0),
        (f.valid_from.not_after(t) && t.earlier_than(f.valid_to->0) && (f.expired_at matches Some(
            e,
        ) ==> t.earlier_than(e))) ==> f.valid_at(t),
        (f.valid_from.earlier_than(f.valid_to->0) && (f.expired_at matches Some(e)
            ==> f.valid_from.earlier_than(e))) ==> f.valid_at(f.valid_from),
{
}

} // verus!
