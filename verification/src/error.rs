//! The error kinds that store operations report.

use vstd::prelude::*;
use vstd::string::*;

verus! {

/// What went wrong in a store operation. Each variant carries a message.
#[derive(Debug, Clone)]
pub enum KronroeError {
    /// The durable substrate failed or held a corrupt row.
    Storage(String),
    /// A row could not be serialised or deserialised.
    Serialization(String),
    /// No fact has the requested id.
    NotFound(String),
    /// The lexical index, the query parser or the ranker parameters failed.
    Search(String),
    /// An embedding was empty or of the wrong dimension.
    InvalidEmbedding(String),
    /// A lock was poisoned.
    Internal(String),
}

impl KronroeError {
    /// The text that stands before the message of each kind.
    pub open spec fn prefix(self) -> Seq<char> {
        match self {
            KronroeError::Storage(_) => "storage error: "@,
            KronroeError::Serialization(_) => "serialization error: "@,
            KronroeError::NotFound(_) => "not found: "@,
            KronroeError::Search(_) => "search error: "@,
            KronroeError::InvalidEmbedding(_) => "invalid embedding: "@,
            KronroeError::Internal(_) => "internal error: "@,
        }
    }

    /// The message carried by the error, without its kind.
    pub open spec fn detail(self) -> Seq<char> {
        match self {
            KronroeError::Storage(m) => m@,
            KronroeError::Serialization(m) => m@,
            KronroeError::NotFound(m) => m@,
            KronroeError::Search(m) => m@,
            KronroeError::InvalidEmbedding(m) => m@,
            KronroeError::Internal(m) => m@,
        }
    }

    /// The error as one line of text: the kind, a colon, and the message.
    pub fn message(&self) -> (r: String)
        ensures
            r@ == self.prefix() + self.detail(),
    {
        match self {
            KronroeError::Storage(m) => String::from_str("storage error: ").concat(m.as_str()),
            KronroeError::Serialization(m) => String::from_str("serialization error: ").concat(
                m.as_str(),
            ),
            KronroeError::NotFound(m) => String::from_str("not found: ").concat(m.as_str()),
            KronroeError::Search(m) => String::from_str("search error: ").concat(m.as_str()),
            KronroeError::InvalidEmbedding(m) => String::from_str("invalid embedding: ").concat(
                m.as_str(),
            ),
            KronroeError::Internal(m) => String::from_str("internal error: ").concat(m.as_str()),
        }
    }
}

/// The error for an embedding whose length differs from the established
/// dimension.
pub fn dimension_mismatch(expected: usize, got: usize) -> (r: KronroeError)
    ensures
        r is InvalidEmbedding,
{
    let mut m = String::from_str("embedding dimension mismatch: expected ");
    m.append(expected.to_string().as_str());
    m.append(", got ");
    m.append(got.to_string().as_str());
    KronroeError::InvalidEmbedding(m)
}

/// The error for a query whose length differs from the established
/// dimension.
pub fn query_mismatch(dim: usize, got: usize) -> (r: KronroeError)
    ensures
        r is InvalidEmbedding,
{
    let mut m = String::from_str("query dimension mismatch: index has dim ");
    m.append(dim.to_string().as_str());
    m.append(", query has ");
    m.append(got.to_string().as_str());
    KronroeError::InvalidEmbedding(m)
}

/// The error for an embedding without components, with the fixed message
/// "embedding must not be empty".
pub fn empty_embedding() -> (r: KronroeError)
    ensures
        r is InvalidEmbedding,
        r.detail() == "embedding must not be empty"@,
{
    KronroeError::InvalidEmbedding(String::from_str("embedding must not be empty"))
}

/// The character of a decimal digit.
pub open spec fn digit_char(d: nat) -> char {
    if d == 0 {
        '0'
    } else if d == 1 {
        '1'
    } else if d == 2 {
        '2'
    } else if d == 3 {
        '3'
    } else if d == 4 {
        '4'
    } else if d == 5 {
        '5'
    } else if d == 6 {
        '6'
    } else if d == 7 {
        '7'
    } else if d == 8 {
        '8'
    } else {
        '9'
    }
}

/// The decimal numeral of a number, without leading zeros.
pub open spec fn decimal(n: nat) -> Seq<char>
    decreases n,
{
    if n < 10 {
        seq![digit_char(n)]
    } else {
        decimal(n / 10).push(digit_char(n % 10))
    }
}

/// The message for a persisted embedding of fact `id` whose byte length is no
/// multiple of four.
pub open spec fn corrupt_text(id: Seq<char>, byte_len: nat) -> Seq<char> {
    "corrupt embedding for fact "@ + id + ": byte length "@ + decimal(byte_len)
        + " is not a multiple of 4"@
}

fn digit_text(d: usize) -> (r: &'static str)
    requires
        d < 10,
    ensures
        r@ == seq![digit_char(d as nat)],
{
    proof {
        reveal_strlit("0");
        reveal_strlit("1");
        reveal_strlit("2");
        reveal_strlit("3");
        reveal_strlit("4");
        reveal_strlit("5");
        reveal_strlit("6");
        reveal_strlit("7");
        reveal_strlit("8");
        reveal_strlit("9");
    }
    let r = if d == 0 {
        "0"
    } else if d == 1 {
        "1"
    } else if d == 2 {
        "2"
    } else if d == 3 {
        "3"
    } else if d == 4 {
        "4"
    } else if d == 5 {
        "5"
    } else if d == 6 {
        "6"
    } else if d == 7 {
        "7"
    } else if d == 8 {
        "8"
    } else {
        "9"
    };
    assert(r@ =~= seq![digit_char(d as nat)]);
    r
}

/// The decimal numeral of a number.
pub fn decimal_text(n: usize) -> (r: String)
    ensures
        r@ == decimal(n as nat),
    decreases n,
{
    if n < 10 {
        String::from_str(digit_text(n))
    } else {
        let mut s = decimal_text(n / 10);
        s.append(digit_text(n % 10));
        assert(s@ =~= decimal((n / 10) as nat).push(digit_char((n % 10) as nat)));
        s
    }
}

/// The error for a persisted embedding whose byte length is no multiple of
/// four: a storage error that names the fact and the length.
pub fn corrupt_embedding(id: &str, byte_len: usize) -> (r: KronroeError)
    ensures
        r is Storage,
        r.detail() == corrupt_text(id@, byte_len as nat),
{
    let mut m = String::from_str("corrupt embedding for fact ");
    m.append(id);
    m.append(": byte length ");
    m.append(decimal_text(byte_len).as_str());
    m.append(" is not a multiple of 4");
    KronroeError::Storage(m)
}

/// The error for an id that no fact has, with the message "fact id " and the
/// id.
pub fn unknown_fact(id: &str) -> (r: KronroeError)
    ensures
        r is NotFound,
        r.detail() == "fact id "@ + id@,
{
    KronroeError::NotFound(String::from_str("fact id ").concat(id))
}

} // verus!
