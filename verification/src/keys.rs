//! Row keys of the fact table: how they are composed, matched against a
//! prefix, and ordered.

use vstd::prelude::*;
use vstd::string::*;

verus! {

/// The key of a fact row: subject, predicate and id, joined by colons.
pub open spec fn fact_key(subject: Seq<char>, predicate: Seq<char>, id: Seq<char>) -> Seq<char> {
    subject + seq![':'] + predicate + seq![':'] + id
}

/// The prefix shared by the keys of every fact about a subject.
pub open spec fn subject_prefix(subject: Seq<char>) -> Seq<char> {
    subject + seq![':']
}

/// The prefix shared by the keys of every fact of a subject and predicate.
pub open spec fn pair_prefix(subject: Seq<char>, predicate: Seq<char>) -> Seq<char> {
    subject + seq![':'] + predicate + seq![':']
}

/// `prefix` is an initial segment of `text`.
pub open spec fn is_prefix(prefix: Seq<char>, text: Seq<char>) -> bool {
    prefix.len() <= text.len() && forall|j: int| 0 <= j < prefix.len() ==> text[j] == prefix[j]
}

/// The first position at or after `from` where `a` and `b` differ or one of
/// them ends.
pub open spec fn mismatch(a: Seq<char>, b: Seq<char>, from: int) -> int
    decreases a.len() - from,
{
    if from < 0 || from >= a.len() || from >= b.len() || a[from] != b[from] {
        from
    } else {
        mismatch(a, b, from + 1)
    }
}

/// `a` comes strictly before `b` in lexicographic order of code points, which
/// is the byte order of the two texts in UTF-8.
pub open spec fn key_less(a: Seq<char>, b: Seq<char>) -> bool {
    let d = mismatch(a, b, 0);
    d < b.len() && (d == a.len() || (d < a.len() && a[d] < b[d]))
}

/// What `mismatch` finds: everything before it agrees, and it lies within both
/// texts only at a real difference.
pub proof fn lemma_mismatch(a: Seq<char>, b: Seq<char>, from: int)
    requires
        0 <= from <= a.len(),
        from <= b.len(),
    ensures
        from <= mismatch(a, b, from) <= a.len(),
        mismatch(a, b, from) <= b.len(),
        forall|j: int| from <= j < mismatch(a, b, from) ==> a[j] == b[j],
        mismatch(a, b, from) < a.len() && mismatch(a, b, from) < b.len() ==> a[mismatch(
            a,
            b,
            from,
        )] != b[mismatch(a, b, from)],
        mismatch(a, b, from) == mismatch(b, a, from),
    decreases a.len() - from,
{
    if from >= a.len() || from >= b.len() || a[from] != b[from] {
    } else {
        lemma_mismatch(a, b, from + 1);
    }
}

/// The key order is total: two keys that are not ordered either way are equal.
pub proof fn lemma_key_order_total(a: Seq<char>, b: Seq<char>)
    ensures
        key_less(a, b) || key_less(b, a) || a == b,
        !(key_less(a, b) && key_less(b, a)),
        !key_less(a, a),
{
    lemma_mismatch(a, b, 0);
    lemma_mismatch(b, a, 0);
    lemma_mismatch(a, a, 0);
    let d = mismatch(a, b, 0);
    if !key_less(a, b) && !key_less(b, a) {
        if d < a.len() && d < b.len() {
            assert(a[d] != b[d]);
        }
        assert(a =~= b);
    }
}

/// The key order is transitive.
pub proof fn lemma_key_order_transitive(a: Seq<char>, b: Seq<char>, c: Seq<char>)
    requires
        key_less(a, b),
        key_less(b, c),
    ensures
        key_less(a, c),
{
    lemma_mismatch(a, b, 0);
    lemma_mismatch(b, c, 0);
    lemma_mismatch(a, c, 0);
    let d1 = mismatch(a, b, 0);
    let d2 = mismatch(b, c, 0);
    let d = mismatch(a, c, 0);
    let m = if d1 < d2 {
        d1
    } else {
        d2
    };
    assert(forall|j: int| 0 <= j < m ==> a[j] == c[j]);
    if d < m {
        assert(a[d] == c[d]);
    }
    if d > m {
        assert(a[m] == c[m]);
    }
}

/// The key under which a fact is stored.
pub fn compose_key(subject: &str, predicate: &str, id: &str) -> (r: String)
    ensures
        r@ == fact_key(subject@, predicate@, id@),
{
    proof {
        reveal_strlit(":");
        assert(":"@ =~= seq![':']);
    }
    let mut k = String::from_str(subject);
    k.append(":");
    k.append(predicate);
    k.append(":");
    k.append(id);
    k
}

/// The scan prefix for every fact about a subject.
pub fn compose_subject_prefix(subject: &str) -> (r: String)
    ensures
        r@ == subject_prefix(subject@),
{
    proof {
        reveal_strlit(":");
        assert(":"@ =~= seq![':']);
    }
    let mut k = String::from_str(subject);
    k.append(":");
    k
}

/// The scan prefix for every fact of a subject and predicate.
pub fn compose_pair_prefix(subject: &str, predicate: &str) -> (r: String)
    ensures
        r@ == pair_prefix(subject@, predicate@),
{
    proof {
        reveal_strlit(":");
        assert(":"@ =~= seq![':']);
    }
    let mut k = String::from_str(subject);
    k.append(":");
    k.append(predicate);
    k.append(":");
    k
}

/// Whether `text` begins with `prefix`.
pub fn starts_with(text: &str, prefix: &str) -> (r: bool)
    ensures
        r == is_prefix(prefix@, text@),
{
    let n = prefix.unicode_len();
    let m = text.unicode_len();
    if n > m {
        return false;
    }
    let mut i: usize = 0;
    while i < n
        invariant
            i <= n <= m,
            n == prefix@.len(),
            m == text@.len(),
            forall|j: int| 0 <= j < i ==> text@[j] == prefix@[j],
        decreases n - i,
    {
        if text.get_char(i) != prefix.get_char(i) {
            return false;
        }
        i += 1;
    }
    true
}

/// Whether two texts are the same.
pub fn same_text(a: &str, b: &str) -> (r: bool)
    ensures
        r == (a@ == b@),
{
    let r = starts_with(a, b) && starts_with(b, a);
    assert(r ==> a@ =~= b@);
    r
}

/// Whether key `a` sorts strictly before key `b`.
pub fn key_precedes(a: &str, b: &str) -> (r: bool)
    ensures
        r == key_less(a@, b@),
{
    let n = a.unicode_len();
    let m = b.unicode_len();
    let mut i: usize = 0;
    while i < n && i < m
        invariant
            i <= n,
            i <= m,
            n == a@.len(),
            m == b@.len(),
            mismatch(a@, b@, 0) == mismatch(a@, b@, i as int),
        decreases n - i,
    {
        let x = a.get_char(i);
        let y = b.get_char(i);
        if x != y {
            return x < y;
        }
        i += 1;
    }
    i == n && i < m
}

} // verus!
