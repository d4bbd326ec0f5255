//! The fact table as a mathematical object: rows in key order, what a scan
//! selects, where a row is found and where a new row goes.

use vstd::prelude::*;
use crate::fact::Fact;
use crate::instant::Instant;
use crate::keys::{fact_key, is_prefix, key_less, lemma_key_order_total};

verus! {

/// The temporal condition of a scan.
#[derive(Clone, Copy, Debug)]
pub enum TimeFilter {
    /// Every fact passes.
    All,
    /// Facts that are open on both time axes.
    Current,
    /// Facts that held, and were believed, at the instant.
    At(Instant),
}

/// Whether a fact meets the temporal condition.
pub open spec fn passes(f: Fact, filter: TimeFilter) -> bool {
    match filter {
        TimeFilter::All => true,
        TimeFilter::Current => f.currently_valid(),
        TimeFilter::At(t) => f.valid_at(t),
    }
}

/// The facts, in table order, whose key begins with `prefix` and which meet
/// the temporal condition.
pub open spec fn select(t: Seq<(Seq<char>, Fact)>, prefix: Seq<char>, filter: TimeFilter) -> Seq<
    Fact,
>
    decreases t.len(),
{
    if t.len() == 0 {
        Seq::empty()
    } else {
        let rest = select(t.drop_last(), prefix, filter);
        if is_prefix(prefix, t.last().0) && passes(t.last().1, filter) {
            rest.push(t.last().1)
        } else {
            rest
        }
    }
}

/// The first position at or after `from` whose fact has the id, or the
/// length where there is none.
pub open spec fn locate(t: Seq<(Seq<char>, Fact)>, id: Seq<char>, from: int) -> int
    decreases t.len() - from,
{
    if from < 0 || from >= t.len() || t[from].1.id@ == id {
        from
    } else {
        locate(t, id, from + 1)
    }
}

/// Some row holds a fact with the id.
pub open spec fn holds_id(t: Seq<(Seq<char>, Fact)>, id: Seq<char>) -> bool {
    locate(t, id, 0) < t.len()
}

/// The first position at or after `from` whose key does not sort before
/// `key`, or the length where every key does.
pub open spec fn slot_from(t: Seq<(Seq<char>, Fact)>, key: Seq<char>, from: int) -> int
    decreases t.len() - from,
{
    if from < 0 || from >= t.len() || !key_less(t[from].0, key) {
        from
    } else {
        slot_from(t, key, from + 1)
    }
}

/// The table after a row is written: the row with the same key replaced, or
/// the new row put at its place in key order.
pub open spec fn put(t: Seq<(Seq<char>, Fact)>, row: (Seq<char>, Fact)) -> Seq<(Seq<char>, Fact)> {
    let p = slot_from(t, row.0, 0);
    if p < t.len() && t[p].0 == row.0 {
        t.update(p, row)
    } else {
        t.insert(p, row)
    }
}

/// The row under which a fact is stored.
pub open spec fn row_of(f: Fact) -> (Seq<char>, Fact) {
    (fact_key(f.subject@, f.predicate@, f.id@), f)
}

/// The table after each of the facts, in turn, is written.
pub open spec fn put_all(t: Seq<(Seq<char>, Fact)>, facts: Seq<Fact>) -> Seq<(Seq<char>, Fact)>
    decreases facts.len(),
{
    if facts.len() == 0 {
        t
    } else {
        put(put_all(t, facts.drop_last()), row_of(facts.last()))
    }
}

/// Keys strictly ascend from each row to the next.
pub open spec fn sorted(t: Seq<(Seq<char>, Fact)>) -> bool {
    forall|i: int| 0 <= i && i + 1 < t.len() ==> key_less((#[trigger] t[i]).0, t[i + 1].0)
}

/// Every row's key is the key of its fact.
pub open spec fn keyed(t: Seq<(Seq<char>, Fact)>) -> bool {
    forall|i: int| 0 <= i < t.len() ==> #[trigger] t[i] == row_of(t[i].1)
}

/// The table after the fact at `p` is closed at `at` on both axes.
pub open spec fn close_row(t: Seq<(Seq<char>, Fact)>, p: int, at: Instant) -> Seq<
    (Seq<char>, Fact),
> {
    t.update(p, (t[p].0, t[p].1.closed_at(at)))
}

/// What `locate` finds: the first row with the id.
pub proof fn lemma_locate(t: Seq<(Seq<char>, Fact)>, id: Seq<char>, from: int)
    requires
        0 <= from <= t.len(),
    ensures
        from <= locate(t, id, from) <= t.len(),
        forall|j: int| from <= j < locate(t, id, from) ==> (#[trigger] t[j]).1.id@ != id,
        locate(t, id, from) < t.len() ==> t[locate(t, id, from)].1.id@ == id,
    decreases t.len() - from,
{
    if from >= t.len() || t[from].1.id@ == id {
    } else {
        lemma_locate(t, id, from + 1);
    }
}

/// What `slot_from` finds: every key before it sorts before `key`, and the
/// key at it does not.
pub proof fn lemma_slot(t: Seq<(Seq<char>, Fact)>, key: Seq<char>, from: int)
    requires
        0 <= from <= t.len(),
    ensures
        from <= slot_from(t, key, from) <= t.len(),
        forall|j: int| from <= j < slot_from(t, key, from) ==> key_less((#[trigger] t[j]).0, key),
        slot_from(t, key, from) < t.len() ==> !key_less(t[slot_from(t, key, from)].0, key),
    decreases t.len() - from,
{
    if from >= t.len() || !key_less(t[from].0, key) {
    } else {
        lemma_slot(t, key, from + 1);
    }
}

/// Writing a row keeps the table in key order and every row under its fact's
/// key.
pub proof fn lemma_put_keeps_order(t: Seq<(Seq<char>, Fact)>, f: Fact)
    requires
        sorted(t),
        keyed(t),
    ensures
        sorted(put(t, row_of(f))),
        keyed(put(t, row_of(f))),
{
    let row = row_of(f);
    let p = slot_from(t, row.0, 0);
    let nt = put(t, row);
    lemma_slot(t, row.0, 0);
    if p < t.len() && t[p].0 == row.0 {
        assert forall|i: int| 0 <= i && i + 1 < nt.len() implies key_less(
            (#[trigger] nt[i]).0,
            nt[i + 1].0,
        ) by {
            assert(key_less(t[i].0, t[i + 1].0));
        }
    } else {
        if p < t.len() {
            lemma_key_order_total(t[p].0, row.0);
        }
        assert forall|i: int| 0 <= i && i + 1 < nt.len() implies key_less(
            (#[trigger] nt[i]).0,
            nt[i + 1].0,
        ) by {
            if i + 1 < p {
                assert(key_less(t[i].0, t[i + 1].0));
            } else if i + 1 == p {
                assert(key_less(t[i].0, row.0));
            } else if i == p {
            } else {
                assert(key_less(t[i - 1].0, t[i].0));
            }
        }
    }
    assert forall|i: int| 0 <= i < nt.len() implies #[trigger] nt[i] == row_of(nt[i].1) by {
        if p < t.len() && t[p].0 == row.0 {
            if i != p {
                assert(t[i] == row_of(t[i].1));
            }
        } else {
            if i < p {
                assert(t[i] == row_of(t[i].1));
            } else if i > p {
                assert(t[i - 1] == row_of(t[i - 1].1));
            }
        }
    }
}

/// A fact is among those selected exactly when some row holds it under a key
/// with the prefix and it meets the temporal condition.
pub proof fn lemma_select_contains(
    t: Seq<(Seq<char>, Fact)>,
    prefix: Seq<char>,
    filter: TimeFilter,
    f: Fact,
)
    ensures
        select(t, prefix, filter).contains(f) <==> exists|i: int|
            0 <= i < t.len() && (#[trigger] t[i]).1 == f && is_prefix(prefix, t[i].0) && passes(
                f,
                filter,
            ),
    decreases t.len(),
{
    if t.len() == 0 {
    } else {
        let rest = select(t.drop_last(), prefix, filter);
        let n = t.len() - 1;
        lemma_select_contains(t.drop_last(), prefix, filter, f);
        let hit = is_prefix(prefix, t.last().0) && passes(t.last().1, filter);
        if select(t, prefix, filter).contains(f) {
            let k = choose|k: int|
                0 <= k < select(t, prefix, filter).len() && select(t, prefix, filter)[k] == f;
            if hit && k == rest.len() {
                assert(t[n].1 == f);
            } else {
                assert(rest[k] == f);
                assert(rest.contains(f));
                let i = choose|i: int|
                    0 <= i < t.drop_last().len() && (#[trigger] t.drop_last()[i]).1 == f
                        && is_prefix(prefix, t.drop_last()[i].0) && passes(f, filter);
                assert(t[i].1 == f);
            }
        }
        if exists|i: int|
            0 <= i < t.len() && (#[trigger] t[i]).1 == f && is_prefix(prefix, t[i].0) && passes(
                f,
                filter,
            ) {
            let i = choose|i: int|
                0 <= i < t.len() && (#[trigger] t[i]).1 == f && is_prefix(prefix, t[i].0)
                    && passes(f, filter);
            if i == n {
                assert(select(t, prefix, filter) == rest.push(f));
                assert(rest.push(f)[rest.len() as int] == f);
            } else {
                assert(t.drop_last()[i].1 == f);
                assert(rest.contains(f));
                let k = choose|k: int| 0 <= k < rest.len() && rest[k] == f;
                assert(select(t, prefix, filter)[k] == f);
            }
        }
    }
}

} // verus!
