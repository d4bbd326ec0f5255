//! What the store's operations guarantee of one another: a fact that was
//! asserted is found again, an invalidated fact leaves the current view and
//! stays in the past, and a correction keeps both facts.

use vstd::prelude::*;
use crate::fact::{Fact, Value};
use crate::graph::asserted;
use crate::instant::Instant;
use crate::keys::{fact_key, is_prefix, key_less, lemma_key_order_transitive, pair_prefix};
use crate::table::{close_row, holds_id, keyed, lemma_locate, lemma_select_contains, lemma_slot, locate, put, put_all, row_of, select, slot_from, sorted, TimeFilter};

verus! {

/// A fact's key begins with the scan prefix of its subject and predicate.
pub proof fn lemma_key_has_pair_prefix(subject: Seq<char>, predicate: Seq<char>, id: Seq<char>)
    ensures
        is_prefix(pair_prefix(subject, predicate), fact_key(subject, predicate, id)),
        is_prefix(crate::keys::subject_prefix(subject), fact_key(subject, predicate, id)),
{
}

/// Where a written row lands: it stands at its slot, the rows before the slot
/// keep their place, and the rows after it keep their order.
pub proof fn lemma_put_rows(t: Seq<(Seq<char>, Fact)>, row: (Seq<char>, Fact))
    ensures
        ({
            let q = slot_from(t, row.0, 0);
            let after = put(t, row);
            let replaced = q < t.len() && t[q].0 == row.0;
            &&& 0 <= q <= t.len()
            &&& after.len() == if replaced { t.len() } else { t.len() + 1 }
            &&& after[q] == row
            &&& forall|j: int| 0 <= j < q ==> after[j] == t[j]
            &&& replaced ==> forall|j: int| q < j < t.len() ==> after[j] == t[j]
            &&& !replaced ==> forall|j: int| q <= j < t.len() ==> after[j + 1] == t[j]
        }),
{
    lemma_slot(t, row.0, 0);
}

/// Writing a row under another id leaves the first row with a given id where
/// it was in the order, unless that very row was replaced.
pub proof fn lemma_locate_after_put(t: Seq<(Seq<char>, Fact)>, row: (Seq<char>, Fact), id: Seq<char>)
    requires
        row.1.id@ != id,
        holds_id(t, id),
        ({
            let q = slot_from(t, row.0, 0);
            !(q == locate(t, id, 0) && t[q].0 == row.0)
        }),
    ensures
        holds_id(put(t, row), id),
        put(t, row)[locate(put(t, row), id, 0)] == t[locate(t, id, 0)],
{
    let q = slot_from(t, row.0, 0);
    let after = put(t, row);
    let replaced = q < t.len() && t[q].0 == row.0;
    let p = locate(t, id, 0);
    lemma_put_rows(t, row);
    lemma_locate(t, id, 0);
    lemma_locate(after, id, 0);
    let np = if p < q || (replaced && p > q) {
        p
    } else {
        p + 1
    };
    if p < q {
        assert(after[np] == t[p]);
    } else if replaced {
        assert(after[np] == t[p]);
    } else {
        assert(after[p + 1] == t[p]);
    }
    let r = locate(after, id, 0);
    assert(r <= np);
    if r < np {
        if r < q {
            assert(after[r] == t[r]);
        } else if r == q {
        } else if replaced {
            assert(after[r] == t[r]);
        } else {
            assert(after[(r - 1) + 1] == t[r - 1]);
        }
    }
}

/// A fact asserted under an id that no row held is then found by that id, and
/// it is the fact that was asserted: the given subject, predicate, object and
/// start of validity, open on both axes.
pub proof fn lemma_asserted_fact_is_found(
    before: Seq<(Seq<char>, Fact)>,
    after: Seq<(Seq<char>, Fact)>,
    id: Seq<char>,
    subject: Seq<char>,
    predicate: Seq<char>,
    object: Value,
    valid_from: Instant,
)
    requires
        asserted(before, after, id, subject, predicate, object, valid_from),
        !holds_id(before, id),
    ensures
        holds_id(after, id),
        after[locate(after, id, 0)].1.is_fresh(subject, predicate, object, valid_from),
        after[locate(after, id, 0)].1.id@ == id,
{
    let f = choose|f: Fact|
        #![trigger f.is_fresh(subject, predicate, object, valid_from)]
        f.is_fresh(subject, predicate, object, valid_from) && f.id@ == id && after == put(
            before,
            row_of(f),
        );
    let row = row_of(f);
    let q = slot_from(before, row.0, 0);
    lemma_put_rows(before, row);
    lemma_locate(before, id, 0);
    lemma_locate(after, id, 0);
    let r = locate(after, id, 0);
    assert(after[q].1.id@ == id);
    assert(r <= q);
    if r < q {
        assert(after[r] == before[r]);
    }
}

/// After a currently valid fact is invalidated at `at`, the current view of
/// its subject and predicate no longer shows it, a point-in-time view shows
/// it at every instant from its `valid_from` up to but not including `at`,
/// and no point-in-time view shows it from `at` on.
pub proof fn lemma_invalidated_fact_visibility(
    t: Seq<(Seq<char>, Fact)>,
    p: int,
    at: Instant,
    when: Instant,
)
    requires
        keyed(t),
        0 <= p < t.len(),
        t[p].1.currently_valid(),
    ensures
        ({
            let was = t[p].1;
            let closed = was.closed_at(at);
            let after = close_row(t, p, at);
            let prefix = pair_prefix(was.subject@, was.predicate@);
            &&& !select(after, prefix, TimeFilter::Current).contains(closed)
            &&& was.valid_from.not_after(when) && when.earlier_than(at) ==> select(
                after,
                prefix,
                TimeFilter::At(when),
            ).contains(closed)
            &&& at.not_after(when) ==> !select(after, prefix, TimeFilter::At(when)).contains(closed)
            &&& (forall|j: int| 0 <= j < t.len() && j != p ==> (#[trigger] t[j]).1.id@ != was.id@)
                ==> forall|f: Fact|
                select(after, prefix, TimeFilter::Current).contains(f) ==> f.id@ != was.id@
        }),
{
    let was = t[p].1;
    let closed = was.closed_at(at);
    let after = close_row(t, p, at);
    let prefix = pair_prefix(was.subject@, was.predicate@);
    lemma_select_contains(after, prefix, TimeFilter::Current, closed);
    lemma_select_contains(after, prefix, TimeFilter::At(when), closed);
    assert(t[p] == row_of(was));
    lemma_key_has_pair_prefix(was.subject@, was.predicate@, was.id@);
    assert(after[p].1 == closed);
    assert(is_prefix(prefix, after[p].0));
    if forall|j: int| 0 <= j < t.len() && j != p ==> (#[trigger] t[j]).1.id@ != was.id@ {
        assert forall|f: Fact|
            select(after, prefix, TimeFilter::Current).contains(f) implies f.id@ != was.id@ by {
            lemma_select_contains(after, prefix, TimeFilter::Current, f);
            let i = choose|i: int|
                0 <= i < after.len() && (#[trigger] after[i]).1 == f && is_prefix(
                    prefix,
                    after[i].0,
                ) && crate::table::passes(f, TimeFilter::Current);
            if i != p {
                assert(after[i] == t[i]);
            }
        }
    }
}

/// Invalidation touches one row only. Of any other id, a scan shows after it
/// what it showed before. And where no other row has the invalidated fact's
/// id, a scan shows no fact of that id but the closed one, and none at all
/// from `at` on.
pub proof fn lemma_invalidation_is_local(
    t: Seq<(Seq<char>, Fact)>,
    p: int,
    at: Instant,
    prefix: Seq<char>,
    filter: TimeFilter,
    f: Fact,
)
    requires
        0 <= p < t.len(),
    ensures
        f.id@ != t[p].1.id@ ==> (select(close_row(t, p, at), prefix, filter).contains(f) <==> select(
            t,
            prefix,
            filter,
        ).contains(f)),
        (forall|j: int| 0 <= j < t.len() && j != p ==> (#[trigger] t[j]).1.id@ != t[p].1.id@)
            && select(close_row(t, p, at), prefix, filter).contains(f) && f.id@ == t[p].1.id@ ==> f
            == t[p].1.closed_at(at),
        (forall|j: int| 0 <= j < t.len() && j != p ==> (#[trigger] t[j]).1.id@ != t[p].1.id@)
            && (filter matches TimeFilter::At(when) && at.not_after(when)) ==> !(select(
            close_row(t, p, at),
            prefix,
            filter,
        ).contains(f) && f.id@ == t[p].1.id@),
{
    let after = close_row(t, p, at);
    lemma_select_contains(after, prefix, filter, f);
    lemma_select_contains(t, prefix, filter, f);
    if select(after, prefix, filter).contains(f) {
        let i = choose|i: int|
            0 <= i < after.len() && (#[trigger] after[i]).1 == f && is_prefix(prefix, after[i].0)
                && crate::table::passes(f, filter);
        if i != p {
            assert(after[i] == t[i]);
        }
    }
    if select(t, prefix, filter).contains(f) && f.id@ != t[p].1.id@ {
        let i = choose|i: int|
            0 <= i < t.len() && (#[trigger] t[i]).1 == f && is_prefix(prefix, t[i].0)
                && crate::table::passes(f, filter);
        assert(after[i] == t[i]);
    }
}

/// After a correction under a new id, the old fact is still found by its id,
/// closed at `at` on both axes, and the replacement is found by the new id
/// with the old subject and predicate, the new object and validity from `at`.
pub proof fn lemma_correction_keeps_both(
    t: Seq<(Seq<char>, Fact)>,
    old_id: Seq<char>,
    at: Instant,
    after: Seq<(Seq<char>, Fact)>,
    new_id: Seq<char>,
    new_value: Value,
)
    requires
        keyed(t),
        holds_id(t, old_id),
        !holds_id(t, new_id),
        asserted(
            close_row(t, locate(t, old_id, 0), at),
            after,
            new_id,
            t[locate(t, old_id, 0)].1.subject@,
            t[locate(t, old_id, 0)].1.predicate@,
            new_value,
            at,
        ),
    ensures
        holds_id(after, old_id),
        after[locate(after, old_id, 0)].1 == t[locate(t, old_id, 0)].1.closed_at(at),
        after[locate(after, old_id, 0)].1.valid_to == Some(at),
        after[locate(after, old_id, 0)].1.expired_at == Some(at),
        holds_id(after, new_id),
        after[locate(after, new_id, 0)].1.is_fresh(
            t[locate(t, old_id, 0)].1.subject@,
            t[locate(t, old_id, 0)].1.predicate@,
            new_value,
            at,
        ),
{
    let p = locate(t, old_id, 0);
    let was = t[p].1;
    let mid = close_row(t, p, at);
    lemma_locate(t, old_id, 0);
    lemma_locate(t, new_id, 0);
    lemma_locate(mid, old_id, 0);
    lemma_locate(mid, new_id, 0);
    // Closing a row changes no id, so both searches end where they did.
    assert(mid[p].1.id@ == old_id);
    let mp = locate(mid, old_id, 0);
    if mp < p {
        assert(mid[mp] == t[mp]);
    }
    assert(mp == p);
    let mn = locate(mid, new_id, 0);
    if mn < mid.len() {
        if mn != p {
            assert(mid[mn] == t[mn]);
        }
        assert(t[mn].1.id@ == new_id);
    }
    assert(!holds_id(mid, new_id));
    lemma_asserted_fact_is_found(mid, after, new_id, was.subject@, was.predicate@, new_value, at);
    let f = choose|f: Fact|
        #![trigger f.is_fresh(was.subject@, was.predicate@, new_value, at)]
        f.is_fresh(was.subject@, was.predicate@, new_value, at) && f.id@ == new_id && after == put(
            mid,
            row_of(f),
        );
    let row = row_of(f);
    let q = slot_from(mid, row.0, 0);
    if q == p && mid[q].0 == row.0 {
        // Equal keys with equal subject and predicate force equal ids.
        assert(t[p] == row_of(was));
        let head = pair_prefix(was.subject@, was.predicate@);
        assert(row.0 =~= head + new_id);
        assert(mid[p].0 =~= head + old_id);
        assert(new_id =~= (head + new_id).subrange(head.len() as int, (head + new_id).len() as int));
        assert(old_id =~= (head + old_id).subrange(head.len() as int, (head + old_id).len() as int));
        assert(false);
    }
    lemma_locate_after_put(mid, row, old_id);
}

/// In a table in key order, every earlier key sorts before every later one.
pub proof fn lemma_sorted_pairs(t: Seq<(Seq<char>, Fact)>, i: int, j: int)
    requires
        sorted(t),
        0 <= i < j < t.len(),
    ensures
        key_less(t[i].0, t[j].0),
    decreases j - i,
{
    if i + 1 < j {
        lemma_sorted_pairs(t, i, j - 1);
        assert(key_less(t[j - 1].0, t[j].0));
        lemma_key_order_transitive(t[i].0, t[j - 1].0, t[j].0);
    } else {
        assert(key_less(t[i].0, t[i + 1].0));
    }
}

/// A scan with no prefix and no temporal condition gives every fact, in
/// table order.
pub proof fn lemma_select_everything(t: Seq<(Seq<char>, Fact)>)
    ensures
        select(t, Seq::empty(), TimeFilter::All) == Seq::new(t.len(), |i: int| t[i].1),
    decreases t.len(),
{
    let all = Seq::new(t.len(), |i: int| t[i].1);
    if t.len() == 0 {
        assert(select(t, Seq::empty(), TimeFilter::All) =~= all);
    } else {
        lemma_select_everything(t.drop_last());
        assert(is_prefix(Seq::empty(), t.last().0));
        assert(select(t, Seq::empty(), TimeFilter::All) =~= all);
    }
}

/// A store that is written out and read back holds the same table: the facts
/// of a well-formed table, written under their keys in table order, give the
/// table again.
pub proof fn lemma_table_round_trip(t: Seq<(Seq<char>, Fact)>)
    requires
        sorted(t),
        keyed(t),
    ensures
        put_all(Seq::empty(), select(t, Seq::empty(), TimeFilter::All)) == t,
    decreases t.len(),
{
    lemma_select_everything(t);
    let facts = select(t, Seq::empty(), TimeFilter::All);
    if t.len() == 0 {
    } else {
        let head = t.drop_last();
        lemma_select_everything(head);
        assert(facts.drop_last() =~= select(head, Seq::empty(), TimeFilter::All));
        assert(sorted(head)) by {
            assert forall|i: int| 0 <= i && i + 1 < head.len() implies key_less(
                (#[trigger] head[i]).0,
                head[i + 1].0,
            ) by {
                assert(key_less(t[i].0, t[i + 1].0));
            }
        }
        assert(keyed(head)) by {
            assert forall|i: int| 0 <= i < head.len() implies #[trigger] head[i] == row_of(
                head[i].1,
            ) by {
                assert(t[i] == row_of(t[i].1));
            }
        }
        lemma_table_round_trip(head);
        let row = row_of(facts.last());
        assert(t[t.len() - 1] == row_of(t[t.len() - 1].1));
        assert(row == t.last());
        lemma_slot(head, row.0, 0);
        let q = slot_from(head, row.0, 0);
        if q < head.len() {
            lemma_sorted_pairs(t, q, t.len() - 1);
            assert(false);
        }
        assert(put(head, row) =~= t);
    }
}

} // verus!
