//! Deterministic ranking: best score first, equal scores by ascending id.

use vstd::prelude::*;
use vstd::string::*;
use crate::fact::FactId;
use crate::keys::{key_less, key_precedes, lemma_key_order_total, lemma_key_order_transitive};

verus! {

/// A fact id with the score it is ranked by. A larger score ranks higher.
#[derive(Debug, Clone)]
pub struct Scored {
    pub id: FactId,
    pub score: u64,
}

impl View for Scored {
    type V = (Seq<char>, u64);

    open spec fn view(&self) -> (Seq<char>, u64) {
        (self.id@, self.score)
    }
}

/// `a` ranks strictly above `b`: a larger score, or the same score and the
/// smaller id.
pub open spec fn outranks(a: (Seq<char>, u64), b: (Seq<char>, u64)) -> bool {
    a.1 > b.1 || (a.1 == b.1 && key_less(a.0, b.0))
}

/// No entry ranks above an entry that stands before it: scores descend, and
/// ids ascend where scores are equal.
pub open spec fn ranked(s: Seq<(Seq<char>, u64)>) -> bool {
    forall|i: int, j: int| 0 <= i < j < s.len() ==> !outranks(#[trigger] s[j], #[trigger] s[i])
}

/// Ranking above is transitive, and of two entries that rank above neither
/// way, both have the same score and id.
pub proof fn lemma_outranks_order(a: (Seq<char>, u64), b: (Seq<char>, u64), c: (Seq<char>, u64))
    ensures
        outranks(a, b) && outranks(b, c) ==> outranks(a, c),
        !outranks(a, b) && !outranks(b, a) ==> a == b,
        !(outranks(a, b) && outranks(b, a)),
        !outranks(a, b) && !outranks(b, c) ==> !outranks(a, c),
{
    lemma_key_order_total(a.0, b.0);
    lemma_key_order_total(b.0, c.0);
    lemma_key_order_total(a.0, c.0);
    if key_less(a.0, b.0) && key_less(b.0, c.0) {
        lemma_key_order_transitive(a.0, b.0, c.0);
    }
    if key_less(c.0, b.0) && key_less(b.0, a.0) {
        lemma_key_order_transitive(c.0, b.0, a.0);
    }
}

/// Whether `a` ranks strictly above `b`.
pub fn ranks_above(a: &Scored, b: &Scored) -> (r: bool)
    ensures
        r == outranks(a@, b@),
{
    a.score > b.score || (a.score == b.score && key_precedes(a.id.0.as_str(), b.id.0.as_str()))
}

/// The positions of the `k` highest-ranked entries, best first.
///
/// The result holds `k` positions, or one for each entry where there are
/// fewer, and no position twice. The entries stand in rank order: scores
/// descend and equal scores stand by ascending id. No entry that was left out
/// ranks above one that was taken.
pub fn rank_order(items: &Vec<Scored>, k: usize) -> (r: Vec<usize>)
    ensures
        r@.len() == if k <= items@.len() { k as int } else { items@.len() as int },
        forall|i: int| 0 <= i < r@.len() ==> (#[trigger] r@[i]) < items@.len(),
        forall|i: int, j: int| 0 <= i < j < r@.len() ==> r@[i] != r@[j],
        forall|i: int, j: int|
            0 <= i < j < r@.len() ==> !outranks(
                #[trigger] items@[r@[j] as int]@,
                #[trigger] items@[r@[i] as int]@,
            ),
        forall|u: int, i: int|
            0 <= u < items@.len() && 0 <= i < r@.len() && !r@.contains(u as usize) ==> !outranks(
                #[trigger] items@[u]@,
                #[trigger] items@[r@[i] as int]@,
            ),
{
    let n = items.len();
    let mut taken: Vec<bool> = Vec::new();
    let mut t: usize = 0;
    while t < n
        invariant
            t <= n,
            taken@.len() == t,
            forall|u: int| 0 <= u < t ==> !taken@[u],
        decreases n - t,
    {
        taken.push(false);
        t += 1;
    }
    let mut out: Vec<usize> = Vec::new();
    while out.len() < k && out.len() < n
        invariant
            n == items@.len(),
            taken@.len() == n,
            out@.len() <= k,
            out@.len() <= n,
            forall|i: int| 0 <= i < out@.len() ==> (#[trigger] out@[i]) < n,
            forall|u: int| 0 <= u < n ==> (#[trigger] taken@[u] <==> out@.contains(u as usize)),
            forall|i: int, j: int| 0 <= i < j < out@.len() ==> out@[i] != out@[j],
            forall|i: int, j: int|
                0 <= i < j < out@.len() ==> !outranks(
                    #[trigger] items@[out@[j] as int]@,
                    #[trigger] items@[out@[i] as int]@,
                ),
            forall|u: int, i: int|
                0 <= u < n && 0 <= i < out@.len() && !taken@[u] ==> !outranks(
                    #[trigger] items@[u]@,
                    #[trigger] items@[out@[i] as int]@,
                ),
        decreases n - out@.len(),
    {
        // Fewer positions are taken than there are entries, so one is free.
        let mut first: usize = 0;
        while first < n && taken[first]
            invariant
                first <= n,
                n == items@.len(),
                taken@.len() == n,
                forall|u: int| 0 <= u < first ==> taken@[u],
            decreases n - first,
        {
            first += 1;
        }
        if first >= n {
            proof {
                assert forall|u: usize| u < n implies #[trigger] out@.contains(u) by {
                    assert(taken@[u as int]);
                }
                lemma_all_taken(out@, n as int);
            }
            assert(false);
            return out;
        }
        let mut best: usize = first;
        let mut j: usize = first + 1;
        while j < n
            invariant
                first < j <= n,
                n == items@.len(),
                taken@.len() == n,
                best < j,
                !taken@[best as int],
                forall|m: int|
                    0 <= m < j && !taken@[m] ==> !outranks(
                        #[trigger] items@[m]@,
                        items@[best as int]@,
                    ),
            decreases n - j,
        {
            if !taken[j] && ranks_above(&items[j], &items[best]) {
                proof {
                    assert forall|m: int| 0 <= m < j + 1 && !taken@[m] implies !outranks(
                        #[trigger] items@[m]@,
                        items@[j as int]@,
                    ) by {
                        lemma_outranks_order(items@[m]@, items@[j as int]@, items@[best as int]@);
                        lemma_outranks_order(items@[j as int]@, items@[j as int]@, items@[j as int]@);
                    }
                }
                best = j;
            }
            j += 1;
        }
        let ghost out_before = out@;
        let ghost taken_before = taken@;
        taken.set(best, true);
        out.push(best);
        proof {
            assert forall|u: int| 0 <= u < n implies (#[trigger] taken@[u] <==> out@.contains(
                u as usize,
            )) by {
                if u == best {
                    assert(out@[out_before.len() as int] == best);
                } else {
                    if taken_before[u] {
                        let w = choose|w: int| 0 <= w < out_before.len() && out_before[w] == u as usize;
                        assert(out@[w] == u as usize);
                    }
                    if out@.contains(u as usize) {
                        let w = choose|w: int| 0 <= w < out@.len() && out@[w] == u as usize;
                        assert(out_before[w] == u as usize);
                        assert(out_before.contains(u as usize));
                    }
                }
            }
            assert forall|i: int, j: int| 0 <= i < j < out@.len() implies out@[i] != out@[j] by {
                if j == out_before.len() {
                    assert(out_before.contains(out_before[i]));
                }
            }
            assert forall|i: int, j: int| 0 <= i < j < out@.len() implies !outranks(
                #[trigger] items@[out@[j] as int]@,
                #[trigger] items@[out@[i] as int]@,
            ) by {
                if j == out_before.len() {
                    assert(out@[i] == out_before[i]);
                    assert(!outranks(items@[best as int]@, items@[out_before[i] as int]@));
                } else {
                    assert(!outranks(items@[out_before[j] as int]@, items@[out_before[i] as int]@));
                }
            }
            assert forall|u: int, i: int|
                0 <= u < n && 0 <= i < out@.len() && !taken@[u] implies !outranks(
                #[trigger] items@[u]@,
                #[trigger] items@[out@[i] as int]@,
            ) by {
                if i == out_before.len() {
                    assert(!outranks(items@[u]@, items@[best as int]@));
                } else {
                    assert(out@[i] == out_before[i]);
                    assert(!outranks(items@[u]@, items@[out_before[i] as int]@));
                }
            }
        }
    }
    out
}

/// Positions that cover every position below `n` number at least `n`.
proof fn lemma_all_taken(out: Seq<usize>, n: int)
    requires
        0 <= n <= usize::MAX,
        forall|u: usize| u < n ==> #[trigger] out.contains(u),
    ensures
        out.len() >= n,
    decreases n,
{
    if n > 0 {
        let last = (n - 1) as usize;
        assert(out.contains(last));
        let w = choose|w: int| 0 <= w < out.len() && out[w] == last;
        let rest = out.remove(w);
        assert forall|u: usize| u < n - 1 implies #[trigger] rest.contains(u) by {
            assert(out.contains(u));
            let x = choose|x: int| 0 <= x < out.len() && out[x] == u;
            assert(x != w);
            if x < w {
                assert(rest[x] == u);
            } else {
                assert(rest[x - 1] == out[x]);
            }
        }
        lemma_all_taken(rest, n - 1);
    }
}

/// In a ranked sequence scores never ascend, and entries with equal scores
/// stand by ascending id.
pub proof fn lemma_ranked_ties_by_id(s: Seq<(Seq<char>, u64)>, i: int, j: int)
    requires
        ranked(s),
        0 <= i < j < s.len(),
    ensures
        s[i].1 >= s[j].1,
        s[i].1 == s[j].1 ==> !key_less(s[j].0, s[i].0),
        s[i].1 == s[j].1 && s[i].0 != s[j].0 ==> key_less(s[i].0, s[j].0),
{
    assert(!outranks(s[j], s[i]));
    lemma_key_order_total(s[i].0, s[j].0);
}

} // verus!
