//! Vector search and hybrid search over the store.
//!
//! Similarities and fused scores are numbers that this library carries as bit
//! patterns and never computes: the arithmetic comes from the caller, through
//! `ScoreMath`. The contracts here speak of its results through the spec
//! functions of that trait: which candidates are scored and with what, in
//! what order scores are added up, and how the scored facts are ranked.

use vstd::prelude::*;
use vstd::string::*;
use crate::error::{query_mismatch, KronroeError};
use crate::fact::{Fact, FactId};
use crate::graph::TemporalGraph;
use crate::hybrid::{single_is_positive, applies_temporal_adjustment, distinct_prefix, double_order, double_rank_score, fused_ids, lemma_distinct_prefix, params_valid, positions, ranks_of, single_order, single_rank_score, validate_hybrid_params, violation_text, HybridParams, HybridScoreBreakdown, TemporalAdjustment};
use crate::instant::{current_instant, Instant};
use crate::rank::{lemma_ranked_ties_by_id, outranks, rank_order, ranked, Scored};
use crate::search::{blank, find_fact, lemma_pick_within, pick};
use crate::table::{holds_id, lemma_locate, lemma_select_contains, locate, select, TimeFilter};
use crate::keys::key_less;
use crate::vector::{admitted, entry_views, id_views, VectorIndex};

verus! {

/// Some function from an arithmetic and a vector to a truth value: which one,
/// nothing says.
pub closed spec fn some_null<M>(math: M, v: Seq<u32>) -> bool {
    arbitrary::<spec_fn(M, Seq<u32>) -> bool>()(math, v)
}

/// Some function from an arithmetic and two vectors to a similarity.
pub closed spec fn some_cosine<M>(math: M, query: Seq<u32>, embedding: Seq<u32>) -> u32 {
    arbitrary::<spec_fn(M, Seq<u32>, Seq<u32>) -> u32>()(math, query, embedding)
}

/// Some function from an arithmetic, a weight, a rank constant and a rank to
/// a score.
pub closed spec fn some_term<M>(math: M, weight: u32, rank_constant: usize, rank: usize) -> u64 {
    arbitrary::<spec_fn(M, u32, usize, usize) -> u64>()(math, weight, rank_constant, rank)
}

/// Some function from an arithmetic and two scores to a score.
pub closed spec fn some_plus<M>(math: M, a: u64, b: u64) -> u64 {
    arbitrary::<spec_fn(M, u64, u64) -> u64>()(math, a, b)
}

/// Some function from an arithmetic, an age, a half-life and a weight to a
/// score.
pub closed spec fn some_adjustment<M>(math: M, age_secs: u64, half_life_days: u32, weight: u32) -> u64 {
    arbitrary::<spec_fn(M, u64, u32, u32) -> u64>()(math, age_secs, half_life_days, weight)
}

/// The arithmetic of scores, on bit patterns: single precision for
/// embeddings, similarities, weights and half-lives, double precision for
/// fused scores.
///
/// Each operation is a function of its arguments: it returns what the spec
/// function beside it gives. Nothing else is asked of an implementation, and
/// an implementation that does not say what its operations compute leaves the
/// spec functions as they stand here: some function, not said which.
pub trait ScoreMath: Sized {
    /// Whether the vector's Euclidean norm is zero.
    open spec fn null(&self, v: Seq<u32>) -> bool {
        some_null(*self, v)
    }

    /// The cosine similarity of two vectors.
    open spec fn cosine_of(&self, query: Seq<u32>, embedding: Seq<u32>) -> u32 {
        some_cosine(*self, query, embedding)
    }

    /// The share of one rank in a fused score: the weight divided by the sum
    /// of the rank constant, the rank and one.
    open spec fn term(&self, weight: u32, rank_constant: usize, rank: usize) -> u64 {
        some_term(*self, weight, rank_constant, rank)
    }

    /// The sum of two scores.
    open spec fn plus(&self, a: u64, b: u64) -> u64 {
        some_plus(*self, a, b)
    }

    /// The temporal adjustment of a fact of the given age in seconds, for a
    /// half-life in days and a temporal weight.
    open spec fn adjustment(&self, age_secs: u64, half_life_days: u32, temporal_weight: u32) -> u64 {
        some_adjustment(*self, age_secs, half_life_days, temporal_weight)
    }

    /// Whether the vector's Euclidean norm is zero.
    fn is_null(&self, v: &Vec<u32>) -> (r: bool)
        ensures
            r == self.null(v@),
    ;

    /// The cosine similarity of two vectors.
    fn cosine(&self, query: &Vec<u32>, embedding: &Vec<u32>) -> (r: u32)
        ensures
            r == self.cosine_of(query@, embedding@),
    ;

    /// The share of one rank in a fused score.
    fn rrf_term(&self, weight: u32, rank_constant: usize, rank: usize) -> (r: u64)
        ensures
            r == self.term(weight, rank_constant, rank),
    ;

    /// The sum of two scores.
    fn sum(&self, a: u64, b: u64) -> (r: u64)
        ensures
            r == self.plus(a, b),
    ;

    /// The temporal adjustment of a fact of the given age.
    fn half_life_adjustment(&self, age_secs: u64, half_life_days: u32, temporal_weight: u32) -> (r:
        u64)
        ensures
            r == self.adjustment(age_secs, half_life_days, temporal_weight),
    ;
}

/// The temporal condition of a search: the given instant, or the present.
pub open spec fn filter_for(at: Option<Instant>) -> TimeFilter {
    match at {
        Some(t) => TimeFilter::At(t),
        None => TimeFilter::Current,
    }
}

/// Some entry has the id.
pub open spec fn holds_entry(entries: Seq<(Seq<char>, Seq<u32>)>, id: Seq<char>) -> bool {
    exists|c: int| 0 <= c < entries.len() && (#[trigger] entries[c]).0 == id
}

/// An entry that is admitted is an entry of the index.
pub proof fn lemma_admitted_within(
    entries: Seq<(Seq<char>, Seq<u32>)>,
    allow: Seq<Seq<char>>,
    id: Seq<char>,
)
    requires
        holds_entry(admitted(entries, allow), id),
    ensures
        holds_entry(entries, id),
        allow.contains(id),
    decreases entries.len(),
{
    if entries.len() > 0 {
        let rest = admitted(entries.drop_last(), allow);
        let all = admitted(entries, allow);
        let c = choose|c: int| 0 <= c < all.len() && (#[trigger] all[c]).0 == id;
        if allow.contains(entries.last().0) && c == rest.len() {
            assert(entries[entries.len() - 1].0 == id);
        } else {
            assert(rest[c].0 == id);
            lemma_admitted_within(entries.drop_last(), allow, id);
            let d = choose|d: int|
                0 <= d < entries.drop_last().len() && (#[trigger] entries.drop_last()[d]).0 == id;
            assert(entries[d].0 == id);
        }
    }
}

/// The score that a hybrid hit is ranked by, with its id.
pub open spec fn hybrid_rank(hit: (Fact, HybridScoreBreakdown)) -> (Seq<char>, u64) {
    (hit.0.id@, double_order(hit.1.final_score))
}

/// The ids and rank scores of a sequence of hybrid hits.
pub open spec fn hybrid_ranks(hits: Seq<(Fact, HybridScoreBreakdown)>) -> Seq<(Seq<char>, u64)> {
    Seq::new(hits.len(), |i: int| hybrid_rank(hits[i]))
}

/// Scored hits as pairs of id text and similarity.
pub open spec fn hit_views(hits: Seq<(FactId, u32)>) -> Seq<(Seq<char>, u32)> {
    Seq::new(hits.len(), |i: int| (hits[i].0@, hits[i].1))
}

/// The id of a hit with the rank score of its similarity.
pub open spec fn hit_rank(hit: (Seq<char>, u32)) -> (Seq<char>, u64) {
    (hit.0, single_order(hit.1))
}

/// `top` holds the entries of `pool` at the positions `order`: `k` of them,
/// or all where there are fewer, no position twice, in rank order, and such
/// that no entry left out ranks above one that was taken.
pub open spec fn taken_at(
    top: Seq<(Seq<char>, u32)>,
    pool: Seq<(Seq<char>, u32)>,
    k: int,
    order: Seq<int>,
) -> bool {
    &&& top.len() == if k <= pool.len() { k } else { pool.len() as int }
    &&& order.len() == top.len()
    &&& forall|i: int|
        0 <= i < order.len() ==> 0 <= #[trigger] order[i] < pool.len() && top[i] == pool[order[i]]
    &&& forall|i: int, j: int|
        0 <= i < j < order.len() ==> #[trigger] order[i] != #[trigger] order[j]
    &&& forall|i: int, j: int|
        0 <= i < j < top.len() ==> !outranks(hit_rank(#[trigger] top[j]), hit_rank(#[trigger] top[i]))
    &&& forall|u: int, i: int|
        0 <= u < pool.len() && 0 <= i < top.len() && !order.contains(u) ==> !outranks(
            hit_rank(#[trigger] pool[u]),
            hit_rank(#[trigger] top[i]),
        )
}

/// `top` is the `k` best of `pool`, best first.
pub open spec fn best_of(top: Seq<(Seq<char>, u32)>, pool: Seq<(Seq<char>, u32)>, k: int) -> bool {
    exists|order: Seq<int>| #[trigger] taken_at(top, pool, k, order)
}

/// The `k` most similar of the scored ids, most similar first and equal
/// similarities by ascending id.
pub fn top_hits(scored: &Vec<(FactId, u32)>, k: usize) -> (r: Vec<(FactId, u32)>)
    ensures
        best_of(hit_views(r@), hit_views(scored@), k as int),
{
    let mut keys: Vec<Scored> = Vec::new();
    let mut c: usize = 0;
    while c < scored.len()
        invariant
            c <= scored@.len(),
            keys@.len() == c,
            forall|i: int| 0 <= i < c ==> (#[trigger] keys@[i])@ == hit_rank(hit_views(scored@)[i]),
        decreases scored@.len() - c,
    {
        keys.push(Scored { id: scored[c].0.duplicate(), score: single_rank_score(scored[c].1) });
        c += 1;
    }
    let order = rank_order(&keys, k);
    let mut out: Vec<(FactId, u32)> = Vec::new();
    let mut p: usize = 0;
    while p < order.len()
        invariant
            p <= order@.len(),
            out@.len() == p,
            keys@.len() == scored@.len(),
            forall|i: int| 0 <= i < order@.len() ==> (#[trigger] order@[i]) < scored@.len(),
            forall|a: int|
                0 <= a < p ==> (#[trigger] out@[a]).0@ == scored@[order@[a] as int].0@ && out@[a].1
                    == scored@[order@[a] as int].1,
        decreases order@.len() - p,
    {
        let at_rank = order[p];
        out.push((scored[at_rank].0.duplicate(), scored[at_rank].1));
        p += 1;
    }
    proof {
        let top = hit_views(out@);
        let pool = hit_views(scored@);
        let positions = Seq::new(order@.len(), |i: int| order@[i] as int);
        assert forall|i: int| 0 <= i < top.len() implies #[trigger] top[i] == pool[order@[i] as int] by {
            assert(out@[i].0@ == scored@[order@[i] as int].0@);
        }
        assert forall|i: int, j: int| 0 <= i < j < top.len() implies !outranks(
            hit_rank(#[trigger] top[j]),
            hit_rank(#[trigger] top[i]),
        ) by {
            assert(top[i] == pool[order@[i] as int]);
            assert(top[j] == pool[order@[j] as int]);
            assert(!outranks(keys@[order@[j] as int]@, keys@[order@[i] as int]@));
        }
        assert forall|u: int, i: int|
            0 <= u < pool.len() && 0 <= i < top.len() && !positions.contains(u) implies !outranks(
            hit_rank(#[trigger] pool[u]),
            hit_rank(#[trigger] top[i]),
        ) by {
            if order@.contains(u as usize) {
                let w = choose|w: int| 0 <= w < order@.len() && order@[w] == u as usize;
                assert(positions[w] == u);
            }
            assert(top[i] == pool[order@[i] as int]);
            assert(!outranks(keys@[u]@, keys@[order@[i] as int]@));
        }
        assert forall|i: int| 0 <= i < positions.len() implies 0 <= #[trigger] positions[i]
            < pool.len() && top[i] == pool[positions[i]] by {
            assert(top[i] == pool[order@[i] as int]);
        }
        assert(taken_at(top, pool, k as int, positions));
    }
    out
}

/// The entries, each with its id and its similarity to the query.
pub open spec fn scored_pool<M: ScoreMath>(
    math: M,
    query: Seq<u32>,
    entries: Seq<(Seq<char>, Seq<u32>)>,
) -> Seq<(Seq<char>, u32)> {
    Seq::new(entries.len(), |i: int| (entries[i].0, math.cosine_of(query, entries[i].1)))
}

/// No id occurs twice among the entries.
pub open spec fn distinct_entries(entries: Seq<(Seq<char>, Seq<u32>)>) -> bool {
    forall|i: int, j: int|
        0 <= i < j < entries.len() ==> (#[trigger] entries[i]).0 != (#[trigger] entries[j]).0
}

/// The admitted entries are no more than the entries, none where the
/// allow-list is empty, and hold no id twice where the entries hold none
/// twice.
pub proof fn lemma_admitted(entries: Seq<(Seq<char>, Seq<u32>)>, allow: Seq<Seq<char>>)
    ensures
        admitted(entries, allow).len() <= entries.len(),
        allow.len() == 0 ==> admitted(entries, allow).len() == 0,
        distinct_entries(entries) ==> distinct_entries(admitted(entries, allow)),
    decreases entries.len(),
{
    if entries.len() > 0 {
        let head = entries.drop_last();
        lemma_admitted(head, allow);
        let rest = admitted(head, allow);
        let all = admitted(entries, allow);
        if distinct_entries(entries) {
            assert(distinct_entries(head)) by {
                assert forall|i: int, j: int| 0 <= i < j < head.len() implies (#[trigger] head[i]).0
                    != (#[trigger] head[j]).0 by {
                    assert(entries[i].0 != entries[j].0);
                }
            }
            assert forall|i: int, j: int| 0 <= i < j < all.len() implies (#[trigger] all[i]).0 != (
            #[trigger] all[j]).0 by {
                if j < rest.len() {
                    assert(rest[i].0 != rest[j].0);
                } else {
                    assert(all[i] == rest[i]);
                    assert(holds_entry(rest, rest[i].0));
                    lemma_admitted_within(head, allow, rest[i].0);
                    let d = choose|d: int| 0 <= d < head.len() && (#[trigger] head[d]).0 == rest[i].0;
                    assert(entries[d].0 != entries[entries.len() - 1].0);
                }
            }
        }
    }
}

/// The `k` best of a pool without a repeated id hold no id twice.
pub proof fn lemma_best_distinct(top: Seq<(Seq<char>, u32)>, pool: Seq<(Seq<char>, u32)>, k: int)
    requires
        best_of(top, pool, k),
        forall|i: int, j: int|
            0 <= i < j < pool.len() ==> (#[trigger] pool[i]).0 != (#[trigger] pool[j]).0,
    ensures
        forall|i: int, j: int| 0 <= i < j < top.len() ==> (#[trigger] top[i]).0 != (#[trigger] top[j]).0,
{
    let order = choose|order: Seq<int>| #[trigger] taken_at(top, pool, k, order);
    assert forall|i: int, j: int| 0 <= i < j < top.len() implies (#[trigger] top[i]).0 != (
    #[trigger] top[j]).0 by {
        let x = order[i];
        let y = order[j];
        assert(top[i] == pool[x]);
        assert(top[j] == pool[y]);
        if x < y {
            assert(pool[x].0 != pool[y].0);
        } else {
            assert(pool[y].0 != pool[x].0);
        }
    }
}

impl VectorIndex {
    /// The `k` entries most similar to the query among those whose id is on
    /// the allow-list, most similar first, each with its similarity.
    ///
    /// Gives nothing for `k` of zero and for a query of zero norm. Otherwise
    /// every entry on the allow-list is given its cosine similarity to the
    /// query, and the result is the `k` best of them, or all where there are
    /// fewer, equal similarities by ascending id.
    pub fn search<M: ScoreMath>(&self, math: &M, query: &Vec<u32>, k: usize, valid_ids: &Vec<FactId>) -> (r:
        Vec<(FactId, u32)>)
        requires
            self.wf(),
        ensures
            k == 0 || math.null(query@) ==> r@.len() == 0,
            k > 0 && !math.null(query@) ==> best_of(
                hit_views(r@),
                scored_pool(*math, query@, admitted(self.entries(), id_views(valid_ids@))),
                k as int,
            ),
            forall|i: int, j: int|
                0 <= i < j < r@.len() ==> (#[trigger] r@[i]).0@ != (#[trigger] r@[j]).0@,
            forall|i: int|
                0 <= i < r@.len() ==> holds_entry(
                    admitted(self.entries(), id_views(valid_ids@)),
                    (#[trigger] r@[i]).0@,
                ),
    {
        let ghost allowed = admitted(self.entries(), id_views(valid_ids@));
        let ghost wanted = scored_pool(*math, query@, allowed);
        proof {
            lemma_admitted(self.entries(), id_views(valid_ids@));
        }
        if k == 0 || valid_ids.len() == 0 || self.is_empty() {
            proof {
                if k > 0 {
                    assert(allowed.len() == 0);
                    assert(taken_at(Seq::empty(), wanted, k as int, Seq::empty()));
                    assert(hit_views(Seq::<(FactId, u32)>::empty()) =~= Seq::empty());
                }
            }
            return Vec::new();
        }
        if math.is_null(query) {
            return Vec::new();
        }
        let candidates = self.candidates(valid_ids);
        let mut scored: Vec<(FactId, u32)> = Vec::new();
        let mut c: usize = 0;
        while c < candidates.len()
            invariant
                c <= candidates@.len(),
                scored@.len() == c,
                entry_views(candidates@) == allowed,
                forall|i: int|
                    0 <= i < c ==> (#[trigger] scored@[i]).0@ == candidates@[i].id@ && scored@[i].1
                        == math.cosine_of(query@, candidates@[i].embedding@),
            decreases candidates@.len() - c,
        {
            let similarity = math.cosine(query, &candidates[c].embedding);
            scored.push((candidates[c].id.duplicate(), similarity));
            c += 1;
        }
        let out = top_hits(&scored, k);
        proof {
            let top = hit_views(out@);
            let pool = hit_views(scored@);
            assert forall|i: int| 0 <= i < pool.len() implies #[trigger] pool[i] == wanted[i] by {
                assert(allowed[i] == candidates@[i]@);
            }
            assert(pool =~= wanted);
            assert(distinct_entries(self.entries()));
            assert forall|i: int, j: int| 0 <= i < j < pool.len() implies (#[trigger] pool[i]).0 != (
            #[trigger] pool[j]).0 by {
                assert(allowed[i].0 != allowed[j].0);
            }
            lemma_best_distinct(top, pool, k as int);
            assert forall|i: int, j: int| 0 <= i < j < out@.len() implies (#[trigger] out@[i]).0@ != (
            #[trigger] out@[j]).0@ by {
                assert(top[i].0 != top[j].0);
            }
            let order = choose|order: Seq<int>| #[trigger] taken_at(top, pool, k as int, order);
            assert forall|i: int| 0 <= i < out@.len() implies holds_entry(
                allowed,
                (#[trigger] out@[i]).0@,
            ) by {
                let p = order[i];
                assert(top[i] == pool[p]);
                assert(allowed[p].0 == pool[p].0);
            }
        }
        out
    }
}

/// What the ranks add to `start`: the term of each rank, in order.
pub open spec fn rank_sum<M: ScoreMath>(
    math: M,
    start: u64,
    weight: u32,
    rank_constant: usize,
    ranks: Seq<usize>,
) -> u64
    decreases ranks.len(),
{
    if ranks.len() == 0 {
        start
    } else {
        math.plus(
            rank_sum(math, start, weight, rank_constant, ranks.drop_last()),
            math.term(weight, rank_constant, ranks.last()),
        )
    }
}

/// A temporal adjustment applies: a half-life is set and the temporal weight
/// is above zero.
pub open spec fn adjusts(p: HybridParams) -> bool {
    p.temporal_adjustment is HalfLifeDays && single_is_positive(p.temporal_weight)
}

/// The age at a position, and zero where no age is given for it.
pub open spec fn age_at(ages: Seq<u64>, i: int) -> u64 {
    if 0 <= i < ages.len() {
        ages[i]
    } else {
        0
    }
}

/// The score of an id and its parts. The text part is the sum of the terms
/// of the id's ranks in the text list, the vector part that of its ranks in
/// the vector list. The final score is the text part with the vector terms
/// added, and with the temporal adjustment of the age added where one
/// applies.
pub open spec fn breakdown_of<M: ScoreMath>(
    math: M,
    params: HybridParams,
    text: Seq<Seq<char>>,
    vector: Seq<Seq<char>>,
    id: Seq<char>,
    age: u64,
) -> HybridScoreBreakdown {
    let text_part = rank_sum(math, 0, params.text_weight, params.rank_constant, positions(text, id));
    let vector_part = rank_sum(
        math,
        0,
        params.vector_weight,
        params.rank_constant,
        positions(vector, id),
    );
    let fused = rank_sum(
        math,
        text_part,
        params.vector_weight,
        params.rank_constant,
        positions(vector, id),
    );
    if adjusts(params) {
        let adjustment = math.adjustment(
            age,
            params.temporal_adjustment->days,
            params.temporal_weight,
        );
        HybridScoreBreakdown {
            final_score: math.plus(fused, adjustment),
            text_rrf_contrib: text_part,
            vector_rrf_contrib: vector_part,
            temporal_adjustment: adjustment,
        }
    } else {
        HybridScoreBreakdown {
            final_score: fused,
            text_rrf_contrib: text_part,
            vector_rrf_contrib: vector_part,
            temporal_adjustment: 0,
        }
    }
}

/// The ids of both lists, each once by first occurrence with the text list
/// first.
pub open spec fn fused_id_texts(text: Seq<Seq<char>>, vector: Seq<Seq<char>>) -> Seq<Seq<char>> {
    distinct_prefix(text + vector, (text.len() + vector.len()) as int)
}

/// Every fused id with its score.
pub open spec fn fused_pool<M: ScoreMath>(
    math: M,
    params: HybridParams,
    text: Seq<Seq<char>>,
    vector: Seq<Seq<char>>,
    ages: Seq<u64>,
) -> Seq<(Seq<char>, HybridScoreBreakdown)> {
    Seq::new(
        fused_id_texts(text, vector).len(),
        |i: int|
            (
                fused_id_texts(text, vector)[i],
                breakdown_of(math, params, text, vector, fused_id_texts(text, vector)[i], age_at(ages, i)),
            ),
    )
}

/// Fused hits as pairs of id text and score.
pub open spec fn fused_views(hits: Seq<(FactId, HybridScoreBreakdown)>) -> Seq<
    (Seq<char>, HybridScoreBreakdown),
> {
    Seq::new(hits.len(), |i: int| (hits[i].0@, hits[i].1))
}

/// The id of a fused hit with the rank score of its final score.
pub open spec fn fused_rank(hit: (Seq<char>, HybridScoreBreakdown)) -> (Seq<char>, u64) {
    (hit.0, double_order(hit.1.final_score))
}

/// `top` holds the entries of `pool` at the positions `order`: `k` of them,
/// or all where there are fewer, no position twice, by final score and then
/// by id, and such that no entry left out ranks above one that was taken.
pub open spec fn fused_at(
    top: Seq<(Seq<char>, HybridScoreBreakdown)>,
    pool: Seq<(Seq<char>, HybridScoreBreakdown)>,
    k: int,
    order: Seq<int>,
) -> bool {
    &&& top.len() == if k <= pool.len() { k } else { pool.len() as int }
    &&& order.len() == top.len()
    &&& forall|i: int|
        0 <= i < order.len() ==> 0 <= #[trigger] order[i] < pool.len() && top[i] == pool[order[i]]
    &&& forall|i: int, j: int|
        0 <= i < j < order.len() ==> #[trigger] order[i] != #[trigger] order[j]
    &&& forall|i: int, j: int|
        0 <= i < j < top.len() ==> !outranks(
            fused_rank(#[trigger] top[j]),
            fused_rank(#[trigger] top[i]),
        )
    &&& forall|u: int, i: int|
        0 <= u < pool.len() && 0 <= i < top.len() && !order.contains(u) ==> !outranks(
            fused_rank(#[trigger] pool[u]),
            fused_rank(#[trigger] top[i]),
        )
}

/// `top` is the `k` best of `pool`, best first.
pub open spec fn best_fused(
    top: Seq<(Seq<char>, HybridScoreBreakdown)>,
    pool: Seq<(Seq<char>, HybridScoreBreakdown)>,
    k: int,
) -> bool {
    exists|order: Seq<int>| #[trigger] fused_at(top, pool, k, order)
}

/// The `k` best of a pool without a repeated id hold no id twice, and each of
/// them is an entry of the pool.
pub proof fn lemma_best_fused(
    top: Seq<(Seq<char>, HybridScoreBreakdown)>,
    pool: Seq<(Seq<char>, HybridScoreBreakdown)>,
    k: int,
)
    requires
        best_fused(top, pool, k),
        forall|i: int, j: int|
            0 <= i < j < pool.len() ==> (#[trigger] pool[i]).0 != (#[trigger] pool[j]).0,
    ensures
        forall|i: int, j: int| 0 <= i < j < top.len() ==> (#[trigger] top[i]).0 != (#[trigger] top[j]).0,
        forall|i: int| 0 <= i < top.len() ==> pool.contains(#[trigger] top[i]),
        forall|i: int, j: int|
            0 <= i < j < top.len() && double_order(top[i].1.final_score) == double_order(
                top[j].1.final_score,
            ) ==> key_less((#[trigger] top[i]).0, (#[trigger] top[j]).0),
{
    let order = choose|order: Seq<int>| #[trigger] fused_at(top, pool, k, order);
    assert forall|i: int, j: int| 0 <= i < j < top.len() implies (#[trigger] top[i]).0 != (
    #[trigger] top[j]).0 by {
        let x = order[i];
        let y = order[j];
        assert(top[i] == pool[x]);
        assert(top[j] == pool[y]);
        if x < y {
            assert(pool[x].0 != pool[y].0);
        } else {
            assert(pool[y].0 != pool[x].0);
        }
    }
    assert forall|i: int| 0 <= i < top.len() implies pool.contains(#[trigger] top[i]) by {
        assert(top[i] == pool[order[i]]);
    }
    assert forall|i: int, j: int|
        0 <= i < j < top.len() && double_order(top[i].1.final_score) == double_order(
            top[j].1.final_score,
        ) implies key_less((#[trigger] top[i]).0, (#[trigger] top[j]).0) by {
        assert(!outranks(fused_rank(top[j]), fused_rank(top[i])));
        crate::keys::lemma_key_order_total(top[i].0, top[j].0);
    }
}

/// Fuses the two rank lists: every id of either list gets its score, and the
/// `k` best are returned, best first, equal final scores by ascending id.
///
/// `ages` gives, for each fused id in the order of `fused_ids`, the age in
/// seconds that its temporal adjustment is computed from.
pub fn fuse<M: ScoreMath>(
    math: &M,
    text: &Vec<FactId>,
    vector: &Vec<FactId>,
    ages: &Vec<u64>,
    params: &HybridParams,
) -> (r: Vec<(FactId, HybridScoreBreakdown)>)
    ensures
        best_fused(
            fused_views(r@),
            fused_pool(*math, *params, id_views(text@), id_views(vector@), ages@),
            params.k as int,
        ),
        forall|i: int, j: int|
            0 <= i < j < r@.len() ==> (#[trigger] r@[i]).0@ != (#[trigger] r@[j]).0@,
{
    let ids = fused_ids(text, vector);
    let adjust = applies_temporal_adjustment(params);
    let ghost t = id_views(text@);
    let ghost v = id_views(vector@);
    let ghost pool = fused_pool(*math, *params, t, v, ages@);
    let mut keys: Vec<Scored> = Vec::new();
    let mut parts: Vec<HybridScoreBreakdown> = Vec::new();
    let mut n: usize = 0;
    while n < ids.len()
        invariant
            n <= ids@.len(),
            keys@.len() == n,
            parts@.len() == n,
            adjust == adjusts(*params),
            t == id_views(text@),
            v == id_views(vector@),
            id_views(ids@) == fused_id_texts(t, v),
            pool == fused_pool(*math, *params, t, v, ages@),
            forall|i: int|
                0 <= i < n ==> (#[trigger] keys@[i])@ == fused_rank(pool[i]) && parts@[i] == pool[i].1,
        decreases ids@.len() - n,
    {
        let ghost id = ids@[n as int]@;
        assert(id_views(ids@)[n as int] == id);
        let text_ranks = ranks_of(text, &ids[n]);
        let vector_ranks = ranks_of(vector, &ids[n]);
        let mut text_part: u64 = 0;
        let mut a: usize = 0;
        assert(text_ranks@.take(0) =~= Seq::empty());
        while a < text_ranks.len()
            invariant
                a <= text_ranks@.len(),
                text_part == rank_sum(
                    *math,
                    0,
                    params.text_weight,
                    params.rank_constant,
                    text_ranks@.take(a as int),
                ),
            decreases text_ranks@.len() - a,
        {
            assert(text_ranks@.take(a + 1).drop_last() =~= text_ranks@.take(a as int));
            let term = math.rrf_term(params.text_weight, params.rank_constant, text_ranks[a]);
            text_part = math.sum(text_part, term);
            a += 1;
        }
        assert(text_ranks@.take(a as int) =~= text_ranks@);
        let mut vector_part: u64 = 0;
        let mut total: u64 = text_part;
        let mut b: usize = 0;
        assert(vector_ranks@.take(0) =~= Seq::empty());
        while b < vector_ranks.len()
            invariant
                b <= vector_ranks@.len(),
                vector_part == rank_sum(
                    *math,
                    0,
                    params.vector_weight,
                    params.rank_constant,
                    vector_ranks@.take(b as int),
                ),
                total == rank_sum(
                    *math,
                    text_part,
                    params.vector_weight,
                    params.rank_constant,
                    vector_ranks@.take(b as int),
                ),
            decreases vector_ranks@.len() - b,
        {
            assert(vector_ranks@.take(b + 1).drop_last() =~= vector_ranks@.take(b as int));
            let term = math.rrf_term(params.vector_weight, params.rank_constant, vector_ranks[b]);
            vector_part = math.sum(vector_part, term);
            total = math.sum(total, term);
            b += 1;
        }
        assert(vector_ranks@.take(b as int) =~= vector_ranks@);
        let mut adjustment: u64 = 0;
        if adjust {
            match params.temporal_adjustment {
                TemporalAdjustment::HalfLifeDays { days } => {
                    let age = if n < ages.len() {
                        ages[n]
                    } else {
                        0
                    };
                    adjustment = math.half_life_adjustment(age, days, params.temporal_weight);
                    total = math.sum(total, adjustment);
                },
                TemporalAdjustment::Off => {},
            }
        }
        let part = HybridScoreBreakdown {
            final_score: total,
            text_rrf_contrib: text_part,
            vector_rrf_contrib: vector_part,
            temporal_adjustment: adjustment,
        };
        assert(part == breakdown_of(*math, *params, t, v, id, age_at(ages@, n as int)));
        assert(pool[n as int] == (id, part));
        parts.push(part);
        keys.push(Scored { id: ids[n].duplicate(), score: double_rank_score(total) });
        n += 1;
    }
    let order = rank_order(&keys, params.k);
    let mut out: Vec<(FactId, HybridScoreBreakdown)> = Vec::new();
    let mut p: usize = 0;
    while p < order.len()
        invariant
            p <= order@.len(),
            out@.len() == p,
            keys@.len() == ids@.len(),
            parts@.len() == ids@.len(),
            t == id_views(text@),
            v == id_views(vector@),
            id_views(ids@) == fused_id_texts(t, v),
            pool == fused_pool(*math, *params, t, v, ages@),
            forall|i: int|
                0 <= i < ids@.len() ==> (#[trigger] keys@[i])@ == fused_rank(pool[i]) && parts@[i]
                    == pool[i].1,
            order@.len() == if params.k <= keys@.len() { params.k as int } else { keys@.len() as int },
            forall|i: int, j: int| 0 <= i < j < order@.len() ==> order@[i] != order@[j],
            forall|i: int, j: int|
                0 <= i < j < order@.len() ==> !outranks(
                    #[trigger] keys@[order@[j] as int]@,
                    #[trigger] keys@[order@[i] as int]@,
                ),
            forall|u: int, i: int|
                0 <= u < keys@.len() && 0 <= i < order@.len() && !order@.contains(u as usize)
                    ==> !outranks(#[trigger] keys@[u]@, #[trigger] keys@[order@[i] as int]@),
            forall|i: int| 0 <= i < order@.len() ==> (#[trigger] order@[i]) < keys@.len(),
            forall|a: int|
                0 <= a < p ==> (#[trigger] out@[a]).0@ == ids@[order@[a] as int]@ && out@[a].1
                    == parts@[order@[a] as int],
        decreases order@.len() - p,
    {
        let at_rank = order[p];
        out.push((ids[at_rank].duplicate(), parts[at_rank]));
        p += 1;
    }
    proof {
        let top = fused_views(out@);
        let positions = Seq::new(order@.len(), |i: int| order@[i] as int);
        assert(pool.len() == ids@.len());
        assert forall|i: int| 0 <= i < top.len() implies #[trigger] top[i] == pool[order@[i] as int] by {
            let x = order@[i] as int;
            assert(out@[i].0@ == ids@[x]@);
            assert(id_views(ids@)[x] == ids@[x]@);
            assert(keys@[x]@ == fused_rank(pool[x]));
            assert(parts@[x] == pool[x].1);
        }
        assert forall|i: int, j: int| 0 <= i < j < top.len() implies !outranks(
            fused_rank(#[trigger] top[j]),
            fused_rank(#[trigger] top[i]),
        ) by {
            assert(top[i] == pool[order@[i] as int]);
            assert(top[j] == pool[order@[j] as int]);
            assert(!outranks(keys@[order@[j] as int]@, keys@[order@[i] as int]@));
        }
        assert forall|u: int, i: int|
            0 <= u < pool.len() && 0 <= i < top.len() && !positions.contains(u) implies !outranks(
            fused_rank(#[trigger] pool[u]),
            fused_rank(#[trigger] top[i]),
        ) by {
            if order@.contains(u as usize) {
                let w = choose|w: int| 0 <= w < order@.len() && order@[w] == u as usize;
                assert(positions[w] == u);
            }
            assert(top[i] == pool[order@[i] as int]);
            assert(!outranks(keys@[u]@, keys@[order@[i] as int]@));
        }
        assert forall|i: int| 0 <= i < positions.len() implies 0 <= #[trigger] positions[i]
            < pool.len() && top[i] == pool[positions[i]] by {
            assert(top[i] == pool[order@[i] as int]);
        }
        assert(fused_at(top, pool, params.k as int, positions));
        lemma_distinct_prefix(t + v, (t.len() + v.len()) as int);
        assert forall|i: int, j: int| 0 <= i < j < pool.len() implies (#[trigger] pool[i]).0 != (
        #[trigger] pool[j]).0 by {
            assert(fused_id_texts(t, v)[i] != fused_id_texts(t, v)[j]);
        }
        lemma_best_fused(top, pool, params.k as int);
        assert forall|i: int, j: int| 0 <= i < j < out@.len() implies (#[trigger] out@[i]).0@ != (
        #[trigger] out@[j]).0@ by {
            assert(top[i].0 != top[j].0);
        }
    }
    out
}

/// The id texts of a sequence of facts.
pub open spec fn fact_ids(facts: Seq<Fact>) -> Seq<Seq<char>> {
    Seq::new(facts.len(), |i: int| facts[i].id@)
}

/// Vector hits as pairs of the fact's id text and the similarity.
pub open spec fn fact_hit_views(hits: Seq<(Fact, u32)>) -> Seq<(Seq<char>, u32)> {
    Seq::new(hits.len(), |i: int| (hits[i].0.id@, hits[i].1))
}

/// An id that some fact has picks a fact.
pub proof fn lemma_pick_some(facts: Seq<Fact>, id: Seq<char>)
    requires
        fact_ids(facts).contains(id),
    ensures
        pick(facts, id) is Some,
    decreases facts.len(),
{
    let i = choose|i: int| 0 <= i < fact_ids(facts).len() && fact_ids(facts)[i] == id;
    assert(facts[i].id@ == id);
    if facts.last().id@ != id {
        assert(fact_ids(facts.drop_last())[i] == id);
        lemma_pick_some(facts.drop_last(), id);
    }
}

/// A text search that finds nothing whatever the index holds: the query is
/// blank or the store is empty.
pub open spec fn quiet_search(query: Seq<char>, table: Seq<(Seq<char>, Fact)>) -> bool {
    blank(query) || table.len() == 0
}

/// Hybrid hits as pairs of the fact's id text and the score.
pub open spec fn hybrid_hits(hits: Seq<(Fact, HybridScoreBreakdown)>) -> Seq<
    (Seq<char>, HybridScoreBreakdown),
> {
    Seq::new(hits.len(), |i: int| (hits[i].0.id@, hits[i].1))
}

/// The vector channel's ids: none for a query of zero norm, else the ids of
/// the `window` best candidates, best first.
pub open spec fn vector_channel(
    vector: Seq<Seq<char>>,
    candidates: Seq<(Seq<char>, u32)>,
    window: int,
    null: bool,
) -> bool {
    if null {
        vector.len() == 0
    } else {
        exists|top: Seq<(Seq<char>, u32)>|
            #[trigger] best_of(top, candidates, window) && vector == Seq::new(
                top.len(),
                |i: int| top[i].0,
            )
    }
}

/// What a hybrid search returns, given what its channels gave.
///
/// The text channel gave `text`: at most `candidate_window` ids of stored
/// facts, none twice, and none where the query is blank or the store empty
/// (`quiet`). The vector channel gave `vector`, as `vector_channel` says of
/// the scored `candidates`. Ages are counted up to `reference`, which is `at`
/// where that is given. The hits are the `k` best of the fused ids.
pub open spec fn hybrid_outcome<M: ScoreMath>(
    hits: Seq<(Seq<char>, HybridScoreBreakdown)>,
    math: M,
    params: HybridParams,
    quiet: bool,
    candidates: Seq<(Seq<char>, u32)>,
    null: bool,
    table: Seq<(Seq<char>, Fact)>,
    at: Option<Instant>,
    text: Seq<Seq<char>>,
    vector: Seq<Seq<char>>,
    ages: Seq<u64>,
    reference: Instant,
) -> bool {
    &&& text.len() <= params.candidate_window
    &&& text.no_duplicates()
    &&& quiet ==> text.len() == 0
    &&& forall|i: int| 0 <= i < text.len() ==> holds_id(table, #[trigger] text[i])
    &&& vector_channel(vector, candidates, params.candidate_window as int, null)
    &&& at matches Some(t0) ==> reference == t0
    &&& ages.len() == fused_id_texts(text, vector).len()
    &&& adjusts(params) ==> forall|i: int|
        0 <= i < ages.len() ==> (#[trigger] ages[i]) as int == reference.elapsed_secs(
            table[locate(table, fused_id_texts(text, vector)[i], 0)].1.valid_from,
        )
    &&& best_fused(hits, fused_pool(math, params, text, vector, ages), params.k as int)
}

/// A fact that a scan selects is the fact of a stored row, so its id is held.
pub proof fn lemma_selected_is_held(
    table: Seq<(Seq<char>, Fact)>,
    prefix: Seq<char>,
    filter: TimeFilter,
    f: Fact,
)
    requires
        select(table, prefix, filter).contains(f),
    ensures
        holds_id(table, f.id@),
{
    lemma_select_contains(table, prefix, filter, f);
    let i = choose|i: int|
        0 <= i < table.len() && (#[trigger] table[i]).1 == f && crate::keys::is_prefix(
            prefix,
            table[i].0,
        ) && crate::table::passes(f, filter);
    lemma_locate(table, f.id@, 0);
}

impl TemporalGraph {
    /// The facts most similar to the query among those that meet the temporal
    /// condition and have an embedding, most similar first.
    ///
    /// Fails with invalid-embedding when a dimension is established and the
    /// query has another length. Gives nothing for `k` of zero and for a
    /// query of zero norm. Otherwise the index entries of the facts that meet
    /// the condition are given their cosine similarity to the query, and the
    /// result is the `k` best of them, or all where there are fewer, equal
    /// similarities by ascending id, each with the fact of its id.
    pub fn search_by_vector<M: ScoreMath>(
        &self,
        math: &M,
        query: &Vec<u32>,
        k: usize,
        at: Option<Instant>,
    ) -> (r: Result<Vec<(Fact, u32)>, KronroeError>)
        requires
            self.wf(),
        ensures
            r is Err <==> (self.index().dimension() matches Some(d) && d != query@.len()),
            r is Err ==> r->Err_0 is InvalidEmbedding,
            r is Ok && (k == 0 || math.null(query@)) ==> r->Ok_0@.len() == 0,
            r is Ok && k > 0 && !math.null(query@) ==> best_of(
                fact_hit_views(r->Ok_0@),
                scored_pool(
                    *math,
                    query@,
                    admitted(
                        self.index().entries(),
                        fact_ids(select(self.rows(), Seq::empty(), filter_for(at))),
                    ),
                ),
                k as int,
            ),
            r is Ok ==> forall|i: int|
                0 <= i < r->Ok_0@.len() ==> pick(
                    select(self.rows(), Seq::empty(), filter_for(at)),
                    (#[trigger] r->Ok_0@[i]).0.id@,
                ) == Some(r->Ok_0@[i].0),
            r is Ok ==> forall|i: int, j: int|
                0 <= i < j < r->Ok_0@.len() ==> (#[trigger] r->Ok_0@[i]).0.id@ != (
                #[trigger] r->Ok_0@[j]).0.id@,
            r is Ok ==> forall|i: int|
                0 <= i < r->Ok_0@.len() ==> select(self.rows(), Seq::empty(), filter_for(at)).contains(
                    (#[trigger] r->Ok_0@[i]).0,
                ),
    {
        match self.embedding_dim() {
            Some(d) => {
                if query.len() != d {
                    return Err(query_mismatch(d, query.len()));
                }
            },
            None => {},
        }
        let filter = match at {
            Some(t) => TimeFilter::At(t),
            None => TimeFilter::Current,
        };
        let matching = self.facts_matching(filter);
        let mut valid_ids: Vec<FactId> = Vec::new();
        let mut m: usize = 0;
        while m < matching.len()
            invariant
                m <= matching@.len(),
                valid_ids@.len() == m,
                forall|i: int| 0 <= i < m ==> (#[trigger] valid_ids@[i])@ == matching@[i].id@,
            decreases matching@.len() - m,
        {
            valid_ids.push(matching[m].id.duplicate());
            m += 1;
        }
        proof {
            self.lemma_index_is_the_field();
            assert(id_views(valid_ids@) =~= fact_ids(matching@));
        }
        let hits = self.vector_index.search(math, query, k, &valid_ids);
        let ghost allowed = admitted(self.index().entries(), fact_ids(matching@));
        let mut out: Vec<(Fact, u32)> = Vec::new();
        let mut p: usize = 0;
        while p < hits.len()
            invariant
                p <= hits@.len(),
                out@.len() == p,
                allowed == admitted(self.index().entries(), fact_ids(matching@)),
                forall|i: int| 0 <= i < hits@.len() ==> holds_entry(allowed, (#[trigger] hits@[i]).0@),
                forall|a: int|
                    0 <= a < p ==> (#[trigger] out@[a]).1 == hits@[a].1 && out@[a].0.id@ == hits@[a].0@
                        && pick(matching@, out@[a].0.id@) == Some(out@[a].0),
            decreases hits@.len() - p,
        {
            proof {
                lemma_admitted_within(self.index().entries(), fact_ids(matching@), hits@[p as int].0@);
                lemma_pick_some(matching@, hits@[p as int].0@);
                lemma_pick_within(matching@, hits@[p as int].0@);
            }
            match find_fact(&matching, hits[p].0.0.as_str()) {
                Some(f) => {
                    out.push((f, hits[p].1));
                },
                None => {},
            }
            p += 1;
        }
        proof {
            assert(fact_hit_views(out@) =~= hit_views(hits@));
            assert forall|i: int| 0 <= i < out@.len() implies matching@.contains(
                (#[trigger] out@[i]).0,
            ) by {
                lemma_pick_within(matching@, out@[i].0.id@);
            }
            assert forall|i: int, j: int| 0 <= i < j < out@.len() implies (#[trigger] out@[i]).0.id@
                != (#[trigger] out@[j]).0.id@ by {
                assert(hits@[i].0@ != hits@[j].0@);
            }
        }
        Ok(out)
    }

    /// Hybrid search: the text and vector channels fused by weighted
    /// reciprocal ranks, adjusted by age where a half-life is set, and ranked
    /// by the final score with equal scores by ascending id.
    ///
    /// Parameters that are not valid are refused before any search. Each
    /// channel gives up to `candidate_window` ranked ids: the text channel by
    /// full-text search, the vector channel by vector search under the
    /// temporal condition. The two lists are fused by `fuse`, with each id's
    /// age counted from its fact's `valid_from` to `at`, or to now where no
    /// instant is given, and every hit comes with the fact of its id.
    ///
    /// Besides the parameter error, the call fails with a search error where
    /// the text search fails and with invalid-embedding where the query's
    /// length differs from the established dimension. It succeeds on valid
    /// parameters and a fitting query whenever the text query is blank or the
    /// store is empty.
    pub fn search_hybrid_experimental<M: ScoreMath>(
        &self,
        math: &M,
        text_query: &str,
        vector_query: &Vec<u32>,
        params: HybridParams,
        at: Option<Instant>,
    ) -> (r: Result<Vec<(Fact, HybridScoreBreakdown)>, KronroeError>)
        requires
            self.wf(),
        ensures
            !params_valid(params) ==> r is Err && r->Err_0 is Search && r->Err_0.detail()
                == violation_text(params),
            r is Err ==> r->Err_0 is Search || r->Err_0 is InvalidEmbedding,
            r is Err && r->Err_0 is InvalidEmbedding ==> (self.index().dimension() matches Some(d)
                && d != vector_query@.len()),
            params_valid(params) && (self.index().dimension() matches Some(d) && d
                != vector_query@.len()) ==> r is Err,
            params_valid(params) && (blank(text_query@) || self.rows().len() == 0) ==> (r is Err
                <==> (self.index().dimension() matches Some(d) && d != vector_query@.len())),
            r is Ok ==> exists|text: Seq<Seq<char>>, vector: Seq<Seq<char>>, ages: Seq<u64>, reference: Instant|
                #[trigger] hybrid_outcome(
                    hybrid_hits(r->Ok_0@),
                    *math,
                    params,
                    quiet_search(text_query@, self.rows()),
                    scored_pool(
                        *math,
                        vector_query@,
                        admitted(
                            self.index().entries(),
                            fact_ids(select(self.rows(), Seq::empty(), filter_for(at))),
                        ),
                    ),
                    math.null(vector_query@),
                    self.rows(),
                    at,
                    text,
                    vector,
                    ages,
                    reference,
                ),
            r is Ok ==> r->Ok_0@.len() <= params.k,
            r is Ok ==> ranked(hybrid_ranks(r->Ok_0@)),
            r is Ok ==> forall|i: int, j: int|
                0 <= i < j < r->Ok_0@.len() && r->Ok_0@[i].1.final_score == r->Ok_0@[j].1.final_score
                    ==> key_less((#[trigger] r->Ok_0@[i]).0.id@, (#[trigger] r->Ok_0@[j]).0.id@),
            r is Ok ==> forall|i: int, j: int|
                0 <= i < j < r->Ok_0@.len() ==> (#[trigger] r->Ok_0@[i]).0.id@ != (
                #[trigger] r->Ok_0@[j]).0.id@,
            r is Ok ==> forall|i: int|
                0 <= i < r->Ok_0@.len() ==> (#[trigger] r->Ok_0@[i]).0 == self.rows()[locate(
                    self.rows(),
                    r->Ok_0@[i].0.id@,
                    0,
                )].1,
            r is Ok && !adjusts(params) ==> forall|i: int|
                0 <= i < r->Ok_0@.len() ==> (#[trigger] r->Ok_0@[i]).1.temporal_adjustment == 0,
    {
        match validate_hybrid_params(&params) {
            Err(e) => {
                return Err(e);
            },
            Ok(()) => {},
        }
        let window = params.candidate_window;
        let ghost table = self.rows();
        let ghost quiet = quiet_search(text_query@, self.rows());
        let text_facts = match self.search(text_query, window) {
            Err(e) => {
                return Err(e);
            },
            Ok(facts) => facts,
        };
        let mut text_ids: Vec<FactId> = Vec::new();
        let mut t: usize = 0;
        while t < text_facts.len()
            invariant
                t <= text_facts@.len(),
                text_ids@.len() == t,
                forall|i: int| 0 <= i < t ==> (#[trigger] text_ids@[i])@ == text_facts@[i].id@,
            decreases text_facts@.len() - t,
        {
            text_ids.push(text_facts[t].id.duplicate());
            t += 1;
        }
        let vector_hits = match self.search_by_vector(math, vector_query, window, at) {
            Err(e) => {
                return Err(e);
            },
            Ok(hits) => hits,
        };
        let mut vector_ids: Vec<FactId> = Vec::new();
        let mut v: usize = 0;
        while v < vector_hits.len()
            invariant
                v <= vector_hits@.len(),
                vector_ids@.len() == v,
                forall|i: int| 0 <= i < v ==> (#[trigger] vector_ids@[i])@ == vector_hits@[i].0.id@,
            decreases vector_hits@.len() - v,
        {
            vector_ids.push(vector_hits[v].0.id.duplicate());
            v += 1;
        }
        let ids = fused_ids(&text_ids, &vector_ids);
        let ghost text = id_views(text_ids@);
        let ghost vector = id_views(vector_ids@);
        let ghost candidates = scored_pool(
            *math,
            vector_query@,
            admitted(self.index().entries(), fact_ids(select(table, Seq::empty(), filter_for(at)))),
        );
        proof {
            // Every id of either channel is the id of a stored fact.
            assert forall|i: int| 0 <= i < text.len() implies holds_id(table, #[trigger] text[i]) by {
                lemma_selected_is_held(table, Seq::empty(), TimeFilter::All, text_facts@[i]);
            }
            assert forall|i: int| 0 <= i < vector.len() implies holds_id(
                table,
                #[trigger] vector[i],
            ) by {
                lemma_selected_is_held(table, Seq::empty(), filter_for(at), vector_hits@[i].0);
            }
            lemma_distinct_prefix(text + vector, (text.len() + vector.len()) as int);
            assert forall|i: int| 0 <= i < ids@.len() implies holds_id(table, (#[trigger] ids@[i])@) by {
                let x = id_views(ids@)[i];
                assert(fused_id_texts(text, vector).contains(x));
                let w = choose|w: int| 0 <= w < text.len() + vector.len() && (text + vector)[w] == x;
                if w < text.len() {
                    assert(text[w] == x);
                } else {
                    assert(vector[w - text.len()] == x);
                }
            }
            assert(text.no_duplicates()) by {
                assert forall|i: int, j: int| 0 <= i < text.len() && 0 <= j < text.len() && i != j
                    implies text[i] != text[j] by {
                    if i < j {
                        assert(text_facts@[i].id@ != text_facts@[j].id@);
                    } else {
                        assert(text_facts@[j].id@ != text_facts@[i].id@);
                    }
                }
            }
            if !math.null(vector_query@) {
                let top = fact_hit_views(vector_hits@);
                assert(best_of(top, candidates, window as int));
                assert(vector =~= Seq::new(top.len(), |i: int| top[i].0));
            }
            assert(vector_channel(vector, candidates, window as int, math.null(vector_query@)));
        }
        let adjust = applies_temporal_adjustment(&params);
        let reference = match at {
            Some(instant) => instant,
            None => current_instant(),
        };
        let mut ages: Vec<u64> = Vec::new();
        let mut n: usize = 0;
        while n < ids.len()
            invariant
                n <= ids@.len(),
                ages@.len() == n,
                table == self.rows(),
                forall|i: int| 0 <= i < ids@.len() ==> holds_id(table, (#[trigger] ids@[i])@),
                adjust ==> forall|i: int|
                    0 <= i < n ==> (#[trigger] ages@[i]) as int == reference.elapsed_secs(
                        table[locate(table, ids@[i]@, 0)].1.valid_from,
                    ),
            decreases ids@.len() - n,
        {
            let mut age: u64 = 0;
            if adjust {
                assert(holds_id(table, ids@[n as int]@));
                match self.fact_by_id(&ids[n]) {
                    Err(e) => {
                        return Err(e);
                    },
                    Ok(fact) => {
                        age = reference.seconds_since(&fact.valid_from);
                    },
                }
            }
            ages.push(age);
            n += 1;
        }
        let fused = fuse(math, &text_ids, &vector_ids, &ages, &params);
        let ghost pool = fused_pool(*math, params, text, vector, ages@);
        proof {
            lemma_distinct_prefix(text + vector, (text.len() + vector.len()) as int);
            assert forall|i: int, j: int| 0 <= i < j < pool.len() implies (#[trigger] pool[i]).0 != (
            #[trigger] pool[j]).0 by {
                assert(fused_id_texts(text, vector)[i] != fused_id_texts(text, vector)[j]);
            }
            lemma_best_fused(fused_views(fused@), pool, params.k as int);
            assert forall|i: int| 0 <= i < fused@.len() implies holds_id(
                table,
                (#[trigger] fused@[i]).0@,
            ) by {
                let hit = fused_views(fused@)[i];
                assert(pool.contains(hit));
                let w = choose|w: int| 0 <= w < pool.len() && pool[w] == hit;
                assert(id_views(ids@)[w] == hit.0);
                assert(holds_id(table, ids@[w]@));
            }
        }
        let mut out: Vec<(Fact, HybridScoreBreakdown)> = Vec::new();
        let mut p: usize = 0;
        while p < fused.len()
            invariant
                p <= fused@.len(),
                out@.len() == p,
                table == self.rows(),
                forall|i: int| 0 <= i < fused@.len() ==> holds_id(table, (#[trigger] fused@[i]).0@),
                forall|a: int|
                    0 <= a < p ==> (#[trigger] out@[a]).0.id@ == fused@[a].0@ && out@[a].1 == fused@[a].1
                        && out@[a].0 == table[locate(table, out@[a].0.id@, 0)].1,
            decreases fused@.len() - p,
        {
            assert(holds_id(table, fused@[p as int].0@));
            let fact = match self.fact_by_id(&fused[p].0) {
                Err(e) => {
                    return Err(e);
                },
                Ok(f) => f,
            };
            proof {
                lemma_locate(table, fused@[p as int].0@, 0);
            }
            out.push((fact, fused[p].1));
            p += 1;
        }
        proof {
            let hits = hybrid_hits(out@);
            assert(hits =~= fused_views(fused@));
            assert(ages@.len() == fused_id_texts(text, vector).len()) by {
                assert(id_views(ids@).len() == ids@.len());
            }
            if adjusts(params) {
                assert forall|i: int| 0 <= i < ages@.len() implies (#[trigger] ages@[i]) as int
                    == reference.elapsed_secs(
                    table[locate(table, fused_id_texts(text, vector)[i], 0)].1.valid_from,
                ) by {
                    assert(id_views(ids@)[i] == ids@[i]@);
                }
            }
            assert(hybrid_outcome(
                hits,
                *math,
                params,
                quiet,
                candidates,
                math.null(vector_query@),
                table,
                at,
                text,
                vector,
                ages@,
                reference,
            ));
            let order = choose|order: Seq<int>| #[trigger] fused_at(hits, pool, params.k as int, order);
            let ranks = hybrid_ranks(out@);
            assert forall|i: int, j: int| 0 <= i < j < ranks.len() implies !outranks(
                #[trigger] ranks[j],
                #[trigger] ranks[i],
            ) by {
                assert(ranks[i] == fused_rank(hits[i]));
                assert(ranks[j] == fused_rank(hits[j]));
            }
            assert forall|i: int, j: int| 0 <= i < j < out@.len() implies (#[trigger] out@[i]).0.id@
                != (#[trigger] out@[j]).0.id@ by {
                assert(hits[i].0 != hits[j].0);
            }
            assert forall|i: int, j: int|
                0 <= i < j < out@.len() && out@[i].1.final_score == out@[j].1.final_score implies key_less(
                (#[trigger] out@[i]).0.id@,
                (#[trigger] out@[j]).0.id@,
            ) by {
                assert(ranks[i] == fused_rank(hits[i]));
                assert(ranks[j] == fused_rank(hits[j]));
                assert(hits[i].0 != hits[j].0);
                lemma_ranked_ties_by_id(ranks, i, j);
            }
            if !adjusts(params) {
                assert forall|i: int| 0 <= i < out@.len() implies (
                #[trigger] out@[i]).1.temporal_adjustment == 0 by {
                    assert(pool.contains(hits[i]));
                }
            }
        }
        Ok(out)
    }
}

} // verus!
