//! The hybrid ranker's parameters and the exact parts of its work: parameter
//! validation, the merge of the two rank lists, and the order of scores.
//!
//! Weights, half-lives and scores are carried as IEEE 754 bit patterns. The
//! arithmetic on them is the caller's; their sign, their order and the ranks
//! they are computed from are settled here.

use vstd::prelude::*;
use vstd::string::*;
use crate::error::KronroeError;
use crate::fact::FactId;

verus! {

/// The bit pattern of the single-precision number one half.
pub const HALF_WEIGHT: u32 = 0x3F00_0000;

/// How the two channels are fused.
#[derive(Debug, Clone, Copy, PartialEq, Eq, Structural)]
pub enum HybridFusionStrategy {
    /// Weighted reciprocal rank fusion.
    Rrf,
}

/// The temporal adjustment applied after fusion.
#[derive(Debug, Clone, Copy, PartialEq, Eq, Structural)]
pub enum TemporalAdjustment {
    /// No adjustment.
    Off,
    /// Exponential decay with the given half-life in days, a single-precision
    /// bit pattern.
    HalfLifeDays { days: u32 },
}

/// The parameters of a hybrid search. Weights are single-precision bit
/// patterns.
#[derive(Debug, Clone, Copy, PartialEq, Eq, Structural)]
pub struct HybridParams {
    pub k: usize,
    pub candidate_window: usize,
    pub fusion: HybridFusionStrategy,
    pub rank_constant: usize,
    pub text_weight: u32,
    pub vector_weight: u32,
    pub temporal_weight: u32,
    pub temporal_adjustment: TemporalAdjustment,
}

/// The score of one hybrid hit and its parts, as double-precision bit
/// patterns.
#[derive(Debug, Clone, Copy, PartialEq, Eq, Structural)]
pub struct HybridScoreBreakdown {
    pub final_score: u64,
    pub text_rrf_contrib: u64,
    pub vector_rrf_contrib: u64,
    pub temporal_adjustment: u64,
}

impl Default for HybridParams {
    fn default() -> (r: HybridParams)
        ensures
            r.k == 10,
            r.candidate_window == 50,
            r.fusion == HybridFusionStrategy::Rrf,
            r.rank_constant == 60,
            r.text_weight == HALF_WEIGHT,
            r.vector_weight == HALF_WEIGHT,
            r.temporal_weight == 0,
            r.temporal_adjustment == TemporalAdjustment::Off,
            params_valid(r),
    {
        proof {
            assert(!single_is_zero(0x3F00_0000u32) && !single_is_negative(0x3F00_0000u32)
                && !single_is_negative(0u32)) by (bit_vector);
        }
        HybridParams {
            k: 10,
            candidate_window: 50,
            fusion: HybridFusionStrategy::Rrf,
            rank_constant: 60,
            text_weight: HALF_WEIGHT,
            vector_weight: HALF_WEIGHT,
            temporal_weight: 0,
            temporal_adjustment: TemporalAdjustment::Off,
        }
    }
}

/// The pattern is a NaN: all exponent bits set and a non-zero fraction.
pub open spec fn single_is_nan(bits: u32) -> bool {
    (bits & 0x7F80_0000u32) == 0x7F80_0000u32 && (bits & 0x007F_FFFFu32) != 0
}

/// The pattern is positive or negative zero.
pub open spec fn single_is_zero(bits: u32) -> bool {
    (bits & 0x7FFF_FFFFu32) == 0
}

/// The pattern is a number below zero.
pub open spec fn single_is_negative(bits: u32) -> bool {
    (bits & 0x8000_0000u32) != 0 && !single_is_zero(bits) && !single_is_nan(bits)
}

/// The pattern is a number above zero.
pub open spec fn single_is_positive(bits: u32) -> bool {
    (bits & 0x8000_0000u32) == 0 && !single_is_zero(bits) && !single_is_nan(bits)
}

/// Whether the pattern is positive or negative zero.
pub fn is_zero(bits: u32) -> (r: bool)
    ensures
        r == single_is_zero(bits),
{
    (bits & 0x7FFF_FFFFu32) == 0
}

/// Whether the pattern is a number below zero.
pub fn is_negative(bits: u32) -> (r: bool)
    ensures
        r == single_is_negative(bits),
{
    let nan = (bits & 0x7F80_0000u32) == 0x7F80_0000u32 && (bits & 0x007F_FFFFu32) != 0;
    (bits & 0x8000_0000u32) != 0 && !is_zero(bits) && !nan
}

/// Whether the pattern is a number above zero.
pub fn is_positive(bits: u32) -> (r: bool)
    ensures
        r == single_is_positive(bits),
{
    let nan = (bits & 0x7F80_0000u32) == 0x7F80_0000u32 && (bits & 0x007F_FFFFu32) != 0;
    (bits & 0x8000_0000u32) == 0 && !is_zero(bits) && !nan
}

/// The half-life is zero or below.
pub open spec fn half_life_refused(adjustment: TemporalAdjustment) -> bool {
    adjustment matches TemporalAdjustment::HalfLifeDays { days } && (single_is_zero(days)
        || single_is_negative(days))
}

/// The parameters are accepted: `k`, the candidate window and the rank
/// constant are at least one, no weight is below zero, the text and vector
/// weights are not both zero, and a half-life is above zero.
pub open spec fn params_valid(p: HybridParams) -> bool {
    &&& p.k >= 1
    &&& p.candidate_window >= 1
    &&& p.rank_constant >= 1
    &&& !single_is_negative(p.text_weight)
    &&& !single_is_negative(p.vector_weight)
    &&& !single_is_negative(p.temporal_weight)
    &&& !(single_is_zero(p.text_weight) && single_is_zero(p.vector_weight))
    &&& !half_life_refused(p.temporal_adjustment)
}

/// The message for the first rule, in the order of `params_valid`, that the
/// parameters break.
pub open spec fn violation_text(p: HybridParams) -> Seq<char> {
    if p.k == 0 {
        "hybrid-experimental: `k` must be >= 1"@
    } else if p.candidate_window == 0 {
        "hybrid-experimental: `candidate_window` must be >= 1"@
    } else if p.rank_constant < 1 {
        "hybrid-experimental: `rank_constant` must be >= 1"@
    } else if single_is_negative(p.text_weight) || single_is_negative(p.vector_weight)
        || single_is_negative(p.temporal_weight) {
        "hybrid-experimental: weights must be non-negative"@
    } else if single_is_zero(p.text_weight) && single_is_zero(p.vector_weight) {
        "hybrid-experimental: at least one of `text_weight` or `vector_weight` must be > 0"@
    } else {
        "hybrid-experimental: `HalfLifeDays.days` must be > 0"@
    }
}

/// Accepts the parameters or names the first rule they break. No ranking is
/// attempted on parameters that are refused.
pub fn validate_hybrid_params(params: &HybridParams) -> (r: Result<(), KronroeError>)
    ensures
        r is Ok <==> params_valid(*params),
        r is Err ==> r->Err_0 is Search && r->Err_0.detail() == violation_text(*params),
{
    if params.k == 0 {
        return Err(KronroeError::Search(String::from_str("hybrid-experimental: `k` must be >= 1")));
    }
    if params.candidate_window == 0 {
        return Err(
            KronroeError::Search(
                String::from_str("hybrid-experimental: `candidate_window` must be >= 1"),
            ),
        );
    }
    if params.rank_constant < 1 {
        return Err(
            KronroeError::Search(
                String::from_str("hybrid-experimental: `rank_constant` must be >= 1"),
            ),
        );
    }
    if is_negative(params.text_weight) || is_negative(params.vector_weight) || is_negative(
        params.temporal_weight,
    ) {
        return Err(
            KronroeError::Search(
                String::from_str("hybrid-experimental: weights must be non-negative"),
            ),
        );
    }
    if is_zero(params.text_weight) && is_zero(params.vector_weight) {
        return Err(
            KronroeError::Search(
                String::from_str(
                    "hybrid-experimental: at least one of `text_weight` or `vector_weight` must be > 0",
                ),
            ),
        );
    }
    match params.temporal_adjustment {
        TemporalAdjustment::HalfLifeDays { days } => {
            if is_zero(days) || is_negative(days) {
                return Err(
                    KronroeError::Search(
                        String::from_str("hybrid-experimental: `HalfLifeDays.days` must be > 0"),
                    ),
                );
            }
        },
        TemporalAdjustment::Off => {},
    }
    Ok(())
}

/// Whether a temporal adjustment is applied: a half-life is set and the
/// temporal weight is above zero.
pub fn applies_temporal_adjustment(params: &HybridParams) -> (r: bool)
    ensures
        r == (params.temporal_adjustment is HalfLifeDays && single_is_positive(
            params.temporal_weight,
        )),
{
    match params.temporal_adjustment {
        TemporalAdjustment::Off => false,
        TemporalAdjustment::HalfLifeDays { days: _ } => is_positive(params.temporal_weight),
    }
}

/// The integer that orders single-precision patterns as the numbers they
/// stand for: the pattern with its sign bit set where the number is not
/// negative, and the complement of the pattern where it is.
pub open spec fn single_order(bits: u32) -> u64 {
    if (bits & 0x8000_0000u32) != 0 {
        (!bits) as u64
    } else {
        (bits | 0x8000_0000u32) as u64
    }
}

/// The integer that orders double-precision patterns as the numbers they
/// stand for.
pub open spec fn double_order(bits: u64) -> u64 {
    if (bits & 0x8000_0000_0000_0000u64) != 0 {
        !bits
    } else {
        bits | 0x8000_0000_0000_0000u64
    }
}

/// The rank score of a single-precision pattern.
pub fn single_rank_score(bits: u32) -> (r: u64)
    ensures
        r == single_order(bits),
{
    if (bits & 0x8000_0000u32) != 0 {
        (!bits) as u64
    } else {
        (bits | 0x8000_0000u32) as u64
    }
}

/// The rank score of a double-precision pattern.
pub fn double_rank_score(bits: u64) -> (r: u64)
    ensures
        r == double_order(bits),
{
    if (bits & 0x8000_0000_0000_0000u64) != 0 {
        !bits
    } else {
        bits | 0x8000_0000_0000_0000u64
    }
}

/// The positions of `id` in a rank list, ascending.
pub open spec fn positions(list: Seq<Seq<char>>, id: Seq<char>) -> Seq<usize>
    decreases list.len(),
{
    if list.len() == 0 {
        Seq::empty()
    } else {
        let rest = positions(list.drop_last(), id);
        if list.last() == id {
            rest.push((list.len() - 1) as usize)
        } else {
            rest
        }
    }
}

/// The ranks at which an id stands in a rank list, best first. Each rank
/// contributes to the id's score in that channel.
pub fn ranks_of(list: &Vec<FactId>, id: &FactId) -> (r: Vec<usize>)
    ensures
        r@ == positions(crate::vector::id_views(list@), id@),
{
    let ghost ids = crate::vector::id_views(list@);
    let mut out: Vec<usize> = Vec::new();
    let mut i: usize = 0;
    assert(ids.take(0) =~= Seq::empty());
    while i < list.len()
        invariant
            i <= list@.len(),
            ids == crate::vector::id_views(list@),
            out@ == positions(ids.take(i as int), id@),
        decreases list@.len() - i,
    {
        assert(ids.take(i + 1).drop_last() =~= ids.take(i as int));
        if list[i].same_as(id) {
            out.push(i);
        }
        i += 1;
    }
    assert(ids.take(i as int) =~= ids);
    out
}

/// The ids of the first `n` entries of `all`, each once, by first occurrence.
pub open spec fn distinct_prefix(all: Seq<Seq<char>>, n: int) -> Seq<Seq<char>>
    decreases n,
{
    if n <= 0 {
        Seq::empty()
    } else {
        let rest = distinct_prefix(all, n - 1);
        if rest.contains(all[n - 1]) {
            rest
        } else {
            rest.push(all[n - 1])
        }
    }
}

/// The ids that occur in the text list or the vector list, each once, in
/// order of first occurrence with the text list first.
pub fn fused_ids(text: &Vec<FactId>, vector: &Vec<FactId>) -> (r: Vec<FactId>)
    ensures
        crate::vector::id_views(r@) == distinct_prefix(
            crate::vector::id_views(text@) + crate::vector::id_views(vector@),
            (text@.len() + vector@.len()) as int,
        ),
{
    let ghost all = crate::vector::id_views(text@) + crate::vector::id_views(vector@);
    let mut out: Vec<FactId> = Vec::new();
    let mut i: usize = 0;
    assert(crate::vector::id_views(out@) =~= distinct_prefix(all, 0));
    while i < text.len()
        invariant
            i <= text@.len(),
            all == crate::vector::id_views(text@) + crate::vector::id_views(vector@),
            crate::vector::id_views(out@) == distinct_prefix(all, i as int),
        decreases text@.len() - i,
    {
        assert(all[i as int] == text@[i as int]@);
        if !crate::vector::id_listed(&out, &text[i]) {
            let ghost before = crate::vector::id_views(out@);
            out.push(text[i].duplicate());
            assert(crate::vector::id_views(out@) =~= before.push(text@[i as int]@));
        }
        i += 1;
    }
    let mut j: usize = 0;
    while j < vector.len()
        invariant
            j <= vector@.len(),
            all == crate::vector::id_views(text@) + crate::vector::id_views(vector@),
            crate::vector::id_views(out@) == distinct_prefix(all, (text@.len() + j) as int),
        decreases vector@.len() - j,
    {
        assert(all[text@.len() + j] == vector@[j as int]@);
        if !crate::vector::id_listed(&out, &vector[j]) {
            let ghost before = crate::vector::id_views(out@);
            out.push(vector[j].duplicate());
            assert(crate::vector::id_views(out@) =~= before.push(vector@[j as int]@));
        }
        j += 1;
    }
    out
}

/// The fused ids hold no id twice, and they are the ids of the two lists.
pub proof fn lemma_distinct_prefix(all: Seq<Seq<char>>, n: int)
    requires
        0 <= n <= all.len(),
    ensures
        distinct_prefix(all, n).no_duplicates(),
        forall|x: Seq<char>|
            distinct_prefix(all, n).contains(x) <==> exists|i: int| 0 <= i < n && all[i] == x,
    decreases n,
{
    if n > 0 {
        lemma_distinct_prefix(all, n - 1);
        let rest = distinct_prefix(all, n - 1);
        let cur = distinct_prefix(all, n);
        assert forall|x: Seq<char>| cur.contains(x) <==> exists|i: int|
            0 <= i < n && all[i] == x by {
            if cur.contains(x) {
                let k = choose|k: int| 0 <= k < cur.len() && cur[k] == x;
                if k < rest.len() {
                    assert(rest[k] == x);
                    assert(rest.contains(x));
                } else {
                    assert(all[n - 1] == x);
                }
            }
            if exists|i: int| 0 <= i < n && all[i] == x {
                let i = choose|i: int| 0 <= i < n && all[i] == x;
                if i < n - 1 {
                    assert(rest.contains(x));
                    let k = choose|k: int| 0 <= k < rest.len() && rest[k] == x;
                    assert(cur[k] == x);
                } else if rest.contains(x) {
                } else {
                    assert(cur[rest.len() as int] == x);
                }
            }
        }
    }
}

} // verus!
