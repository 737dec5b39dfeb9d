//! The aggregation rule that turns the weights of a node's counted
//! outgoing edges into the node's own distance score.
//!
//! The rule is a harmonic mean, computed exactly in fixed-point integer
//! arithmetic: every weight `w` contributes the scaled reciprocal
//! `SCALE / w`, and the aggregate of `n` weights is
//! `n * SCALE / (sum of the reciprocals)`, truncated, plus one for the
//! hop over the aggregated edge.  The harmonic mean is dominated by its
//! smallest member, so one short path to a target keeps a node's score
//! low however many long paths exist beside it.

use vstd::arithmetic::div_mod::lemma_div_by_self;
use vstd::arithmetic::div_mod::lemma_div_is_ordered;
use vstd::arithmetic::div_mod::lemma_div_is_ordered_by_denominator;
use vstd::arithmetic::div_mod::lemma_div_pos_is_pos;
use vstd::prelude::*;
use vstd::set::fold::is_fun_commutative;
use vstd::set::fold::lemma_fold_empty;
use vstd::set::fold::lemma_fold_insert;

verus! {

/// The score of a node the campaign still wants to reach.
pub const TARGET_SCORE: u32 = 0;

/// The reserved maximum score: no known path from the node to any target.
pub const UNDEF_SCORE: u32 = 0xFFFF_FFFF;

/// Fixed-point scale for the reciprocals in the harmonic mean; one part in
/// `SCALE` is far below the truncation granularity of any score.
pub const SCALE: u128 = 0x1_0000_0000_0000_0000;

/// The scaled reciprocal of one weight.
pub open spec fn recip(v: u32) -> int {
    (SCALE as int) / (v as int)
}

/// One fold step: add the scaled reciprocal of the weight of `n`.
pub open spec fn recip_step(w: spec_fn(u32) -> u32) -> spec_fn(int, u32) -> int {
    |acc: int, n: u32| acc + recip(w(n))
}

/// The sum of the scaled reciprocals of the weights of all members of `s`.
pub open spec fn recip_sum(s: Set<u32>, w: spec_fn(u32) -> u32) -> int {
    s.fold(0, recip_step(w))
}

/// Whether some member of `s` has weight zero, i.e. is itself a target.
pub open spec fn has_zero_weight(s: Set<u32>, w: spec_fn(u32) -> u32) -> bool {
    exists|n: u32| s.contains(n) && #[trigger] w(n) == 0
}

/// The members of `s` whose weight carries any information.
pub open spec fn live_set(s: Set<u32>, w: spec_fn(u32) -> u32) -> Set<u32> {
    s.filter(|n: u32| w(n) != UNDEF_SCORE)
}

/// The harmonic-mean aggregate of the weights of `s`: members with the
/// sentinel weight are discarded; if nothing remains the aggregate is the
/// sentinel; a remaining weight of zero (an edge straight to a target)
/// dominates everything and yields one; otherwise the truncated harmonic
/// mean plus one, saturated at the sentinel.
pub open spec fn harmonic_agg(s: Set<u32>, w: spec_fn(u32) -> u32) -> u32 {
    let live = live_set(s, w);
    if !live.finite() || live.len() == 0 {
        UNDEF_SCORE
    } else if has_zero_weight(live, w) {
        1u32
    } else {
        let h = ((live.len() as int) * (SCALE as int)) / recip_sum(live, w);
        if h + 1 >= UNDEF_SCORE as int {
            UNDEF_SCORE
        } else {
            (h + 1) as u32
        }
    }
}

/// The scaled reciprocal of a defined, non-target weight lies between 1
/// and `SCALE`.
pub proof fn lemma_recip_bounds(v: u32)
    requires
        1 <= v < UNDEF_SCORE,
    ensures
        1 <= recip(v) <= SCALE as int,
{
    lemma_div_by_self(v as int);
    lemma_div_is_ordered(v as int, SCALE as int, v as int);
    lemma_div_is_ordered_by_denominator(SCALE as int, 1, v as int);
}

/// The reciprocal sum over no members is zero.
pub proof fn lemma_recip_sum_empty(w: spec_fn(u32) -> u32)
    ensures
        recip_sum(Set::empty(), w) == 0,
{
    lemma_fold_empty(0, recip_step(w));
}

/// Folding in one new member adds exactly its scaled reciprocal.
pub proof fn lemma_recip_sum_insert(s: Set<u32>, w: spec_fn(u32) -> u32, n: u32)
    requires
        s.finite(),
        !s.contains(n),
    ensures
        recip_sum(s.insert(n), w) == recip_sum(s, w) + recip(w(n)),
{
    assert(is_fun_commutative(recip_step(w)));
    lemma_fold_insert(s, 0, recip_step(w), n);
}

/// Over defined, non-target weights, the reciprocal sum is bounded by the
/// cardinality of the set on both sides of the scale.
pub proof fn lemma_recip_sum_bounds(s: Set<u32>, w: spec_fn(u32) -> u32)
    requires
        s.finite(),
        forall|n: u32| s.contains(n) ==> 1 <= #[trigger] w(n) < UNDEF_SCORE,
    ensures
        s.len() <= recip_sum(s, w) <= (s.len() as int) * (SCALE as int),
    decreases s.len(),
{
    if s.len() == 0 {
        assert(s =~= Set::empty());
        lemma_fold_empty(0, recip_step(w));
    } else {
        let n = s.choose();
        assert(s.contains(n));
        let s2 = s.remove(n);
        lemma_recip_sum_bounds(s2, w);
        assert(s2.insert(n) =~= s);
        lemma_recip_sum_insert(s2, w, n);
        lemma_recip_bounds(w(n));
    }
}

/// The reciprocal sum only reads the weights of the set's members.
pub proof fn lemma_recip_sum_congruence(
    s: Set<u32>,
    w1: spec_fn(u32) -> u32,
    w2: spec_fn(u32) -> u32,
)
    requires
        s.finite(),
        forall|n: u32| #[trigger] s.contains(n) ==> w1(n) == w2(n),
    ensures
        recip_sum(s, w1) == recip_sum(s, w2),
    decreases s.len(),
{
    if s.len() == 0 {
        assert(s =~= Set::empty());
        lemma_fold_empty(0, recip_step(w1));
        lemma_fold_empty(0, recip_step(w2));
    } else {
        let n = s.choose();
        assert(s.contains(n));
        let s2 = s.remove(n);
        lemma_recip_sum_congruence(s2, w1, w2);
        assert(s2.insert(n) =~= s);
        lemma_recip_sum_insert(s2, w1, n);
        lemma_recip_sum_insert(s2, w2, n);
    }
}

/// The whole aggregate only reads the weights of the set's members.
pub proof fn lemma_harmonic_agg_congruence(
    s: Set<u32>,
    w1: spec_fn(u32) -> u32,
    w2: spec_fn(u32) -> u32,
)
    requires
        forall|n: u32| #[trigger] s.contains(n) ==> w1(n) == w2(n),
    ensures
        harmonic_agg(s, w1) == harmonic_agg(s, w2),
{
    let live1 = live_set(s, w1);
    let live2 = live_set(s, w2);
    assert(live1 =~= live2);
    assert(has_zero_weight(live1, w1) == has_zero_weight(live2, w2)) by {
        if has_zero_weight(live1, w1) {
            let n = choose|n: u32| live1.contains(n) && #[trigger] w1(n) == 0;
            assert(live2.contains(n) && w2(n) == 0);
        }
        if has_zero_weight(live2, w2) {
            let n = choose|n: u32| live2.contains(n) && #[trigger] w2(n) == 0;
            assert(live1.contains(n) && w1(n) == 0);
        }
    }
    if live1.finite() && live1.len() > 0 {
        lemma_recip_sum_congruence(live1, w1, w2);
    }
}

/// The aggregate of any weight set is never the target score: a node that
/// is not a target can never be mistaken for one.
pub proof fn lemma_harmonic_agg_nonzero(s: Set<u32>, w: spec_fn(u32) -> u32)
    ensures
        harmonic_agg(s, w) != TARGET_SCORE,
{
    let live = live_set(s, w);
    if live.finite() && live.len() > 0 && !has_zero_weight(live, w) {
        assert(forall|n: u32| live.contains(n) ==> 1 <= #[trigger] w(n) < UNDEF_SCORE);
        lemma_recip_sum_bounds(live, w);
        lemma_div_pos_is_pos((live.len() as int) * (SCALE as int), recip_sum(live, w));
    }
}

} // verus!
