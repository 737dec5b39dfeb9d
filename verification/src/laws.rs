//! Laws of the scoring engine that hold in every state, stated over the
//! abstract view and proved once and for all.

use crate::cfg::counted_succ_set;
use crate::cfg::lemma_reaches_prepend;
use crate::cfg::lemma_reaches_self;
use crate::cfg::magic_match;
use crate::cfg::reaches;
use crate::cfg::reaches_target;
use crate::cfg::spec_cset;
use crate::cfg::spec_counts_edge;
use crate::cfg::spec_score;
use crate::cfg::spec_score_opt;
use crate::cfg::succ_set;
use crate::cfg::weight_of;
use crate::cfg::CfgView;
use crate::cfg::CmpId;
use crate::cfg::Edge;
use crate::score::harmonic_agg;
use crate::score::lemma_harmonic_agg_nonzero;
use crate::score::live_set;
use crate::score::TARGET_SCORE;
use crate::score::UNDEF_SCORE;
use vstd::prelude::*;

verus! {

/// Target zero: a node scores `TARGET_SCORE` exactly while it is an
/// active target.  Once it leaves the active target set (in particular
/// after being solved) its score is the harmonic aggregate of its counted
/// successors' cached weights, which is never `TARGET_SCORE`.
pub proof fn lemma_target_score_zero(v: CfgView, cmp: CmpId, oinp: Option<Seq<u8>>)
    ensures
        (spec_score_opt(v, cmp, oinp) == TARGET_SCORE) <==> v.targets.contains(cmp),
        !v.targets.contains(cmp) ==> spec_score_opt(v, cmp, oinp) == harmonic_agg(
            spec_cset(v, cmp, oinp),
            weight_of(v.edges, cmp),
        ),
{
    if !v.targets.contains(cmp) {
        lemma_harmonic_agg_nonzero(spec_cset(v, cmp, oinp), weight_of(v.edges, cmp));
    }
}

/// Sentinel floor: a node that is not an active target and has no counted
/// outgoing edges (in particular, no successors at all) always scores the
/// sentinel `UNDEF_SCORE`.
pub proof fn lemma_sentinel_floor(v: CfgView, cmp: CmpId, oinp: Option<Seq<u8>>)
    requires
        !v.targets.contains(cmp),
        spec_cset(v, cmp, oinp) == Set::<CmpId>::empty(),
    ensures
        spec_score_opt(v, cmp, oinp) == UNDEF_SCORE,
{
    let w = weight_of(v.edges, cmp);
    assert(live_set(spec_cset(v, cmp, oinp), w) =~= Set::<CmpId>::empty());
}

/// Indirect gating: an indirect edge whose recorded magic bytes are
/// exactly `{(3, 0x41)}` counts for an input precisely when that input
/// has a byte at offset 3 and it is `0x41`; in particular it never counts
/// for an input shorter than 4 bytes.
pub proof fn lemma_indirect_gating(v: CfgView, e: Edge, inp: Seq<u8>)
    requires
        v.indirect.contains(e),
        v.magic.dom().contains(e),
        v.magic[e] == seq![(3usize, 0x41u8)],
    ensures
        spec_counts_edge(v, e, inp) <==> (inp.len() > 3 && inp[3] == 0x41),
        v.edges.dom().contains(e) ==> (counted_succ_set(v, e.0, inp).contains(e.1) <==> (
        inp.len() > 3 && inp[3] == 0x41)),
{
    let fixed = v.magic[e];
    assert(fixed[0] == (3usize, 0x41u8));
    if inp.len() > 3 && inp[3] == 0x41 {
        assert forall|j: int| 0 <= j < fixed.len() implies (#[trigger] fixed[j]).0 < inp.len()
            && inp[fixed[j].0 as int] == fixed[j].1 by {
            assert(j == 0);
        }
        assert(magic_match(fixed, inp));
    }
    if magic_match(fixed, inp) {
        assert(fixed[0].0 < inp.len() && inp[fixed[0].0 as int] == fixed[0].1);
    }
    if v.edges.dom().contains(e) {
        assert(counted_succ_set(v, e.0, inp).contains(e.1) == spec_counts_edge(v, e, inp));
    }
}

/// Reachability versus score, the inductive step: if a node's static
/// score is defined and every successor whose cached weight is defined
/// can itself reach an active target, then the node can reach an active
/// target.  The unconditional claim — a defined score always implies
/// reachability — additionally needs every defined cached weight to be
/// backed by a live path; the backward repair keeps that true on the
/// graphs the campaign builds, but a cycle can keep feeding itself a
/// stale weight after its last target is solved, so the claim is stated
/// here with the coherence of the successors as an explicit premise.
pub proof fn lemma_score_implies_path_step(v: CfgView, cmp: CmpId)
    requires
        spec_score(v, cmp) != UNDEF_SCORE,
        forall|n: CmpId|
            v.edges.dom().contains((cmp, n)) && v.edges[(cmp, n)] != UNDEF_SCORE
                ==> #[trigger] reaches_target(v, n),
    ensures
        reaches_target(v, cmp),
{
    if v.targets.contains(cmp) {
        lemma_reaches_self(v.edges, cmp);
        assert(v.targets.contains(cmp) && reaches(v.edges, cmp, cmp));
    } else {
        let s = succ_set(v.edges, cmp);
        let w = weight_of(v.edges, cmp);
        let live = live_set(s, w);
        assert(live.finite() && live.len() > 0);
        if forall|n: CmpId| !(#[trigger] live.contains(n)) {
            assert(live =~= Set::<CmpId>::empty());
        }
        let n = choose|n: CmpId| #[trigger] live.contains(n);
        assert(v.edges.dom().contains((cmp, n)) && v.edges[(cmp, n)] != UNDEF_SCORE);
        assert(reaches_target(v, n));
        let t = choose|t: CmpId| #[trigger] v.targets.contains(t) && reaches(v.edges, n, t);
        lemma_reaches_prepend(v.edges, cmp, n, t);
        assert(v.targets.contains(t) && reaches(v.edges, cmp, t));
    }
}

} // verus!
