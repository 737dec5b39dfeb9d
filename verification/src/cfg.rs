//! The dynamic control-flow graph of instrumented branch points and its
//! incremental distance-scoring engine.
//!
//! Nodes are branch-point ids; a directed edge records one observed
//! control-flow transition and carries, as its weight, a cache of the
//! destination's most recently computed score.  Scores are computed on
//! demand from the cached weights of a node's counted outgoing edges and
//! repaired by a backward breadth-first walk whenever an edge insertion
//! or a solved target changes a node's score.

use crate::graph::graph_edges;
use crate::graph::graph_nodes;
use crate::graph::DirGraph;
use crate::score::harmonic_agg;
use crate::score::has_zero_weight;
use crate::score::lemma_recip_bounds;
use crate::score::lemma_recip_sum_bounds;
use crate::score::lemma_recip_sum_empty;
use crate::score::lemma_recip_sum_insert;
use crate::score::live_set;
use crate::score::recip_sum;
use crate::score::SCALE;
use crate::score::TARGET_SCORE;
use crate::score::UNDEF_SCORE;
use std::collections::HashMap;
use std::collections::HashSet;
use vstd::prelude::*;

verus! {

broadcast use vstd::std_specs::hash::group_hash_axioms;

/// Identifier of an instrumented branch/comparison point.
pub type CmpId = u32;

/// Identifier of an indirect call site.
pub type CallSiteId = u32;

/// A directed control-flow transition between two branch points.
pub type Edge = (CmpId, CmpId);

/// An integer distance-like estimate; `TARGET_SCORE` marks a target,
/// `UNDEF_SCORE` marks "no known path", lower means closer.
pub type Score = u32;

/// The concrete byte values, by input offset, that an indirect edge's
/// branch condition was observed to require.
pub type FixedBytes = Vec<(usize, u8)>;

/// One tainted byte range of an input: offsets `begin..end`.
#[derive(Clone, Copy, PartialEq, Eq, Structural)]
pub struct TagSeg {
    /// Whether the tainted comparison was signed; not consulted here.
    pub sign: bool,
    /// First tainted offset.
    pub begin: u32,
    /// One past the last tainted offset.
    pub end: u32,
}

/// An edge folded into one `u64` key, for the edge-keyed side tables.
pub open spec fn spec_pack(e: Edge) -> int {
    (e.0 as int) * 0x1_0000_0000 + (e.1 as int)
}

pub open spec fn pack64(e: Edge) -> u64 {
    spec_pack(e) as u64
}

pub proof fn lemma_pack_injective(e1: Edge, e2: Edge)
    ensures
        (pack64(e1) == pack64(e2)) <==> (e1 == e2),
{
    assert(0 <= spec_pack(e1) < 0x1_0000_0000_0000_0000);
    assert(0 <= spec_pack(e2) < 0x1_0000_0000_0000_0000);
    if pack64(e1) == pack64(e2) {
        assert(spec_pack(e1) == spec_pack(e2));
        assert(e1.0 == e2.0 && e1.1 == e2.1);
    }
}

fn pack_edge(e: Edge) -> (r: u64)
    ensures
        r == pack64(e),
{
    (e.0 as u64) * 0x1_0000_0000u64 + (e.1 as u64)
}

fn covered_exec(offsets: &[TagSeg], i: usize) -> (r: bool)
    ensures
        r == covered(offsets@, i as int),
{
    let mut j: usize = 0;
    while j < offsets.len()
        invariant
            j <= offsets@.len(),
            forall|k: int|
                0 <= k < j ==> !((#[trigger] offsets@[k]).begin <= i as int && (i as int)
                    < offsets@[k].end),
        decreases offsets@.len() - j,
    {
        let t = offsets[j];
        if (t.begin as usize) <= i && i < (t.end as usize) {
            proof {
                assert(offsets@[j as int].begin <= i as int && (i as int) < offsets@[
                    j as int].end);
            }
            return true;
        }
        j = j + 1;
    }
    false
}

fn copy_pairs(v: &FixedBytes) -> (r: FixedBytes)
    ensures
        r@ == v@,
{
    let mut r: FixedBytes = Vec::new();
    let mut i: usize = 0;
    while i < v.len()
        invariant
            i <= v.len(),
            r@ == v@.take(i as int),
        decreases v.len() - i,
    {
        r.push(v[i]);
        i = i + 1;
        proof {
            assert(r@ =~= v@.take(i as int));
        }
    }
    proof {
        assert(v@.take(v@.len() as int) =~= v@);
    }
    r
}

/// The abstract state of a [`ControlFlowGraph`].
#[verifier::ext_equal]
pub struct CfgView {
    /// Every present edge, mapped to its cached weight: the score most
    /// recently computed for the edge's destination.
    pub edges: Map<Edge, Score>,
    /// The targets the campaign is still trying to reach.
    pub targets: Set<CmpId>,
    /// Targets that have been reached and permanently retired.
    pub solved: Set<CmpId>,
    /// Edges that arise from runtime-resolved indirect control transfer.
    pub indirect: Set<Edge>,
    /// Recorded magic bytes per indirect edge.
    pub magic: Map<Edge, Seq<(usize, u8)>>,
    /// The dominating branch points of each indirect call site.
    pub callsite_doms: Map<CallSiteId, Seq<CmpId>>,
    /// The flattened union of all callsite dominator sets.
    pub dominators: Set<CmpId>,
}

/// The branch points that dominate at least one indirect call site.
pub open spec fn flat_doms(m: Map<CallSiteId, Seq<CmpId>>) -> Set<CmpId> {
    Set::new(|c: CmpId| exists|cs: CallSiteId| m.dom().contains(cs) && #[trigger] m[cs].contains(c))
}

/// The dominator table read off an association list with distinct keys.
pub open spec fn doms_map(s: Seq<(CallSiteId, Vec<CmpId>)>) -> Map<CallSiteId, Seq<CmpId>>
    decreases s.len(),
{
    if s.len() == 0 {
        Map::empty()
    } else {
        doms_map(s.drop_last()).insert(s.last().0, s.last().1@)
    }
}

/// The dominator table of the concrete map, with each list read as a
/// sequence.
pub open spec fn translate_doms(m: Map<CallSiteId, Vec<CmpId>>) -> Map<CallSiteId, Seq<CmpId>> {
    Map::new(|cs: CallSiteId| m.dom().contains(cs), |cs: CallSiteId| m[cs]@)
}

/// An empty magic-byte table.
pub open spec fn no_magic() -> Map<Edge, Seq<(usize, u8)>> {
    Map::empty()
}

/// Adding one call site's dominator list to the table adds exactly its
/// members to the flattened dominator set.
proof fn lemma_flat_doms_insert(m: Map<CallSiteId, Seq<CmpId>>, cs: CallSiteId, sq: Seq<CmpId>)
    requires
        !m.dom().contains(cs),
    ensures
        flat_doms(m.insert(cs, sq)) == flat_doms(m).union(sq.to_set()),
{
    assert forall|c: CmpId| #[trigger]
        flat_doms(m.insert(cs, sq)).contains(c) implies flat_doms(m).union(
        sq.to_set(),
    ).contains(c) by {
        let cs2 = choose|cs2: CallSiteId|
            m.insert(cs, sq).dom().contains(cs2) && #[trigger] m.insert(cs, sq)[cs2].contains(c);
        if cs2 == cs {
            assert(sq.contains(c));
        } else {
            assert(m.dom().contains(cs2) && m[cs2].contains(c));
        }
    }
    assert forall|c: CmpId| #[trigger]
        flat_doms(m).union(sq.to_set()).contains(c) implies flat_doms(m.insert(cs, sq)).contains(
        c,
    ) by {
        if flat_doms(m).contains(c) {
            let cs2 = choose|cs2: CallSiteId|
                m.dom().contains(cs2) && #[trigger] m[cs2].contains(c);
            assert(m.insert(cs, sq).dom().contains(cs2) && m.insert(cs, sq)[cs2].contains(c));
        } else {
            assert(sq.contains(c));
            assert(m.insert(cs, sq).dom().contains(cs) && m.insert(cs, sq)[cs].contains(c));
        }
    }
    assert(flat_doms(m.insert(cs, sq)) =~= flat_doms(m).union(sq.to_set()));
}

/// The successors of `cmp` in the edge map `m`.
pub open spec fn succ_set(m: Map<Edge, Score>, cmp: CmpId) -> Set<CmpId> {
    Set::new(|n: CmpId| m.dom().contains((cmp, n)))
}

/// The cached weight of the edge from `cmp` to a given successor.
pub open spec fn weight_of(m: Map<Edge, Score>, cmp: CmpId) -> spec_fn(CmpId) -> Score {
    |n: CmpId| m[(cmp, n)]
}

/// Whether the input `inp` satisfies every recorded (offset, value) pair:
/// an offset beyond the end of the input never matches.
pub open spec fn magic_match(fixed: Seq<(usize, u8)>, inp: Seq<u8>) -> bool {
    forall|j: int|
        0 <= j < fixed.len() ==> (#[trigger] fixed[j]).0 < inp.len() && inp[fixed[j].0 as int]
            == fixed[j].1
}

/// Whether edge `e` counts toward a score computed for the concrete input
/// `inp`: only an indirect edge with recorded magic bytes can be excluded,
/// and it is excluded exactly when the input fails its magic bytes.
pub open spec fn spec_counts_edge(v: CfgView, e: Edge, inp: Seq<u8>) -> bool {
    v.indirect.contains(e) && v.magic.dom().contains(e) ==> magic_match(v.magic[e], inp)
}

/// The successors of `cmp` whose edge counts for the input `inp`.
pub open spec fn counted_succ_set(v: CfgView, cmp: CmpId, inp: Seq<u8>) -> Set<CmpId> {
    Set::new(
        |n: CmpId| v.edges.dom().contains((cmp, n)) && spec_counts_edge(v, (cmp, n), inp),
    )
}

/// The successors that count: all of them for static scoring (`None`),
/// the magic-byte-gated subset for per-input scoring (`Some`).
pub open spec fn spec_cset(v: CfgView, cmp: CmpId, oinp: Option<Seq<u8>>) -> Set<CmpId> {
    match oinp {
        Option::None => succ_set(v.edges, cmp),
        Option::Some(inp) => counted_succ_set(v, cmp, inp),
    }
}

/// Whether byte offset `i` lies inside some tainted range of `offsets`.
pub open spec fn covered(offsets: Seq<TagSeg>, i: int) -> bool {
    exists|j: int|
        0 <= j < offsets.len() && (#[trigger] offsets[j]).begin <= i < offsets[j].end
}

/// The (offset, byte value) pairs recorded from the first `n` bytes of
/// `buf`: one pair, in ascending offset order, for every covered offset.
pub open spec fn magic_pairs_upto(buf: Seq<u8>, offsets: Seq<TagSeg>, n: int) -> Seq<(usize, u8)>
    decreases n,
{
    if n <= 0 {
        Seq::empty()
    } else {
        let p = magic_pairs_upto(buf, offsets, n - 1);
        if covered(offsets, n - 1) {
            p.push((((n - 1) as usize), buf[n - 1]))
        } else {
            p
        }
    }
}

/// The (offset, byte value) pairs recorded from `buf` for the offsets the
/// tainted ranges cover; offsets beyond the end of `buf` carry no byte and
/// are not recorded.
pub open spec fn magic_pairs(buf: Seq<u8>, offsets: Seq<TagSeg>) -> Seq<(usize, u8)> {
    magic_pairs_upto(buf, offsets, buf.len() as int)
}

/// The state after storing `edge` with the current score of its
/// destination as the cached weight, and nothing else changed.
pub open spec fn with_edge(v: CfgView, edge: Edge) -> CfgView {
    CfgView { edges: v.edges.insert(edge, spec_score(v, edge.1)), ..v }
}

/// The state with `cmp` no longer an active target, everything else as
/// it was: what the graph looks like the moment a target is solved, just
/// before its ancestors' cached weights are repaired.
pub open spec fn retargeted(v: CfgView, cmp: CmpId) -> CfgView {
    CfgView { targets: v.targets.remove(cmp), ..v }
}

/// The data-model invariant the backward repair works toward: every
/// cached edge weight equals the static score of the edge's destination.
pub open spec fn cache_coherent(v: CfgView) -> bool {
    forall|e: Edge| #[trigger] v.edges.dom().contains(e) ==> v.edges[e] == spec_score(v, e.1)
}

/// A node's static score reads nothing but the target set and the node's
/// own outgoing edges.
pub proof fn lemma_score_local(v1: CfgView, v2: CfgView, n: CmpId)
    requires
        v1.targets.contains(n) == v2.targets.contains(n),
        forall|m: CmpId| #[trigger] v1.edges.dom().contains((n, m)) == v2.edges.dom().contains(
            (n, m),
        ),
        forall|m: CmpId|
            #[trigger] v1.edges.dom().contains((n, m)) ==> v1.edges[(n, m)] == v2.edges[(n, m)],
    ensures
        spec_score(v1, n) == spec_score(v2, n),
{
    if !v1.targets.contains(n) {
        let s = succ_set(v1.edges, n);
        assert(s =~= succ_set(v2.edges, n));
        crate::score::lemma_harmonic_agg_congruence(
            s,
            weight_of(v1.edges, n),
            weight_of(v2.edges, n),
        );
    }
}

/// The short-circuit of the edge-insertion update is sound: storing a
/// freshly observed edge with the destination's current score as its
/// weight, when doing so leaves the source's own score unchanged, keeps
/// every cached weight in the whole graph coherent — no backward repair
/// is needed.
pub proof fn lemma_short_circuit_coherence(v: CfgView, v2: CfgView, edge: Edge)
    requires
        cache_coherent(v),
        v2 == with_edge(v, edge),
        spec_score(v2, edge.0) == spec_score(v, edge.0),
    ensures
        cache_coherent(v2),
{
    assert forall|n: CmpId| n != edge.0 implies spec_score(v2, n) == spec_score(v, n) by {
        lemma_score_local(v, v2, n);
    }
    assert forall|e: Edge| #[trigger] v2.edges.dom().contains(e) implies v2.edges[e]
        == spec_score(v2, e.1) by {
        if e == edge {
            assert(v2.edges[e] == spec_score(v, edge.1));
        } else {
            assert(v.edges.dom().contains(e) && v2.edges[e] == v.edges[e]);
        }
    }
}

/// Whether `p` walks along edges of `m`: every consecutive pair of nodes
/// is joined by an edge.
pub open spec fn is_path(m: Map<Edge, Score>, p: Seq<CmpId>) -> bool {
    forall|k: int| 0 <= k < p.len() - 1 ==> #[trigger] m.dom().contains((p[k], p[k + 1]))
}

/// Whether `b` can be reached from `a` along edges of `m`; every node
/// reaches itself.
pub open spec fn reaches(m: Map<Edge, Score>, a: CmpId, b: CmpId) -> bool {
    exists|p: Seq<CmpId>|
        #[trigger] is_path(m, p) && p.len() > 0 && p.first() == a && p.last() == b
}

/// Whether some active target can be reached from `a`.
pub open spec fn reaches_target(v: CfgView, a: CmpId) -> bool {
    exists|t: CmpId| #[trigger] v.targets.contains(t) && reaches(v.edges, a, t)
}

/// Reachability is reflexive: the one-node path.
pub proof fn lemma_reaches_self(m: Map<Edge, Score>, a: CmpId)
    ensures
        reaches(m, a, a),
{
    let p = seq![a];
    assert(is_path(m, p) && p.len() > 0 && p.first() == a && p.last() == a);
}

/// Reachability extends across one more edge.
pub proof fn lemma_reaches_step(m: Map<Edge, Score>, a: CmpId, b: CmpId, c: CmpId)
    requires
        reaches(m, a, b),
        m.dom().contains((b, c)),
    ensures
        reaches(m, a, c),
{
    let p = choose|p: Seq<CmpId>|
        #[trigger] is_path(m, p) && p.len() > 0 && p.first() == a && p.last() == b;
    let p2 = p.push(c);
    assert forall|k: int| 0 <= k < p2.len() - 1 implies #[trigger] m.dom().contains(
        (p2[k], p2[k + 1]),
    ) by {
        if k < p.len() - 1 {
            assert(m.dom().contains((p[k], p[k + 1])));
        } else {
            assert(p2[k] == p.last() && p2[k + 1] == c);
        }
    }
    assert(is_path(m, p2) && p2.len() > 0 && p2.first() == a && p2.last() == c);
}

/// Reachability extends backward across an edge into the path's head.
pub proof fn lemma_reaches_prepend(m: Map<Edge, Score>, a: CmpId, b: CmpId, c: CmpId)
    requires
        m.dom().contains((a, b)),
        reaches(m, b, c),
    ensures
        reaches(m, a, c),
{
    let p = choose|p: Seq<CmpId>|
        #[trigger] is_path(m, p) && p.len() > 0 && p.first() == b && p.last() == c;
    let p2 = seq![a] + p;
    assert forall|k: int| 0 <= k < p2.len() - 1 implies #[trigger] m.dom().contains(
        (p2[k], p2[k + 1]),
    ) by {
        if k == 0 {
            assert(p2[0] == a && p2[1] == p[0]);
        } else {
            assert(p2[k] == p[k - 1] && p2[k + 1] == p[k]);
            assert(m.dom().contains((p[k - 1], p[k - 1 + 1])));
        }
    }
    assert(p2.last() == p.last());
    assert(is_path(m, p2) && p2.len() > 0 && p2.first() == a && p2.last() == c);
}

/// Every node of a path whose head lies in a successor-closed set lies in
/// that set too.
proof fn lemma_path_stays_in_closed(m: Map<Edge, Score>, vis: Set<CmpId>, p: Seq<CmpId>)
    requires
        is_path(m, p),
        p.len() > 0,
        vis.contains(p.first()),
        forall|x: CmpId, y: CmpId|
            vis.contains(x) && #[trigger] m.dom().contains((x, y)) ==> vis.contains(y),
    ensures
        vis.contains(p.last()),
    decreases p.len(),
{
    if p.len() > 1 {
        let q = p.drop_last();
        assert forall|k: int| 0 <= k < q.len() - 1 implies #[trigger] m.dom().contains(
            (q[k], q[k + 1]),
        ) by {
            assert(m.dom().contains((p[k], p[k + 1])));
        }
        lemma_path_stays_in_closed(m, vis, q);
        let k = p.len() - 2;
        assert(m.dom().contains((p[k], p[k + 1])));
        assert(vis.contains(p[k]) && p[k + 1] == p.last());
    }
}

/// The view of an optional concrete input: `None` requests static scoring.
pub open spec fn view_oinp(inp: Option<&[u8]>) -> Option<Seq<u8>> {
    match inp {
        Option::None => Option::None,
        Option::Some(b) => Option::Some(b@),
    }
}

/// The score of `cmp`: zero for an active target, otherwise the harmonic
/// aggregate of the cached weights of its counted outgoing edges.
pub open spec fn spec_score_opt(v: CfgView, cmp: CmpId, oinp: Option<Seq<u8>>) -> Score {
    if v.targets.contains(cmp) {
        TARGET_SCORE
    } else {
        harmonic_agg(spec_cset(v, cmp, oinp), weight_of(v.edges, cmp))
    }
}

/// The static (input-agnostic) score of `cmp`; this is the quantity the
/// cached edge weights approximate.
pub open spec fn spec_score(v: CfgView, cmp: CmpId) -> Score {
    spec_score_opt(v, cmp, Option::None)
}

/// The score of `cmp` when only edges whose magic bytes the input `inp`
/// satisfies are counted.
pub open spec fn spec_score_inp(v: CfgView, cmp: CmpId, inp: Seq<u8>) -> Score {
    spec_score_opt(v, cmp, Option::Some(inp))
}

/// The control-flow graph of branch points, with its target set, indirect
/// edge records, magic bytes and callsite dominators.
pub struct ControlFlowGraph {
    graph: DirGraph,
    nodes: HashSet<CmpId>,
    targets: HashSet<CmpId>,
    solved_targets: HashSet<CmpId>,
    indirect_edges: HashSet<u64>,
    callsite_dominators: HashMap<CallSiteId, Vec<CmpId>>,
    dominator_cmps: HashSet<CmpId>,
    magic_bytes: HashMap<u64, FixedBytes>,
}

impl View for ControlFlowGraph {
    type V = CfgView;

    closed spec fn view(&self) -> CfgView {
        CfgView {
            edges: graph_edges(self.graph),
            targets: self.targets@,
            solved: self.solved_targets@,
            indirect: Set::new(|e: Edge| self.indirect_edges@.contains(pack64(e))),
            magic: Map::new(
                |e: Edge| self.magic_bytes@.dom().contains(pack64(e)),
                |e: Edge| self.magic_bytes@[pack64(e)]@,
            ),
            callsite_doms: translate_doms(self.callsite_dominators@),
            dominators: self.dominator_cmps@,
        }
    }
}

impl ControlFlowGraph {
    /// Build the graph from the loader's already-decoded bundle: the
    /// active target set, the initially known edges, and the dominator
    /// lists of the indirect call sites (one entry per call site).  The
    /// initial edges are fed through [`Self::add_edge`] one by one, so
    /// their cached weights start out consistent.
    #[verifier::loop_isolation(false)]
    pub fn new(
        targets: Vec<CmpId>,
        edges: Vec<Edge>,
        callsite_dominators: Vec<(CallSiteId, Vec<CmpId>)>,
    ) -> (r: ControlFlowGraph)
        requires
            forall|i: int, j: int|
                0 <= i < j < callsite_dominators@.len() ==> (#[trigger] callsite_dominators@[i]).0
                    != (#[trigger] callsite_dominators@[j]).0,
        ensures
            r.wf(),
            r@.edges.dom() == edges@.to_set(),
            r@.targets == targets@.to_set(),
            r@.solved == Set::<CmpId>::empty(),
            r@.indirect == Set::<Edge>::empty(),
            r@.magic == no_magic(),
            r@.callsite_doms == doms_map(callsite_dominators@),
            r@.dominators == flat_doms(doms_map(callsite_dominators@)),
            edges@.len() == 0 ==> cache_coherent(r@),
    {
        let mut targets_set: HashSet<CmpId> = HashSet::new();
        let mut ti: usize = 0;
        proof {
            assert(targets@.take(0).to_set() =~= Set::<CmpId>::empty());
        }
        while ti < targets.len()
            invariant
                ti <= targets@.len(),
                targets_set@ == targets@.take(ti as int).to_set(),
            decreases targets@.len() - ti,
        {
            targets_set.insert(targets[ti]);
            proof {
                let pfx = targets@.take(ti as int);
                let elt = targets@[ti as int];
                assert(targets@.take(ti as int + 1) =~= pfx + seq![elt]);
                Seq::lemma_to_set_insert_commutes(pfx, elt);
                assert(targets_set@ =~= targets@.take(ti as int + 1).to_set());
            }
            ti = ti + 1;
        }
        proof {
            assert(targets@.take(targets@.len() as int) =~= targets@);
        }
        let mut cd_map: HashMap<CallSiteId, Vec<CmpId>> = HashMap::new();
        let mut dom_set: HashSet<CmpId> = HashSet::new();
        let mut ci: usize = 0;
        proof {
            assert(translate_doms(cd_map@) =~= doms_map(callsite_dominators@.take(0)));
            assert(dom_set@ =~= flat_doms(doms_map(callsite_dominators@.take(0))));
        }
        while ci < callsite_dominators.len()
            invariant
                ci <= callsite_dominators@.len(),
                translate_doms(cd_map@) == doms_map(callsite_dominators@.take(ci as int)),
                dom_set@ == flat_doms(doms_map(callsite_dominators@.take(ci as int))),
                forall|cs: CallSiteId| #[trigger]
                    cd_map@.dom().contains(cs) ==> exists|k: int|
                        0 <= k < ci && (#[trigger] callsite_dominators@[k]).0 == cs,
            decreases callsite_dominators@.len() - ci,
        {
            let cs = callsite_dominators[ci].0;
            let doms = callsite_dominators[ci].1.clone();
            let ghost flat_prev = flat_doms(doms_map(callsite_dominators@.take(ci as int)));
            proof {
                if cd_map@.dom().contains(cs) {
                    let k = choose|k: int|
                        0 <= k < ci && (#[trigger] callsite_dominators@[k]).0 == cs;
                    assert(false);
                }
                assert(dom_set@ =~= flat_prev.union(doms@.take(0).to_set()));
            }
            let mut k: usize = 0;
            while k < doms.len()
                invariant
                    k <= doms@.len(),
                    dom_set@ == flat_prev.union(doms@.take(k as int).to_set()),
                decreases doms@.len() - k,
            {
                dom_set.insert(doms[k]);
                proof {
                    let pfx = doms@.take(k as int);
                    let elt = doms@[k as int];
                    assert(doms@.take(k as int + 1) =~= pfx + seq![elt]);
                    Seq::lemma_to_set_insert_commutes(pfx, elt);
                    assert(dom_set@ =~= flat_prev.union(doms@.take(k as int + 1).to_set()));
                }
                k = k + 1;
            }
            cd_map.insert(cs, doms);
            proof {
                let pfx = callsite_dominators@.take(ci as int);
                let m_prev = doms_map(pfx);
                let full = callsite_dominators@.take(ci as int + 1);
                assert(full.drop_last() =~= pfx);
                assert(full.last() == callsite_dominators@[ci as int]);
                assert(doms_map(full) == m_prev.insert(cs, doms@));
                assert(translate_doms(cd_map@) =~= m_prev.insert(cs, doms@));
                lemma_flat_doms_insert(m_prev, cs, doms@);
                assert(doms@.take(doms@.len() as int) =~= doms@);
                assert(dom_set@ =~= flat_doms(doms_map(full)));
            }
            ci = ci + 1;
        }
        proof {
            assert(callsite_dominators@.take(callsite_dominators@.len() as int)
                =~= callsite_dominators@);
        }
        let mut result = ControlFlowGraph {
            graph: DirGraph::empty(),
            nodes: HashSet::new(),
            targets: targets_set,
            solved_targets: HashSet::new(),
            indirect_edges: HashSet::new(),
            callsite_dominators: cd_map,
            dominator_cmps: dom_set,
            magic_bytes: HashMap::new(),
        };
        proof {
            assert(graph_nodes(result@.edges) =~= Set::<CmpId>::empty());
            assert(result.wf());
            assert(result@.solved =~= Set::<CmpId>::empty());
            assert(result@.indirect =~= Set::<Edge>::empty());
            assert(result@.magic =~= no_magic());
            assert(result@.edges.dom() =~= edges@.take(0).to_set());
        }
        let mut ei: usize = 0;
        while ei < edges.len()
            invariant
                result.wf(),
                ei <= edges@.len(),
                result@.edges.dom() == edges@.take(ei as int).to_set(),
                result@.targets == targets@.to_set(),
                result@.solved == Set::<CmpId>::empty(),
                result@.indirect == Set::<Edge>::empty(),
                result@.magic == no_magic(),
                result@.callsite_doms == doms_map(callsite_dominators@),
                result@.dominators == flat_doms(doms_map(callsite_dominators@)),
            decreases edges@.len() - ei,
        {
            result.add_edge(edges[ei]);
            proof {
                let pfx = edges@.take(ei as int);
                let elt = edges@[ei as int];
                assert(edges@.take(ei as int + 1) =~= pfx + seq![elt]);
                Seq::lemma_to_set_insert_commutes(pfx, elt);
                assert(result@.edges.dom() =~= edges@.take(ei as int + 1).to_set());
            }
            ei = ei + 1;
        }
        proof {
            assert(edges@.take(edges@.len() as int) =~= edges@);
            if edges@.len() == 0 {
                assert(edges@.to_set() =~= Set::<Edge>::empty());
                assert(cache_coherent(result@));
            }
        }
        result
    }

    /// Internal consistency: the edge map is finite, `nodes` covers every
    /// edge endpoint, and the flattened dominator set agrees with the
    /// per-callsite dominator table.
    pub closed spec fn wf(&self) -> bool {
        &&& self@.edges.dom().finite()
        &&& self.nodes@.finite()
        &&& graph_nodes(self@.edges).subset_of(self.nodes@)
        &&& self@.dominators == flat_doms(self@.callsite_doms)
    }

    /// Whether the directed edge has been observed.
    pub fn has_edge(&self, edge: Edge) -> (r: bool)
        ensures
            r == self@.edges.dom().contains(edge),
    {
        self.graph.has_edge(edge.0, edge.1)
    }

    /// The cached weight of an observed edge: the score most recently
    /// computed for the edge's destination.
    pub fn cached_score(&self, edge: Edge) -> (r: Option<Score>)
        ensures
            match r {
                Some(w) => self@.edges.dom().contains(edge) && w == self@.edges[edge],
                None => !self@.edges.dom().contains(edge),
            },
    {
        self.graph.edge_weight(edge.0, edge.1)
    }

    /// Whether `cmp` is a target, active or already solved.
    pub fn is_target(&self, cmp: CmpId) -> (r: bool)
        ensures
            r == (self@.targets.contains(cmp) || self@.solved.contains(cmp)),
    {
        self.targets.contains(&cmp) || self.solved_targets.contains(&cmp)
    }

    /// Whether `cmp` dominates at least one indirect call site.
    pub fn dominates_indirect_call(&self, cmp: CmpId) -> (r: bool)
        ensures
            r == self@.dominators.contains(cmp),
            self.wf() ==> r == flat_doms(self@.callsite_doms).contains(cmp),
    {
        self.dominator_cmps.contains(&cmp)
    }

    /// The branch points that dominate the given call site; empty if the
    /// call site is unknown.
    pub fn get_callsite_dominators(&self, cs: CallSiteId) -> (r: Vec<CmpId>)
        ensures
            self@.callsite_doms.dom().contains(cs) ==> r@ == self@.callsite_doms[cs],
            !self@.callsite_doms.dom().contains(cs) ==> r@ == Seq::<CmpId>::empty(),
    {
        match self.callsite_dominators.get(&cs) {
            Some(v) => v.clone(),
            None => Vec::new(),
        }
    }

    /// The magic bytes recorded for an edge; empty if none are recorded.
    pub fn get_magic_bytes(&self, edge: Edge) -> (r: FixedBytes)
        ensures
            self@.magic.dom().contains(edge) ==> r@ == self@.magic[edge],
            !self@.magic.dom().contains(edge) ==> r@ == Seq::<(usize, u8)>::empty(),
    {
        let key = pack_edge(edge);
        match self.magic_bytes.get(&key) {
            Some(v) => copy_pairs(v),
            None => Vec::new(),
        }
    }

    /// Whether the edge `(src, dst)` counts toward a score computed for
    /// the concrete input `inp`.
    #[verifier::loop_isolation(false)]
    fn counts_edge(&self, src: CmpId, dst: CmpId, inp: &[u8]) -> (r: bool)
        ensures
            r == spec_counts_edge(self@, (src, dst), inp@),
    {
        let key = pack_edge((src, dst));
        if !self.indirect_edges.contains(&key) {
            return true;
        }
        match self.magic_bytes.get(&key) {
            None => true,
            Some(fixed) => {
                let ghost pairs = self@.magic[(src, dst)];
                let mut j: usize = 0;
                while j < fixed.len()
                    invariant
                        j <= fixed@.len(),
                        pairs == fixed@,
                        forall|k: int|
                            0 <= k < j ==> (#[trigger] pairs[k]).0 < inp@.len()
                                && inp@[pairs[k].0 as int] == pairs[k].1,
                    decreases fixed@.len() - j,
                {
                    let (off, val) = fixed[j];
                    if off >= inp.len() || inp[off] != val {
                        proof {
                            assert(!(pairs[j as int].0 < inp@.len() && inp@[pairs[j as int].0
                                as int] == pairs[j as int].1));
                            assert(!magic_match(pairs, inp@));
                        }
                        return false;
                    }
                    j = j + 1;
                }
                true
            },
        }
    }

    /// The score of `cmp`, computed from the cached weights of its counted
    /// outgoing edges: static scoring counts every edge, per-input scoring
    /// applies the magic-byte gate for the given input.
    #[verifier::loop_isolation(false)]
    fn score_core(&self, cmp: CmpId, inp: Option<&[u8]>) -> (r: Score)
        requires
            self.wf(),
        ensures
            r == spec_score_opt(self@, cmp, view_oinp(inp)),
    {
        if self.targets.contains(&cmp) {
            return TARGET_SCORE;
        }
        let outs = self.graph.out_edges(cmp);
        let ghost cset = spec_cset(self@, cmp, view_oinp(inp));
        let ghost w = weight_of(self@.edges, cmp);
        let mut i: usize = 0;
        let mut cnt: usize = 0;
        let mut sum: u128 = 0;
        let mut zero = false;
        let ghost mut processed = Set::<CmpId>::empty();
        proof {
            lemma_recip_sum_empty(w);
        }
        while i < outs.len()
            invariant
                i <= outs@.len(),
                cnt <= i,
                processed.finite(),
                cnt == processed.len(),
                zero == has_zero_weight(processed, w),
                !zero ==> forall|n: CmpId|
                    processed.contains(n) ==> 1 <= #[trigger] w(n) < UNDEF_SCORE,
                !zero ==> sum == recip_sum(processed, w),
                !zero ==> sum <= (cnt as int) * (SCALE as int),
                forall|n: CmpId|
                    #[trigger] processed.contains(n) ==> cset.contains(n) && w(n) != UNDEF_SCORE
                        && exists|k: int| 0 <= k < i && (#[trigger] outs@[k]).0 == n,
                forall|k: int|
                    0 <= k < i ==> (cset.contains((#[trigger] outs@[k]).0) && w(outs@[k].0)
                        != UNDEF_SCORE ==> processed.contains(outs@[k].0)),
            decreases outs@.len() - i,
        {
            let (n, wt) = outs[i];
            proof {
                assert(self@.edges.dom().contains((cmp, n)) && wt == w(n));
            }
            let counted = match inp {
                None => true,
                Some(b) => self.counts_edge(cmp, n, b),
            };
            proof {
                assert(counted == cset.contains(n));
            }
            if counted && wt != UNDEF_SCORE {
                proof {
                    if processed.contains(n) {
                        let k = choose|k: int| 0 <= k < i && (#[trigger] outs@[k]).0 == n;
                        assert(false);
                    }
                }
                cnt = cnt + 1;
                if wt == 0 {
                    zero = true;
                } else if !zero {
                    proof {
                        lemma_recip_sum_insert(processed, w, n);
                        lemma_recip_bounds(wt);
                    }
                    sum = sum + SCALE / (wt as u128);
                } else {
                    proof {
                        lemma_recip_sum_insert(processed, w, n);
                    }
                }
                proof {
                    processed = processed.insert(n);
                }
            }
            i = i + 1;
        }
        proof {
            assert forall|n: CmpId| #[trigger]
                live_set(cset, w).contains(n) implies processed.contains(n) by {
                assert(cset.contains(n));
                assert(self@.edges.dom().contains((cmp, n)));
                let k = choose|k: int| 0 <= k < outs@.len() && (#[trigger] outs@[k]).0 == n;
                assert(outs@[k].0 == n);
            }
            assert(processed =~= live_set(cset, w));
        }
        if cnt == 0 {
            UNDEF_SCORE
        } else if zero {
            1
        } else {
            proof {
                lemma_recip_sum_bounds(processed, w);
            }
            let h = (cnt as u128) * SCALE / sum;
            if h >= (UNDEF_SCORE - 1) as u128 {
                UNDEF_SCORE
            } else {
                (h as u32) + 1
            }
        }
    }

    /// The static (input-agnostic) distance score of `cmp`: zero for an
    /// active target, the sentinel when no counted edge carries
    /// information, otherwise one more than the truncated harmonic mean of
    /// the defined cached weights of its outgoing edges.
    pub fn score_for_cmp(&self, cmp: CmpId) -> (r: Score)
        requires
            self.wf(),
        ensures
            r == spec_score(self@, cmp),
    {
        self.score_core(cmp, None)
    }

    /// The score of `cmp` for one concrete candidate input: identical to
    /// [`Self::score_for_cmp`], except that an indirect edge with recorded
    /// magic bytes is counted only if `inp` carries every required byte.
    pub fn score_for_cmp_inp(&self, cmp: CmpId, inp: &[u8]) -> (r: Score)
        requires
            self.wf(),
        ensures
            r == spec_score_inp(self@, cmp, inp@),
    {
        self.score_core(cmp, Some(inp))
    }

    /// Whether `cmp` has any information: a score other than the sentinel.
    pub fn has_score(&self, cmp: CmpId) -> (r: bool)
        requires
            self.wf(),
        ensures
            r == (spec_score(self@, cmp) != UNDEF_SCORE),
    {
        self.score_core(cmp, None) != UNDEF_SCORE
    }

    /// Whether any active target can be reached from `cmp` along observed
    /// edges: a plain depth-first search over the topology, independent of
    /// scores and cached weights.  A target reaches itself; cycles are
    /// handled by the visited set.
    #[verifier::loop_isolation(false)]
    pub fn has_path_to_target(&self, cmp: CmpId) -> (r: bool)
        requires
            self.wf(),
        ensures
            r == reaches_target(self@, cmp),
    {
        let ghost m = self@.edges;
        let ghost uni = self.nodes@.insert(cmp);
        let mut visited: HashSet<CmpId> = HashSet::new();
        let mut stack: Vec<CmpId> = Vec::new();
        visited.insert(cmp);
        stack.push(cmp);
        proof {
            lemma_reaches_self(m, cmp);
            assert(stack@[0] == cmp);
            assert(stack@.contains(cmp));
        }
        while stack.len() > 0
            invariant
                visited@.finite(),
                visited@.subset_of(uni),
                visited@.len() <= uni.len(),
                visited@.contains(cmp),
                forall|k: int| 0 <= k < stack@.len() ==> visited@.contains(#[trigger] stack@[k]),
                forall|x: CmpId| #[trigger] visited@.contains(x) ==> reaches(m, cmp, x),
                forall|x: CmpId|
                    #[trigger] visited@.contains(x) && !stack@.contains(x)
                        ==> !self@.targets.contains(x) && (forall|y: CmpId| #[trigger]
                        m.dom().contains((x, y)) ==> visited@.contains(y)),
            decreases uni.len() - visited@.len(), stack@.len(),
        {
            let ghost stack_pre = stack@;
            let v = stack.pop().unwrap();
            proof {
                assert(visited@.contains(v));
                assert forall|x: CmpId| x != v && stack_pre.contains(x) implies stack@.contains(
                    x,
                ) by {
                    let k = choose|k: int| 0 <= k < stack_pre.len() && stack_pre[k] == x;
                    assert(stack@[k] == x);
                }
            }
            if self.targets.contains(&v) {
                proof {
                    assert(self@.targets.contains(v) && reaches(m, cmp, v));
                }
                return true;
            }
            let outs = self.graph.out_edges(v);
            let ghost stack_snap = stack@;
            let ghost vis_snap = visited@;
            let mut oi: usize = 0;
            while oi < outs.len()
                invariant
                    oi <= outs@.len(),
                    visited@.finite(),
                    visited@.subset_of(uni),
                    visited@.len() <= uni.len(),
                    visited@.contains(cmp),
                    visited@.contains(v),
                    forall|k: int|
                        0 <= k < stack@.len() ==> visited@.contains(#[trigger] stack@[k]),
                    forall|x: CmpId| #[trigger] visited@.contains(x) ==> reaches(m, cmp, x),
                    forall|x: CmpId|
                        #[trigger] visited@.contains(x) && !stack@.contains(x) && x != v
                            ==> !self@.targets.contains(x) && (forall|y: CmpId| #[trigger]
                            m.dom().contains((x, y)) ==> visited@.contains(y)),
                    forall|k: int| 0 <= k < oi ==> visited@.contains((#[trigger] outs@[k]).0),
                    vis_snap.subset_of(visited@),
                    stack@.len() >= stack_snap.len(),
                    stack@.len() == stack_snap.len() ==> visited@ == vis_snap && stack@
                        == stack_snap,
                    stack@.len() > stack_snap.len() ==> vis_snap.len() < visited@.len(),
                decreases outs@.len() - oi,
            {
                let ghost stack_in = stack@;
                let n = outs[oi].0;
                if !visited.contains(&n) {
                    proof {
                        assert(m.dom().contains((v, n)));
                        assert(graph_nodes(m).contains(n));
                        lemma_reaches_step(m, cmp, v, n);
                        vstd::set_lib::lemma_len_subset(visited@.insert(n), uni);
                    }
                    visited.insert(n);
                    stack.push(n);
                    proof {
                        assert forall|x: CmpId| x != n && stack_in.contains(x)
                            implies stack@.contains(x) by {
                            let k = choose|k: int| 0 <= k < stack_in.len() && stack_in[k] == x;
                            assert(stack@[k] == x);
                        }
                        assert(stack@.contains(n)) by {
                            assert(stack@[stack@.len() - 1] == n);
                        }
                    }
                }
                oi = oi + 1;
            }
            proof {
                assert forall|y: CmpId| #[trigger] m.dom().contains((v, y))
                    implies visited@.contains(y) by {
                    let k = choose|k: int| 0 <= k < outs@.len() && (#[trigger] outs@[k]).0 == y;
                }
            }
        }
        proof {
            if reaches_target(self@, cmp) {
                let t = choose|t: CmpId|
                    #[trigger] self@.targets.contains(t) && reaches(m, cmp, t);
                let p = choose|p: Seq<CmpId>|
                    #[trigger] is_path(m, p) && p.len() > 0 && p.first() == cmp && p.last() == t;
                lemma_path_stays_in_closed(m, visited@, p);
                assert(false);
            }
        }
        false
    }

    /// Repair the cached weights after the score of `cmp` changed: walk
    /// the reversed graph breadth-first from `cmp`, recompute each visited
    /// node's score from its current outgoing weights, and overwrite the
    /// cached weight of every edge into that node.  A node is visited at
    /// most once, so the walk terminates on cyclic graphs too.
    ///
    /// The contract pins down what one pass guarantees whatever the visit
    /// order: `cmp` itself is dequeued first, so every edge into `cmp`
    /// ends up carrying `cmp`'s freshly recomputed score, and an edge
    /// whose destination cannot reach `cmp` at all is never touched.  For
    /// nodes in between, one pass repairs chains and trees exactly, but
    /// where the walk reaches a node before one of that node's own
    /// successors has been recomputed, the cached weight can lag behind
    /// until a later event revisits it — the scores are an estimate, not
    /// a shortest-path computation.
    #[verifier::loop_isolation(false)]
    fn propagate_score(&mut self, cmp: CmpId)
        requires
            old(self).wf(),
        ensures
            final(self).wf(),
            final(self)@.edges.dom() == old(self)@.edges.dom(),
            final(self)@.targets == old(self)@.targets,
            final(self)@.solved == old(self)@.solved,
            final(self)@.indirect == old(self)@.indirect,
            final(self)@.magic == old(self)@.magic,
            final(self)@.callsite_doms == old(self)@.callsite_doms,
            final(self)@.dominators == old(self)@.dominators,
            forall|p: CmpId|
                old(self)@.edges.dom().contains((p, cmp)) ==> final(self)@.edges[(p, cmp)]
                    == spec_score(old(self)@, cmp),
            forall|e: Edge|
                old(self)@.edges.dom().contains(e) && !reaches(old(self)@.edges, e.1, cmp)
                    ==> final(self)@.edges[e] == old(self)@.edges[e],
    {
        let ghost m0 = old(self)@.edges;
        let ghost root_score = spec_score(old(self)@, cmp);
        let ghost uni = old(self).nodes@.insert(cmp);
        let mut visited: HashSet<CmpId> = HashSet::new();
        let mut queue: Vec<CmpId> = Vec::new();
        visited.insert(cmp);
        queue.push(cmp);
        proof {
            assert(queue@[0] == cmp);
            lemma_reaches_self(m0, cmp);
        }
        let mut qi: usize = 0;
        while qi < queue.len()
            invariant
                self.wf(),
                self.nodes@ == old(self).nodes@,
                self@.edges.dom() == old(self)@.edges.dom(),
                self@.targets == old(self)@.targets,
                self@.solved == old(self)@.solved,
                self@.indirect == old(self)@.indirect,
                self@.magic == old(self)@.magic,
                self@.callsite_doms == old(self)@.callsite_doms,
                self@.dominators == old(self)@.dominators,
                qi <= queue@.len(),
                queue@.len() >= 1,
                queue@[0] == cmp,
                forall|k: int| 1 <= k < queue@.len() ==> (#[trigger] queue@[k]) != cmp,
                visited@.finite(),
                visited@.subset_of(uni),
                visited@.len() <= uni.len(),
                visited@.contains(cmp),
                forall|k: int| 0 <= k < queue@.len() ==> visited@.contains(#[trigger] queue@[k]),
                forall|x: CmpId| #[trigger] visited@.contains(x) ==> reaches(m0, x, cmp),
                qi == 0 ==> self@.edges == m0,
                qi >= 1 ==> forall|p: CmpId|
                    #[trigger] m0.dom().contains((p, cmp)) ==> self@.edges[(p, cmp)]
                        == root_score,
                forall|e: Edge|
                    #[trigger] m0.dom().contains(e) && !reaches(m0, e.1, cmp) ==> self@.edges[e]
                        == m0[e],
            decreases uni.len() - visited@.len(), queue@.len() - qi,
        {
            let ghost first = qi == 0;
            let v = queue[qi];
            proof {
                assert(visited@.contains(v));
                assert(reaches(m0, v, cmp));
            }
            qi = qi + 1;
            let s = self.score_core(v, None);
            proof {
                if first {
                    assert(v == cmp);
                    assert(self@ =~= old(self)@);
                    assert(s == root_score);
                } else {
                    assert(v != cmp);
                }
            }
            let preds = self.graph.in_neighbors(v);
            let ghost q_snap = queue@;
            let ghost vis_snap = visited@;
            let mut pi: usize = 0;
            while pi < preds.len()
                invariant
                    self.wf(),
                    self.nodes@ == old(self).nodes@,
                    self@.edges.dom() == old(self)@.edges.dom(),
                    self@.targets == old(self)@.targets,
                    self@.solved == old(self)@.solved,
                    self@.indirect == old(self)@.indirect,
                    self@.magic == old(self)@.magic,
                    self@.callsite_doms == old(self)@.callsite_doms,
                    self@.dominators == old(self)@.dominators,
                    pi <= preds@.len(),
                    forall|k: int|
                        0 <= k < preds@.len() ==> self@.edges.dom().contains(
                            ((#[trigger] preds@[k]), v),
                        ),
                    reaches(m0, v, cmp),
                    first ==> v == cmp && s == root_score,
                    !first ==> v != cmp,
                    first ==> forall|k: int|
                        0 <= k < pi ==> self@.edges[((#[trigger] preds@[k]), cmp)] == root_score,
                    !first ==> forall|p: CmpId|
                        #[trigger] m0.dom().contains((p, cmp)) ==> self@.edges[(p, cmp)]
                            == root_score,
                    forall|e: Edge|
                        #[trigger] m0.dom().contains(e) && !reaches(m0, e.1, cmp)
                            ==> self@.edges[e] == m0[e],
                    queue@.len() >= 1,
                    queue@[0] == cmp,
                    forall|k: int| 1 <= k < queue@.len() ==> (#[trigger] queue@[k]) != cmp,
                    visited@.finite(),
                    visited@.subset_of(uni),
                    visited@.len() <= uni.len(),
                    visited@.contains(cmp),
                    forall|k: int|
                        0 <= k < queue@.len() ==> visited@.contains(#[trigger] queue@[k]),
                    forall|x: CmpId| #[trigger] visited@.contains(x) ==> reaches(m0, x, cmp),
                    queue@.len() >= q_snap.len(),
                    vis_snap.subset_of(visited@),
                    queue@.len() == q_snap.len() ==> visited@ == vis_snap,
                    queue@.len() > q_snap.len() ==> vis_snap.len() < visited@.len(),
                decreases preds@.len() - pi,
            {
                let p = preds[pi];
                let ghost before = self@.edges;
                self.graph.set_edge(p, v, s);
                proof {
                    assert(self@.edges.dom() =~= before.dom());
                    assert(graph_nodes(self@.edges) =~= graph_nodes(before));
                    assert forall|e: Edge|
                        #[trigger] m0.dom().contains(e) && !reaches(m0, e.1, cmp)
                            implies self@.edges[e] == m0[e] by {
                        if e == (p, v) {
                            assert(reaches(m0, v, cmp));
                        }
                    }
                    if !first {
                        assert forall|p2: CmpId| #[trigger]
                            m0.dom().contains((p2, cmp)) implies self@.edges[(p2, cmp)]
                            == root_score by {
                            assert((p2, cmp) != (p, v));
                        }
                    }
                }
                if !visited.contains(&p) {
                    proof {
                        assert(graph_nodes(self@.edges).contains(p));
                        assert(m0.dom().contains((p, v)));
                        lemma_reaches_prepend(m0, p, v, cmp);
                        vstd::set_lib::lemma_len_subset(visited@.insert(p), uni);
                    }
                    visited.insert(p);
                    queue.push(p);
                }
                pi = pi + 1;
            }
            proof {
                if first {
                    assert forall|p: CmpId| #[trigger]
                        m0.dom().contains((p, cmp)) implies self@.edges[(p, cmp)]
                        == root_score by {
                        assert(self@.edges.dom().contains((p, cmp)));
                        assert(preds@.contains(p));
                        let k = choose|k: int| 0 <= k < preds@.len() && preds@[k] == p;
                        assert(self@.edges[((preds@[k]), cmp)] == root_score);
                    }
                }
            }
        }
    }

    /// Report one newly observed control-flow transition.  Returns `true`
    /// exactly when the edge was not present before.  The edge is stored
    /// with the destination's current static score as its cached weight;
    /// if that changes the source's own score, the change is propagated
    /// backward through the cache.  Re-adding an edge whose cached weight
    /// already equals the destination's score changes nothing.
    pub fn add_edge(&mut self, edge: Edge) -> (r: bool)
        requires
            old(self).wf(),
        ensures
            final(self).wf(),
            r == !old(self)@.edges.dom().contains(edge),
            final(self)@.edges.dom() == old(self)@.edges.dom().insert(edge),
            final(self)@.targets == old(self)@.targets,
            final(self)@.solved == old(self)@.solved,
            final(self)@.indirect == old(self)@.indirect,
            final(self)@.magic == old(self)@.magic,
            final(self)@.callsite_doms == old(self)@.callsite_doms,
            final(self)@.dominators == old(self)@.dominators,
            old(self)@.edges.dom().contains(edge) && old(self)@.edges[edge] == spec_score(
                old(self)@,
                edge.1,
            ) ==> final(self)@ == old(self)@,
            spec_score(with_edge(old(self)@, edge), edge.0) == spec_score(old(self)@, edge.0)
                ==> final(self)@ == with_edge(old(self)@, edge),
            cache_coherent(old(self)@) && spec_score(with_edge(old(self)@, edge), edge.0)
                == spec_score(old(self)@, edge.0) ==> cache_coherent(final(self)@),
            spec_score(with_edge(old(self)@, edge), edge.0) != spec_score(old(self)@, edge.0)
                ==> forall|p: CmpId|
                with_edge(old(self)@, edge).edges.dom().contains((p, edge.0))
                    ==> final(self)@.edges[(p, edge.0)] == spec_score(
                    with_edge(old(self)@, edge),
                    edge.0,
                ),
            forall|e: Edge|
                with_edge(old(self)@, edge).edges.dom().contains(e) && !reaches(
                    with_edge(old(self)@, edge).edges,
                    e.1,
                    edge.0,
                ) ==> final(self)@.edges[e] == with_edge(old(self)@, edge).edges[e],
    {
        let result = !self.has_edge(edge);
        let (src, dst) = edge;
        let dst_score = self.score_core(dst, None);
        let old_src_score = self.score_core(src, None);
        self.nodes.insert(src);
        self.nodes.insert(dst);
        let ghost before = self@;
        self.graph.set_edge(src, dst, dst_score);
        proof {
            assert(before =~= old(self)@);
            assert(self@ =~= with_edge(old(self)@, edge));
            assert(self@.edges.dom() =~= before.edges.dom().insert(edge));
            assert forall|x: CmpId| #[trigger]
                graph_nodes(self@.edges).contains(x) implies self.nodes@.contains(x) by {
                let y = choose|y: u32|
                    #![trigger self@.edges.dom().contains((x, y))]
                    #![trigger self@.edges.dom().contains((y, x))]
                    self@.edges.dom().contains((x, y)) || self@.edges.dom().contains((y, x));
                if self@.edges.dom().contains((x, y)) {
                    if (x, y) != edge {
                        assert(graph_nodes(before.edges).contains(x));
                    }
                } else {
                    if (y, x) != edge {
                        assert(graph_nodes(before.edges).contains(x));
                    }
                }
            }
            if before.edges.dom().contains(edge) && before.edges[edge] == spec_score(
                before,
                dst,
            ) {
                assert(self@.edges =~= before.edges);
                assert(self@ =~= before);
            }
        }
        let ghost mid = self@;
        let new_src_score = self.score_core(src, None);
        if old_src_score != new_src_score {
            proof {
                assert(mid == with_edge(old(self)@, edge));
            }
            self.propagate_score(src);
        } else {
            proof {
                if cache_coherent(old(self)@) {
                    lemma_short_circuit_coherence(old(self)@, self@, edge);
                }
            }
        }
        result
    }

    /// Report that the target `cmp` has been satisfied: deactivate it,
    /// remember it forever as solved, and repair the cached weights of
    /// everything that could reach it, since its score is no longer pinned
    /// to zero.  Every edge into `cmp` ends up carrying `cmp`'s score as
    /// recomputed without the target short-circuit, and edges whose
    /// destination cannot reach `cmp` keep their weights.  Removing a node
    /// that is not an active target does nothing.
    pub fn remove_target(&mut self, cmp: CmpId)
        requires
            old(self).wf(),
        ensures
            final(self).wf(),
            final(self)@.targets == old(self)@.targets.remove(cmp),
            final(self)@.edges.dom() == old(self)@.edges.dom(),
            final(self)@.indirect == old(self)@.indirect,
            final(self)@.magic == old(self)@.magic,
            final(self)@.callsite_doms == old(self)@.callsite_doms,
            final(self)@.dominators == old(self)@.dominators,
            old(self)@.targets.contains(cmp) ==> final(self)@.solved == old(self)@.solved.insert(
                cmp,
            ),
            !old(self)@.targets.contains(cmp) ==> final(self)@ == old(self)@,
            old(self)@.targets.contains(cmp) ==> forall|p: CmpId|
                old(self)@.edges.dom().contains((p, cmp)) ==> final(self)@.edges[(p, cmp)]
                    == spec_score(retargeted(old(self)@, cmp), cmp),
            forall|e: Edge|
                old(self)@.edges.dom().contains(e) && !reaches(old(self)@.edges, e.1, cmp)
                    ==> final(self)@.edges[e] == old(self)@.edges[e],
    {
        if self.targets.remove(&cmp) {
            proof {
                assert(self@ =~= retargeted(old(self)@, cmp));
            }
            self.propagate_score(cmp);
            self.solved_targets.insert(cmp);
        } else {
            proof {
                assert(self@.targets =~= old(self)@.targets.remove(cmp));
                assert(self@ =~= old(self)@);
            }
        }
    }

    /// Record, for an indirect edge, the concrete byte values of `buf` at
    /// every offset the tainted ranges `offsets` cover.  An offset beyond
    /// the end of `buf` carries no byte and is skipped rather than
    /// aborting the campaign.  Overwrites any earlier record for `edge`.
    #[verifier::loop_isolation(false)]
    pub fn set_magic_bytes(&mut self, edge: Edge, buf: &[u8], offsets: &[TagSeg])
        requires
            old(self).wf(),
        ensures
            final(self).wf(),
            final(self)@ == (CfgView {
                magic: old(self)@.magic.insert(edge, magic_pairs(buf@, offsets@)),
                ..old(self)@
            }),
    {
        let mut fixed: FixedBytes = Vec::new();
        let mut i: usize = 0;
        while i < buf.len()
            invariant
                i <= buf@.len(),
                fixed@ == magic_pairs_upto(buf@, offsets@, i as int),
            decreases buf@.len() - i,
        {
            if covered_exec(offsets, i) {
                fixed.push((i, buf[i]));
            }
            i = i + 1;
        }
        let key = pack_edge(edge);
        self.magic_bytes.insert(key, fixed);
        proof {
            let m_new = old(self)@.magic.insert(edge, magic_pairs(buf@, offsets@));
            assert forall|e: Edge|
                self@.magic.dom().contains(e) == m_new.dom().contains(e) by {
                lemma_pack_injective(e, edge);
            }
            assert forall|e: Edge| #[trigger]
                m_new.dom().contains(e) && self@.magic.dom().contains(e) implies self@.magic[e]
                == m_new[e] by {
                lemma_pack_injective(e, edge);
            }
            assert(self@.magic =~= m_new);
            assert(self@ =~= (CfgView { magic: m_new, ..old(self)@ }));
        }
    }

    /// Record that `edge` arises from an indirect transfer.  The call site
    /// id is accepted for interface compatibility with the trace consumer
    /// but nothing here reads it back.
    pub fn set_edge_indirect(&mut self, edge: Edge, _callsite: CallSiteId)
        requires
            old(self).wf(),
        ensures
            final(self).wf(),
            final(self)@ == (CfgView { indirect: old(self)@.indirect.insert(edge), ..old(self)@ }),
    {
        let key = pack_edge(edge);
        self.indirect_edges.insert(key);
        proof {
            assert forall|e: Edge|
                self@.indirect.contains(e) == old(self)@.indirect.insert(edge).contains(
                    e,
                ) by {
                lemma_pack_injective(e, edge);
            }
            assert(self@.indirect =~= old(self)@.indirect.insert(edge));
            assert(self@.magic =~= old(self)@.magic);
            assert(self@ =~= (CfgView { indirect: old(self)@.indirect.insert(edge), ..old(self)@ }));
        }
    }
}

} // verus!
