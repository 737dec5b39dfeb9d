use dyncfg::ControlFlowGraph;
use dyncfg::TagSeg;

const UNDEF_SCORE: u32 = 0xFFFF_FFFF;

fn seg(begin: u32, end: u32) -> TagSeg {
    TagSeg { sign: false, begin, end }
}

#[test]
fn it_works() {}

#[test]
fn cfg_basic() {
    let mut cfg = ControlFlowGraph::new(vec![], vec![], vec![]);
    let edges = vec![(10, 20), (20, 30), (10, 40), (40, 50), (20, 30)];

    for e in edges.clone() {
        cfg.add_edge(e);
    }
    assert!(cfg.has_edge((10, 20)));
    assert!(cfg.has_edge((40, 50)));
    assert!(!cfg.has_edge((20, 10)));
}

#[test]
fn add_edge_idempotent() {
    let mut cfg = ControlFlowGraph::new(vec![30], vec![], vec![]);
    assert!(cfg.add_edge((10, 20)));
    assert!(cfg.add_edge((20, 30)));
    let s10 = cfg.score_for_cmp(10);
    let s20 = cfg.score_for_cmp(20);
    let s30 = cfg.score_for_cmp(30);
    let w1 = cfg.cached_score((10, 20));
    let w2 = cfg.cached_score((20, 30));
    assert!(!cfg.add_edge((10, 20)));
    assert_eq!(cfg.score_for_cmp(10), s10);
    assert_eq!(cfg.score_for_cmp(20), s20);
    assert_eq!(cfg.score_for_cmp(30), s30);
    assert_eq!(cfg.cached_score((10, 20)), w1);
    assert_eq!(cfg.cached_score((20, 30)), w2);
}

#[test]
fn chain_scores() {
    let cfg = ControlFlowGraph::new(vec![30], vec![(10, 20), (20, 30)], vec![]);
    assert_eq!(cfg.score_for_cmp(30), 0);
    assert_eq!(cfg.score_for_cmp(20), 1);
    assert_eq!(cfg.score_for_cmp(10), 2);
}

#[test]
fn chain_scores_reverse_insertion() {
    let cfg = ControlFlowGraph::new(vec![30], vec![(20, 30), (10, 20)], vec![]);
    assert_eq!(cfg.score_for_cmp(30), 0);
    assert_eq!(cfg.score_for_cmp(20), 1);
    assert_eq!(cfg.score_for_cmp(10), 2);
}

#[test]
fn harmonic_mean_of_one_and_three() {
    // Successor scores 1 and 3: harmonic mean 1.5, truncated 1, plus 1.
    let mut cfg = ControlFlowGraph::new(
        vec![40],
        vec![(21, 40), (33, 40), (32, 33), (31, 32)],
        vec![],
    );
    assert_eq!(cfg.score_for_cmp(21), 1);
    assert_eq!(cfg.score_for_cmp(31), 3);
    cfg.add_edge((20, 21));
    cfg.add_edge((20, 31));
    assert_eq!(cfg.score_for_cmp(20), 2);
}

#[test]
fn harmonic_mean_of_two_and_four() {
    // Harmonic mean of {2, 4} is 8/3, truncated 2, plus 1.
    let mut cfg = ControlFlowGraph::new(
        vec![40],
        vec![(22, 40), (21, 22), (34, 40), (33, 34), (32, 33), (31, 32)],
        vec![],
    );
    assert_eq!(cfg.score_for_cmp(21), 2);
    assert_eq!(cfg.score_for_cmp(31), 4);
    cfg.add_edge((20, 21));
    cfg.add_edge((20, 31));
    assert_eq!(cfg.score_for_cmp(20), 3);
}

#[test]
fn shortcut_edge_propagates_backward() {
    let mut cfg = ControlFlowGraph::new(
        vec![4],
        vec![(1, 2), (2, 3), (3, 4)],
        vec![],
    );
    assert_eq!(cfg.score_for_cmp(3), 1);
    assert_eq!(cfg.score_for_cmp(2), 2);
    assert_eq!(cfg.score_for_cmp(1), 3);
    // A newly observed shortcut from 2 straight to the target lowers 2's
    // score, and the repair walk updates 1's cached view of 2.
    cfg.add_edge((2, 4));
    assert_eq!(cfg.score_for_cmp(2), 1);
    assert_eq!(cfg.score_for_cmp(1), 2);
    assert_eq!(cfg.cached_score((1, 2)), Some(1));
}

#[test]
fn cache_matches_recomputation() {
    // After every mutation, each cached edge weight equals the score
    // recomputed for its destination.
    let mut cfg = ControlFlowGraph::new(vec![30], vec![], vec![]);
    let edges = vec![(10, 20), (20, 30), (15, 20), (10, 15)];
    for e in edges.clone() {
        cfg.add_edge(e);
        for f in edges.iter() {
            if let Some(w) = cfg.cached_score(*f) {
                assert_eq!(w, cfg.score_for_cmp(f.1));
            }
        }
    }
    cfg.remove_target(30);
    for f in edges.iter() {
        if let Some(w) = cfg.cached_score(*f) {
            assert_eq!(w, cfg.score_for_cmp(f.1));
        }
    }
}

#[test]
fn target_zero_only_while_active() {
    let mut cfg = ControlFlowGraph::new(vec![30], vec![(10, 20), (20, 30)], vec![]);
    assert_eq!(cfg.score_for_cmp(30), 0);
    assert!(cfg.is_target(30));
    cfg.remove_target(30);
    // Solved targets stay targets for bookkeeping but no longer score 0.
    assert!(cfg.is_target(30));
    assert_ne!(cfg.score_for_cmp(30), 0);
    // 30 has no successors, so its score reverts to the sentinel.
    assert_eq!(cfg.score_for_cmp(30), UNDEF_SCORE);
    // Removing a node that is not an active target changes nothing.
    let before = cfg.score_for_cmp(20);
    cfg.remove_target(30);
    cfg.remove_target(99);
    assert_eq!(cfg.score_for_cmp(20), before);
}

#[test]
fn sentinel_floor() {
    let cfg = ControlFlowGraph::new(vec![30], vec![(10, 20)], vec![]);
    // 20 is not a target and has no outgoing edges.
    assert_eq!(cfg.score_for_cmp(20), UNDEF_SCORE);
    // A node the graph has never seen scores the sentinel too.
    assert_eq!(cfg.score_for_cmp(99), UNDEF_SCORE);
    assert!(!cfg.has_score(99));
    // 10's only successor carries no information either.
    assert_eq!(cfg.score_for_cmp(10), UNDEF_SCORE);
}

#[test]
fn indirect_gating_magic_bytes() {
    let mut cfg = ControlFlowGraph::new(vec![2], vec![(1, 2), (1, 3)], vec![]);
    assert_eq!(cfg.score_for_cmp(1), 1);
    cfg.set_edge_indirect((1, 2), 77);
    // Record that edge (1, 2) requires byte 0x41 at offset 3.
    cfg.set_magic_bytes((1, 2), &[0, 0, 0, 0x41], &[seg(3, 4)]);
    // Static scoring still counts the gated edge.
    assert_eq!(cfg.score_for_cmp(1), 1);
    // An input with the right byte counts it too.
    assert_eq!(cfg.score_for_cmp_inp(1, &[9, 9, 9, 0x41, 5]), 1);
    // A wrong byte at offset 3 excludes the edge; the other successor
    // carries no information, so the score is the sentinel.
    assert_eq!(cfg.score_for_cmp_inp(1, &[9, 9, 9, 0x42]), UNDEF_SCORE);
    // An input shorter than 4 bytes cannot match.
    assert_eq!(cfg.score_for_cmp_inp(1, &[0x41]), UNDEF_SCORE);
    assert_eq!(cfg.score_for_cmp_inp(1, &[]), UNDEF_SCORE);
}

#[test]
fn indirect_without_magic_counts() {
    let mut cfg = ControlFlowGraph::new(vec![2], vec![(1, 2)], vec![]);
    cfg.set_edge_indirect((1, 2), 5);
    // No magic bytes recorded: the indirect edge counts for every input.
    assert_eq!(cfg.score_for_cmp(1), 1);
    assert_eq!(cfg.score_for_cmp_inp(1, &[]), 1);
}

#[test]
fn magic_bytes_recorded_and_clipped() {
    let mut cfg = ControlFlowGraph::new(vec![], vec![], vec![]);
    cfg.set_magic_bytes((4, 5), &[0xaa, 0xbb], &[seg(1, 5)]);
    // Offsets 2..5 lie beyond the buffer and are skipped.
    let got = cfg.get_magic_bytes((4, 5));
    assert_eq!(got, vec![(1usize, 0xbbu8)]);
    // Nothing recorded for other edges.
    assert_eq!(cfg.get_magic_bytes((5, 4)), vec![]);
    // Two ranges, ascending offsets.
    cfg.set_magic_bytes((4, 5), &[1, 2, 3, 4], &[seg(3, 4), seg(0, 2)]);
    assert_eq!(cfg.get_magic_bytes((4, 5)), vec![(0usize, 1u8), (1, 2), (3, 4)]);
}

#[test]
fn reachability_and_cycles() {
    let mut cfg = ControlFlowGraph::new(
        vec![3],
        vec![(1, 2), (2, 1), (2, 3)],
        vec![],
    );
    // Cycles must not hang either algorithm.
    assert!(cfg.has_path_to_target(1));
    assert!(cfg.has_path_to_target(2));
    assert!(cfg.has_path_to_target(3));
    assert!(!cfg.has_path_to_target(4));
    // Whenever the score is defined, a path exists.
    for n in [1u32, 2, 3] {
        if cfg.score_for_cmp(n) != UNDEF_SCORE {
            assert!(cfg.has_path_to_target(n));
        }
    }
    // Solving the only target leaves nothing reachable.
    cfg.remove_target(3);
    assert!(!cfg.has_path_to_target(1));
    assert!(!cfg.has_path_to_target(3));
}

#[test]
fn score_defined_implies_path() {
    let cfg = ControlFlowGraph::new(
        vec![30],
        vec![(10, 20), (20, 30), (40, 50), (20, 20)],
        vec![],
    );
    for n in [10u32, 20, 30, 40, 50] {
        if cfg.score_for_cmp(n) != UNDEF_SCORE {
            assert!(cfg.has_path_to_target(n), "node {} scored but has no path", n);
        }
    }
    assert!(!cfg.has_path_to_target(40));
    assert_eq!(cfg.score_for_cmp(40), UNDEF_SCORE);
}

#[test]
fn callsite_dominators() {
    let cfg = ControlFlowGraph::new(
        vec![],
        vec![],
        vec![(7, vec![1, 2]), (8, vec![2, 3])],
    );
    assert!(cfg.dominates_indirect_call(1));
    assert!(cfg.dominates_indirect_call(2));
    assert!(cfg.dominates_indirect_call(3));
    assert!(!cfg.dominates_indirect_call(4));
    assert_eq!(cfg.get_callsite_dominators(7), vec![1, 2]);
    assert_eq!(cfg.get_callsite_dominators(8), vec![2, 3]);
    assert_eq!(cfg.get_callsite_dominators(9), vec![]);
}

#[test]
fn direct_edge_to_target_scores_one() {
    // A successor already at score 0 still contributes "one hop".
    let mut cfg = ControlFlowGraph::new(vec![5], vec![], vec![]);
    cfg.add_edge((4, 5));
    assert_eq!(cfg.score_for_cmp(4), 1);
    // Two target successors: harmonic aggregation is dominated by zero.
    cfg.add_edge((4, 6));
    let mut cfg2 = ControlFlowGraph::new(vec![5, 6], vec![(4, 5), (4, 6)], vec![]);
    assert_eq!(cfg2.score_for_cmp(4), 1);
    cfg2.remove_target(6);
    assert_eq!(cfg2.score_for_cmp(4), 1);
}
