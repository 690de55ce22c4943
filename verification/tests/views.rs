use smt_log_parser::idx::{ENodeIdx, InstIdx, MatchIdx, QuantIdx, RawNodeIndex};
use smt_log_parser::inst_graph::InstGraph;
use smt_log_parser::items::{BlameKind, Fingerprint, Instantiation, Match, MatchKind};
use smt_log_parser::model::{ENode, NodeKind, Quantifier, Z3Parser};
use smt_log_parser::next_enabled::{DefaultNextEnabled, NextEnabledInitialiser};
use smt_log_parser::next_insts::{DefaultNextInsts, NextInstsInitialiser};
use smt_log_parser::raw::RawGraph;
use smt_log_parser::visible::VisibleEdgeKind;
use smt_log_parser::terms::{Term, TermKind};

/// A diamond: i0 yields e1 and e2; i1 matches e1, i2 matches e2; i1 yields
/// e3, i2 yields e4; i3 matches e3 and e4.
///
/// events: e0 i0 e1 e2 i1 i2 e3 e4 i3
fn diamond() -> Z3Parser {
    let mut p = Z3Parser::new();
    p.quants.push(Quantifier { name: "q".to_string(), term: None });
    let a = p.terms.new_term(Term { id: None, kind: TermKind::App(1), child_ids: vec![] }).unwrap();
    let pattern = p.terms.new_term(Term { id: None, kind: TermKind::App(9), child_ids: vec![a, a] }).unwrap();
    let creators = [None, Some(0), Some(0), Some(1), Some(2)];
    for c in creators {
        p.enodes.push(ENode { owner: a, created_by: c.map(InstIdx) });
    }
    let blames: [Vec<usize>; 4] = [vec![0], vec![1], vec![2], vec![3, 4]];
    for (i, b) in blames.iter().enumerate() {
        p.matches.push(Match {
            kind: MatchKind::Quantifier { quant: QuantIdx(0), pattern, bound_terms: vec![] },
            blamed: b.iter().map(|e| BlameKind::Term { term: ENodeIdx(*e) }).collect(),
        });
        p.insts.push(Instantiation {
            match_: MatchIdx(i),
            fingerprint: Fingerprint(i as u64),
            proof_id: None,
            z3_generation: None,
            yields_terms: vec![],
        });
    }
    let e = |i: usize| NodeKind::ENode(ENodeIdx(i));
    let i = |i: usize| NodeKind::Instantiation(InstIdx(i));
    p.events = vec![e(0), i(0), e(1), e(2), i(1), i(2), e(3), e(4), i(3)];
    p
}

fn shown_edges(g: &RawGraph) -> Vec<(usize, usize)> {
    let vg = g.to_visible();
    let mut edges = Vec::new();
    for a in 0..vg.node_count() {
        for b in vg.neighbors_directed(a, true) {
            edges.push((vg.node(a).idx.0, vg.node(b).idx.0));
        }
    }
    edges.sort();
    edges
}

#[test]
fn visible_graph_joins_shown_nodes_through_hidden_ones() {
    let p = diamond();
    let mut g = RawGraph::build(&p).unwrap();
    // Everything shown: the visible graph is the raw graph.
    assert_eq!(
        shown_edges(&g),
        vec![(0, 1), (1, 2), (1, 3), (2, 4), (3, 5), (4, 6), (5, 7), (6, 8), (7, 8)]
    );
    // Only the instantiations enabled.
    let mask = g.non_inst_mask();
    g.set_disabled_mask(&mask);
    assert_eq!(shown_edges(&g), vec![(1, 4), (1, 5), (4, 8), (5, 8)]);
    let vg = g.to_visible();
    let depths: Vec<u32> = (0..vg.node_count()).map(|a| vg.node(a).max_depth).collect();
    assert_eq!(depths, vec![0, 1, 1, 2]);
    assert_eq!(vg.heights(), vec![2, 1, 1, 0]);
    assert_eq!(vg.end_marks(), vec![false, false, false, true]);
    assert_eq!(vg.end_nodes_ranked(), vec![3]);
    assert_eq!(vg.loop_marks(), vec![true, true, true, true]);
    assert_eq!(vg.count_children(0), 2);
    assert_eq!(vg.count_children(3), 0);
    assert_eq!(vg.neighbors_directed(3, false).len(), 2);
    // Hide one arm: the path through the other stays.
    g.set_visibility_many(false, &vec![RawNodeIndex(4)]);
    assert_eq!(shown_edges(&g), vec![(1, 5), (1, 8), (5, 8)]);
    // Hide both arms: one edge, found by two ways, is one edge.
    g.set_visibility_many(false, &vec![RawNodeIndex(5)]);
    assert_eq!(shown_edges(&g), vec![(1, 8)]);
    g.set_visibility_many(false, &vec![RawNodeIndex(1)]);
    assert_eq!(shown_edges(&g), vec![]);
    assert_eq!(g.to_visible().node_count(), 1);
}

#[test]
fn longest_path_takes_the_earlier_arm() {
    let p = diamond();
    let mut g = RawGraph::build(&p).unwrap();
    let mask = g.non_inst_mask();
    g.set_disabled_mask(&mask);
    let vg = g.to_visible();
    assert_eq!(vg.longest_path_through(0), vec![0, 1, 3]);
    assert_eq!(vg.longest_path_through(3), vec![0, 1, 3]);
    assert_eq!(vg.longest_path_through(2), vec![0, 2, 3]);
    let ends: Vec<usize> = vg.find_end_nodes_of_longest_paths().iter().map(|ix| ix.0).collect();
    assert_eq!(ends, vec![1, 4, 5, 8]);
}

#[test]
fn short_paths_make_no_loop() {
    let p = diamond();
    let mut g = RawGraph::build(&p).unwrap();
    let mask = g.non_inst_mask();
    g.set_disabled_mask(&mask);
    g.set_visibility_many(false, &vec![RawNodeIndex(8)]);
    let vg = g.to_visible();
    assert_eq!(vg.end_nodes_ranked(), vec![1, 2]);
    assert_eq!(vg.loop_marks(), vec![false, false, false]);
    assert_eq!(vg.find_end_nodes_of_longest_paths(), vec![]);
}

fn members(set: &roaring::RoaringBitmap) -> Vec<u32> {
    set.iter().collect()
}

#[test]
fn next_instantiations_skip_the_nodes_between() {
    let p = diamond();
    let mut graph = InstGraph::new(&p).unwrap();
    graph.initialise_inst_succs_and_preds(&p);
    let node = |v: usize| graph.raw.node(RawNodeIndex(v));
    // The instantiation i3 (node 8) rests on i1 and i2 (nodes 4 and 5).
    assert_eq!(members(&node(8).inst_parents.nodes), vec![4, 5]);
    assert_eq!(members(&node(4).inst_parents.nodes), vec![1]);
    assert_eq!(members(&node(1).inst_parents.nodes), Vec::<u32>::new());
    assert_eq!(members(&node(1).inst_children.nodes), vec![4, 5]);
    assert_eq!(members(&node(5).inst_children.nodes), vec![8]);
    assert_eq!(members(&node(8).inst_children.nodes), Vec::<u32>::new());
    // An e-node holds the instantiation that yielded it.
    assert_eq!(members(&node(6).inst_parents.nodes), vec![4]);
    assert_eq!(members(&node(0).inst_children.nodes), vec![1]);
}

#[test]
fn next_enabled_nodes_skip_the_disabled_ones() {
    let p = diamond();
    let mut graph = InstGraph::new(&p).unwrap();
    let mask = graph.raw.non_inst_mask();
    graph.raw.set_disabled_mask(&mask);
    graph.initialise_next_enabled(&p);
    let node = |v: usize| graph.raw.node(RawNodeIndex(v));
    assert_eq!(members(&node(8).enabled_parents.nodes), vec![4, 5]);
    assert_eq!(members(&node(1).enabled_children.nodes), vec![4, 5]);
    assert_eq!(members(&node(2).enabled_children.nodes), vec![4]);
    assert_eq!(members(&node(0).enabled_children.nodes), vec![1]);
    // With everything enabled the next enabled nodes are the neighbours.
    graph.raw.reset_disabled_to(|_: RawNodeIndex, _: &RawGraph| false);
    graph.initialise_next_enabled(&p);
    let node = |v: usize| graph.raw.node(RawNodeIndex(v));
    assert_eq!(members(&node(8).enabled_parents.nodes), vec![6, 7]);
    assert_eq!(members(&node(1).enabled_children.nodes), vec![2, 3]);
}

#[test]
fn a_pass_can_be_run_with_its_initialiser() {
    let p = diamond();
    let mut g = RawGraph::build(&p).unwrap();
    let mut forward = DefaultNextInsts::<true>;
    g.initialise_transfer::<DefaultNextInsts<true>, true, 2>(&mut forward, &p);
    assert_eq!(members(&g.node(RawNodeIndex(8)).inst_parents.nodes), vec![4, 5]);
    assert!(g.node(RawNodeIndex(1)).inst_children.nodes.is_empty());
    let mut backward = DefaultNextEnabled::<false>;
    g.initialise_transfer::<DefaultNextEnabled<false>, false, 3>(&mut backward, &p);
    assert_eq!(members(&g.node(RawNodeIndex(1)).enabled_children.nodes), vec![2, 3]);
    assert_eq!(members(&g.node(RawNodeIndex(8)).inst_parents.nodes), vec![4, 5]);
}

#[test]
fn load_parts_the_graph_and_fills_the_nodes() {
    let p = diamond();
    let graph = InstGraph::load(&p).unwrap();
    assert_eq!(graph.subgraphs.len(), 1);
    assert_eq!(graph.subgraphs[0].nodes.len(), 9);
    let last = graph.raw.node(RawNodeIndex(8));
    assert_eq!(last.subgraph, Some((0, 8)));
    assert_eq!(last.min_depth, Some(5));
    assert_eq!(last.max_depth, Some(5));
    assert_eq!(members(&last.inst_parents.nodes), vec![4, 5]);
    assert_eq!(members(&last.enabled_parents.nodes), vec![6, 7]);
    assert_eq!(graph.found_matching_loops(), None);
}

#[test]
fn blame_terms_and_patterns_are_looked_up() {
    let p = diamond();
    let graph = InstGraph::new(&p).unwrap();
    let owner = p.enodes[0].owner;
    assert_eq!(graph._get_blame_term(RawNodeIndex(0), &p), Some(owner));
    assert_eq!(graph._get_blame_term(RawNodeIndex(1), &p), None);
    assert_eq!(graph._get_blame_term(RawNodeIndex(99), &p), None);
    let pattern = match &p.matches[0].kind {
        MatchKind::Quantifier { pattern, .. } => *pattern,
        _ => unreachable!(),
    };
    assert_eq!(graph._get_pattern(InstIdx(0), &p), Some(pattern));
    assert_eq!(graph._get_pattern(InstIdx(77), &p), None);
}

#[test]
fn links_name_the_first_hidden_node() {
    let p = diamond();
    let mut g = RawGraph::build(&p).unwrap();
    let mask = g.non_inst_mask();
    g.set_disabled_mask(&mask);
    let ix = RawNodeIndex;
    assert_eq!(g.link_kind(ix(1), ix(4)), Some(VisibleEdgeKind::Indirect(ix(2))));
    assert_eq!(g.link_kind(ix(1), ix(5)), Some(VisibleEdgeKind::Indirect(ix(3))));
    assert_eq!(g.link_kind(ix(1), ix(2)), Some(VisibleEdgeKind::Direct));
    assert_eq!(g.link_kind(ix(4), ix(5)), None);
    assert_eq!(g.link_kind(ix(4), ix(1)), None);
    // The way from the first instantiation to the last leads through a
    // shown instantiation: no link.
    assert_eq!(g.link_kind(ix(1), ix(8)), None);
    g.set_visibility_many(false, &vec![ix(4)]);
    assert_eq!(g.link_kind(ix(1), ix(8)), Some(VisibleEdgeKind::Indirect(ix(2))));
    assert_eq!(
        g.linked_with(8),
        vec![false, true, true, false, true, true, true, true, false]
    );
}

#[test]
fn a_node_shows_the_enabled_nodes_that_it_has_got() {
    let p = diamond();
    let mut graph = InstGraph::load(&p).unwrap();
    graph.raw.reset_disabled_to(|_: RawNodeIndex, _: &RawGraph| false);
    graph.initialise_next_enabled(&p);
    let last = graph.raw.node(RawNodeIndex(8));
    let mut forward = DefaultNextEnabled::<true>;
    let seen = NextEnabledInitialiser::<true>::observe(&mut forward, last, &p);
    assert_eq!(members(&seen.nodes), vec![6, 7]);
    NextEnabledInitialiser::<true>::reset(&mut forward);
    let first = graph.raw.node(RawNodeIndex(1));
    let mut backward = DefaultNextEnabled::<false>;
    let seen = NextEnabledInitialiser::<false>::observe(&mut backward, first, &p);
    assert_eq!(members(&seen.nodes), vec![2, 3]);
    let mut insts = DefaultNextInsts::<true>;
    assert_eq!(NextInstsInitialiser::<true>::observe(&mut insts, last, &p), ());
    NextInstsInitialiser::<true>::reset(&mut insts);
}

#[test]
fn a_new_model_holds_nothing() {
    let p = Z3Parser::new();
    assert!(p.insts.is_empty() && p.matches.is_empty() && p.enodes.is_empty());
    assert!(p.eq_given.is_empty() && p.eq_trans.is_empty() && p.quants.is_empty());
    assert!(p.events.is_empty());
    assert_eq!(p.terms.len(), 0);
    assert!(p.terms.meaning(smt_log_parser::idx::TermIdx(0)).is_none());
}
