use std::cell::Cell;
use smt_log_parser::error::Error;
use petgraph::Direction;
use smt_log_parser::filters::{Filter, FilterOutput};
use smt_log_parser::idx::{ENodeIdx, InstIdx, MatchIdx, QuantIdx, RawNodeIndex, TermIdx};
use smt_log_parser::inst_graph::InstGraph;
use smt_log_parser::items::{BlameKind, Fingerprint, Instantiation, Match, MatchKind};
use smt_log_parser::ml_graph::MLGraphNode;
use smt_log_parser::model::{ENode, NodeKind, Quantifier, Z3Parser};
use smt_log_parser::terms::{Term, TermKind};

fn term(parser: &mut Z3Parser, kind: TermKind, children: Vec<usize>) -> TermIdx {
    let row = Term { id: None, kind, child_ids: children.into_iter().map(TermIdx).collect() };
    parser.terms.new_term(row).unwrap()
}

/// A model of chains of instantiations. `chains` lists, for every chain, the
/// quantifier of each of its instantiations; every instantiation matches the
/// e-node that the one before it in its chain yielded. The events of the
/// chains are emitted in turn, one step of each chain after the other.
fn chains_model(chains: &[Vec<usize>]) -> (Z3Parser, Vec<Vec<InstIdx>>) {
    let mut parser = Z3Parser::new();
    let quants = chains.iter().flatten().copied().max().map_or(0, |m| m + 1);
    for q in 0..quants {
        parser.quants.push(Quantifier { name: format!("q{q}"), term: None });
    }
    let x = term(&mut parser, TermKind::Var(0), vec![]);
    let fx = term(&mut parser, TermKind::App(1), vec![x.0]);
    let pattern = term(&mut parser, TermKind::App(100), vec![fx.0]);
    let mut insts: Vec<Vec<InstIdx>> = chains.iter().map(|_| Vec::new()).collect();
    let mut last_term: Vec<TermIdx> = Vec::new();
    let mut last_enode: Vec<ENodeIdx> = Vec::new();
    for (c, _) in chains.iter().enumerate() {
        let a = term(&mut parser, TermKind::App(2 + c), vec![]);
        let fa = term(&mut parser, TermKind::App(1), vec![a.0]);
        let e = ENodeIdx(parser.enodes.len());
        parser.enodes.push(ENode { owner: fa, created_by: None });
        parser.events.push(NodeKind::ENode(e));
        last_term.push(fa);
        last_enode.push(e);
    }
    let longest = chains.iter().map(|c| c.len()).max().unwrap_or(0);
    for step in 0..longest {
        for (c, chain) in chains.iter().enumerate() {
            if step >= chain.len() {
                continue;
            }
            let m = MatchIdx(parser.matches.len());
            parser.matches.push(Match {
                kind: MatchKind::Quantifier {
                    quant: QuantIdx(chain[step]),
                    pattern,
                    bound_terms: vec![last_enode[c]],
                },
                blamed: vec![BlameKind::Term { term: last_enode[c] }],
            });
            let i = InstIdx(parser.insts.len());
            let next = term(&mut parser, TermKind::App(1), vec![last_term[c].0]);
            let e = ENodeIdx(parser.enodes.len());
            parser.insts.push(Instantiation {
                match_: m,
                fingerprint: Fingerprint(i.0 as u64 + 1),
                proof_id: None,
                z3_generation: None,
                yields_terms: vec![e],
            });
            parser.events.push(NodeKind::Instantiation(i));
            parser.enodes.push(ENode { owner: next, created_by: Some(i) });
            parser.events.push(NodeKind::ENode(e));
            insts[c].push(i);
            last_term[c] = next;
            last_enode[c] = e;
        }
    }
    (parser, insts)
}

fn node_of(graph: &InstGraph, i: InstIdx) -> usize {
    graph.raw.index_of(NodeKind::Instantiation(i)).unwrap()
}

fn visible_insts(graph: &InstGraph) -> Vec<usize> {
    (0..graph.raw.node_count())
        .filter(|&v| {
            let node = graph.raw.node(RawNodeIndex(v));
            node.visible && matches!(node.kind, NodeKind::Instantiation(_))
        })
        .map(|v| match graph.raw.node(RawNodeIndex(v)).kind {
            NodeKind::Instantiation(i) => i.0,
            _ => unreachable!(),
        })
        .collect()
}

fn disable_all_but_insts(graph: &mut InstGraph) {
    let mask = graph.raw.non_inst_mask();
    graph.raw.set_disabled_mask(&mask);
}

#[test]
fn linear_chain_of_distinct_quantifiers_has_no_loop() {
    let (mut parser, insts) = chains_model(&[vec![0, 1, 2]]);
    let mut graph = InstGraph::new(&parser).unwrap();
    assert_eq!(graph.found_matching_loops(), None);
    let found = graph.search_matching_loops(&mut parser);
    assert_eq!(found, 0);
    assert_eq!(graph.found_matching_loops(), Some(0));
    assert!(graph.nth_matching_loop_graph(0).is_empty());

    graph.raw.reset_visibility_to(true);
    disable_all_but_insts(&mut graph);
    let visible = graph.raw.to_visible();
    assert_eq!(visible.node_count(), 3);
    let last = (0..3).find(|&a| visible.node(a).idx.0 == node_of(&graph, insts[0][2])).unwrap();
    assert_eq!(visible.node(last).max_depth, 2);
    let first = (0..3).find(|&a| visible.node(a).idx.0 == node_of(&graph, insts[0][0])).unwrap();
    assert_eq!(visible.node(first).max_depth, 0);
}

#[test]
fn self_loop_of_length_three_folds_to_one_abstract_instantiation() {
    let (mut parser, insts) = chains_model(&[vec![0, 0, 0]]);
    let mut graph = InstGraph::new(&parser).unwrap();
    let found = graph.search_matching_loops(&mut parser);
    assert_eq!(found, 1);
    assert_eq!(graph.found_matching_loops(), Some(1));
    for i in &insts[0] {
        let v = node_of(&graph, *i);
        assert_eq!(graph.raw.node(RawNodeIndex(v)).part_of_ml, vec![0]);
    }
    let ml = graph.nth_matching_loop_graph(0);
    assert_eq!(ml.node_count(), 2);
    let labels: Vec<MLGraphNode> = (0..2).map(|i| ml.node_weight(i).unwrap()).collect();
    let qi = labels.iter().position(|l| matches!(l, MLGraphNode::QI(QuantIdx(0), _))).unwrap();
    let en = labels.iter().position(|l| matches!(l, MLGraphNode::ENode(_))).unwrap();
    assert_ne!(qi, en);
    assert_eq!(ml.edge_count(), 2);
    assert_eq!(ml.neighbors_directed(qi, true), vec![en]);
    assert_eq!(ml.neighbors_directed(en, true), vec![qi]);
    assert!(graph.nth_matching_loop_graph(1).is_empty());

    // The generalised term is f(f(_)): the terms f(f(a)) and f(f(f(a))) agree
    // down to the second f.
    let MLGraphNode::ENode(t) = labels[en] else { unreachable!() };
    let top = parser.terms.get(t).unwrap();
    assert_eq!(top.kind, TermKind::App(1));
    let mid = parser.terms.get(top.child_ids[0]).unwrap();
    assert_eq!(mid.kind, TermKind::App(1));
    let hole = parser.terms.get(mid.child_ids[0]).unwrap();
    assert_eq!(hole.kind, TermKind::Generalised);
    // The trigger is pattern(f(x)); its generalisation is pattern(f(_)).
    let MLGraphNode::QI(_, p) = labels[qi] else { unreachable!() };
    let pat = parser.terms.get(p).unwrap();
    assert_eq!(pat.kind, TermKind::App(100));
    let inner = parser.terms.get(pat.child_ids[0]).unwrap();
    assert_eq!(inner.kind, TermKind::App(1));
    assert_eq!(parser.terms.get(inner.child_ids[0]).unwrap().kind, TermKind::Generalised);
}

#[test]
fn two_interleaved_loops_are_ranked_by_length() {
    let (mut parser, insts) = chains_model(&[vec![1, 1, 1, 1], vec![0, 0, 0, 0, 0]]);
    let mut graph = InstGraph::new(&parser).unwrap();
    let found = graph.search_matching_loops(&mut parser);
    assert_eq!(found, 2);
    // Rank 0 is the loop of five.
    for i in &insts[1] {
        let v = node_of(&graph, *i);
        assert_eq!(graph.raw.node(RawNodeIndex(v)).part_of_ml, vec![0]);
    }
    for i in &insts[0] {
        let v = node_of(&graph, *i);
        assert_eq!(graph.raw.node(RawNodeIndex(v)).part_of_ml, vec![1]);
    }
    let ends = graph.analysis.matching_loop_end_nodes.clone().unwrap();
    assert_eq!(ends[0].0, node_of(&graph, insts[1][4]));
    assert_eq!(ends[1].0, node_of(&graph, insts[0][3]));

    let out = graph.apply_filters(&mut parser, &vec![Filter::SelectNthMatchingLoop(0)]);
    assert!(matches!(&out[0], FilterOutput::MatchingLoopGeneralizedTerms(terms) if terms.len() == 1));
    let shown = visible_insts(&graph);
    let mut want: Vec<usize> = insts[1].iter().map(|i| i.0).collect();
    want.sort();
    assert_eq!(shown, want);
    for i in &insts[0] {
        assert!(!shown.contains(&i.0));
    }
}

#[test]
fn search_restores_the_disabled_nodes() {
    let (mut parser, _insts) = chains_model(&[vec![0, 0, 0], vec![1, 2]]);
    let mut graph = InstGraph::new(&parser).unwrap();
    graph.raw.reset_disabled_to(|ix: RawNodeIndex, _g: &smt_log_parser::raw::RawGraph| ix.0 % 3 == 1);
    let before = graph.raw.disabled_mask();
    assert!(before.iter().any(|d| *d));
    assert!(before.iter().any(|d| !*d));
    graph.search_matching_loops(&mut parser);
    assert_eq!(graph.raw.disabled_mask(), before);
}

#[test]
fn searching_twice_finds_the_same() {
    let (mut parser, _insts) = chains_model(&[vec![0, 0, 0, 0], vec![1, 1, 1]]);
    let mut graph = InstGraph::new(&parser).unwrap();
    let first = graph.search_matching_loops(&mut parser);
    let loops: Vec<Vec<usize>> = (0..graph.raw.node_count())
        .map(|v| graph.raw.node(RawNodeIndex(v)).part_of_ml.clone())
        .collect();
    let shapes: Vec<(usize, usize)> = (0..first)
        .map(|n| {
            let g = graph.nth_matching_loop_graph(n);
            (g.node_count(), g.edge_count())
        })
        .collect();
    let second = graph.search_matching_loops(&mut parser);
    assert_eq!(first, second);
    let again: Vec<Vec<usize>> = (0..graph.raw.node_count())
        .map(|v| graph.raw.node(RawNodeIndex(v)).part_of_ml.clone())
        .collect();
    assert_eq!(loops, again);
    let shapes_again: Vec<(usize, usize)> = (0..second)
        .map(|n| {
            let g = graph.nth_matching_loop_graph(n);
            (g.node_count(), g.edge_count())
        })
        .collect();
    assert_eq!(shapes, shapes_again);
}

#[test]
fn nth_loop_graph_is_empty_from_the_count_on() {
    let (mut parser, _insts) = chains_model(&[vec![0, 0, 0], vec![1, 1, 1]]);
    let mut graph = InstGraph::new(&parser).unwrap();
    let found = graph.search_matching_loops(&mut parser);
    assert_eq!(found, 2);
    assert!(!graph.nth_matching_loop_graph(0).is_empty());
    assert!(!graph.nth_matching_loop_graph(1).is_empty());
    assert!(graph.nth_matching_loop_graph(2).is_empty());
    assert!(graph.nth_matching_loop_graph(usize::MAX).is_empty());
}

#[test]
fn longest_path_through_the_middle_of_a_chain() {
    let (mut parser, insts) = chains_model(&[vec![0, 1, 2]]);
    let mut graph = InstGraph::new(&parser).unwrap();
    let before = visible_insts(&graph);
    let out = graph.apply_filters(&mut parser, &vec![Filter::ShowLongestPath(insts[0][1])]);
    match &out[0] {
        FilterOutput::LongestPath(path) => {
            assert_eq!(path, &vec![insts[0][0], insts[0][1], insts[0][2]]);
        }
        _ => panic!("no path"),
    }
    assert_eq!(visible_insts(&graph), before);
    assert_eq!(graph.show_longest_path_through(InstIdx(77)), Vec::<InstIdx>::new());
    graph.raw.reset_visibility_to(false);
    assert_eq!(graph.show_longest_path_through(insts[0][1]), Vec::<InstIdx>::new());
}

#[test]
fn max_insts_prefers_the_earlier_of_equally_costly() {
    let (mut parser, insts) = chains_model(&[vec![0], vec![1], vec![2], vec![3]]);
    let counts = [3usize, 3, 1, 1];
    for (c, n) in counts.iter().enumerate() {
        parser.insts[insts[c][0].0].yields_terms = vec![ENodeIdx(0); *n];
    }
    let mut parser2 = Z3Parser::new();
    std::mem::swap(&mut parser, &mut parser2);
    // The e-nodes that the instantiations list are not events of their own.
    let mut graph = InstGraph::new(&parser2).unwrap();
    graph.apply_filters(&mut parser2, &vec![Filter::MaxInsts(2)]);
    assert_eq!(visible_insts(&graph), vec![insts[0][0].0, insts[1][0].0]);
    graph.apply_filters(&mut parser2, &vec![Filter::MaxInsts(3)]);
    assert_eq!(visible_insts(&graph), vec![insts[0][0].0, insts[1][0].0, insts[2][0].0]);
    graph.apply_filters(&mut parser2, &vec![Filter::MaxInsts(0)]);
    assert_eq!(visible_insts(&graph), Vec::<usize>::new());
    graph.apply_filters(&mut parser2, &vec![Filter::MaxInsts(9)]);
    assert_eq!(visible_insts(&graph).len(), 4);
}

#[test]
fn filters_compose_and_repeat() {
    let (mut parser, insts) = chains_model(&[vec![0, 0, 0]]);
    // Turn the second instantiation into a step of theory solving.
    let m = parser.insts[insts[0][1].0].match_;
    parser.matches[m.0].kind = MatchKind::TheorySolving {
        axiom_id: smt_log_parser::items::TermId { namespace: 0, id: None },
        bound_terms: vec![],
        rewrite_of: None,
    };
    let mut graph = InstGraph::new(&parser).unwrap();
    graph.raw.compute_depths();
    let list = vec![Filter::IgnoreTheorySolving, Filter::MaxDepth(1)];
    graph.apply_filters(&mut parser, &list);
    let once = visible_insts(&graph);
    assert_eq!(once, vec![insts[0][0].0]);
    graph.apply_filters(&mut parser, &list);
    assert_eq!(visible_insts(&graph), once);
    let swapped = vec![Filter::MaxDepth(1), Filter::IgnoreTheorySolving];
    graph.apply_filters(&mut parser, &swapped);
    assert_eq!(visible_insts(&graph), once);
}

#[test]
fn quantifier_filters_hide_and_show() {
    let (mut parser, insts) = chains_model(&[vec![0, 1], vec![1, 2]]);
    let mut graph = InstGraph::new(&parser).unwrap();
    graph.apply_filters(&mut parser, &vec![Filter::IgnoreQuantifier(Some(QuantIdx(1)))]);
    assert_eq!(visible_insts(&graph), vec![insts[0][0].0, insts[1][1].0]);
    graph.apply_filters(&mut parser, &vec![Filter::IgnoreAllButQuantifier(Some(QuantIdx(1)))]);
    assert_eq!(visible_insts(&graph), vec![insts[1][0].0, insts[0][1].0]);
    graph.apply_filters(&mut parser, &vec![Filter::IgnoreQuantifier(None)]);
    assert_eq!(visible_insts(&graph).len(), 4);
    graph.apply_filters(
        &mut parser,
        &vec![
            Filter::IgnoreAllButQuantifier(Some(QuantIdx(0))),
            Filter::ShowNamedQuantifier("q2".to_string()),
        ],
    );
    assert_eq!(visible_insts(&graph), vec![insts[0][0].0, insts[1][1].0]);
    graph.apply_filters(&mut parser, &vec![Filter::MaxNodeIdx(1)]);
    assert_eq!(visible_insts(&graph), vec![0, 1]);
}

#[test]
fn tree_filters_follow_the_edges() {
    let (mut parser, insts) = chains_model(&[vec![0, 0, 0], vec![1]]);
    let mut graph = InstGraph::new(&parser).unwrap();
    let mid = insts[0][1];
    graph.apply_filters(&mut parser, &vec![Filter::VisitSourceTree(mid, true)]);
    assert_eq!(visible_insts(&graph), vec![insts[0][0].0, mid.0]);
    graph.apply_filters(&mut parser, &vec![Filter::VisitSourceTree(mid, false)]);
    assert_eq!(visible_insts(&graph), vec![insts[1][0].0, insts[0][2].0]);
    graph.apply_filters(&mut parser, &vec![Filter::VisitSubTreeWithRoot(mid, true)]);
    assert_eq!(visible_insts(&graph), vec![mid.0, insts[0][2].0]);
    graph.apply_filters(&mut parser, &vec![Filter::VisitSubTreeWithRoot(mid, false)]);
    assert_eq!(visible_insts(&graph), vec![insts[0][0].0, insts[1][0].0]);
    graph.apply_filters(&mut parser, &vec![Filter::VisitSubTreeWithRoot(InstIdx(99), true)]);
    assert_eq!(visible_insts(&graph).len(), 4);
}

#[test]
fn matching_loop_subgraph_filter_shows_the_loops_only() {
    let (mut parser, insts) = chains_model(&[vec![0, 0, 0], vec![1, 2]]);
    let mut graph = InstGraph::new(&parser).unwrap();
    graph.search_matching_loops(&mut parser);
    graph.apply_filters(&mut parser, &vec![Filter::ShowMatchingLoopSubgraph]);
    let mut want: Vec<usize> = insts[0].iter().map(|i| i.0).collect();
    want.sort();
    assert_eq!(visible_insts(&graph), want);
}

#[test]
fn max_branching_keeps_the_nodes_with_most_children() {
    let (mut parser, insts) = chains_model(&[vec![0, 0, 0]]);
    let mut graph = InstGraph::new(&parser).unwrap();
    // With every node shown each instantiation has one child, its e-node;
    // the earlier instantiations win.
    graph.apply_filters(&mut parser, &vec![Filter::MaxBranching(2)]);
    assert_eq!(visible_insts(&graph), vec![insts[0][0].0, insts[0][1].0]);
}

#[test]
fn neighbours_are_shown_after_the_pass_for_next_instantiations() {
    let (mut parser, insts) = chains_model(&[vec![0, 0, 0]]);
    let mut graph = InstGraph::new(&parser).unwrap();
    graph.initialise_inst_succs_and_preds(&parser);
    let list = vec![
        Filter::IgnoreAllButQuantifier(Some(QuantIdx(5))),
        Filter::ShowNeighbours(insts[0][1], Direction::Outgoing),
    ];
    graph.apply_filters(&mut parser, &list);
    assert_eq!(visible_insts(&graph), vec![insts[0][2].0]);
    let list = vec![
        Filter::IgnoreAllButQuantifier(Some(QuantIdx(5))),
        Filter::ShowNeighbours(insts[0][1], Direction::Incoming),
    ];
    graph.apply_filters(&mut parser, &list);
    assert_eq!(visible_insts(&graph), vec![insts[0][0].0]);
}

#[test]
fn load_fails_on_a_blame_that_was_not_seen() {
    let (mut parser, _insts) = chains_model(&[vec![0, 0]]);
    // Emit the first instantiation before the e-node that it is blamed on.
    parser.events.swap(0, 1);
    assert!(matches!(InstGraph::new(&parser), Err(Error::MissingBlame)));
    let (mut parser, _insts) = chains_model(&[vec![0, 0]]);
    parser.events.push(NodeKind::ENode(ENodeIdx(1000)));
    assert!(matches!(InstGraph::new(&parser), Err(Error::UnknownId)));
}

#[test]
fn a_loop_without_triggers_folds_to_an_empty_graph() {
    let (mut parser, insts) = chains_model(&[vec![0, 0, 0]]);
    // Instantiations by model-based instantiation have a quantifier, but no
    // trigger: they make a loop that contributes to no abstract
    // instantiation.
    for i in &insts[0] {
        let m = parser.insts[i.0].match_;
        parser.matches[m.0].kind = MatchKind::MBQI { quant: QuantIdx(0), bound_terms: vec![] };
    }
    let mut graph = InstGraph::new(&parser).unwrap();
    let found = graph.search_matching_loops(&mut parser);
    assert_eq!(found, 1);
    assert!(graph.nth_matching_loop_graph(0).is_empty());
    assert!(graph.nth_matching_loop_graph(1).is_empty());
}

#[test]
fn applying_filters_again_shows_the_same() {
    let (mut parser, _insts) = chains_model(&[vec![0, 0, 0, 1], vec![1, 2, 2]]);
    let mut graph = InstGraph::load(&parser).unwrap();
    graph.search_matching_loops(&mut parser);
    let lists = vec![
        vec![Filter::IgnoreQuantifier(Some(QuantIdx(1))), Filter::MaxDepth(4)],
        vec![Filter::MaxInsts(3), Filter::ShowNeighbours(InstIdx(0), Direction::Outgoing)],
        vec![Filter::ShowMatchingLoopSubgraph, Filter::MaxBranching(2)],
        vec![Filter::VisitSubTreeWithRoot(InstIdx(1), true), Filter::MaxNodeIdx(4)],
        vec![],
    ];
    for list in lists {
        graph.apply_filters(&mut parser, &list);
        let once = visible_insts(&graph);
        let disabled = graph.raw.disabled_mask();
        graph.apply_filters(&mut parser, &list);
        assert_eq!(visible_insts(&graph), once);
        assert_eq!(graph.raw.disabled_mask(), disabled);
        assert!(disabled.iter().all(|d| !*d));
    }
}

#[test]
fn a_search_that_is_given_up_changes_nothing() {
    let (mut parser, _insts) = chains_model(&[vec![0, 0, 0], vec![1, 1, 1]]);
    let mut graph = InstGraph::new(&parser).unwrap();
    graph.raw.reset_disabled_to(|ix: RawNodeIndex, _g: &smt_log_parser::raw::RawGraph| ix.0 % 2 == 0);
    graph.raw.set_visibility_many(false, &vec![RawNodeIndex(3), RawNodeIndex(4)]);
    let disabled = graph.raw.disabled_mask();
    let visible = graph.raw.visible_mask();
    let rows = parser.terms.len();

    let asked = std::cell::Cell::new(0);
    let r = graph.search_matching_loops_while(&mut parser, || {
        asked.set(asked.get() + 1);
        asked.get() < 2
    });
    assert_eq!(r, Err(Error::AnalysisCancelled));
    assert_eq!(asked.get(), 2);
    assert_eq!(graph.raw.disabled_mask(), disabled);
    assert_eq!(graph.raw.visible_mask(), visible);
    assert_eq!(graph.found_matching_loops(), None);
    assert_eq!(parser.terms.len(), rows);

    let r = graph.search_matching_loops_while(&mut parser, || true);
    assert_eq!(r, Ok(2));
    assert_eq!(graph.raw.disabled_mask(), disabled);
    let r = graph.search_matching_loops_while(&mut parser, || false);
    assert_eq!(r, Err(Error::AnalysisCancelled));
    assert_eq!(graph.found_matching_loops(), Some(2));
}

#[test]
fn searching_again_labels_with_the_same_rows() {
    let (mut parser, _insts) = chains_model(&[vec![0, 0, 0, 0], vec![1, 1, 1]]);
    let mut graph = InstGraph::new(&parser).unwrap();
    let found = graph.search_matching_loops(&mut parser);
    assert_eq!(found, 2);
    let rows = parser.terms.len();
    let read = |graph: &InstGraph, n: usize| {
        let g = graph.nth_matching_loop_graph(n);
        let labels: Vec<MLGraphNode> = (0..g.node_count()).map(|ix| g.node_weight(ix).unwrap()).collect();
        let edges: Vec<Vec<usize>> = (0..g.node_count()).map(|ix| g.neighbors_directed(ix, true)).collect();
        (labels, edges)
    };
    let once: Vec<_> = (0..found).map(|n| read(&graph, n)).collect();
    assert!(!once[0].0.is_empty());
    let visible = visible_insts(&graph);
    assert_eq!(graph.search_matching_loops(&mut parser), found);
    let twice: Vec<_> = (0..found).map(|n| read(&graph, n)).collect();
    assert_eq!(once, twice);
    assert_eq!(visible_insts(&graph), visible);
    // The second search found every row that the first one made.
    assert_eq!(parser.terms.len(), rows);
}

#[test]
fn a_model_without_events_loads() {
    let parser = Z3Parser::new();
    let graph = InstGraph::load(&parser).unwrap();
    assert_eq!(graph.raw.node_count(), 0);
    assert!(graph.subgraphs.is_empty());
    assert!(graph.raw.depths_computed());
}

#[test]
fn load_fails_with_the_error_of_the_build() {
    let (mut parser, _insts) = chains_model(&[vec![0, 0]]);
    parser.events.swap(0, 1);
    assert!(matches!(InstGraph::load(&parser), Err(Error::MissingBlame)));
    let (mut parser, _insts) = chains_model(&[vec![0, 0]]);
    parser.events.push(NodeKind::ENode(ENodeIdx(1000)));
    assert!(matches!(InstGraph::load(&parser), Err(Error::UnknownId)));
}

#[test]
fn depths_are_there_after_they_were_computed() {
    let (parser, _insts) = chains_model(&[vec![0, 0]]);
    let mut graph = InstGraph::new(&parser).unwrap();
    assert!(!graph.raw.depths_computed());
    graph.raw.compute_depths();
    assert!(graph.raw.depths_computed());
}

#[test]
fn a_load_that_is_given_up_hands_out_no_graph() {
    let (parser, _insts) = chains_model(&[vec![0, 0, 0]]);
    for stop_at in 0..4 {
        let asked = Cell::new(0usize);
        let r = InstGraph::load_while(&parser, || {
            asked.set(asked.get() + 1);
            asked.get() <= stop_at
        });
        assert!(matches!(r, Err(Error::AnalysisCancelled)));
        assert_eq!(asked.get(), stop_at + 1);
    }
    let asked = Cell::new(0usize);
    let graph = InstGraph::load_while(&parser, || {
        asked.set(asked.get() + 1);
        true
    })
    .unwrap();
    assert_eq!(asked.get(), 4);
    assert_eq!(graph.raw.node_count(), parser.events.len());
    // The error of the build comes before any question.
    let (mut broken, _insts) = chains_model(&[vec![0, 0]]);
    broken.events.swap(0, 1);
    assert!(matches!(InstGraph::load_while(&broken, || false), Err(Error::MissingBlame)));
}

#[test]
fn a_loop_that_contributes_nothing_leaves_the_table_alone() {
    let (mut parser, _insts) = chains_model(&[vec![0, 0, 0]]);
    let mut graph = InstGraph::new(&parser).unwrap();
    let found = graph.search_matching_loops(&mut parser);
    let rows = parser.terms.len();
    // No node is part of a loop of this rank.
    let g = graph.compute_nth_matching_loop_graph(found + 3, &mut parser);
    assert!(g.is_empty());
    assert_eq!(g.edge_count(), 0);
    assert_eq!(parser.terms.len(), rows);
}
