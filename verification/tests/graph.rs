use smt_log_parser::dag::Dag;
use smt_log_parser::error::Error;
use smt_log_parser::idx::{ENodeIdx, EqGivenIdx, EqTransIdx, InstIdx, MatchIdx, QuantIdx, RawNodeIndex, TermIdx};
use smt_log_parser::items::{BlameKind, Fingerprint, Instantiation, Match, MatchKind};
use smt_log_parser::model::{ENode, EqualityExpl, NodeKind, Quantifier, TransitiveExpl, Z3Parser};
use smt_log_parser::raw::{Node, RawGraph};
use smt_log_parser::subgraph::{Subgraph, VisitBox};
use smt_log_parser::terms::{Term, TermKind};

/// Two instantiations; the second is blamed on an e-node of the first and on
/// an equality that rests on a literal of the first.
///
/// events: e0, i0, e1, e2(literal), g0, t0, i1, e3 (alone)
fn equality_model() -> Z3Parser {
    let mut p = Z3Parser::new();
    p.quants.push(Quantifier { name: "q".to_string(), term: None });
    let mut ids = Vec::new();
    for k in 0..6 {
        ids.push(p.terms.new_term(Term { id: None, kind: TermKind::App(k), child_ids: vec![] }).unwrap());
    }
    let pattern = p
        .terms
        .new_term(Term { id: None, kind: TermKind::App(50), child_ids: vec![ids[0], ids[1]] })
        .unwrap();
    p.enodes.push(ENode { owner: ids[0], created_by: None });
    p.enodes.push(ENode { owner: ids[1], created_by: Some(InstIdx(0)) });
    p.enodes.push(ENode { owner: ids[2], created_by: Some(InstIdx(0)) });
    p.enodes.push(ENode { owner: ids[3], created_by: None });
    p.eq_given.push(EqualityExpl::Literal { from: ENodeIdx(1), eq: ENodeIdx(2), to: ENodeIdx(3) });
    p.eq_trans.push(TransitiveExpl { from: ENodeIdx(1), to: ENodeIdx(3), path: vec![EqGivenIdx(0)] });
    p.matches.push(Match {
        kind: MatchKind::Quantifier { quant: QuantIdx(0), pattern, bound_terms: vec![ENodeIdx(0)] },
        blamed: vec![BlameKind::Term { term: ENodeIdx(0) }],
    });
    p.matches.push(Match {
        kind: MatchKind::Quantifier { quant: QuantIdx(0), pattern, bound_terms: vec![ENodeIdx(1)] },
        blamed: vec![BlameKind::Term { term: ENodeIdx(1) }, BlameKind::Equality { eq: EqTransIdx(0) }],
    });
    for m in 0..2 {
        p.insts.push(Instantiation {
            match_: MatchIdx(m),
            fingerprint: Fingerprint(m as u64),
            proof_id: None,
            z3_generation: None,
            yields_terms: vec![],
        });
    }
    p.events = vec![
        NodeKind::ENode(ENodeIdx(0)),
        NodeKind::Instantiation(InstIdx(0)),
        NodeKind::ENode(ENodeIdx(1)),
        NodeKind::ENode(ENodeIdx(2)),
        NodeKind::GivenEquality(EqGivenIdx(0)),
        NodeKind::TransEquality(EqTransIdx(0)),
        NodeKind::Instantiation(InstIdx(1)),
        NodeKind::ENode(ENodeIdx(3)),
    ];
    p
}

fn edges_of(g: &RawGraph) -> Vec<(usize, usize)> {
    let mut edges = Vec::new();
    for v in 0..g.node_count() {
        for s in g.neighbors_directed(RawNodeIndex(v), true) {
            edges.push((v, s));
        }
    }
    edges.sort();
    edges
}

#[test]
fn build_joins_every_event_with_what_it_rests_on() {
    let p = equality_model();
    let g = RawGraph::build(&p).unwrap();
    assert_eq!(g.node_count(), 8);
    for v in 0..8 {
        let node = g.node(RawNodeIndex(v));
        assert_eq!(node.kind, p.events[v]);
        assert!(!node.disabled && node.visible);
        assert_eq!(node.subgraph, None);
        assert!(node.part_of_ml.is_empty());
        assert!(node.inst_parents.nodes.is_empty());
    }
    assert_eq!(edges_of(&g), vec![(0, 1), (1, 2), (1, 3), (2, 6), (3, 4), (4, 5), (5, 6)]);
    assert_eq!(g.neighbors_directed(RawNodeIndex(6), false).len(), 2);
    assert_eq!(g.index_of(NodeKind::Instantiation(InstIdx(1))), Some(6));
    assert_eq!(g.index_of(NodeKind::Instantiation(InstIdx(2))), None);
    // Every edge leads to a later node: the graph has no cycle.
    for (u, v) in edges_of(&g) {
        assert!(u < v);
    }
}

#[test]
fn build_fails_on_the_first_event_that_cannot_take_its_place() {
    let mut p = equality_model();
    p.events.swap(4, 5);
    assert!(matches!(RawGraph::build(&p), Err(Error::MissingBlame)));
    let mut p = equality_model();
    p.events.remove(0);
    assert!(matches!(RawGraph::build(&p), Err(Error::MissingBlame)));
    let mut p = equality_model();
    p.events.insert(0, NodeKind::TransEquality(EqTransIdx(9)));
    assert!(matches!(RawGraph::build(&p), Err(Error::UnknownId)));
    let mut p = equality_model();
    p.insts[1].match_ = MatchIdx(7);
    assert!(matches!(RawGraph::build(&p), Err(Error::UnknownId)));
    let empty = Z3Parser::new();
    assert_eq!(RawGraph::build(&empty).unwrap().node_count(), 0);
}

#[test]
fn reset_disabled_to_disables_exactly_what_the_predicate_says() {
    let p = equality_model();
    let mut g = RawGraph::build(&p).unwrap();
    g.reset_disabled_to(|ix: RawNodeIndex, graph: &RawGraph| {
        !matches!(graph.node(ix).kind, NodeKind::Instantiation(_))
    });
    for v in 0..8 {
        let node = g.node(RawNodeIndex(v));
        assert_eq!(node.disabled(), !matches!(node.kind, NodeKind::Instantiation(_)));
        assert_eq!(node.is_shown(), matches!(node.kind, NodeKind::Instantiation(_)));
    }
    assert_eq!(g.disabled_mask(), vec![true, false, true, true, true, true, false, true]);
    let listed: Vec<usize> = g.disabled_nodes().iter().map(|ix| ix.0).collect();
    assert_eq!(listed, vec![0, 2, 3, 4, 5, 7]);
    g.reset_disabled_to(|ix: RawNodeIndex, _: &RawGraph| ix.0 == 3);
    assert_eq!(g.disabled_mask(), vec![false, false, false, true, false, false, false, false]);
    g.reset_disabled_to(|_: RawNodeIndex, _: &RawGraph| false);
    assert!(g.disabled_mask().iter().all(|d| !*d));
}

#[test]
fn visibility_helpers_set_what_they_are_told() {
    let p = equality_model();
    let mut g = RawGraph::build(&p).unwrap();
    let visible = |g: &RawGraph| -> Vec<bool> {
        (0..g.node_count()).map(|v| g.node(RawNodeIndex(v)).visible).collect()
    };
    g.reset_visibility_to(false);
    assert!(visible(&g).iter().all(|v| !*v));
    g.set_visibility_when(true, |_: RawNodeIndex, node: &Node| matches!(node.kind, NodeKind::ENode(_)));
    assert_eq!(visible(&g), vec![true, false, true, true, false, false, false, true]);
    g.set_visibility_when(false, |ix: RawNodeIndex, _: &Node| ix.0 < 3);
    assert_eq!(visible(&g), vec![false, false, false, true, false, false, false, true]);
    g.set_visibility_many(true, &vec![RawNodeIndex(1), RawNodeIndex(6), RawNodeIndex(100)]);
    assert_eq!(visible(&g), vec![false, true, false, true, false, false, true, true]);
    g.set_visibility_many(false, &vec![RawNodeIndex(7), RawNodeIndex(7)]);
    assert_eq!(visible(&g), vec![false, true, false, true, false, false, true, false]);
    g.set_visible_mask(&vec![true, false, true, false, true, false, true, false]);
    assert_eq!(visible(&g), vec![true, false, true, false, true, false, true, false]);
    assert!(g.disabled_mask().iter().all(|d| !*d));
}

#[test]
fn depths_count_the_edges_from_the_roots() {
    let p = equality_model();
    let mut g = RawGraph::build(&p).unwrap();
    g.compute_depths();
    let min: Vec<u32> = (0..8).map(|v| g.node(RawNodeIndex(v)).min_depth.unwrap()).collect();
    let max: Vec<u32> = (0..8).map(|v| g.node(RawNodeIndex(v)).max_depth.unwrap()).collect();
    assert_eq!(min, vec![0, 1, 2, 2, 3, 4, 3, 0]);
    assert_eq!(max, vec![0, 1, 2, 2, 3, 4, 5, 0]);
    for v in 0..8 {
        assert!(min[v] <= max[v]);
    }
}

#[test]
fn partition_finds_the_components_and_what_their_nodes_reach() {
    let p = equality_model();
    let mut g = RawGraph::build(&p).unwrap();
    let subs = g.partition().unwrap();
    assert_eq!(subs.len(), 2);
    let first: Vec<usize> = subs[0].nodes.iter().map(|ix| ix.0).collect();
    let second: Vec<usize> = subs[1].nodes.iter().map(|ix| ix.0).collect();
    assert_eq!(first, vec![0, 1, 2, 3, 4, 5, 6]);
    assert_eq!(second, vec![7]);
    for (c, sub) in subs.iter().enumerate() {
        for (i, ix) in sub.nodes.iter().enumerate() {
            assert_eq!(g.node(*ix).subgraph, Some((c as u32, i as u32)));
        }
    }
    let sub = &subs[0];
    let n = sub.nodes.len() as u32;
    for i in 0..n {
        assert!(sub.reach_fwd.in_transitive_closure(i, i));
        assert!(sub.reach_bwd.in_transitive_closure(i, i));
        for j in 0..n {
            assert_eq!(
                sub.reach_fwd.in_transitive_closure(i, j),
                sub.reach_bwd.in_transitive_closure(j, i)
            );
        }
    }
    assert_eq!(sub.reach_fwd.reachable_from(2), vec![2, 6]);
    assert_eq!(sub.reach_fwd.reachable_from(3), vec![3, 4, 5, 6]);
    assert_eq!(sub.reach_fwd.reachable_from(1), vec![1, 2, 3, 4, 5, 6]);
    assert_eq!(sub.reach_bwd.reachable_from(6), vec![0, 1, 2, 3, 4, 5, 6]);
    assert_eq!(sub.reach_bwd.reachable_from(4), vec![0, 1, 3, 4]);
    assert!(!sub.reach_fwd.in_transitive_closure(2, 3));
    assert!(!sub.reach_fwd.in_transitive_closure(6, 0));
    let many: Vec<u32> = sub.reach_fwd.reachable_from_many(&vec![2, 4]).iter().collect();
    assert_eq!(many, vec![2, 4, 5, 6]);
    let none: Vec<u32> = sub.reach_fwd.reachable_from_many(&vec![]).iter().collect();
    assert_eq!(none, Vec::<u32>::new());
    assert_eq!(subs[1].reach_fwd.reachable_from(0), vec![0]);
}

#[test]
fn one_component_from_a_node_in_its_middle() {
    let p = equality_model();
    let mut g = RawGraph::build(&p).unwrap();
    let visit = VisitBox { dfs: vec![false; 8] };
    let (sub, visit) = Subgraph::new(RawNodeIndex(4), &mut g, visit, 5).unwrap();
    let listed: Vec<usize> = sub.nodes.iter().map(|ix| ix.0).collect();
    assert_eq!(listed, vec![0, 1, 2, 3, 4, 5, 6]);
    assert_eq!(visit.dfs, vec![true, true, true, true, true, true, true, false]);
    assert_eq!(g.node(RawNodeIndex(4)).subgraph, Some((5, 4)));
    assert_eq!(g.node(RawNodeIndex(7)).subgraph, None);
}

#[test]
fn dag_reaches_along_the_edges() {
    let mut d = Dag::new();
    for _ in 0..5 {
        d.add_node();
    }
    d.add_edge(0, 2);
    d.add_edge(1, 2);
    d.add_edge(2, 4);
    d.add_edge(0, 2);
    assert_eq!(d.node_count(), 5);
    assert_eq!(d.edge_count(), 4);
    assert_eq!(d.successors(0), vec![2, 2]);
    assert_eq!(d.predecessors(2), vec![0, 1, 0]);
    assert_eq!(d.successors(3), Vec::<usize>::new());
    assert_eq!(d.reaching(4), vec![true, true, true, false, true]);
    assert_eq!(d.reaching(2), vec![true, true, true, false, false]);
    assert_eq!(d.reachable_from(1), vec![false, true, true, false, true]);
    assert_eq!(d.reachable_from(3), vec![false, false, false, true, false]);
    let mut marks = vec![false; 5];
    let mut members = d.component_of(4, &mut marks);
    members.sort();
    assert_eq!(members, vec![0, 1, 2, 4]);
    assert_eq!(marks, vec![true, true, true, false, true]);
    let members = d.component_of(3, &mut marks);
    assert_eq!(members, vec![3]);
}

#[test]
fn update_adds_an_edge_once() {
    let mut d = Dag::new();
    for _ in 0..3 {
        d.add_node();
    }
    d.update_edge(0, 1);
    d.update_edge(0, 2);
    d.update_edge(0, 1);
    assert_eq!(d.edge_count(), 2);
    assert_eq!(d.successors(0), vec![2, 1]);
    d.add_edge(0, 1);
    assert_eq!(d.successors(0), vec![1, 2, 1]);
}

#[test]
fn a_node_is_given_the_place_that_is_handed_in() {
    let p = equality_model();
    let mut g = RawGraph::build(&p).unwrap();
    g.put_subgraph(2, Some((4, 1)));
    assert_eq!(g.node(RawNodeIndex(2)).subgraph, Some((4, 1)));
    g.put_subgraph(2, None);
    assert_eq!(g.node(RawNodeIndex(2)).subgraph, None);
    let before: Vec<Option<(u32, u32)>> =
        (0..g.node_count()).map(|v| g.node(RawNodeIndex(v)).subgraph).collect();
    assert!(before.iter().all(|place| place.is_none()));
    let subs = g.partition().unwrap();
    assert_eq!(subs.iter().map(|s| s.nodes.len()).sum::<usize>(), g.node_count());
}

#[test]
fn from_a_marked_node_nothing_is_reached() {
    let mut d = Dag::new();
    for _ in 0..3 {
        d.add_node();
    }
    d.add_edge(0, 1);
    let mut marks = vec![true, true, false];
    assert_eq!(d.component_of(0, &mut marks), Vec::<usize>::new());
    assert_eq!(marks, vec![true, true, false]);
    assert_eq!(d.component_of(2, &mut marks), vec![2]);
    assert_eq!(marks, vec![true, true, true]);

    let p = equality_model();
    let mut g = RawGraph::build(&p).unwrap();
    let n = g.node_count();
    let (first, visit) = Subgraph::new(RawNodeIndex(0), &mut g, VisitBox { dfs: vec![false; n] }, 0).unwrap();
    assert!(!first.nodes.is_empty());
    let marked = visit.dfs.clone();
    let places: Vec<Option<(u32, u32)>> = (0..n).map(|v| g.node(RawNodeIndex(v)).subgraph).collect();
    // The start node is marked now: its component is found no second time.
    let (again, visit) = Subgraph::new(RawNodeIndex(0), &mut g, visit, 1).unwrap();
    assert!(again.nodes.is_empty());
    assert_eq!(visit.dfs, marked);
    let after: Vec<Option<(u32, u32)>> = (0..n).map(|v| g.node(RawNodeIndex(v)).subgraph).collect();
    assert_eq!(after, places);
}
