use smt_log_parser::contribution::Contribution;
use smt_log_parser::filters::{GraphFilters, InstInfo, Msg, Filter, DEFAULT_NODE_COUNT};
use smt_log_parser::idx::{ENodeIdx, EqGivenIdx, EqTransIdx, InstIdx, MatchIdx, QuantIdx, RawNodeIndex, TermIdx};
use smt_log_parser::items::{BlameKind, Fingerprint, Instantiation, Match, MatchKind};
use smt_log_parser::matching_loop::{
    fold_abstract_insts, fold_matching_loop, AbstractInst, InstOrEquality, MlEquality, MlMatchedTerm,
    MIN_MATCHING_LOOP_LENGTH,
};
use smt_log_parser::ml_graph::{build_ml_graph, generalise_patterns, MLGraphNode};
use smt_log_parser::model::{ENode, EqualityExpl, Quantifier, TransitiveExpl, Z3Parser};
use smt_log_parser::terms::{Term, TermKind};

fn app(p: &mut Z3Parser, name: usize, children: &[TermIdx]) -> TermIdx {
    p.terms.new_term(Term { id: None, kind: TermKind::App(name), child_ids: children.to_vec() }).unwrap()
}

fn show(p: &Z3Parser, t: TermIdx) -> String {
    let row = p.terms.get(t).unwrap();
    let head = match row.kind {
        TermKind::Var(n) => format!("x{n}"),
        TermKind::App(n) => format!("f{n}"),
        TermKind::Quant(q) => format!("q{}", q.0),
        TermKind::Generalised => return "_".to_string(),
    };
    if row.child_ids.is_empty() {
        head
    } else {
        let inner: Vec<String> = row.child_ids.iter().map(|c| show(p, *c)).collect();
        format!("{head}({})", inner.join(","))
    }
}

/// Terms a, b, c and g(a), g(b), g(c); a trigger with two terms.
fn base() -> (Z3Parser, Vec<TermIdx>, TermIdx) {
    let mut p = Z3Parser::new();
    p.quants.push(Quantifier { name: "first".to_string(), term: None });
    p.quants.push(Quantifier { name: "second".to_string(), term: None });
    let a = app(&mut p, 1, &[]);
    let b = app(&mut p, 2, &[]);
    let c = app(&mut p, 3, &[]);
    let ga = app(&mut p, 7, &[a]);
    let gb = app(&mut p, 7, &[b]);
    let gc = app(&mut p, 7, &[c]);
    let x = p.terms.new_term(Term { id: None, kind: TermKind::Var(0), child_ids: vec![] }).unwrap();
    let gx = app(&mut p, 7, &[x]);
    let pattern = app(&mut p, 90, &[gx, x]);
    (p, vec![a, b, c, ga, gb, gc], pattern)
}

#[test]
fn matched_terms_merge_by_generalisation() {
    let (mut p, t, pattern) = base();
    let mut m = MlMatchedTerm::from(t[3], QuantIdx(0), pattern);
    assert_eq!(m.matched, t[3]);
    assert_eq!(m.creator, (QuantIdx(0), pattern));
    m.merge_with(t[4], QuantIdx(1), TermIdx(5), &mut p);
    assert_eq!(show(&p, m.matched), "f7(_)");
    assert_eq!(m.creator, (QuantIdx(1), TermIdx(5)));
    let held = m.matched;
    m.merge_with(TermIdx(999), QuantIdx(0), pattern, &mut p);
    assert_eq!(m.matched, held);
    assert_eq!(m.creator, (QuantIdx(0), pattern));
}

#[test]
fn equalities_merge_both_sides_and_gather_creators() {
    let (mut p, t, pattern) = base();
    let k0 = (QuantIdx(0), pattern);
    let k1 = (QuantIdx(1), pattern);
    let mut e = MlEquality::from(t[3], t[0], vec![k0, k0]);
    assert_eq!(e.creators, vec![k0]);
    e.merge_with(t[4], t[0], vec![k1, k0, k1], &mut p);
    assert_eq!(show(&p, e.from), "f7(_)");
    assert_eq!(e.to, t[0]);
    assert_eq!(e.creators, vec![k0, k1]);
    e.merge_with(t[4], t[1], vec![], &mut p);
    assert_eq!(show(&p, e.from), "f7(_)");
    assert_eq!(show(&p, e.to), "_");
    let d = MlEquality::default();
    assert_eq!((d.from, d.to, d.creators.len()), (TermIdx(0), TermIdx(0), 0));
}

#[test]
fn abstract_instantiation_keeps_one_entry_per_slot() {
    let (mut p, t, pattern) = base();
    let key = (QuantIdx(0), pattern);
    let mut a = AbstractInst::from(key);
    assert_eq!(a.id, key);
    // The first term of a slot is stored as it is, and the table is not read.
    let rows = p.terms.len();
    a.merge_nth_blame_term(1, t[3], QuantIdx(0), pattern, &mut p);
    assert_eq!(p.terms.len(), rows);
    assert_eq!(a.matched_terms.len(), 1);
    assert_eq!(a.matched_terms[0].0, 1);
    assert_eq!(a.matched_terms[0].1.matched, t[3]);
    assert_eq!(a.matched_terms[0].1.creator, (QuantIdx(0), pattern));
    a.merge_nth_blame_term(0, t[0], QuantIdx(1), pattern, &mut p);
    a.merge_nth_blame_term(1, t[5], QuantIdx(1), pattern, &mut p);
    let slots: Vec<usize> = a.matched_terms.iter().map(|(n, _)| *n).collect();
    assert_eq!(slots, vec![1, 0]);
    assert_eq!(show(&p, a.matched_terms[0].1.matched), "f7(_)");
    assert_eq!(a.matched_terms[0].1.creator, (QuantIdx(1), pattern));
    assert_eq!(a.matched_terms[1].1.matched, t[0]);
    a.merge_nth_equalities(2, t[0], t[1], vec![key], &mut p);
    a.merge_nth_equalities(2, t[0], t[2], vec![(QuantIdx(1), pattern)], &mut p);
    assert_eq!(a.equalities.len(), 1);
    assert_eq!(a.equalities[0].0, 2);
    assert_eq!(a.equalities[0].1.from, t[0]);
    assert_eq!(show(&p, a.equalities[0].1.to), "_");
    assert_eq!(a.equalities[0].1.creators, vec![key, (QuantIdx(1), pattern)]);
}

/// i0 yields e1 = g(a) and the literal e2; i1 matches e1, rewritten by an
/// equality that rests on the literal; i2 matches what i1 yielded.
fn blamed_model() -> (Z3Parser, Vec<TermIdx>, TermIdx) {
    let (mut p, t, pattern) = base();
    p.enodes.push(ENode { owner: t[0], created_by: None });
    p.enodes.push(ENode { owner: t[3], created_by: Some(InstIdx(0)) });
    p.enodes.push(ENode { owner: t[1], created_by: Some(InstIdx(0)) });
    p.enodes.push(ENode { owner: t[4], created_by: Some(InstIdx(1)) });
    p.eq_given.push(EqualityExpl::Literal { from: ENodeIdx(1), eq: ENodeIdx(2), to: ENodeIdx(0) });
    p.eq_given.push(EqualityExpl::Theory { from: ENodeIdx(1), to: ENodeIdx(0) });
    p.eq_trans.push(TransitiveExpl {
        from: ENodeIdx(1),
        to: ENodeIdx(0),
        path: vec![EqGivenIdx(1), EqGivenIdx(0)],
    });
    p.eq_trans.push(TransitiveExpl { from: ENodeIdx(3), to: ENodeIdx(3), path: vec![EqGivenIdx(1)] });
    let blames = vec![
        vec![BlameKind::Term { term: ENodeIdx(0) }],
        vec![BlameKind::Term { term: ENodeIdx(1) }, BlameKind::Equality { eq: EqTransIdx(0) }],
        vec![
            BlameKind::Term { term: ENodeIdx(3) },
            BlameKind::Equality { eq: EqTransIdx(1) },
            BlameKind::Equality { eq: EqTransIdx(0) },
        ],
    ];
    for (i, blamed) in blames.into_iter().enumerate() {
        p.matches.push(Match {
            kind: MatchKind::Quantifier { quant: QuantIdx(0), pattern, bound_terms: vec![] },
            blamed,
        });
        p.insts.push(Instantiation {
            match_: MatchIdx(i),
            fingerprint: Fingerprint(7),
            proof_id: None,
            z3_generation: None,
            yields_terms: vec![],
        });
    }
    (p, t, pattern)
}

#[test]
fn contributions_list_terms_then_equalities() {
    let (p, t, pattern) = blamed_model();
    let key = (QuantIdx(0), pattern);
    let cs = p.collect_contributions(&vec![InstIdx(0), InstIdx(1), InstIdx(2), InstIdx(9)]);
    assert_eq!(cs.len(), 4);
    assert!(matches!(&cs[0], Contribution::Term { key: k, slot: 0, term, creator }
        if *k == key && *term == t[3] && *creator == key));
    assert!(matches!(&cs[1], Contribution::Equality { key: k, slot: 0, from, to, creators }
        if *k == key && *from == t[3] && *to == t[0] && creators == &vec![key]));
    assert!(matches!(&cs[2], Contribution::Term { slot: 0, term, .. } if *term == t[4]));
    // The first equality of the last instantiation has no creator and is
    // left out; the second goes to slot 0 + 1.
    assert!(matches!(&cs[3], Contribution::Equality { slot: 1, from, to, .. } if *from == t[3] && *to == t[0]));
    assert_eq!(p.creators_of(&vec![EqGivenIdx(0), EqGivenIdx(1), EqGivenIdx(0), EqGivenIdx(5)]), vec![key, key]);
}

#[test]
fn folding_builds_the_graph_of_the_loop() {
    let (mut p, _t, pattern) = blamed_model();
    let key = (QuantIdx(0), pattern);
    let cs = p.collect_contributions(&vec![InstIdx(0), InstIdx(1), InstIdx(2)]);
    let state = fold_abstract_insts(cs, &mut p);
    assert_eq!(state.len(), 1);
    assert_eq!(state[0].id, key);
    assert_eq!(state[0].matched_terms.len(), 1);
    assert_eq!(show(&p, state[0].matched_terms[0].1.matched), "f7(_)");
    let slots: Vec<usize> = state[0].equalities.iter().map(|(n, _)| *n).collect();
    assert_eq!(slots, vec![0, 1]);
    let patterns = generalise_patterns(&state, &mut p);
    assert_eq!(patterns.len(), 1);
    assert_eq!(patterns[0].0, key);
    assert_eq!(show(&p, patterns[0].1), "f90(f7(_),_)");
    let g = build_ml_graph(&state, &patterns);
    // One abstract instantiation, one matched term, one equality g(a) = a
    // that both slots hold.
    assert_eq!(g.node_count(), 3);
    assert_eq!(g.node_weight(0), Some(MLGraphNode::QI(QuantIdx(0), patterns[0].1)));
    assert!(matches!(g.node_weight(1), Some(MLGraphNode::ENode(_))));
    assert!(matches!(g.node_weight(2), Some(MLGraphNode::Equality(_, _))));
    assert_eq!(g.node_weight(3), None);
    assert_eq!(g.edge_count(), 4);
    assert_eq!(g.neighbors_directed(0, true), vec![2, 1]);
    assert_eq!(g.neighbors_directed(0, false), vec![2, 1]);
    assert_eq!(g.enode_terms().len(), 1);
    let copy = g.duplicate();
    assert_eq!(copy.node_count(), 3);
    assert_eq!(copy.edge_count(), 4);
    assert_eq!(copy.neighbors_directed(1, true), vec![0]);

    let (mut q, _t, _pattern) = blamed_model();
    let direct = fold_matching_loop(&vec![InstIdx(0), InstIdx(1), InstIdx(2)], &mut q);
    assert_eq!(direct.node_count(), 3);
    assert_eq!(direct.edge_count(), 4);
    let none = fold_matching_loop(&vec![InstIdx(0)], &mut q);
    assert!(none.is_empty());
    assert_eq!(MIN_MATCHING_LOOP_LENGTH, 3);
}

#[test]
fn the_order_of_the_instantiations_does_not_change_the_generalised_terms() {
    let (mut p, _t, _pattern) = blamed_model();
    let (mut q, _t, _pattern) = blamed_model();
    let one = fold_matching_loop(&vec![InstIdx(0), InstIdx(1), InstIdx(2)], &mut p);
    let other = fold_matching_loop(&vec![InstIdx(2), InstIdx(1), InstIdx(1), InstIdx(0)], &mut q);
    assert_eq!(one.node_count(), other.node_count());
    assert_eq!(one.edge_count(), other.edge_count());
    let shown = |p: &Z3Parser, g: &smt_log_parser::ml_graph::MlGraph| -> Vec<String> {
        let mut v: Vec<String> = g.enode_terms().iter().map(|t| show(p, *t)).collect();
        v.sort();
        v
    };
    assert_eq!(shown(&p, &one), shown(&q, &other));
}

#[test]
fn filter_settings_follow_the_messages() {
    let picked = InstInfo { inst_idx: InstIdx(3), node_index: RawNodeIndex(8) };
    let mut s = GraphFilters::create(vec![]);
    assert_eq!(s.max_node_idx, usize::MAX);
    assert_eq!(s.max_instantiations, DEFAULT_NODE_COUNT);
    assert_eq!(s.max_branching, usize::MAX);
    assert_eq!(s.max_depth, usize::MAX);
    assert!(s.update(Msg::SetMaxNodeIdx(10)));
    assert!(s.update(Msg::SetMaxInsts(20)));
    assert!(s.update(Msg::SetMaxBranching(30)));
    assert!(s.update(Msg::SetMaxDepth(40)));
    assert!(s.update(Msg::SelectedInstsUpdated(vec![picked])));
    assert_eq!((s.max_node_idx, s.max_instantiations, s.max_branching, s.max_depth), (10, 20, 30, 40));
    assert_eq!(s.selected_insts, vec![picked]);
    assert_eq!(s.max_node_idx_filter(), Filter::MaxNodeIdx(10));
    assert_eq!(s.max_insts_filter(), Filter::MaxInsts(20));
    assert_eq!(s.max_branching_filter(), Filter::MaxBranching(30));
    assert_eq!(s.max_depth_filter(), Filter::MaxDepth(40));
}

#[test]
fn node_texts() {
    let kind = MatchKind::MBQI { quant: QuantIdx(0), bound_terms: vec![] };
    assert_eq!(InstOrEquality::Inst("name".to_string(), kind).text(), "name");
    assert_eq!(InstOrEquality::Equality.text(), "");
}
