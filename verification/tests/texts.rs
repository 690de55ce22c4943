use std::collections::hash_map::DefaultHasher;
use std::hash::Hasher;
use petgraph::Direction;
use smt_log_parser::filters::Filter;
use smt_log_parser::idx::{InstIdx, QuantIdx};

#[test]
fn filters_describe_themselves() {
    let cases: Vec<(Filter, &str)> = vec![
        (Filter::MaxNodeIdx(120), "Only show nodes up to index 120"),
        (Filter::MaxNodeIdx(0), "Only show nodes up to index 0"),
        (Filter::IgnoreTheorySolving, "Hide theory solving"),
        (Filter::IgnoreQuantifier(None), "Ignore instantiations without quantifier"),
        (Filter::IgnoreQuantifier(Some(QuantIdx(7))), "Ignore instantiations of quantifier 7"),
        (Filter::IgnoreAllButQuantifier(None), "Ignore all instantiations without quantifier"),
        (Filter::IgnoreAllButQuantifier(Some(QuantIdx(10))), "Only show instantiations of quantifier 10"),
        (Filter::MaxInsts(125), "Show the 125 most expensive instantiations"),
        (Filter::MaxBranching(9), "Show the 9 instantiations with the most children"),
        (Filter::VisitSubTreeWithRoot(InstIdx(3), true), "Show node 3 and its descendants"),
        (Filter::VisitSubTreeWithRoot(InstIdx(3), false), "Hide node 3 and its descendants"),
        (Filter::VisitSourceTree(InstIdx(41), true), "Show node 41 and its ancestors"),
        (Filter::VisitSourceTree(InstIdx(41), false), "Hide node 41 and its ancestors"),
        (Filter::ShowNeighbours(InstIdx(5), Direction::Incoming), "Show the parents of node 5"),
        (Filter::ShowNeighbours(InstIdx(5), Direction::Outgoing), "Show the children of node 5"),
        (Filter::MaxDepth(1000), "Show nodes up to depth 1000"),
        (Filter::ShowLongestPath(InstIdx(99)), "Showing longest path through node 99"),
        (Filter::ShowNamedQuantifier("k!12".to_string()), "Show instantiations of quantifier \"k!12\""),
        (Filter::SelectNthMatchingLoop(0), "Showing  longest matching loop"),
        (Filter::SelectNthMatchingLoop(1), "Showing 2nd longest matching loop"),
        (Filter::SelectNthMatchingLoop(2), "Showing 3rd longest matching loop"),
        (Filter::SelectNthMatchingLoop(3), "Showing 4th longest matching loop"),
        (Filter::SelectNthMatchingLoop(20), "Showing 21th longest matching loop"),
        (Filter::ShowMatchingLoopSubgraph, "Showing all potential matching loops"),
    ];
    for (filter, text) in cases {
        assert_eq!(filter.description(), text);
    }
    let big = Filter::MaxNodeIdx(usize::MAX).description();
    assert_eq!(big, format!("Only show nodes up to index {}", usize::MAX));
    let last = Filter::SelectNthMatchingLoop(usize::MAX).description();
    assert_eq!(last, format!("Showing {}th longest matching loop", usize::MAX as u128 + 1));
}

#[test]
fn equal_filters_have_the_same_hash() {
    let a = Filter::ShowNamedQuantifier("name".to_string());
    let b = Filter::ShowNamedQuantifier("name".to_string());
    assert_eq!(a.get_hash(), b.get_hash());
    assert_eq!(Filter::MaxInsts(3).get_hash(), Filter::MaxInsts(3).get_hash());
    assert_ne!(Filter::MaxInsts(3).get_hash(), Filter::MaxInsts(4).get_hash());
    assert_ne!(Filter::MaxInsts(3).get_hash(), Filter::MaxBranching(3).get_hash());
}

#[test]
fn a_filter_is_spelled_in_bytes_and_hashed() {
    assert_eq!(Filter::MaxInsts(3).to_bytes(), vec![4, 3, 0, 0, 0, 0, 0, 0, 0]);
    assert_eq!(Filter::MaxNodeIdx(0x0102).to_bytes(), vec![0, 2, 1, 0, 0, 0, 0, 0, 0]);
    assert_eq!(Filter::IgnoreTheorySolving.to_bytes(), vec![1]);
    assert_eq!(Filter::IgnoreQuantifier(None).to_bytes(), vec![2, 0]);
    assert_eq!(
        Filter::IgnoreAllButQuantifier(Some(QuantIdx(7))).to_bytes(),
        vec![3, 1, 7, 0, 0, 0, 0, 0, 0, 0]
    );
    assert_eq!(
        Filter::ShowNeighbours(InstIdx(1), Direction::Incoming).to_bytes(),
        vec![6, 1, 0, 0, 0, 0, 0, 0, 0, 1]
    );
    assert_eq!(
        Filter::VisitSourceTree(InstIdx(1), false).to_bytes(),
        vec![7, 1, 0, 0, 0, 0, 0, 0, 0, 0]
    );
    assert_eq!(
        Filter::ShowNamedQuantifier("a\u{e9}".to_string()).to_bytes(),
        vec![11, 0x61, 0, 0, 0, 0xe9, 0, 0, 0]
    );
    assert_eq!(Filter::ShowMatchingLoopSubgraph.to_bytes(), vec![13]);
    let f = Filter::MaxDepth(5);
    let mut hasher = DefaultHasher::new();
    hasher.write(&f.to_bytes());
    assert_eq!(f.get_hash(), hasher.finish());
    assert_eq!(f.get_hash(), Filter::MaxDepth(5).get_hash());
    assert_ne!(f.get_hash(), Filter::MaxDepth(6).get_hash());
    assert_ne!(
        Filter::VisitSourceTree(InstIdx(1), false).get_hash(),
        Filter::VisitSubTreeWithRoot(InstIdx(1), false).get_hash()
    );
}
