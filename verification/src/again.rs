//! Searching a graph for matching loops a second time finds what the first
//! search found.

use vstd::prelude::*;
use crate::idx::{InstIdx, QuantIdx};
use crate::inst_graph::{
    folded_between, is_loop_graph_within, is_quant_view, on_loop_for, on_loop_of, searched,
    InstGraph,
};
use crate::matching_loop::lemma_fold_again;
use crate::model::Z3Parser;
use crate::raw::RawGraph;
use crate::terms::extends;
use crate::visible::{same_view, VisibleGraph};

verus! {

impl VisibleGraph {
    /// Two lists of the same nodes, both in the order of the ranks, are the
    /// same list.
    pub proof fn lemma_ranked_unique(&self, one: Seq<usize>, other: Seq<usize>)
        requires
            forall|i: int, j: int|
                0 <= i < j < one.len() ==> self.ranks_before(
                    #[trigger] one[i] as int,
                    #[trigger] one[j] as int,
                ),
            forall|i: int, j: int|
                0 <= i < j < other.len() ==> self.ranks_before(
                    #[trigger] other[i] as int,
                    #[trigger] other[j] as int,
                ),
            forall|x: usize| one.contains(x) == other.contains(x),
        ensures
            one == other,
        decreases one.len(),
    {
        if one.len() == 0 {
            if other.len() > 0 {
                assert(other.contains(other[0]));
                assert(one.contains(other[0]));
            }
            assert(one =~= other);
        } else if other.len() == 0 {
            assert(one.contains(one[0]));
            assert(other.contains(one[0]));
        } else {
            let x = one[0];
            let y = other[0];
            assert(one.contains(x));
            assert(other.contains(y));
            assert(other.contains(x));
            assert(one.contains(y));
            let j = choose|j: int| 0 <= j < other.len() && other[j] == x;
            let i = choose|i: int| 0 <= i < one.len() && one[i] == y;
            if x != y {
                assert(self.ranks_before(other[0] as int, other[j] as int));
                assert(self.ranks_before(one[0] as int, one[i] as int));
            }
            let rest = one.drop_first();
            let others = other.drop_first();
            assert forall|a: int, b: int| 0 <= a < b < rest.len() implies self.ranks_before(
                #[trigger] rest[a] as int,
                #[trigger] rest[b] as int,
            ) by {
                assert(self.ranks_before(one[a + 1] as int, one[b + 1] as int));
            }
            assert forall|a: int, b: int| 0 <= a < b < others.len() implies self.ranks_before(
                #[trigger] others[a] as int,
                #[trigger] others[b] as int,
            ) by {
                assert(self.ranks_before(other[a + 1] as int, other[b + 1] as int));
            }
            assert forall|z: usize| rest.contains(z) == others.contains(z) by {
                if rest.contains(z) {
                    let k = choose|k: int| 0 <= k < rest.len() && rest[k] == z;
                    assert(self.ranks_before(one[0] as int, one[k + 1] as int));
                    assert(one.contains(one[k + 1]));
                    assert(other.contains(z));
                    let m = choose|m: int| 0 <= m < other.len() && other[m] == z;
                    assert(others[m - 1] == z);
                }
                if others.contains(z) {
                    let k = choose|k: int| 0 <= k < others.len() && others[k] == z;
                    assert(self.ranks_before(other[0] as int, other[k + 1] as int));
                    assert(other.contains(other[k + 1]));
                    assert(one.contains(z));
                    let m = choose|m: int| 0 <= m < one.len() && one[m] == z;
                    assert(rest[m - 1] == z);
                }
            }
            self.lemma_ranked_unique(rest, others);
            assert(one =~= seq![x] + rest);
            assert(other =~= seq![y] + others);
        }
    }
}

/// Which nodes lie on a loop of a quantifier depends on the nodes and edges
/// of the graph and on the records of the model only.
pub proof fn lemma_on_loop_of_alike(a: &RawGraph, b: &RawGraph, pa: &Z3Parser, pb: &Z3Parser, v: int)
    requires
        a.same_but_loops(b),
        pa.same_records(pb),
    ensures
        on_loop_of(a, pa, v) == on_loop_of(b, pb, v),
{
    assert forall|i: int| 0 <= i < a.nodes().len() implies a.inst_at(i) == b.inst_at(i) by {
        assert(a.nodes()[i].same_but_loops(&b.nodes()[i]));
    }
    assert forall|i: InstIdx| pa.spec_quant_of(i) == pb.spec_quant_of(i) by {
        assert(pa.spec_match_idx(i) == pb.spec_match_idx(i));
    }
    assert forall|q: QuantIdx, view: RawGraph|
        is_quant_view(a, pa, q, &view) == is_quant_view(b, pb, q, &view) by {
    }
    assert forall|q: QuantIdx| on_loop_for(a, pa, q, v) == on_loop_for(b, pb, q, v) by {
        if on_loop_for(a, pa, q, v) {
            let (view, vg, x) = choose|view: RawGraph, vg: VisibleGraph, x: int|
                #![auto]
                is_quant_view(a, pa, q, &view) && vg.is_visible_graph_of(&view) && 0 <= x
                    < vg.nodes().len() && vg.raw_of(x) == v && vg.on_loop(x);
            assert(is_quant_view(b, pb, q, &view));
        }
        if on_loop_for(b, pb, q, v) {
            let (view, vg, x) = choose|view: RawGraph, vg: VisibleGraph, x: int|
                #![auto]
                is_quant_view(b, pb, q, &view) && vg.is_visible_graph_of(&view) && 0 <= x
                    < vg.nodes().len() && vg.raw_of(x) == v && vg.on_loop(x);
            assert(is_quant_view(a, pa, q, &view));
        }
    }
    if on_loop_of(a, pa, v) {
        let q = choose|q: QuantIdx| #[trigger] on_loop_for(a, pa, q, v);
        assert(on_loop_for(b, pb, q, v));
    }
    if on_loop_of(b, pb, v) {
        let q = choose|q: QuantIdx| #[trigger] on_loop_for(b, pb, q, v);
        assert(on_loop_for(a, pa, q, v));
    }
}

impl RawGraph {
    /// The instantiations of a matching loop depend on the kinds of the
    /// nodes and on which nodes are part of the loop only.
    pub proof fn lemma_loop_insts_alike(&self, other: &RawGraph, n: usize, upto: int)
        requires
            self.nodes().len() == other.nodes().len(),
            forall|v: int|
                0 <= v < self.nodes().len() ==> #[trigger] self.inst_at(v) == other.inst_at(v)
                    && self.in_loop(v, n) == other.in_loop(v, n),
        ensures
            self.loop_insts_upto(n, upto) == other.loop_insts_upto(n, upto),
        decreases upto,
    {
        if 0 < upto <= self.nodes().len() {
            self.lemma_loop_insts_alike(other, n, upto - 1);
            assert(self.inst_at(upto - 1) == other.inst_at(upto - 1));
        }
    }
}

impl Z3Parser {
    /// Records that name rows of the term table only do so whatever rows
    /// are appended to the table.
    pub proof fn lemma_names_rows_grows(&self, later: &Z3Parser)
        requires
            self.names_rows_only(),
            later.same_records(self),
            extends(self.terms.rows(), later.terms.rows()),
        ensures
            later.names_rows_only(),
    {
        assert forall|i: InstIdx| (#[trigger] later.spec_quant_pattern(i)) matches Some(key)
            ==> key.1.0 < later.terms.rows().len() by {
            assert(later.spec_quant_pattern(i) == self.spec_quant_pattern(i));
        }
    }
}

/// Searching again finds the same loops: as many, through the same nodes,
/// folded into the same graphs, and it shows and disables the same nodes.
/// The term table shares the rows of the generalisations, so the second
/// search finds every row that the first one made. This holds of a model
/// whose records name rows of the term table only.
pub proof fn lemma_search_again(
    start: &InstGraph,
    once: &InstGraph,
    twice: &InstGraph,
    p0: &Z3Parser,
    p1: &Z3Parser,
    p2: &Z3Parser,
    k: usize,
    again: usize,
)
    requires
        searched(start, once, p0, p1, k),
        searched(once, twice, p1, p2, again),
        p0.names_rows_only(),
    ensures
        again == k,
        forall|v: int|
            0 <= v < once.raw.nodes().len() ==> #[trigger] twice.raw.visible_at(v)
                == once.raw.visible_at(v) && twice.raw.disabled_at(v) == once.raw.disabled_at(v),
        forall|v: int, r: usize|
            0 <= v < once.raw.nodes().len() ==> #[trigger] twice.raw.in_loop(v, r)
                == once.raw.in_loop(v, r),
        forall|r: int|
            0 <= r < k ==> (#[trigger] twice.analysis.matching_loop_graphs@[r]).labels()
                == once.analysis.matching_loop_graphs@[r].labels()
                && twice.analysis.matching_loop_graphs@[r].edges()
                == once.analysis.matching_loop_graphs@[r].edges(),
{
    let n = once.raw.nodes().len() as int;
    assert forall|v: int| 0 <= v < n implies #[trigger] twice.raw.visible_at(v)
        == once.raw.visible_at(v) && twice.raw.disabled_at(v) == once.raw.disabled_at(v) by {
        lemma_on_loop_of_alike(&once.raw, &start.raw, p1, p0, v);
    }
    let (ml, during, ranked) = choose|ml: VisibleGraph, during: RawGraph, ranked: Seq<usize>|
        #![auto]
        once.loops_are(&ml, &during, ranked);
    let (ml2, during2, ranked2) = choose|ml: VisibleGraph, during: RawGraph, ranked: Seq<usize>|
        #![auto]
        twice.loops_are(&ml, &during, ranked);
    assert forall|i: int| 0 <= i < n implies during.inst_at(i) == during2.inst_at(i)
        && once.raw.inst_at(i) == twice.raw.inst_at(i) by {
        assert(during.nodes()[i].same_but_loops(&once.raw.nodes()[i]));
        assert(during2.nodes()[i].same_but_loops(&twice.raw.nodes()[i]));
        assert(twice.raw.nodes()[i].same_but_loops(&once.raw.nodes()[i]));
    }
    assert(same_view(&during, &during2)) by {
        assert forall|i: int| 0 <= i < n implies (#[trigger] during.nodes()[i]).disabled
            == during2.nodes()[i].disabled && during.nodes()[i].visible
            == during2.nodes()[i].visible by {
            assert(during.visible_at(i) == once.raw.visible_at(i));
            assert(during2.visible_at(i) == twice.raw.visible_at(i));
            assert(twice.raw.visible_at(i) == once.raw.visible_at(i));
            assert(during.disabled_at(i) == (during.inst_at(i) is None));
            assert(during2.disabled_at(i) == (during2.inst_at(i) is None));
        }
    }
    assert(during.wf());
    assert(during2.wf());
    ml.lemma_shape_unique(&during, &ml2, &during2);
    let count = ml.nodes().len() as int;
    assert forall|b: int| 0 <= b < count implies ml.depth(b) == ml2.depth(b) by {
        ml.lemma_depth_unique(&ml2, b);
    }
    assert forall|e: int| ml.is_end(e) == ml2.is_end(e) by {
        if 0 <= e < count {
            assert forall|s: int| ml.has_edge(e, s) == ml2.has_edge(e, s) by {
            }
        }
    }
    assert forall|x: usize| ranked.contains(x) == ranked2.contains(x) by {
        if ranked.contains(x) {
            let j = choose|j: int| 0 <= j < ranked.len() && ranked[j] == x;
            assert(ml.is_end(ranked[j] as int));
            assert(ml2.is_end(x as int));
        }
        if ranked2.contains(x) {
            let j = choose|j: int| 0 <= j < ranked2.len() && ranked2[j] == x;
            assert(ml2.is_end(ranked2[j] as int));
            assert(ml.is_end(x as int));
        }
    }
    assert forall|i: int, j: int| 0 <= i < j < ranked2.len() implies ml.ranks_before(
        #[trigger] ranked2[i] as int,
        #[trigger] ranked2[j] as int,
    ) by {
        assert(ml2.ranks_before(ranked2[i] as int, ranked2[j] as int));
        assert(ml2.is_end(ranked2[i] as int));
        assert(ml2.is_end(ranked2[j] as int));
    }
    ml.lemma_ranked_unique(ranked, ranked2);
    assert(again == k);
    assert forall|v: int, r: usize| 0 <= v < n implies #[trigger] twice.raw.in_loop(v, r)
        == once.raw.in_loop(v, r) by {
        if once.raw.in_loop(v, r) {
            assert(ml.shows_raw_upto(crate::idx::RawNodeIndex(v as usize), count));
            let a = choose|a: int| 0 <= a < count && a < ml.nodes().len() && #[trigger] ml.raw_of(a) == v;
            assert(once.raw.in_loop(ml.raw_of(a), r));
            ml.lemma_reaches_alike(&ml2, a, ranked[r as int] as int);
            assert(twice.raw.in_loop(ml2.raw_of(a), r));
        }
        if twice.raw.in_loop(v, r) {
            assert(ml2.shows_raw_upto(crate::idx::RawNodeIndex(v as usize), count));
            let a = choose|a: int|
                0 <= a < count && a < ml2.nodes().len() && #[trigger] ml2.raw_of(a) == v;
            assert(twice.raw.in_loop(ml2.raw_of(a), r));
            ml2.lemma_reaches_alike(&ml, a, ranked[r as int] as int);
            assert(once.raw.in_loop(ml.raw_of(a), r));
        }
    }
    assert forall|r: int| 0 <= r < k implies (#[trigger] twice.analysis.matching_loop_graphs@[r]).labels()
        == once.analysis.matching_loop_graphs@[r].labels()
        && twice.analysis.matching_loop_graphs@[r].edges()
        == once.analysis.matching_loop_graphs@[r].edges() by {
        let g = &once.analysis.matching_loop_graphs@[r];
        let h = &twice.analysis.matching_loop_graphs@[r];
        once.raw.lemma_loop_insts_alike(&twice.raw, r as usize, n);
        let insts = once.raw.loop_insts(r as usize);
        assert(is_loop_graph_within(g, p0, p1, insts));
        assert(is_loop_graph_within(h, p1, p2, insts));
        let (b1, a1) = choose|before: Z3Parser, after: Z3Parser| #[trigger]
            folded_between(g, p0, p1, insts, before, after);
        let (b2, a2) = choose|before: Z3Parser, after: Z3Parser| #[trigger]
            folded_between(h, p1, p2, insts, before, after);
        p0.lemma_names_rows_grows(&b1);
        assert(extends(a1.terms.rows(), b2.terms.rows()));
        lemma_fold_again(g, h, &b1, &a1, &b2, &a2, insts);
    }
}

} // verus!
