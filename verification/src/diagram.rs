//! The layered state diagram, short of geometry: the start state, the
//! transitions grouped by pair of states, the rank of each state, and the
//! order of the states within each rank.

use vstd::prelude::*;
use crate::layout::{
    collect_edge_groups, edges_of, groups_edges, groups_view, is_level_width, key_of, labels_for,
    lemma_pair_irreflexive, levels_view, on_pair, pair_lt, pairs_view, preferred_level_width,
    rebalance_levels_for_vertical_bias, rebalanced, EdgeGroup, GroupView, Level, Triple,
};
use crate::maps::RankMap;
use crate::model::{start_of, MachineView, ParsedMachine};
use crate::graph::{is_topological, topo_order};
use crate::ranking::{assign_ranks_dfs, build_state_graph, lemma_node_map, node_map, ranked, state_graph_nodes, turned_graph};
use crate::sweep::{order_levels, ordered_levels};

verus! {

/// The (source, target) pair of each group.
pub open spec fn group_pairs(gs: Seq<GroupView>) -> Seq<(Seq<char>, Seq<char>)> {
    gs.map_values(|g: GroupView| key_of(g))
}

/// The (source, target) pair of each edge.
pub open spec fn triple_pairs(es: Seq<Triple>) -> Seq<(Seq<char>, Seq<char>)> {
    es.map_values(|t: Triple| (t.0, t.1))
}

/// There are no more groups than edges.
proof fn lemma_groups_count(es: Seq<Triple>, gs: Seq<GroupView>)
    requires
        groups_edges(es, gs),
    ensures
        gs.len() <= es.len(),
{
    broadcast use vstd::seq_lib::seq_to_set_is_finite;

    let gk = group_pairs(gs);
    let ek = triple_pairs(es);
    assert(gk.no_duplicates()) by {
        assert forall|i: int, j: int| 0 <= i < gk.len() && 0 <= j < gk.len() && i != j implies gk[i] != gk[j] by {
            if i < j {
                assert(pair_lt(key_of(gs[i]), key_of(gs[j])));
                if gk[i] == gk[j] {
                    lemma_pair_irreflexive(gk[i]);
                }
            } else {
                assert(pair_lt(key_of(gs[j]), key_of(gs[i])));
                if gk[i] == gk[j] {
                    lemma_pair_irreflexive(gk[i]);
                }
            }
        }
    }
    gk.unique_seq_to_set();
    ek.lemma_cardinality_of_set();
    assert(gk.to_set().subset_of(ek.to_set())) by {
        assert forall|p: (Seq<char>, Seq<char>)| gk.to_set().contains(p) implies ek.to_set().contains(p) by {
            let i = choose|i: int| 0 <= i < gk.len() && gk[i] == p;
            let g = gs[i];
            let f = es.filter(on_pair(key_of(g)));
            assert(g.labels == labels_for(es, key_of(g)));
            assert(f.len() > 0);
            assert(f.contains(f[0]));
            es.lemma_filter_contains_rev(on_pair(key_of(g)), f[0]);
            es.filter_lemma(on_pair(key_of(g)));
            let t = f[0];
            assert(on_pair(key_of(g))(t));
            let j = choose|j: int| 0 <= j < es.len() && es[j] == t;
            assert(ek[j] == p);
        }
    }
    vstd::set_lib::lemma_len_subset(gk.to_set(), ek.to_set());
}

/// A level width is the only one for its number of states.
proof fn lemma_width_unique(n: int, a: int, b: int)
    requires
        is_level_width(n, a),
        is_level_width(n, b),
    ensures
        a == b,
{
    if n > 1 && a != b {
        let (lo, hi) = if a < b { (a, b) } else { (b, a) };
        assert(100 * (hi - 1) * (hi - 1) >= 100 * lo * lo) by (nonlinear_arith)
            requires
                hi - 1 >= lo,
                lo >= 2;
    }
}

/// The level width for `n` states.
pub open spec fn level_width(n: int) -> int {
    choose|r: int| is_level_width(n, r)
}

/// The (source, target) pair of each group, in group order.
pub fn edge_pairs_of(groups: &Vec<EdgeGroup>) -> (r: Vec<(String, String)>)
    ensures
        pairs_view(r@) == group_pairs(groups_view(groups@)),
{
    let mut r: Vec<(String, String)> = Vec::new();
    let mut i: usize = 0;
    while i < groups.len()
        invariant
            i <= groups.len(),
            pairs_view(r@) =~= group_pairs(groups_view(groups@)).take(i as int),
        decreases groups.len() - i,
    {
        r.push((groups[i].from.clone(), groups[i].to.clone()));
        assert(group_pairs(groups_view(groups@)).take(i + 1) =~= group_pairs(groups_view(groups@)).take(i as int).push(
            (groups@[i as int].from@, groups@[i as int].to@),
        ));
        i += 1;
    }
    assert(group_pairs(groups_view(groups@)).take(i as int) =~= group_pairs(groups_view(groups@)));
    r
}

/// The layered diagram: the start state, the transitions grouped by pair of
/// states, the rank of each state, and the levels in their final order.
pub struct LayeredDiagram {
    pub start: String,
    pub edge_groups: Vec<EdgeGroup>,
    pub depths: RankMap,
    pub levels: Vec<Level>,
}

/// The ranks of the diagram's states: ranked over the state graph, the
/// levels ordered, then spilled down past levels wider than the width for
/// the machine's number of states.
pub open spec fn diagram_depths(m: MachineView, gs: Seq<GroupView>) -> Map<Seq<char>, int> {
    let pairs = group_pairs(gs);
    let base = ranked(state_graph_nodes(m.states, pairs), node_map(m.states), start_of(m));
    rebalanced(ordered_levels(m.states, pairs, base), pairs, level_width(m.states.len() as int))
}

/// Lays out the machine's states in ranks: ranks by longest path from the
/// start with cycles broken, the levels ordered to keep neighbours close,
/// states spilled down from levels wider than the preferred width, and the
/// levels ordered once more at their final ranks. Breaking the cycles always
/// leaves a graph with a topological order, so the ranks are always the
/// longest-path ones.
pub fn layered_diagram(parsed: &ParsedMachine) -> (r: LayeredDiagram)
    requires
        parsed.states.len() < 0x7fff_ffff,
        edges_of(parsed@.actions).len() < u32::MAX,
    ensures
        r.start@ == start_of(parsed@),
        groups_edges(edges_of(parsed@.actions), groups_view(r.edge_groups@)),
        r.depths@ == diagram_depths(parsed@, groups_view(r.edge_groups@)),
        topo_order(
            turned_graph(
                state_graph_nodes(parsed@.states, group_pairs(groups_view(r.edge_groups@))),
                node_map(parsed@.states),
                start_of(parsed@),
            ),
        ) is Some,
        is_topological(
            turned_graph(
                state_graph_nodes(parsed@.states, group_pairs(groups_view(r.edge_groups@))),
                node_map(parsed@.states),
                start_of(parsed@),
            ),
            topo_order(
                turned_graph(
                    state_graph_nodes(parsed@.states, group_pairs(groups_view(r.edge_groups@))),
                    node_map(parsed@.states),
                    start_of(parsed@),
                ),
            )->0,
        ),
        r.depths@.dom() =~= parsed@.states.to_set(),
        levels_view(r.levels@) == ordered_levels(
            parsed@.states,
            group_pairs(groups_view(r.edge_groups@)),
            r.depths@,
        ),
{
    let start = parsed.start_state();
    let edge_groups = collect_edge_groups(parsed);
    let edge_pairs = edge_pairs_of(&edge_groups);
    proof {
        lemma_groups_count(edges_of(parsed@.actions), groups_view(edge_groups@));
        assert(edge_pairs@.len() == pairs_view(edge_pairs@).len());
        assert(groups_view(edge_groups@).len() == edge_groups@.len());
    }
    let (graph, state_to_node) = build_state_graph(&parsed.states, &edge_pairs);
    let base_depths = assign_ranks_dfs(&graph, &state_to_node, &start);
    let ordered_base_levels = order_levels(&parsed.states, &edge_pairs, &base_depths);
    let width = preferred_level_width(parsed.states.len());
    proof {
        let n = parsed.states.len() as int;
        lemma_width_unique(n, width as int, level_width(n));
        crate::layout_laws::lemma_ordered_shape(parsed@.states, pairs_view(edge_pairs@), base_depths@, n);
        let lv = levels_view(ordered_base_levels@);
        assert forall|i: int| 0 <= i < ordered_base_levels@.len() implies (#[trigger] ordered_base_levels@[i]).rank
            + crate::layout::flat(lv).len() < usize::MAX by {
            assert(lv[i].0 == ordered_base_levels@[i].rank);
        }
    }
    let depths = rebalance_levels_for_vertical_bias(&ordered_base_levels, &edge_pairs, width);
    let levels = order_levels(&parsed.states, &edge_pairs, &depths);
    proof {
        let sv = parsed@.states;
        let pv = pairs_view(edge_pairs@);
        let lv = levels_view(ordered_base_levels@);
        lemma_node_map(sv);
        assert(base_depths@.dom() =~= node_map(sv).dom());
        crate::layout_laws::law_spilling_only_moves_down(lv, pv, width as int);
        assert forall|k: Seq<char>| depths@.dom().contains(k) <==> sv.to_set().contains(k) by {
            crate::layout_laws::law_levels_rank_states_with_depth(sv, pv, base_depths@, k);
            if sv.contains(k) {
                let i = choose|i: int| 0 <= i < sv.len() && sv[i] == k;
                assert(node_map(sv).dom().contains(sv[i]));
            }
            if node_map(sv).dom().contains(k) {
                assert(sv[node_map(sv)[k]] == k);
            }
        }
    }
    LayeredDiagram { start, edge_groups, depths, levels }
}

/// Some width fits every number of states.
proof fn lemma_width_exists(n: int)
    ensures
        is_level_width(n, level_width(n)),
        level_width(n) >= 1,
{
    let r: int = if n <= 1 { 1 } else if n <= 4 { 2 } else if n <= 11 { 3 } else { 4 };
    if n > 1 {
        if n <= 4 {
            assert(r == 2 && 100 * 2 * 2 >= 81 * n);
        } else if n <= 11 {
            assert(r == 3 && 100 * 3 * 3 >= 81 * n && 100 * 2 * 2 < 81 * n);
        } else {
            assert(r == 4 && 100 * 3 * 3 < 81 * n);
        }
    }
    assert(is_level_width(n, r));
    lemma_width_unique(n, r, level_width(n));
}

/// No rank of the diagram holds more states than the preferred width for the
/// machine's number of states.
pub proof fn law_diagram_ranks_within_width(m: MachineView, gs: Seq<GroupView>, t: int)
    ensures
        crate::layout_laws::at_rank(diagram_depths(m, gs), t).len() <= level_width(m.states.len() as int),
{
    let n = m.states.len() as int;
    lemma_width_exists(n);
    let pairs = group_pairs(gs);
    let base = ranked(state_graph_nodes(m.states, pairs), node_map(m.states), start_of(m));
    crate::layout_laws::law_ranks_hold_at_most_width(ordered_levels(m.states, pairs, base), pairs, level_width(n));
}

} // verus!
