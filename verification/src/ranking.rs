//! Ranking the states: the state graph, its edges split by a depth-first
//! walk into those that go forward and those that close a cycle, and the
//! longest-path rank of each state once the cycle-closing edges are turned
//! around; a breadth-first ranking when that fails.

use vstd::prelude::*;
use petgraph::stable_graph::StableGraph;
use petgraph::Directed;
use crate::graph::{all_present, graph_add_edge, graph_add_node, graph_edge_slots, graph_new, graph_node_count, graph_nodes, graph_out_neighbors, graph_toposort, graph_weight, is_topological, out_of, topo_order, weight_of};
use crate::dag_laws::{classified_arc, finish_order, fwd_path, lemma_walk_acyclic, lemma_walk_covers, no_self_loops};
use crate::layout::{pairs_view, ranks_of};
use crate::maps::{log_map, RankMap};
use crate::model::strings_view;
use crate::order::{chars_lt, lemma_lt_irreflexive, lemma_lt_total, lemma_lt_transitive, str_lt};
use crate::sweep::positions;
use crate::text::chars_of;

verus! {

/// Whether the texts strictly increase.
pub open spec fn strictly_sorted(s: Seq<Seq<char>>) -> bool {
    forall|i: int, j: int| 0 <= i < j < s.len() ==> str_lt(#[trigger] s[i], #[trigger] s[j])
}

/// A key is in a logged map exactly when some entry logs it.
proof fn lemma_log_map_dom(es: Seq<(String, usize)>, k: Seq<char>)
    ensures
        log_map(es).dom().contains(k) <==> exists|i: int| 0 <= i < es.len() && (#[trigger] es[i]).0@ == k,
    decreases es.len(),
{
    if es.len() > 0 {
        lemma_log_map_dom(es.drop_last(), k);
        if exists|i: int| 0 <= i < es.len() && (#[trigger] es[i]).0@ == k {
            let i = choose|i: int| 0 <= i < es.len() && (#[trigger] es[i]).0@ == k;
            if i < es.len() - 1 {
                assert(es.drop_last()[i] == es[i]);
            }
        }
        if exists|i: int| 0 <= i < es.drop_last().len() && (#[trigger] es.drop_last()[i]).0@ == k {
            let i = choose|i: int| 0 <= i < es.drop_last().len() && (#[trigger] es.drop_last()[i]).0@ == k;
            assert(es[i] == es.drop_last()[i]);
        }
    }
}

/// The names that the map holds, in increasing order.
pub fn sorted_keys(m: &RankMap) -> (r: Vec<String>)
    ensures
        strictly_sorted(strings_view(r@)),
        forall|k: Seq<char>| #[trigger] strings_view(r@).contains(k) <==> m@.dom().contains(k),
{
    let mut out: Vec<String> = Vec::new();
    let mut i: usize = 0;
    while i < m.entries.len()
        invariant
            i <= m.entries.len(),
            strictly_sorted(strings_view(out@)),
            forall|k: Seq<char>|
                #[trigger] strings_view(out@).contains(k) <==> exists|j: int| 0 <= j < i && (#[trigger] m.entries@[j]).0@ == k,
        decreases m.entries.len() - i,
    {
        let x = m.entries[i].0.clone();
        let xc = chars_of(x.as_str());
        let ghost before = strings_view(out@);
        let mut p: usize = 0;
        while p < out.len() && !chars_lt(&xc, &chars_of(out[p].as_str()))
            invariant
                p <= out.len(),
                xc@ == x@,
                before == strings_view(out@),
                forall|q: int| 0 <= q < p ==> !str_lt(x@, #[trigger] before[q]),
            decreases out.len() - p,
        {
            p += 1;
        }
        let present = p > 0 && out[p - 1] == x;
        if !present {
            assert forall|q: int| 0 <= q < p implies str_lt(#[trigger] before[q], x@) by {
                if before[q] == x@ {
                    if q < p - 1 {
                        assert(str_lt(before[q], before[p - 1]));
                        lemma_lt_total(before[p - 1], x@);
                        if str_lt(before[p - 1], x@) {
                            lemma_lt_transitive(x@, before[p - 1], x@);
                        }
                        lemma_lt_irreflexive(x@);
                    }
                } else {
                    lemma_lt_total(before[q], x@);
                }
            }
            out.insert(p, x);
            let ghost after = strings_view(out@);
            assert(after =~= before.insert(p as int, x@));
            assert forall|a: int, b: int| 0 <= a < b < after.len() implies str_lt(#[trigger] after[a], #[trigger] after[b]) by {
                if b < p {
                } else if a > p {
                    assert(after[a] == before[a - 1] && after[b] == before[b - 1]);
                } else if a == p {
                    assert(after[b] == before[b - 1]);
                    assert(str_lt(x@, before[p as int]));
                    if b - 1 > p {
                        lemma_lt_transitive(x@, before[p as int], before[b - 1]);
                    }
                } else if b == p {
                } else {
                    assert(after[b] == before[b - 1]);
                    assert(str_lt(before[a], x@));
                    assert(str_lt(x@, before[p as int]));
                    lemma_lt_transitive(before[a], x@, before[p as int]);
                    if b - 1 > p {
                        lemma_lt_transitive(before[a], before[p as int], before[b - 1]);
                    }
                }
            }
            assert forall|k: Seq<char>|
                #[trigger] after.contains(k) <==> exists|j: int| 0 <= j < i + 1 && (#[trigger] m.entries@[j]).0@ == k by {
                if after.contains(k) {
                    let q = choose|q: int| 0 <= q < after.len() && after[q] == k;
                    if q != p {
                        let qq = if q < p { q } else { q - 1 };
                        assert(before[qq] == k);
                        assert(before.contains(k));
                    }
                }
                if exists|j: int| 0 <= j < i + 1 && (#[trigger] m.entries@[j]).0@ == k {
                    let j = choose|j: int| 0 <= j < i + 1 && (#[trigger] m.entries@[j]).0@ == k;
                    if j < i {
                        assert(before.contains(k));
                        let q = choose|q: int| 0 <= q < before.len() && before[q] == k;
                        let qq = if q < p { q } else { q + 1 };
                        assert(after[qq] == k);
                    } else {
                        assert(after[p as int] == k);
                    }
                }
            }
        } else {
            assert(before[p - 1] == x@);
            assert forall|k: Seq<char>|
                #[trigger] before.contains(k) <==> exists|j: int| 0 <= j < i + 1 && (#[trigger] m.entries@[j]).0@ == k by {
                if exists|j: int| 0 <= j < i + 1 && (#[trigger] m.entries@[j]).0@ == k {
                    let j = choose|j: int| 0 <= j < i + 1 && (#[trigger] m.entries@[j]).0@ == k;
                    if j == i {
                        assert(before.contains(before[p - 1]));
                    }
                }
            }
        }
        i += 1;
    }
    proof {
        assert forall|k: Seq<char>| #[trigger] strings_view(out@).contains(k) <==> m@.dom().contains(k) by {
            lemma_log_map_dom(m.entries@, k);
        }
    }
    out
}

/// The pairs that become graph edges: each pair of two different states,
/// the first time it occurs.
pub open spec fn kept_pairs(es: Seq<(Seq<char>, Seq<char>)>) -> Seq<(Seq<char>, Seq<char>)>
    decreases es.len(),
{
    if es.len() == 0 {
        seq![]
    } else {
        let k = kept_pairs(es.drop_last());
        let e = es.last();
        if e.0 != e.1 && !k.contains(e) {
            k.push(e)
        } else {
            k
        }
    }
}

/// The outgoing lists after adding the edges of `es` in turn, each edge whose
/// two states have nodes becoming the first of its source's list.
pub open spec fn wire(outs: Seq<Seq<int>>, map: Map<Seq<char>, int>, es: Seq<(Seq<char>, Seq<char>)>) -> Seq<Seq<int>>
    decreases es.len(),
{
    if es.len() == 0 {
        outs
    } else {
        let o = wire(outs, map, es.drop_last());
        let e = es.last();
        if map.dom().contains(e.0) && map.dom().contains(e.1) {
            o.update(map[e.0], seq![map[e.1]] + o[map[e.0]])
        } else {
            o
        }
    }
}

/// The node of each state: the last index at which the list holds it.
pub open spec fn node_map(states: Seq<Seq<char>>) -> Map<Seq<char>, int> {
    ranks_of(positions(states))
}

/// Empty outgoing lists for `n` nodes.
pub open spec fn no_edges(n: nat) -> Seq<Seq<int>> {
    Seq::new(n, |i: int| Seq::<int>::empty())
}

/// The node slots of the state graph: one node per listed state, in list
/// order, with the edges of the kept pairs.
pub open spec fn state_graph_nodes(states: Seq<Seq<char>>, es: Seq<(Seq<char>, Seq<char>)>) -> Seq<Option<(Seq<char>, Seq<int>)>> {
    let outs = wire(no_edges(states.len()), node_map(states), kept_pairs(es));
    Seq::new(states.len(), |i: int| Some((states[i], outs[i])))
}

/// Each state's node is an index of the list that holds that state.
pub proof fn lemma_node_map(states: Seq<Seq<char>>)
    ensures
        forall|k: Seq<char>| #[trigger] node_map(states).dom().contains(k) ==> 0 <= node_map(states)[k] < states.len()
            && states[node_map(states)[k]] == k,
        forall|i: int| 0 <= i < states.len() ==> node_map(states).dom().contains(#[trigger] states[i]),
    decreases states.len(),
{
    let p = positions(states);
    if states.len() > 0 {
        let pre = states.drop_last();
        lemma_node_map(pre);
        assert(positions(states).drop_last() =~= positions(pre));
        assert forall|k: Seq<char>| #[trigger] node_map(states).dom().contains(k) implies 0 <= node_map(states)[k]
            < states.len() && states[node_map(states)[k]] == k by {
            if k != states.last() {
                assert(node_map(pre).dom().contains(k));
            }
        }
        assert forall|i: int| 0 <= i < states.len() implies node_map(states).dom().contains(#[trigger] states[i]) by {
            if i < states.len() - 1 {
                assert(pre[i] == states[i]);
            }
        }
    }
}

/// Wiring keeps the number of lists, and every list holds node indices.
proof fn lemma_wire(outs: Seq<Seq<int>>, map: Map<Seq<char>, int>, es: Seq<(Seq<char>, Seq<char>)>)
    requires
        forall|k: Seq<char>| #[trigger] map.dom().contains(k) ==> 0 <= map[k] < outs.len(),
        forall|i: int, j: int| 0 <= i < outs.len() && 0 <= j < outs[i].len() ==> 0 <= #[trigger] outs[i][j] < outs.len(),
    ensures
        wire(outs, map, es).len() == outs.len(),
        forall|i: int, j: int|
            0 <= i < outs.len() && 0 <= j < wire(outs, map, es)[i].len() ==> 0 <= #[trigger] wire(outs, map, es)[i][j]
                < outs.len(),
    decreases es.len(),
{
    if es.len() > 0 {
        lemma_wire(outs, map, es.drop_last());
        let o = wire(outs, map, es.drop_last());
        let e = es.last();
        if map.dom().contains(e.0) && map.dom().contains(e.1) {
            let w = wire(outs, map, es);
            assert forall|i: int, j: int| 0 <= i < outs.len() && 0 <= j < w[i].len() implies 0 <= #[trigger] w[i][j]
                < outs.len() by {
                if i == map[e.0] {
                    if j > 0 {
                        assert(w[i][j] == o[i][j - 1]);
                    }
                }
            }
        }
    }
}

/// No kept pair joins a state to itself.
proof fn lemma_kept_apart(es: Seq<(Seq<char>, Seq<char>)>)
    ensures
        forall|i: int| 0 <= i < kept_pairs(es).len() ==> (#[trigger] kept_pairs(es)[i]).0 != kept_pairs(es)[i].1,
    decreases es.len(),
{
    if es.len() > 0 {
        lemma_kept_apart(es.drop_last());
        let k = kept_pairs(es.drop_last());
        let e = es.last();
        if e.0 != e.1 && !k.contains(e) {
            assert forall|i: int| 0 <= i < k.push(e).len() implies (#[trigger] k.push(e)[i]).0 != k.push(e)[i].1 by {
                if i < k.len() {
                    assert(k.push(e)[i] == k[i]);
                }
            }
        }
    }
}

/// Wiring pairs of states with different nodes adds no edge from a node to itself.
proof fn lemma_wire_no_loops(outs: Seq<Seq<int>>, map: Map<Seq<char>, int>, es: Seq<(Seq<char>, Seq<char>)>)
    requires
        no_self_loops(outs),
        forall|k: Seq<char>| #[trigger] map.dom().contains(k) ==> 0 <= map[k] < outs.len(),
        forall|a: Seq<char>, b: Seq<char>|
            #[trigger] map.dom().contains(a) && #[trigger] map.dom().contains(b) && a != b ==> map[a] != map[b],
        forall|i: int| 0 <= i < es.len() ==> (#[trigger] es[i]).0 != es[i].1,
    ensures
        wire(outs, map, es).len() == outs.len(),
        no_self_loops(wire(outs, map, es)),
    decreases es.len(),
{
    if es.len() > 0 {
        let pre = es.drop_last();
        assert forall|i: int| 0 <= i < pre.len() implies (#[trigger] pre[i]).0 != pre[i].1 by {
            assert(pre[i] == es[i]);
        }
        lemma_wire_no_loops(outs, map, pre);
        let o = wire(outs, map, pre);
        let e = es.last();
        assert(es[es.len() - 1] == e);
        if map.dom().contains(e.0) && map.dom().contains(e.1) {
            let a = map[e.0];
            let w = wire(outs, map, es);
            assert forall|u: int, k: int| 0 <= u < w.len() && 0 <= k < w[u].len() implies #[trigger] w[u][k] != u by {
                if u == a {
                    if k > 0 {
                        assert(w[u][k] == o[u][k - 1]);
                    }
                } else {
                    assert(w[u] == o[u]);
                }
            }
        }
    }
}

/// The state graph has no edge from a node to itself.
pub proof fn lemma_state_graph_no_loops(states: Seq<Seq<char>>, es: Seq<(Seq<char>, Seq<char>)>)
    ensures
        no_self_loops(outs_of(state_graph_nodes(states, es))),
{
    let map = node_map(states);
    let base = no_edges(states.len());
    lemma_node_map(states);
    lemma_kept_apart(es);
    assert forall|a: Seq<char>, b: Seq<char>|
        #[trigger] map.dom().contains(a) && #[trigger] map.dom().contains(b) && a != b implies map[a] != map[b] by {
        assert(states[map[a]] == a && states[map[b]] == b);
    }
    lemma_wire_no_loops(base, map, kept_pairs(es));
    let w = wire(base, map, kept_pairs(es));
    let outs = outs_of(state_graph_nodes(states, es));
    assert forall|u: int, k: int| 0 <= u < outs.len() && 0 <= k < outs[u].len() implies #[trigger] outs[u][k] != u by {
        assert(outs[u] == w[u]);
    }
}

/// The kept pairs are among the pairs.
proof fn lemma_kept_len(es: Seq<(Seq<char>, Seq<char>)>)
    ensures
        kept_pairs(es).len() <= es.len(),
    decreases es.len(),
{
    if es.len() > 0 {
        lemma_kept_len(es.drop_last());
    }
}

/// Whether `seen` holds the pair.
fn seen_has(seen: &Vec<(String, String)>, f: &String, t: &String) -> (r: bool)
    ensures
        r == pairs_view(seen@).contains((f@, t@)),
{
    let mut i: usize = 0;
    while i < seen.len()
        invariant
            i <= seen.len(),
            forall|j: int| 0 <= j < i ==> pairs_view(seen@)[j] != (f@, t@),
        decreases seen.len() - i,
    {
        if seen[i].0 == *f && seen[i].1 == *t {
            assert(pairs_view(seen@)[i as int] == (f@, t@));
            return true;
        }
        i += 1;
    }
    false
}

/// The state graph: a node for each listed state, in list order, and an
/// edge for each pair of two different states, once per pair; with the
/// node of each state.
pub fn build_state_graph(states: &Vec<String>, edge_pairs: &Vec<(String, String)>) -> (r: (
    StableGraph<String, (), Directed, u32>,
    RankMap,
))
    requires
        states.len() < u32::MAX,
        edge_pairs.len() < u32::MAX,
    ensures
        graph_nodes(r.0) == state_graph_nodes(strings_view(states@), pairs_view(edge_pairs@)),
        graph_edge_slots(r.0) <= edge_pairs.len(),
        r.1@ == node_map(strings_view(states@)),
        all_present(graph_nodes(r.0)),
        graph_nodes(r.0).len() == states.len(),
        edges_in(graph_nodes(r.0)),
        names_nodes(graph_nodes(r.0), r.1@),
        total_entries(outs_of(graph_nodes(r.0))) <= edge_pairs.len(),
        no_self_loops(outs_of(graph_nodes(r.0))),
{
    let ghost sv = strings_view(states@);
    let ghost ev = pairs_view(edge_pairs@);
    let mut graph = graph_new();
    let mut state_to_node = RankMap::new();
    let mut i: usize = 0;
    assert(positions(sv).take(0) =~= Seq::<(int, Seq<char>)>::empty());
    while i < states.len()
        invariant
            i <= states.len(),
            sv == strings_view(states@),
            states.len() < u32::MAX,
            graph_nodes(graph) =~= Seq::new(i as nat, |k: int| Some((sv[k], Seq::<int>::empty()))),
            graph_edge_slots(graph) == 0,
            state_to_node@ == ranks_of(positions(sv).take(i as int)),
        decreases states.len() - i,
    {
        let node = graph_add_node(&mut graph, states[i].clone());
        assert(positions(sv).take(i + 1).drop_last() =~= positions(sv).take(i as int));
        assert(positions(sv).take(i + 1).last() == (i as int, sv[i as int]));
        state_to_node.insert(states[i].clone(), node);
        i += 1;
    }
    assert(positions(sv).take(i as int) =~= positions(sv));
    let ghost map = node_map(sv);
    let ghost n = sv.len();
    proof {
        lemma_node_map(sv);
    }
    let mut seen: Vec<(String, String)> = Vec::new();
    let mut j: usize = 0;
    assert(ev.take(0) =~= Seq::<(Seq<char>, Seq<char>)>::empty());
    while j < edge_pairs.len()
        invariant
            j <= edge_pairs.len(),
            edge_pairs.len() < u32::MAX,
            sv == strings_view(states@),
            ev == pairs_view(edge_pairs@),
            n == sv.len(),
            n < u32::MAX,
            map == node_map(sv),
            state_to_node@ == map,
            forall|k: Seq<char>| #[trigger] map.dom().contains(k) ==> 0 <= map[k] < n && sv[map[k]] == k,
            pairs_view(seen@) == kept_pairs(ev.take(j as int)),
            graph_nodes(graph) =~= ({
                let outs = wire(no_edges(n), map, kept_pairs(ev.take(j as int)));
                Seq::new(n, |k: int| Some((sv[k], outs[k])))
            }),
            graph_edge_slots(graph) <= kept_pairs(ev.take(j as int)).len(),
        decreases edge_pairs.len() - j,
    {
        let ghost kp = kept_pairs(ev.take(j as int));
        assert(ev.take(j + 1).drop_last() =~= ev.take(j as int));
        assert(ev.take(j + 1).last() == (edge_pairs@[j as int].0@, edge_pairs@[j as int].1@));
        proof {
            lemma_kept_len(ev.take(j as int));
            lemma_wire(no_edges(n), map, kp);
        }
        let from = &edge_pairs[j].0;
        let to = &edge_pairs[j].1;
        if *from != *to && !seen_has(&seen, from, to) {
            let ghost old_seen = seen@;
            seen.push((from.clone(), to.clone()));
            assert(pairs_view(seen@) =~= pairs_view(old_seen).push((from@, to@)));
            let ghost o = wire(no_edges(n), map, kp);
            let ghost e = (from@, to@);
            assert(kept_pairs(ev.take(j + 1)) == kp.push(e));
            assert(kp.push(e).drop_last() =~= kp);
            assert(kp.push(e).last() == e);
            match (state_to_node.get(from), state_to_node.get(to)) {
                (Some(src), Some(dst)) => {
                    graph_add_edge(&mut graph, src, dst);
                    assert(wire(no_edges(n), map, kp.push(e)) == o.update(src as int, seq![dst as int] + o[src as int]));
                    assert(graph_nodes(graph) =~= ({
                        let outs = wire(no_edges(n), map, kp.push(e));
                        Seq::new(n, |k: int| Some((sv[k], outs[k])))
                    }));
                },
                _ => {
                    assert(wire(no_edges(n), map, kp.push(e)) == o);
                },
            }
        }
        j += 1;
    }
    assert(ev.take(j as int) =~= ev);
    proof {
        lemma_kept_len(ev);
        let kp = kept_pairs(ev);
        let outs = wire(no_edges(n), map, kp);
        let nodes = graph_nodes(graph);
        lemma_wire(no_edges(n), map, kp);
        lemma_wire_total(no_edges(n), map, kp);
        lemma_no_entries(n, n as int);
        assert(Seq::new(no_edges(n).len(), |i: int| 0int) =~= Seq::new(n, |i: int| 0int));
        assert(outs_of(nodes) =~= outs);
        assert forall|u: int, k: int| 0 <= u < nodes.len() && 0 <= k < out_of(nodes[u]).len() implies 0 <= #[trigger] out_of(
            nodes[u],
        )[k] < nodes.len() by {
            assert(out_of(nodes[u]) == outs[u]);
        }
        assert forall|i: int| 0 <= i < nodes.len() implies (#[trigger] nodes[i]) is Some by {
        }
        lemma_state_graph_no_loops(sv, ev);
    }
    (graph, state_to_node)
}

/// Two strictly sorted sequences that hold the same texts are equal.
pub proof fn lemma_sorted_unique(x: Seq<Seq<char>>, y: Seq<Seq<char>>)
    requires
        strictly_sorted(x),
        strictly_sorted(y),
        forall|k: Seq<char>| #[trigger] x.contains(k) <==> y.contains(k),
    ensures
        x == y,
    decreases x.len(),
{
    if x.len() == 0 {
        assert(y.len() == 0) by {
            if y.len() > 0 {
                assert(y.contains(y[0]));
                assert(x.contains(y[0]));
            }
        }
        assert(x =~= y);
    } else {
        assert(x.contains(x[0]));
        assert(y.contains(x[0]));
        assert(y.len() > 0);
        assert(y.contains(y[0]));
        assert(x.contains(y[0]));
        if x[0] != y[0] {
            let j = choose|j: int| 0 <= j < y.len() && y[j] == x[0];
            let i = choose|i: int| 0 <= i < x.len() && x[i] == y[0];
            assert(j > 0 && i > 0);
            assert(str_lt(y[0], y[j]));
            assert(str_lt(x[0], x[i]));
            lemma_lt_transitive(x[0], y[0], x[0]);
            lemma_lt_irreflexive(x[0]);
        }
        let xs = x.drop_first();
        let ys = y.drop_first();
        assert forall|a: int, b: int| 0 <= a < b < xs.len() implies str_lt(#[trigger] xs[a], #[trigger] xs[b]) by {
            assert(xs[a] == x[a + 1] && xs[b] == x[b + 1]);
        }
        assert forall|a: int, b: int| 0 <= a < b < ys.len() implies str_lt(#[trigger] ys[a], #[trigger] ys[b]) by {
            assert(ys[a] == y[a + 1] && ys[b] == y[b + 1]);
        }
        assert forall|k: Seq<char>| #[trigger] xs.contains(k) <==> ys.contains(k) by {
            if xs.contains(k) {
                let a = choose|a: int| 0 <= a < xs.len() && xs[a] == k;
                assert(x[a + 1] == k && x.contains(k));
                assert(str_lt(x[0], x[a + 1]));
                assert(y.contains(k));
                let b = choose|b: int| 0 <= b < y.len() && y[b] == k;
                if b == 0 {
                    lemma_lt_irreflexive(k);
                }
                assert(ys[b - 1] == k);
            }
            if ys.contains(k) {
                let b = choose|b: int| 0 <= b < ys.len() && ys[b] == k;
                assert(y[b + 1] == k && y.contains(k));
                assert(str_lt(y[0], y[b + 1]));
                assert(x.contains(k));
                let a = choose|a: int| 0 <= a < x.len() && x[a] == k;
                if a == 0 {
                    lemma_lt_irreflexive(k);
                }
                assert(xs[a - 1] == k);
            }
        }
        lemma_sorted_unique(xs, ys);
        assert(x =~= seq![x[0]] + xs);
        assert(y =~= seq![y[0]] + ys);
    }
}

/// The names that the map holds, in increasing order.
pub open spec fn keys_in_order(m: Map<Seq<char>, int>) -> Seq<Seq<char>> {
    choose|s: Seq<Seq<char>>| strictly_sorted(s) && forall|k: Seq<char>| #[trigger] s.contains(k) <==> m.dom().contains(k)
}

/// The outgoing lists of the node slots.
pub open spec fn outs_of(nodes: Seq<Option<(Seq<char>, Seq<int>)>>) -> Seq<Seq<int>> {
    nodes.map_values(|o: Option<(Seq<char>, Seq<int>)>| out_of(o))
}

/// A depth-first walk in progress: the colour of each node (0 not reached
/// yet, 1 on the current path, 2 finished), the path as frames (node, its
/// targets, how many of them were looked at), and the edges classified so
/// far as going forward and as going back to a node on the path; and the
/// nodes finished so far, in the order they were finished.
pub struct Walk {
    pub color: Seq<int>,
    pub stack: Seq<(int, Seq<int>, int)>,
    pub fwd: Seq<(int, int)>,
    pub back: Seq<(int, int)>,
    pub done: Seq<int>,
}

/// One step of the walk: the node on top of the path looks at its next
/// target, descending into it if it was not reached yet; with none left,
/// it is finished and leaves the path.
pub open spec fn walk_step(w: Walk, outs: Seq<Seq<int>>) -> Walk {
    let top = w.stack.last();
    let u = top.0;
    let nb = top.1;
    let i = top.2;
    if i < nb.len() {
        let v = nb[i];
        let st = w.stack.drop_last().push((u, nb, i + 1));
        if w.color[v] == 0 {
            Walk {
                color: w.color.update(v, 1),
                stack: st.push((v, outs[v], 0)),
                fwd: w.fwd.push((u, v)),
                back: w.back,
                done: w.done,
            }
        } else if w.color[v] == 1 {
            Walk { color: w.color, stack: st, fwd: w.fwd, back: w.back.push((u, v)), done: w.done }
        } else {
            Walk { color: w.color, stack: st, fwd: w.fwd.push((u, v)), back: w.back, done: w.done }
        }
    } else {
        Walk { color: w.color.update(u, 2), stack: w.stack.drop_last(), fwd: w.fwd, back: w.back, done: w.done.push(u) }
    }
}

/// Whether the walk fits the graph: a colour per node, targets that are
/// nodes, frames of nodes with their own targets.
pub open spec fn walk_wf(w: Walk, outs: Seq<Seq<int>>) -> bool {
    &&& w.color.len() == outs.len()
    &&& forall|u: int, k: int| 0 <= u < outs.len() && 0 <= k < outs[u].len() ==> 0 <= #[trigger] outs[u][k] < outs.len()
    &&& forall|f: int|
        0 <= f < w.stack.len() ==> 0 <= (#[trigger] w.stack[f]).0 < outs.len() && w.stack[f].1 == outs[w.stack[f].0]
            && 0 <= w.stack[f].2 <= w.stack[f].1.len()
    &&& arcs_in(w.fwd, outs.len() as int)
    &&& arcs_in(w.back, outs.len() as int)
}

/// Whether both ends of every arc are among the first `n` nodes.
pub open spec fn arcs_in(arcs: Seq<(int, int)>, n: int) -> bool {
    forall|i: int| 0 <= i < arcs.len() ==> 0 <= (#[trigger] arcs[i]).0 < n && 0 <= arcs[i].1 < n
}

/// Work left for the nodes not reached yet, among the first `k`.
pub open spec fn white_weight(color: Seq<int>, outs: Seq<Seq<int>>, k: int) -> nat
    decreases k,
{
    if k <= 0 {
        0
    } else {
        white_weight(color, outs, k - 1) + if color[k - 1] == 0 {
            (2 + outs[k - 1].len()) as nat
        } else {
            0nat
        }
    }
}

/// Work left for the frames of the path.
pub open spec fn pending(stack: Seq<(int, Seq<int>, int)>) -> int
    decreases stack.len(),
{
    if stack.len() == 0 {
        0
    } else {
        pending(stack.drop_last()) + (stack.last().1.len() - stack.last().2 + 1)
    }
}

/// All work left in the walk.
pub open spec fn walk_measure(w: Walk, outs: Seq<Seq<int>>) -> int {
    white_weight(w.color, outs, outs.len() as int) + pending(w.stack)
}

/// The targets of the nodes not reached yet, among the first `k`, counted.
pub open spec fn white_entries(color: Seq<int>, outs: Seq<Seq<int>>, k: int) -> int
    decreases k,
{
    if k <= 0 {
        0
    } else {
        white_entries(color, outs, k - 1) + if color[k - 1] == 0 {
            outs[k - 1].len() as int
        } else {
            0
        }
    }
}

/// The targets that the frames of the path have yet to look at, counted.
pub open spec fn pending_entries(stack: Seq<(int, Seq<int>, int)>) -> int
    decreases stack.len(),
{
    if stack.len() == 0 {
        0
    } else {
        pending_entries(stack.drop_last()) + (stack.last().1.len() - stack.last().2)
    }
}

/// Edges classified plus targets not looked at yet: a walk never adds to it.
pub open spec fn walk_count(w: Walk, outs: Seq<Seq<int>>) -> int {
    w.fwd.len() + w.back.len() + white_entries(w.color, outs, outs.len() as int) + pending_entries(w.stack)
}

/// Colouring a node reached removes its work, once.
proof fn lemma_white_update(color: Seq<int>, outs: Seq<Seq<int>>, k: int, v: int, c: int)
    requires
        c != 0,
        0 <= k <= color.len(),
        0 <= v < color.len(),
    ensures
        white_weight(color.update(v, c), outs, k) == white_weight(color, outs, k) - if v < k && color[v] == 0 {
            2 + outs[v].len()
        } else {
            0
        },
        white_entries(color.update(v, c), outs, k) == white_entries(color, outs, k) - if v < k && color[v] == 0 {
            outs[v].len() as int
        } else {
            0
        },
    decreases k,
{
    if k > 0 {
        lemma_white_update(color, outs, k - 1, v, c);
    }
}

/// Frames hold no negative work.
proof fn lemma_pending_nonneg(stack: Seq<(int, Seq<int>, int)>)
    requires
        forall|f: int| 0 <= f < stack.len() ==> (#[trigger] stack[f]).2 <= stack[f].1.len(),
    ensures
        pending(stack) >= 0,
    decreases stack.len(),
{
    if stack.len() > 0 {
        lemma_pending_nonneg(stack.drop_last());
    }
}

/// A step keeps the walk fitting the graph and leaves less work.
pub(crate) proof fn lemma_walk_step(w: Walk, outs: Seq<Seq<int>>)
    requires
        walk_wf(w, outs),
        w.stack.len() > 0,
    ensures
        walk_wf(walk_step(w, outs), outs),
        walk_measure(walk_step(w, outs), outs) < walk_measure(w, outs),
        walk_measure(walk_step(w, outs), outs) >= 0,
        walk_count(walk_step(w, outs), outs) <= walk_count(w, outs),
{
    let top = w.stack.last();
    let u = top.0;
    let nb = top.1;
    let i = top.2;
    let n = outs.len() as int;
    let w2 = walk_step(w, outs);
    let rest = w.stack.drop_last();
    assert(w.stack.len() - 1 < w.stack.len());
    assert(w.stack[w.stack.len() - 1] == top);
    assert(rest.push(top) =~= w.stack);
    assert(pending(w.stack) == pending(rest) + (nb.len() - i + 1));
    assert(pending_entries(w.stack) == pending_entries(rest) + (nb.len() - i));
    if i < nb.len() {
        let v = nb[i];
        let st = rest.push((u, nb, i + 1));
        assert(st.drop_last() =~= rest);
        assert(pending(st) == pending(rest) + (nb.len() - i));
        assert(pending_entries(st) == pending_entries(rest) + (nb.len() - i - 1));
        assert(0 <= v < n);
        if w.color[v] == 0 {
            lemma_white_update(w.color, outs, n, v, 1);
            assert(st.push((v, outs[v], 0)).drop_last() =~= st);
            assert(pending(st.push((v, outs[v], 0))) == pending(st) + outs[v].len() + 1);
            assert(pending_entries(st.push((v, outs[v], 0))) == pending_entries(st) + outs[v].len());
        }
        assert forall|f: int| 0 <= f < w2.stack.len() implies 0 <= (#[trigger] w2.stack[f]).0 < n && w2.stack[f].1
            == outs[w2.stack[f].0] && 0 <= w2.stack[f].2 <= w2.stack[f].1.len() by {
            if f < rest.len() {
                assert(w2.stack[f] == w.stack[f]);
            }
        }
    } else {
        lemma_white_update(w.color, outs, n, u, 2);
        assert forall|f: int| 0 <= f < w2.stack.len() implies 0 <= (#[trigger] w2.stack[f]).0 < n && w2.stack[f].1
            == outs[w2.stack[f].0] && 0 <= w2.stack[f].2 <= w2.stack[f].1.len() by {
            assert(w2.stack[f] == w.stack[f]);
        }
    }
    lemma_pending_nonneg(w2.stack);
}

/// The walk run until the path is empty.
pub open spec fn walk_run(w: Walk, outs: Seq<Seq<int>>) -> Walk
    decreases walk_measure(w, outs),
    when walk_wf(w, outs)
    via walk_run_decreases
{
    if w.stack.len() == 0 {
        w
    } else {
        walk_run(walk_step(w, outs), outs)
    }
}

#[via_fn]
proof fn walk_run_decreases(w: Walk, outs: Seq<Seq<int>>) {
    if w.stack.len() > 0 {
        lemma_walk_step(w, outs);
    }
}

/// A run ends with an empty path and a walk that still fits the graph.
pub(crate) proof fn lemma_walk_run(w: Walk, outs: Seq<Seq<int>>)
    requires
        walk_wf(w, outs),
    ensures
        walk_wf(walk_run(w, outs), outs),
        walk_run(w, outs).stack.len() == 0,
        walk_count(walk_run(w, outs), outs) <= walk_count(w, outs),
    decreases walk_measure(w, outs),
{
    if w.stack.len() > 0 {
        lemma_walk_step(w, outs);
        lemma_walk_run(walk_step(w, outs), outs);
    }
}

/// The walk after starting from `r`, unless `r` was reached already.
pub open spec fn walk_from(w: Walk, r: int, outs: Seq<Seq<int>>) -> Walk {
    if w.color[r] != 0 {
        w
    } else {
        walk_run(
            Walk { color: w.color.update(r, 1), stack: seq![(r, outs[r], 0)], fwd: w.fwd, back: w.back, done: w.done },
            outs,
        )
    }
}

/// The walk after starting from each root in turn.
pub open spec fn walk_roots(w: Walk, roots: Seq<int>, outs: Seq<Seq<int>>) -> Walk
    decreases roots.len(),
{
    if roots.len() == 0 {
        w
    } else {
        walk_from(walk_roots(w, roots.drop_last(), outs), roots.last(), outs)
    }
}

/// A walk that has reached no node.
pub open spec fn fresh_walk(n: nat) -> Walk {
    Walk { color: Seq::new(n, |i: int| 0int), stack: seq![], fwd: seq![], back: seq![], done: seq![] }
}

/// The states whose node is not `sn`.
pub open spec fn not_at(map: Map<Seq<char>, int>, sn: int) -> spec_fn(Seq<char>) -> bool {
    |k: Seq<char>| map[k] != sn
}

/// The node of a state.
pub open spec fn node_of(map: Map<Seq<char>, int>) -> spec_fn(Seq<char>) -> int {
    |k: Seq<char>| map[k]
}

/// The number of targets over all lists.
pub open spec fn total_entries(outs: Seq<Seq<int>>) -> int {
    white_entries(Seq::new(outs.len(), |i: int| 0int), outs, outs.len() as int)
}

/// Counts of targets are never negative.
proof fn lemma_white_entries_nonneg(color: Seq<int>, outs: Seq<Seq<int>>, k: int)
    ensures
        white_entries(color, outs, k) >= 0,
    decreases k,
{
    if k > 0 {
        lemma_white_entries_nonneg(color, outs, k - 1);
    }
}

/// The total count of targets is never negative.
proof fn lemma_total_nonneg(outs: Seq<Seq<int>>, k: int)
    ensures
        white_entries(Seq::new(outs.len(), |i: int| 0int), outs, k) >= 0,
{
    lemma_white_entries_nonneg(Seq::new(outs.len(), |i: int| 0int), outs, k);
}

/// Replacing one list changes the count by the difference in length.
proof fn lemma_entries_update(color: Seq<int>, outs: Seq<Seq<int>>, a: int, x: Seq<int>, k: int)
    requires
        0 <= a < outs.len(),
        0 <= k <= outs.len(),
    ensures
        white_entries(color, outs.update(a, x), k) == white_entries(color, outs, k) + if a < k && color[a] == 0 {
            x.len() - outs[a].len()
        } else {
            0
        },
    decreases k,
{
    if k > 0 {
        lemma_entries_update(color, outs, a, x, k - 1);
    }
}

/// Empty lists hold no target.
proof fn lemma_no_entries(n: nat, k: int)
    requires
        0 <= k <= n,
    ensures
        white_entries(Seq::new(n, |i: int| 0int), no_edges(n), k) == 0,
    decreases k,
{
    if k > 0 {
        lemma_no_entries(n, k - 1);
    }
}

/// Each wired edge adds at most one target.
proof fn lemma_wire_total(outs: Seq<Seq<int>>, map: Map<Seq<char>, int>, es: Seq<(Seq<char>, Seq<char>)>)
    requires
        forall|k: Seq<char>| #[trigger] map.dom().contains(k) ==> 0 <= map[k] < outs.len(),
    ensures
        wire(outs, map, es).len() == outs.len(),
        total_entries(wire(outs, map, es)) <= total_entries(outs) + es.len(),
    decreases es.len(),
{
    if es.len() > 0 {
        lemma_wire_total(outs, map, es.drop_last());
        let o = wire(outs, map, es.drop_last());
        let e = es.last();
        if map.dom().contains(e.0) && map.dom().contains(e.1) {
            let a = map[e.0];
            let zeros = Seq::new(outs.len(), |i: int| 0int);
            lemma_entries_update(zeros, o, a, seq![map[e.1]] + o[a], outs.len() as int);
            assert(Seq::new(o.update(a, seq![map[e.1]] + o[a]).len(), |i: int| 0int) =~= zeros);
            assert(Seq::new(o.len(), |i: int| 0int) =~= zeros);
        }
    }
}

/// Starting from each root keeps the walk fitting the graph, with an empty
/// path, and adds nothing to its count.
pub(crate) proof fn lemma_walk_roots(w: Walk, roots: Seq<int>, outs: Seq<Seq<int>>)
    requires
        walk_wf(w, outs),
        w.stack.len() == 0,
        forall|k: int| 0 <= k < roots.len() ==> 0 <= #[trigger] roots[k] < outs.len(),
    ensures
        walk_wf(walk_roots(w, roots, outs), outs),
        walk_roots(w, roots, outs).stack.len() == 0,
        walk_count(walk_roots(w, roots, outs), outs) <= walk_count(w, outs),
    decreases roots.len(),
{
    if roots.len() > 0 {
        lemma_walk_roots(w, roots.drop_last(), outs);
        let p = walk_roots(w, roots.drop_last(), outs);
        let r = roots.last();
        assert(roots[roots.len() - 1] == r);
        if p.color[r] == 0 {
            let init = Walk {
                color: p.color.update(r, 1),
                stack: seq![(r, outs[r], 0)],
                fwd: p.fwd,
                back: p.back,
                done: p.done,
            };
            lemma_white_update(p.color, outs, outs.len() as int, r, 1);
            assert(init.stack.drop_last() =~= Seq::<(int, Seq<int>, int)>::empty());
            assert(init.stack.last() == (r, outs[r], 0int));
            assert(pending_entries(init.stack.drop_last()) == 0);
            assert(pending_entries(init.stack) == outs[r].len());
            assert(walk_wf(init, outs));
            lemma_walk_run(init, outs);
        }
    }
}

/// The roots after the start: every other node of a state, in order of name.
pub open spec fn other_roots(map: Map<Seq<char>, int>, sn: int) -> Seq<int> {
    keys_in_order(map).filter(not_at(map, sn)).map_values(node_of(map))
}

/// The forward and the backward edges that the walk finds from the start
/// state's node, then from every other state's node in order of name; none
/// when the start state has no node.
pub open spec fn classified(
    nodes: Seq<Option<(Seq<char>, Seq<int>)>>,
    map: Map<Seq<char>, int>,
    start: Seq<char>,
) -> (Seq<(int, int)>, Seq<(int, int)>) {
    if !map.dom().contains(start) {
        (seq![], seq![])
    } else {
        let sn = map[start];
        let w = walk_roots(fresh_walk(nodes.len()), seq![sn] + other_roots(map, sn), outs_of(nodes));
        (w.fwd, w.back)
    }
}

/// The numbers, as integers.
pub open spec fn ints(v: Seq<usize>) -> Seq<int> {
    v.map_values(|x: usize| x as int)
}

/// The pairs of numbers, as pairs of integers.
pub open spec fn int_pairs(v: Seq<(usize, usize)>) -> Seq<(int, int)> {
    v.map_values(|p: (usize, usize)| (p.0 as int, p.1 as int))
}

/// The frames, as integers.
pub open spec fn frames_view(v: Seq<(usize, Vec<usize>, usize)>) -> Seq<(int, Seq<int>, int)> {
    v.map_values(|f: (usize, Vec<usize>, usize)| (f.0 as int, ints(f.1@), f.2 as int))
}

/// The colours, as integers.
pub open spec fn colors_view(v: Seq<u8>) -> Seq<int> {
    v.map_values(|c: u8| c as int)
}

/// Whether the map's nodes are nodes of the graph, each weighted by its name.
pub open spec fn names_nodes(nodes: Seq<Option<(Seq<char>, Seq<int>)>>, map: Map<Seq<char>, int>) -> bool {
    forall|k: Seq<char>| #[trigger] map.dom().contains(k) ==> 0 <= map[k] < nodes.len() && weight_of(nodes[map[k]]) == k
}

/// Whether every edge of the graph ends at a node of the graph.
pub open spec fn edges_in(nodes: Seq<Option<(Seq<char>, Seq<int>)>>) -> bool {
    forall|u: int, k: int| 0 <= u < nodes.len() && 0 <= k < out_of(nodes[u]).len() ==> 0 <= #[trigger] out_of(nodes[u])[k] < nodes.len()
}

/// The names that the map holds, in increasing order.
pub fn ordered_keys(m: &RankMap) -> (r: Vec<String>)
    ensures
        strings_view(r@) == keys_in_order(m@),
        strictly_sorted(strings_view(r@)),
        forall|k: Seq<char>| #[trigger] keys_in_order(m@).contains(k) <==> m@.dom().contains(k),
{
    let keys = sorted_keys(m);
    proof {
        let s = keys_in_order(m@);
        assert(strictly_sorted(strings_view(keys@)) && forall|k: Seq<char>|
            #[trigger] strings_view(keys@).contains(k) <==> m@.dom().contains(k));
        lemma_sorted_unique(s, strings_view(keys@));
    }
    keys
}

/// The roots of the walk: the start's node, then every other state's node in order of name.
fn walk_roots_of(state_to_node: &RankMap, sn: usize) -> (r: Vec<usize>)
    ensures
        ints(r@) == seq![sn as int] + other_roots(state_to_node@, sn as int),
        forall|k: Seq<char>| #[trigger] keys_in_order(state_to_node@).contains(k) <==> state_to_node@.dom().contains(k),
{
    let keys = ordered_keys(state_to_node);
    let ghost ks = strings_view(keys@);
    let ghost m = state_to_node@;
    let ghost pr = not_at(m, sn as int);
    let mut roots: Vec<usize> = Vec::new();
    roots.push(sn);
    let mut i: usize = 0;
    assert(ks.take(0).filter(pr) =~= Seq::<Seq<char>>::empty()) by {
        ks.take(0).lemma_filter_len(pr);
    }
    while i < keys.len()
        invariant
            i <= keys.len(),
            ks == strings_view(keys@),
            ks == keys_in_order(m),
            m == state_to_node@,
            pr == not_at(m, sn as int),
            forall|k: Seq<char>| #[trigger] ks.contains(k) <==> m.dom().contains(k),
            ints(roots@) =~= seq![sn as int] + ks.take(i as int).filter(pr).map_values(node_of(m)),
        decreases keys.len() - i,
    {
        assert(ks.take(i + 1) =~= ks.take(i as int).push(ks[i as int]));
        proof {
            ks.take(i as int).lemma_filter_push(ks[i as int], pr);
        }
        assert(ks.contains(ks[i as int]));
        assert(ks[i as int] == keys@[i as int]@);
        let ghost before = roots@;
        let ghost f0 = ks.take(i as int).filter(pr);
        match state_to_node.get(&keys[i]) {
            Some(node) => {
                if node != sn {
                    roots.push(node);
                    assert(ks.take(i + 1).filter(pr) == f0.push(ks[i as int]));
                    assert(f0.push(ks[i as int]).map_values(node_of(m)) =~= f0.map_values(node_of(m)).push(node as int));
                    assert(ints(roots@) =~= ints(before).push(node as int));
                } else {
                    assert(ks.take(i + 1).filter(pr) == f0);
                }
            },
            None => {},
        }
        i += 1;
    }
    assert(ks.take(i as int) =~= ks);
    roots
}

/// Splits the graph's edges by a depth-first walk from the start state's
/// node, then from every other state's node in order of name: an edge to a
/// node on the current path goes back (it closes a cycle); every other edge
/// looked at goes forward. Where no node has an edge to itself, every edge
/// out of a state's node is classified when the start has a node, and the
/// target of each backward edge reaches its source along forward edges.
fn classify_edges_dfs(
    graph: &StableGraph<String, (), Directed, u32>,
    state_to_node: &RankMap,
    start: &String,
) -> (r: (Vec<(usize, usize)>, Vec<(usize, usize)>))
    requires
        all_present(graph_nodes(*graph)),
        graph_nodes(*graph).len() < u32::MAX,
        edges_in(graph_nodes(*graph)),
        names_nodes(graph_nodes(*graph), state_to_node@),
    ensures
        (int_pairs(r.0@), int_pairs(r.1@)) == classified(graph_nodes(*graph), state_to_node@, start@),
        arcs_in(int_pairs(r.0@), graph_nodes(*graph).len() as int),
        arcs_in(int_pairs(r.1@), graph_nodes(*graph).len() as int),
        r.0@.len() + r.1@.len() <= total_entries(outs_of(graph_nodes(*graph))),
        no_self_loops(outs_of(graph_nodes(*graph))) ==> exists|o: Seq<int>|
            is_topological(dag_nodes(graph_nodes(*graph), int_pairs(r.0@), int_pairs(r.1@)), o),
        no_self_loops(outs_of(graph_nodes(*graph))) && state_to_node@.dom().contains(start@) ==> forall|k: Seq<char>, j: int|
            state_to_node@.dom().contains(k) && 0 <= j < out_of(graph_nodes(*graph)[state_to_node@[k]]).len() ==> ({
                let e = (state_to_node@[k], #[trigger] out_of(graph_nodes(*graph)[state_to_node@[k]])[j]);
                int_pairs(r.0@).contains(e) || int_pairs(r.1@).contains(e)
            }),
        no_self_loops(outs_of(graph_nodes(*graph))) ==> forall|q: int|
            0 <= q < r.1@.len() ==> fwd_path(int_pairs(r.0@), (#[trigger] int_pairs(r.1@)[q]).1, int_pairs(r.1@)[q].0),
{
    let ghost nodes = graph_nodes(*graph);
    let ghost outs = outs_of(nodes);
    let mut forward_edges: Vec<(usize, usize)> = Vec::new();
    let mut back_edges: Vec<(usize, usize)> = Vec::new();
    let start_node = match state_to_node.get(start) {
        Some(n) => n,
        None => {
            assert(int_pairs(forward_edges@) =~= Seq::<(int, int)>::empty());
            assert(int_pairs(back_edges@) =~= Seq::<(int, int)>::empty());
            proof {
                lemma_total_nonneg(outs, outs.len() as int);
                if no_self_loops(outs) {
                    lemma_walk_acyclic(nodes, seq![]);
                    let w = walk_roots(fresh_walk(nodes.len()), seq![], outs);
                    assert(w.fwd =~= int_pairs(forward_edges@) && w.back =~= int_pairs(back_edges@));
                    assert(is_topological(dag_nodes(nodes, int_pairs(forward_edges@), int_pairs(back_edges@)), finish_order(w.done, nodes.len() as int)));
                }
            }
            return (forward_edges, back_edges);
        },
    };
    let n = graph_node_count(graph);
    let mut color: Vec<u8> = Vec::new();
    while color.len() < n
        invariant
            color.len() <= n,
            forall|i: int| 0 <= i < color.len() ==> color@[i] == 0,
        decreases n - color.len(),
    {
        color.push(0);
    }
    let roots = walk_roots_of(state_to_node, start_node);
    let ghost rs = ints(roots@);
    let ghost mut done: Seq<int> = seq![];
    proof {
        let m = state_to_node@;
        let ks = keys_in_order(m);
        let f = ks.filter(not_at(m, start_node as int));
        ks.filter_lemma(not_at(m, start_node as int));
        assert forall|k: int| 0 <= k < rs.len() implies 0 <= #[trigger] rs[k] < n by {
            if k > 0 {
                assert(f.contains(f[k - 1]));
                ks.lemma_filter_contains_rev(not_at(m, start_node as int), f[k - 1]);
                assert(ks.contains(f[k - 1]));
                assert(m.dom().contains(f[k - 1]));
                assert(rs[k] == m[f[k - 1]]);
            }
        }
    }
    assert(int_pairs(forward_edges@) =~= Seq::<(int, int)>::empty());
    assert(int_pairs(back_edges@) =~= Seq::<(int, int)>::empty());
    assert(colors_view(color@) =~= fresh_walk(n as nat).color);
    assert(walk_wf(fresh_walk(n as nat), outs));
    let mut ri: usize = 0;
    assert(rs.take(0) =~= Seq::<int>::empty());
    while ri < roots.len()
        invariant
            ri <= roots.len(),
            nodes == graph_nodes(*graph),
            outs == outs_of(nodes),
            all_present(nodes),
            edges_in(nodes),
            nodes.len() == n,
            n < u32::MAX,
            names_nodes(nodes, state_to_node@),
            rs == ints(roots@),
            forall|k: int| 0 <= k < rs.len() ==> 0 <= #[trigger] rs[k] < n,
            color.len() == n,
            walk_wf(Walk { color: colors_view(color@), stack: seq![], fwd: int_pairs(forward_edges@), back: int_pairs(back_edges@), done }, outs),
            walk_roots(fresh_walk(n as nat), rs.take(ri as int), outs) == (Walk {
                color: colors_view(color@),
                stack: seq![],
                fwd: int_pairs(forward_edges@),
                back: int_pairs(back_edges@),
                done,
            }),
        decreases roots.len() - ri,
    {
        assert(rs.take(ri + 1).drop_last() =~= rs.take(ri as int));
        let root = roots[ri];
        assert(rs.take(ri + 1).last() == root as int);
        let ghost before = Walk { color: colors_view(color@), stack: seq![], fwd: int_pairs(forward_edges@), back: int_pairs(back_edges@), done };
        if color[root] == 0 {
            color.set(root, 1);
            let nbrs = graph_out_neighbors(graph, root);
            let mut stack: Vec<(usize, Vec<usize>, usize)> = Vec::new();
            stack.push((root, nbrs, 0));
            assert(ints(nbrs@) =~= outs[root as int]);
            let ghost init = Walk {
                color: before.color.update(root as int, 1),
                stack: seq![(root as int, outs[root as int], 0int)],
                fwd: before.fwd,
                back: before.back,
                done: before.done,
            };
            assert(colors_view(color@) =~= init.color);
            assert(frames_view(stack@) =~= init.stack);
            assert(walk_wf(init, outs));
            proof {
                lemma_walk_run(init, outs);
            }
            while stack.len() > 0
                invariant
                    nodes == graph_nodes(*graph),
                    outs == outs_of(nodes),
                    all_present(nodes),
                    edges_in(nodes),
                    nodes.len() == n,
                    n < u32::MAX,
                    color.len() == n,
                    walk_wf(Walk { color: colors_view(color@), stack: frames_view(stack@), fwd: int_pairs(forward_edges@), back: int_pairs(back_edges@), done }, outs),
                    walk_wf(init, outs),
                    walk_run(Walk { color: colors_view(color@), stack: frames_view(stack@), fwd: int_pairs(forward_edges@), back: int_pairs(back_edges@), done }, outs)
                        == walk_run(init, outs),
                decreases walk_measure(Walk { color: colors_view(color@), stack: frames_view(stack@), fwd: int_pairs(forward_edges@), back: int_pairs(back_edges@), done }, outs),
            {
                let ghost cur = Walk { color: colors_view(color@), stack: frames_view(stack@), fwd: int_pairs(forward_edges@), back: int_pairs(back_edges@), done };
                proof {
                    lemma_walk_step(cur, outs);
                }
                let ghost nxt = walk_step(cur, outs);
                let ghost old_stack = stack@;
                let frame = stack.pop().unwrap();
                let node = frame.0;
                let nbrs_list = frame.1;
                let idx = frame.2;
                assert(frames_view(old_stack).last() == (node as int, ints(nbrs_list@), idx as int));
                assert(frames_view(stack@) =~= frames_view(old_stack).drop_last());
                assert(ints(nbrs_list@) == outs[node as int]);
                if idx < nbrs_list.len() {
                    let neighbor = nbrs_list[idx];
                    assert(ints(nbrs_list@)[idx as int] == neighbor as int);
                    stack.push((node, nbrs_list, idx + 1));
                    assert(frames_view(stack@) =~= frames_view(old_stack).drop_last().push((node as int, outs[node as int], idx + 1)));
                    if color[neighbor] == 0 {
                        forward_edges.push((node, neighbor));
                        color.set(neighbor, 1);
                        let next_neighbors = graph_out_neighbors(graph, neighbor);
                        assert(ints(next_neighbors@) =~= outs[neighbor as int]);
                        stack.push((neighbor, next_neighbors, 0));
                    } else if color[neighbor] == 1 {
                        back_edges.push((node, neighbor));
                    } else {
                        forward_edges.push((node, neighbor));
                    }
                } else {
                    color.set(node, 2);
                    proof {
                        done = done.push(node as int);
                    }
                }
                assert(colors_view(color@) =~= nxt.color);
                assert(frames_view(stack@) =~= nxt.stack);
                assert(int_pairs(forward_edges@) =~= nxt.fwd);
                assert(int_pairs(back_edges@) =~= nxt.back);
            }
            assert(frames_view(stack@) =~= Seq::<(int, Seq<int>, int)>::empty());
        }
        ri += 1;
    }
    assert(rs.take(ri as int) =~= rs);
    proof {
        let fresh = fresh_walk(n as nat);
        assert(fresh.color =~= Seq::new(outs.len(), |i: int| 0int));
        lemma_walk_roots(fresh, rs, outs);
        assert(walk_count(fresh, outs) == total_entries(outs));
        let fin = walk_roots(fresh, rs, outs);
        lemma_white_entries_nonneg(fin.color, outs, outs.len() as int);
        assert(pending_entries(fin.stack) == 0);
        assert(int_pairs(forward_edges@).len() == forward_edges@.len());
        assert(int_pairs(back_edges@).len() == back_edges@.len());
        if no_self_loops(outs) {
            lemma_walk_covers(nodes, rs);
            let m = state_to_node@;
            let ks = keys_in_order(m);
            let pr = not_at(m, start_node as int);
            let f = ks.filter(pr);
            assert forall|k: Seq<char>, j: int|
                m.dom().contains(k) && 0 <= j < out_of(nodes[m[k]]).len() implies ({
                    let e = (m[k], #[trigger] out_of(nodes[m[k]])[j]);
                    int_pairs(forward_edges@).contains(e) || int_pairs(back_edges@).contains(e)
                }) by {
                let x: int = if m[k] == start_node as int {
                    0
                } else {
                    assert(ks.contains(k));
                    let i = choose|i: int| 0 <= i < ks.len() && ks[i] == k;
                    ks.lemma_filter_contains(pr, i);
                    let q = choose|q: int| 0 <= q < f.len() && f[q] == k;
                    assert(rs[q + 1] == m[k]);
                    q + 1
                };
                assert(rs[x] == m[k]);
                assert(classified_arc(fin, (rs[x], out_of(nodes[rs[x]])[j])));
            }
            lemma_walk_acyclic(nodes, rs);
            assert(is_topological(dag_nodes(nodes, int_pairs(forward_edges@), int_pairs(back_edges@)), finish_order(fin.done, nodes.len() as int)));
        }
    }
    (forward_edges, back_edges)
}

/// The ranks after raising the targets of one node, in turn, to one more
/// than `cur`.
pub open spec fn relax(ranks: Seq<int>, nbrs: Seq<int>, cur: int) -> Seq<int>
    decreases nbrs.len(),
{
    if nbrs.len() == 0 {
        ranks
    } else {
        let r = relax(ranks, nbrs.drop_last(), cur);
        let v = nbrs.last();
        if cur + 1 > r[v] {
            r.update(v, cur + 1)
        } else {
            r
        }
    }
}

/// Longest-path ranks: the nodes taken in `order`, each raising the targets
/// of its edges to one more than its own rank.
pub open spec fn longest(ranks: Seq<int>, order: Seq<int>, outs: Seq<Seq<int>>) -> Seq<int>
    decreases order.len(),
{
    if order.len() == 0 {
        ranks
    } else {
        let r = longest(ranks, order.drop_last(), outs);
        let u = order.last();
        relax(r, outs[u], r[u])
    }
}

/// The least of the numbers, zero for none.
pub open spec fn min_of(s: Seq<int>) -> int
    decreases s.len(),
{
    if s.len() == 0 {
        0
    } else if s.len() == 1 {
        s[0]
    } else {
        let m = min_of(s.drop_last());
        if s.last() < m {
            s.last()
        } else {
            m
        }
    }
}

/// The greatest of the numbers, zero for none.
pub open spec fn max_of(s: Seq<int>) -> int
    decreases s.len(),
{
    if s.len() == 0 {
        0
    } else if s.len() == 1 {
        s[0]
    } else {
        let m = max_of(s.drop_last());
        if s.last() > m {
            s.last()
        } else {
            m
        }
    }
}

/// `a - b`, or zero where that would be negative.
pub open spec fn sat(a: int, b: int) -> int {
    if a >= b {
        a - b
    } else {
        0
    }
}

/// The rank of each state's node.
pub open spec fn node_rank(ranks: Seq<int>, map: Map<Seq<char>, int>) -> spec_fn(Seq<char>) -> int {
    |k: Seq<char>| ranks[map[k]]
}

/// The ranks of the states, shifted so that the start state (when it has a
/// node) is at rank zero: first down by the lesser of the start's rank and
/// the least rank, then down by what the start's rank is then; a rank that
/// would go below zero stays at zero.
pub open spec fn normalized(ranks: Seq<int>, map: Map<Seq<char>, int>, start: Seq<char>) -> Map<Seq<char>, int> {
    let start_rank = if map.dom().contains(start) { ranks[map[start]] } else { 0 };
    let least = min_of(keys_in_order(map).map_values(node_rank(ranks, map)));
    let shift = if start_rank < least { start_rank } else { least };
    let start_r = if map.dom().contains(start) { sat(ranks[map[start]], shift) } else { 0 };
    Map::new(|k: Seq<char>| map.dom().contains(k), |k: Seq<char>| sat(sat(ranks[map[k]], shift), start_r))
}

/// No rank is above the number of nodes taken so far.
proof fn lemma_relax_bound(ranks: Seq<int>, nbrs: Seq<int>, cur: int, b: int)
    requires
        forall|x: int| 0 <= x < ranks.len() ==> 0 <= #[trigger] ranks[x] <= b,
        0 <= cur < b,
        forall|k: int| 0 <= k < nbrs.len() ==> 0 <= #[trigger] nbrs[k] < ranks.len(),
    ensures
        relax(ranks, nbrs, cur).len() == ranks.len(),
        forall|x: int| 0 <= x < ranks.len() ==> 0 <= #[trigger] relax(ranks, nbrs, cur)[x] <= b,
    decreases nbrs.len(),
{
    if nbrs.len() > 0 {
        lemma_relax_bound(ranks, nbrs.drop_last(), cur, b);
    }
}

/// Longest-path ranks of a node order, with the ranks shifted so the start is at zero.
pub fn ranks_from_order(
    dag: &StableGraph<String, (), Directed, u32>,
    topo: &Vec<usize>,
    state_to_node: &RankMap,
    start: &String,
) -> (r: RankMap)
    requires
        all_present(graph_nodes(*dag)),
        graph_nodes(*dag).len() < u32::MAX,
        edges_in(graph_nodes(*dag)),
        forall|i: int| 0 <= i < topo@.len() ==> #[trigger] topo@[i] < graph_nodes(*dag).len(),
        topo@.len() < usize::MAX,
        forall|k: Seq<char>| #[trigger] state_to_node@.dom().contains(k) ==> 0 <= state_to_node@[k] < graph_nodes(*dag).len(),
    ensures
        r@ == normalized(
            longest(Seq::new(graph_nodes(*dag).len(), |i: int| 0int), ints(topo@), outs_of(graph_nodes(*dag))),
            state_to_node@,
            start@,
        ),
        forall|k: Seq<char>| #[trigger] r@.dom().contains(k) ==> 0 <= r@[k] <= topo@.len(),
{
    let ghost nodes = graph_nodes(*dag);
    let ghost outs = outs_of(nodes);
    let ghost order = ints(topo@);
    let n = graph_node_count(dag);
    let mut rank: Vec<usize> = Vec::new();
    while rank.len() < n
        invariant
            rank.len() <= n,
            forall|i: int| 0 <= i < rank.len() ==> rank@[i] == 0,
        decreases n - rank.len(),
    {
        rank.push(0);
    }
    assert(ints(rank@) =~= Seq::new(n as nat, |i: int| 0int));
    let mut i: usize = 0;
    assert(order.take(0) =~= Seq::<int>::empty());
    while i < topo.len()
        invariant
            i <= topo.len(),
            topo@.len() < usize::MAX,
            nodes == graph_nodes(*dag),
            outs == outs_of(nodes),
            order == ints(topo@),
            all_present(nodes),
            edges_in(nodes),
            n == nodes.len(),
            n < u32::MAX,
            rank.len() == n,
            forall|k: int| 0 <= k < topo@.len() ==> #[trigger] topo@[k] < n,
            ints(rank@) == longest(Seq::new(n as nat, |i: int| 0int), order.take(i as int), outs),
            forall|x: int| 0 <= x < rank.len() ==> #[trigger] rank@[x] <= i,
        decreases topo.len() - i,
    {
        let u = topo[i];
        let cur = rank[u];
        assert(order.take(i + 1).drop_last() =~= order.take(i as int));
        assert(order.take(i + 1).last() == u as int);
        let nbrs = graph_out_neighbors(dag, u);
        let ghost nb = ints(nbrs@);
        assert(nb =~= outs[u as int]);
        let ghost base = ints(rank@);
        assert(base[u as int] == cur as int);
        let mut k: usize = 0;
        assert(nb.take(0) =~= Seq::<int>::empty());
        while k < nbrs.len()
            invariant
                k <= nbrs.len(),
                nb == ints(nbrs@),
                rank.len() == n,
                cur <= i,
                i < topo@.len(),
                topo@.len() < usize::MAX,
                forall|m: int| 0 <= m < nbrs@.len() ==> #[trigger] nbrs@[m] < n,
                ints(rank@) == relax(base, nb.take(k as int), cur as int),
                forall|x: int| 0 <= x < rank.len() ==> #[trigger] rank@[x] <= i + 1,
            decreases nbrs.len() - k,
        {
            let v = nbrs[k];
            assert(nb.take(k + 1).drop_last() =~= nb.take(k as int));
            assert(nb.take(k + 1).last() == v as int);
            if cur + 1 > rank[v] {
                rank.set(v, cur + 1);
                assert(ints(rank@) =~= relax(base, nb.take(k as int), cur as int).update(v as int, cur + 1));
            }
            k += 1;
        }
        assert(nb.take(k as int) =~= nb);
        proof {
            assert forall|m: int| 0 <= m < nbrs@.len() implies #[trigger] nbrs@[m] < n by {
                assert(nb[m] == outs[u as int][m]);
                assert(out_of(nodes[u as int]) == outs[u as int]);
            }
        }
        i += 1;
    }
    assert(order.take(i as int) =~= order);
    let ghost ranks = ints(rank@);
    let ghost map = state_to_node@;
    let keys = ordered_keys(state_to_node);
    let ghost ks = strings_view(keys@);
    let start_rank: usize = match state_to_node.get(start) {
        Some(sn) => rank[sn],
        None => 0,
    };
    let ghost vals = ks.map_values(node_rank(ranks, map));
    let mut least: usize = 0;
    let mut j: usize = 0;
    while j < keys.len()
        invariant
            j <= keys.len(),
            ks == strings_view(keys@),
            ks == keys_in_order(map),
            map == state_to_node@,
            forall|k: Seq<char>| #[trigger] keys_in_order(map).contains(k) <==> map.dom().contains(k),
            forall|k: Seq<char>| #[trigger] map.dom().contains(k) ==> 0 <= map[k] < n,
            rank.len() == n,
            ranks == ints(rank@),
            vals == ks.map_values(node_rank(ranks, map)),
            least as int == min_of(vals.take(j as int)),
            forall|x: int| 0 <= x < rank.len() ==> #[trigger] rank@[x] <= topo@.len(),
        decreases keys.len() - j,
    {
        assert(ks.contains(ks[j as int]));
        assert(ks[j as int] == keys@[j as int]@);
        let node = match state_to_node.get(&keys[j]) {
            Some(x) => x,
            None => 0,
        };
        let v = rank[node];
        assert(vals[j as int] == v as int);
        assert(vals.take(j + 1).drop_last() =~= vals.take(j as int));
        if j == 0 || v < least {
            least = v;
        }
        j += 1;
    }
    assert(vals.take(j as int) =~= vals);
    let shift = if start_rank < least { start_rank } else { least };
    let start_r: usize = match state_to_node.get(start) {
        Some(sn) => if rank[sn] >= shift { rank[sn] - shift } else { 0 },
        None => 0,
    };
    let mut result = RankMap::new();
    let mut m: usize = 0;
    let ghost f = |k: Seq<char>| sat(sat(ranks[map[k]], shift as int), start_r as int);
    while m < keys.len()
        invariant
            m <= keys.len(),
            ks == strings_view(keys@),
            ks == keys_in_order(map),
            map == state_to_node@,
            forall|k: Seq<char>| #[trigger] keys_in_order(map).contains(k) <==> map.dom().contains(k),
            forall|k: Seq<char>| #[trigger] map.dom().contains(k) ==> 0 <= map[k] < n,
            rank.len() == n,
            ranks == ints(rank@),
            f == (|k: Seq<char>| sat(sat(ranks[map[k]], shift as int), start_r as int)),
            result@ =~= Map::new(|k: Seq<char>| ks.take(m as int).contains(k), f),
            forall|x: int| 0 <= x < rank.len() ==> #[trigger] rank@[x] <= topo@.len(),
            forall|k: Seq<char>| #[trigger] result@.dom().contains(k) ==> 0 <= result@[k] <= topo@.len(),
        decreases keys.len() - m,
    {
        assert(ks.contains(ks[m as int]));
        assert(ks[m as int] == keys@[m as int]@);
        let node = match state_to_node.get(&keys[m]) {
            Some(x) => x,
            None => 0,
        };
        let v = rank[node];
        let v1 = if v >= shift { v - shift } else { 0 };
        let v2 = if v1 >= start_r { v1 - start_r } else { 0 };
        assert(node as int == map[ks[m as int]]);
        assert(v2 as int == f(ks[m as int]));
        let ghost before = result@;
        result.insert(keys[m].clone(), v2);
        assert(ks.take(m + 1) =~= ks.take(m as int).push(ks[m as int]));
        assert forall|k: Seq<char>| ks.take(m + 1).contains(k) <==> (ks.take(m as int).contains(k) || k == ks[m as int]) by {
            if ks.take(m + 1).contains(k) {
                let q = choose|q: int| 0 <= q < m + 1 && #[trigger] ks.take(m + 1)[q] == k;
                if q < m {
                    assert(ks.take(m as int)[q] == k);
                }
            }
            if ks.take(m as int).contains(k) {
                let q = choose|q: int| 0 <= q < m && #[trigger] ks.take(m as int)[q] == k;
                assert(ks.take(m + 1)[q] == k);
            }
            if k == ks[m as int] {
                assert(ks.take(m + 1)[m as int] == k);
            }
        }
        let ghost target = Map::new(|k: Seq<char>| ks.take(m + 1).contains(k), f);
        assert forall|k: Seq<char>| #[trigger] result@.dom().contains(k) <==> target.dom().contains(k) by {
            assert(before.dom().contains(k) <==> ks.take(m as int).contains(k));
        }
        assert forall|k: Seq<char>| #[trigger] result@.dom().contains(k) implies result@[k] == target[k] by {
            if k != ks[m as int] {
                assert(before.dom().contains(k));
                assert(before[k] == f(k));
            }
        }
        assert(result@ =~= target);
        m += 1;
    }
    assert(ks.take(m as int) =~= ks);
    result
}

/// A breadth-first walk in progress: which nodes were reached, the nodes
/// waiting with their distance, and the rank found for each node's name.
pub struct Bfs {
    pub seen: Seq<bool>,
    pub queue: Seq<(int, int)>,
    pub ranks: Map<Seq<char>, int>,
}

/// The targets not reached yet, each marked reached and queued at distance
/// `r + 1`, in turn.
pub open spec fn enqueue(seen: Seq<bool>, queue: Seq<(int, int)>, nbrs: Seq<int>, r: int) -> (Seq<bool>, Seq<(int, int)>)
    decreases nbrs.len(),
{
    if nbrs.len() == 0 {
        (seen, queue)
    } else {
        let p = enqueue(seen, queue, nbrs.drop_last(), r);
        let v = nbrs.last();
        if !p.0[v] {
            (p.0.update(v, true), p.1.push((v, r + 1)))
        } else {
            p
        }
    }
}

/// One step: the first waiting node takes its distance as the rank of its
/// name, and queues its targets not reached yet.
pub open spec fn bfs_step(b: Bfs, nodes: Seq<Option<(Seq<char>, Seq<int>)>>) -> Bfs {
    let u = b.queue[0].0;
    let r = b.queue[0].1;
    let p = enqueue(b.seen, b.queue.drop_first(), out_of(nodes[u]), r);
    Bfs { seen: p.0, queue: p.1, ranks: b.ranks.insert(weight_of(nodes[u]), r) }
}

/// How many of the first `k` nodes were not reached yet.
pub open spec fn unseen(seen: Seq<bool>, k: int) -> int
    decreases k,
{
    if k <= 0 {
        0
    } else {
        unseen(seen, k - 1) + if !seen[k - 1] {
            1int
        } else {
            0
        }
    }
}

/// Whether the walk fits the graph: a mark per node, waiting nodes that are
/// nodes, each at a distance below the number of nodes reached.
pub open spec fn bfs_wf(b: Bfs, nodes: Seq<Option<(Seq<char>, Seq<int>)>>) -> bool {
    &&& b.seen.len() == nodes.len()
    &&& edges_in(nodes)
    &&& forall|i: int|
        0 <= i < b.queue.len() ==> 0 <= (#[trigger] b.queue[i]).0 < nodes.len() && 0 <= b.queue[i].1 < nodes.len()
            - unseen(b.seen, nodes.len() as int)
}

/// Work left in the walk.
pub open spec fn bfs_measure(b: Bfs, nodes: Seq<Option<(Seq<char>, Seq<int>)>>) -> int {
    2 * unseen(b.seen, nodes.len() as int) + b.queue.len()
}

/// Marking one node reached, once.
proof fn lemma_unseen_update(seen: Seq<bool>, k: int, v: int)
    requires
        0 <= k <= seen.len(),
        0 <= v < seen.len(),
    ensures
        unseen(seen.update(v, true), k) == unseen(seen, k) - if v < k && !seen[v] { 1int } else { 0 },
        0 <= unseen(seen, k) <= k,
    decreases k,
{
    if k > 0 {
        lemma_unseen_update(seen, k - 1, v);
    }
}

/// Queueing the targets not reached yet keeps every waiting node fitting,
/// and marks as many nodes as it queues.
proof fn lemma_enqueue(seen: Seq<bool>, queue: Seq<(int, int)>, nbrs: Seq<int>, r: int, n: int)
    requires
        seen.len() == n,
        forall|k: int| 0 <= k < nbrs.len() ==> 0 <= #[trigger] nbrs[k] < n,
        forall|i: int| 0 <= i < queue.len() ==> 0 <= (#[trigger] queue[i]).0 < n && 0 <= queue[i].1 < n - unseen(seen, n),
        0 <= r < n - unseen(seen, n),
    ensures
        enqueue(seen, queue, nbrs, r).0.len() == n,
        enqueue(seen, queue, nbrs, r).1.len() >= queue.len(),
        enqueue(seen, queue, nbrs, r).1.len() - queue.len() == unseen(seen, n) - unseen(
            enqueue(seen, queue, nbrs, r).0,
            n,
        ),
        forall|i: int|
            0 <= i < enqueue(seen, queue, nbrs, r).1.len() ==> 0 <= (#[trigger] enqueue(seen, queue, nbrs, r).1[i]).0 < n
                && 0 <= enqueue(seen, queue, nbrs, r).1[i].1 < n - unseen(enqueue(seen, queue, nbrs, r).0, n),
    decreases nbrs.len(),
{
    lemma_unseen_update(seen, n, 0);
    if nbrs.len() > 0 {
        lemma_enqueue(seen, queue, nbrs.drop_last(), r, n);
        let p = enqueue(seen, queue, nbrs.drop_last(), r);
        let v = nbrs.last();
        assert(nbrs[nbrs.len() - 1] == v);
        lemma_unseen_update(p.0, n, v);
        if !p.0[v] {
            let q2 = p.1.push((v, r + 1));
            assert forall|i: int| 0 <= i < q2.len() implies 0 <= (#[trigger] q2[i]).0 < n && 0 <= q2[i].1 < n - unseen(
                p.0.update(v, true),
                n,
            ) by {
                if i < p.1.len() {
                    assert(q2[i] == p.1[i]);
                }
            }
        }
    }
}

/// A step keeps the walk fitting the graph and leaves less work.
proof fn lemma_bfs_step(b: Bfs, nodes: Seq<Option<(Seq<char>, Seq<int>)>>)
    requires
        bfs_wf(b, nodes),
        b.queue.len() > 0,
    ensures
        bfs_wf(bfs_step(b, nodes), nodes),
        0 <= bfs_measure(bfs_step(b, nodes), nodes) < bfs_measure(b, nodes),
{
    let n = nodes.len() as int;
    let u = b.queue[0].0;
    let r = b.queue[0].1;
    let rest = b.queue.drop_first();
    assert forall|i: int| 0 <= i < rest.len() implies 0 <= (#[trigger] rest[i]).0 < n && 0 <= rest[i].1 < n - unseen(b.seen, n) by {
        assert(rest[i] == b.queue[i + 1]);
    }
    assert forall|k: int| 0 <= k < out_of(nodes[u]).len() implies 0 <= #[trigger] out_of(nodes[u])[k] < n by {
    }
    lemma_enqueue(b.seen, rest, out_of(nodes[u]), r, n);
    let p = enqueue(b.seen, rest, out_of(nodes[u]), r);
    lemma_unseen_update(p.0, n, 0);
    lemma_unseen_update(b.seen, n, 0);
}

/// The breadth-first walk run until no node waits.
pub open spec fn bfs_run(b: Bfs, nodes: Seq<Option<(Seq<char>, Seq<int>)>>) -> Bfs
    decreases bfs_measure(b, nodes),
    when bfs_wf(b, nodes)
    via bfs_run_decreases
{
    if b.queue.len() == 0 {
        b
    } else {
        bfs_run(bfs_step(b, nodes), nodes)
    }
}

#[via_fn]
proof fn bfs_run_decreases(b: Bfs, nodes: Seq<Option<(Seq<char>, Seq<int>)>>) {
    if b.queue.len() > 0 {
        lemma_bfs_step(b, nodes);
    }
}

/// The ranks by distance from the start state's node; every state that the
/// walk does not reach goes one rank below the deepest one reached. None
/// when the start state has no node.
pub open spec fn bfs_ranked(nodes: Seq<Option<(Seq<char>, Seq<int>)>>, map: Map<Seq<char>, int>, start: Seq<char>) -> Map<
    Seq<char>,
    int,
> {
    if !map.dom().contains(start) {
        Map::empty()
    } else {
        let sn = map[start];
        let b0 = Bfs { seen: Seq::new(nodes.len(), |i: int| i == sn), queue: seq![(sn, 0int)], ranks: Map::empty() };
        let fin = bfs_run(b0, nodes).ranks;
        let top = max_of(keys_in_order(fin).map_values(|k: Seq<char>| fin[k]));
        Map::new(
            |k: Seq<char>| fin.dom().contains(k) || map.dom().contains(k),
            |k: Seq<char>| if fin.dom().contains(k) { fin[k] } else { top + 1 },
        )
    }
}

/// Ranks by breadth-first distance from the start state's node, for when
/// the longest-path ranking cannot be had.
fn bfs_ranking(
    graph: &StableGraph<String, (), Directed, u32>,
    state_to_node: &RankMap,
    start: &String,
) -> (r: RankMap)
    requires
        all_present(graph_nodes(*graph)),
        graph_nodes(*graph).len() < u32::MAX,
        edges_in(graph_nodes(*graph)),
        names_nodes(graph_nodes(*graph), state_to_node@),
    ensures
        r@ == bfs_ranked(graph_nodes(*graph), state_to_node@, start@),
        forall|k: Seq<char>| #[trigger] r@.dom().contains(k) ==> 0 <= r@[k] <= graph_nodes(*graph).len(),
{
    let ghost nodes = graph_nodes(*graph);
    let mut ranks = RankMap::new();
    let start_node = match state_to_node.get(start) {
        Some(x) => x,
        None => {
            return ranks;
        },
    };
    let n = graph_node_count(graph);
    let mut visited: Vec<bool> = Vec::new();
    while visited.len() < n
        invariant
            visited.len() <= n,
            forall|i: int| 0 <= i < visited.len() ==> visited@[i] == (i == start_node),
        decreases n - visited.len(),
    {
        let here = visited.len() == start_node;
        visited.push(here);
    }
    let mut queue: Vec<(usize, usize)> = Vec::new();
    queue.push((start_node, 0));
    let mut head: usize = 0;
    let ghost b0 = Bfs {
        seen: Seq::new(nodes.len(), |i: int| i == start_node as int),
        queue: seq![(start_node as int, 0int)],
        ranks: Map::empty(),
    };
    assert(visited@ =~= b0.seen);
    proof {
        lemma_unseen_update(Seq::new(nodes.len(), |i: int| false), nodes.len() as int, start_node as int);
        assert(Seq::new(nodes.len(), |i: int| false).update(start_node as int, true) =~= b0.seen);
        lemma_all_unseen(nodes.len() as int);
    }
    assert(int_pairs(queue@.skip(0)) =~= b0.queue);
    assert(ranks@ =~= b0.ranks);
    assert(bfs_wf(b0, nodes));
    while head < queue.len()
        invariant
            nodes == graph_nodes(*graph),
            all_present(nodes),
            edges_in(nodes),
            nodes.len() == n,
            n < u32::MAX,
            head <= queue.len(),
            visited.len() == n,
            bfs_wf(b0, nodes),
            bfs_wf(Bfs { seen: visited@, queue: int_pairs(queue@.skip(head as int)), ranks: ranks@ }, nodes),
            bfs_run(Bfs { seen: visited@, queue: int_pairs(queue@.skip(head as int)), ranks: ranks@ }, nodes) == bfs_run(b0, nodes),
            forall|k: Seq<char>| #[trigger] ranks@.dom().contains(k) ==> 0 <= ranks@[k] < n,
        decreases bfs_measure(Bfs { seen: visited@, queue: int_pairs(queue@.skip(head as int)), ranks: ranks@ }, nodes),
    {
        let ghost cur = Bfs { seen: visited@, queue: int_pairs(queue@.skip(head as int)), ranks: ranks@ };
        proof {
            lemma_bfs_step(cur, nodes);
            lemma_unseen_update(visited@, n as int, 0);
        }
        let ghost nxt = bfs_step(cur, nodes);
        let (node, rank) = queue[head];
        assert(cur.queue[0] == (node as int, rank as int));
        head += 1;
        assert(int_pairs(queue@.skip(head as int)) =~= cur.queue.drop_first());
        let name = graph_weight(graph, node);
        ranks.insert(name, rank);
        let nbrs = graph_out_neighbors(graph, node);
        let ghost nb = ints(nbrs@);
        assert(nb =~= out_of(nodes[node as int]));
        let ghost q0 = int_pairs(queue@.skip(head as int));
        let ghost s0 = visited@;
        let mut k: usize = 0;
        assert(nb.take(0) =~= Seq::<int>::empty());
        proof {
            lemma_enqueue(s0, q0, nb.take(0), rank as int, n as int);
        }
        while k < nbrs.len()
            invariant
                k <= nbrs.len(),
                nb == ints(nbrs@),
                head <= queue.len(),
                visited.len() == n,
                n < u32::MAX,
                nb == out_of(nodes[node as int]),
                edges_in(nodes),
                nodes.len() == n,
                0 <= node < n,
                cur.queue.len() > 0,
                q0 == cur.queue.drop_first(),
                s0 == cur.seen,
                cur.seen.len() == n,
                bfs_wf(cur, nodes),
                cur.queue[0] == (node as int, rank as int),
                (visited@, int_pairs(queue@.skip(head as int))) == enqueue(s0, q0, nb.take(k as int), rank as int),
                forall|i: int|
                    0 <= i < int_pairs(queue@.skip(head as int)).len() ==> 0 <= (#[trigger] int_pairs(queue@.skip(head as int))[i]).0 < n
                        && 0 <= int_pairs(queue@.skip(head as int))[i].1 < n - unseen(visited@, n as int),
            decreases nbrs.len() - k,
        {
            let v = nbrs[k];
            assert(nb.take(k + 1).drop_last() =~= nb.take(k as int));
            assert(nb.take(k + 1).last() == v as int);
            assert(nb[k as int] == out_of(nodes[node as int])[k as int]);
            proof {
                assert forall|i: int| 0 <= i < q0.len() implies 0 <= (#[trigger] q0[i]).0 < n && 0 <= q0[i].1 < n - unseen(s0, n as int) by {
                    assert(q0[i] == cur.queue[i + 1]);
                }
                assert forall|m: int| 0 <= m < nb.take(k + 1).len() implies 0 <= #[trigger] nb.take(k + 1)[m] < n by {
                    assert(nb.take(k + 1)[m] == out_of(nodes[node as int])[m]);
                }
                lemma_enqueue(s0, q0, nb.take(k + 1), rank as int, n as int);
                lemma_unseen_update(visited@, n as int, v as int);
            }
            if !visited[v] {
                visited.set(v, true);
                let ghost before = queue@;
                queue.push((v, rank + 1));
                assert(queue@.skip(head as int) =~= before.skip(head as int).push((v, (rank + 1) as usize)));
                assert(int_pairs(queue@.skip(head as int)) =~= int_pairs(before.skip(head as int)).push((v as int, rank + 1)));
            }
            k += 1;
        }
        assert(nb.take(k as int) =~= nb);
        assert(visited@ == nxt.seen);
        assert(int_pairs(queue@.skip(head as int)) == nxt.queue);
        assert(ranks@ == nxt.ranks);
    }
    let fin = ranks;
    proof {
        lemma_bfs_run_queue(b0, nodes);
    }
    assert(int_pairs(queue@.skip(head as int)).len() == 0);
    let fin_keys = ordered_keys(&fin);
    let ghost fk = strings_view(fin_keys@);
    let ghost fvals = fk.map_values(|k: Seq<char>| fin@[k]);
    let mut top: usize = 0;
    let mut j: usize = 0;
    while j < fin_keys.len()
        invariant
            j <= fin_keys.len(),
            fk == strings_view(fin_keys@),
            fk == keys_in_order(fin@),
            forall|k: Seq<char>| #[trigger] keys_in_order(fin@).contains(k) <==> fin@.dom().contains(k),
            forall|k: Seq<char>| #[trigger] fin@.dom().contains(k) ==> 0 <= fin@[k] < n,
            fvals == fk.map_values(|k: Seq<char>| fin@[k]),
            top as int == max_of(fvals.take(j as int)),
            top < n,
            n < u32::MAX,
        decreases fin_keys.len() - j,
    {
        assert(fk.contains(fk[j as int]));
        assert(fk[j as int] == fin_keys@[j as int]@);
        let v = match fin.get(&fin_keys[j]) {
            Some(x) => x,
            None => 0,
        };
        assert(fvals[j as int] == v as int);
        assert(fvals.take(j + 1).drop_last() =~= fvals.take(j as int));
        if j == 0 || v > top {
            top = v;
        }
        j += 1;
    }
    assert(fvals.take(j as int) =~= fvals);
    let keys = ordered_keys(state_to_node);
    let ghost ks = strings_view(keys@);
    let ghost finv = fin@;
    let mut out = fin;
    assert(out@ =~= Map::new(|k: Seq<char>| finv.dom().contains(k) || ks.take(0).contains(k), |k: Seq<char>| if finv.dom().contains(k) { finv[k] } else { top + 1 }));
    let mut m: usize = 0;
    let ghost f = |k: Seq<char>| if finv.dom().contains(k) { finv[k] } else { top + 1 };
    while m < keys.len()
        invariant
            m <= keys.len(),
            ks == strings_view(keys@),
            ks == keys_in_order(state_to_node@),
            forall|k: Seq<char>| #[trigger] keys_in_order(state_to_node@).contains(k) <==> state_to_node@.dom().contains(k),
            f == (|k: Seq<char>| if finv.dom().contains(k) { finv[k] } else { top + 1 }),
            top < n,
            n < u32::MAX,
            out@ =~= Map::new(|k: Seq<char>| finv.dom().contains(k) || ks.take(m as int).contains(k), f),
            forall|k: Seq<char>| #[trigger] finv.dom().contains(k) ==> 0 <= finv[k] < n,
            forall|k: Seq<char>| #[trigger] out@.dom().contains(k) ==> 0 <= out@[k] <= n,
        decreases keys.len() - m,
    {
        assert(ks.contains(ks[m as int]));
        assert(ks[m as int] == keys@[m as int]@);
        let ghost before = out@;
        let ghost target = Map::new(|k: Seq<char>| finv.dom().contains(k) || ks.take(m + 1).contains(k), f);
        assert forall|k: Seq<char>| ks.take(m + 1).contains(k) <==> (ks.take(m as int).contains(k) || k == ks[m as int]) by {
            if ks.take(m + 1).contains(k) {
                let q = choose|q: int| 0 <= q < m + 1 && #[trigger] ks.take(m + 1)[q] == k;
                if q < m {
                    assert(ks.take(m as int)[q] == k);
                }
            }
            if ks.take(m as int).contains(k) {
                let q = choose|q: int| 0 <= q < m && #[trigger] ks.take(m as int)[q] == k;
                assert(ks.take(m + 1)[q] == k);
            }
            if k == ks[m as int] {
                assert(ks.take(m + 1)[m as int] == k);
            }
        }
        match out.get(&keys[m]) {
            Some(_) => {
                assert(before.dom().contains(ks[m as int]));
                assert forall|k: Seq<char>| #[trigger] before.dom().contains(k) <==> target.dom().contains(k) by {
                }
                assert(before =~= target);
            },
            None => {
                assert(!finv.dom().contains(ks[m as int]));
                out.insert(keys[m].clone(), top + 1);
                assert forall|k: Seq<char>| #[trigger] out@.dom().contains(k) <==> target.dom().contains(k) by {
                }
                assert forall|k: Seq<char>| #[trigger] out@.dom().contains(k) implies out@[k] == target[k] by {
                    if k != ks[m as int] {
                        assert(before.dom().contains(k));
                    }
                }
                assert(out@ =~= target);
            },
        }
        m += 1;
    }
    assert(ks.take(m as int) =~= ks);
    assert(out@ =~= bfs_ranked(nodes, state_to_node@, start@));
    out
}

/// With every node unreached, all of them count.
proof fn lemma_all_unseen(n: int)
    requires
        n >= 0,
    ensures
        unseen(Seq::new(n as nat, |i: int| false), n) == n,
{
    lemma_all_unseen_prefix(n, n);
}

proof fn lemma_all_unseen_prefix(n: int, k: int)
    requires
        0 <= k <= n,
    ensures
        unseen(Seq::new(n as nat, |i: int| false), k) == k,
    decreases k,
{
    if k > 0 {
        lemma_all_unseen_prefix(n, k - 1);
    }
}

/// A run ends with no node waiting.
proof fn lemma_bfs_run_queue(b: Bfs, nodes: Seq<Option<(Seq<char>, Seq<int>)>>)
    requires
        bfs_wf(b, nodes),
    ensures
        bfs_run(b, nodes).queue.len() == 0,
    decreases bfs_measure(b, nodes),
{
    if b.queue.len() > 0 {
        lemma_bfs_step(b, nodes);
        lemma_bfs_run_queue(bfs_step(b, nodes), nodes);
    }
}

/// The outgoing lists after adding the arcs in turn, each becoming the first
/// of its source's list.
pub open spec fn add_arcs(outs: Seq<Seq<int>>, arcs: Seq<(int, int)>) -> Seq<Seq<int>>
    decreases arcs.len(),
{
    if arcs.len() == 0 {
        outs
    } else {
        let o = add_arcs(outs, arcs.drop_last());
        let a = arcs.last();
        o.update(a.0, seq![a.1] + o[a.0])
    }
}

/// The arcs turned around.
pub open spec fn flipped(arcs: Seq<(int, int)>) -> Seq<(int, int)> {
    arcs.map_values(|a: (int, int)| (a.1, a.0))
}

/// The node slots of the acyclic graph: the nodes of the state graph, with
/// the forward arcs, then the backward arcs turned around.
pub open spec fn dag_nodes(
    nodes: Seq<Option<(Seq<char>, Seq<int>)>>,
    fwd: Seq<(int, int)>,
    back: Seq<(int, int)>,
) -> Seq<Option<(Seq<char>, Seq<int>)>> {
    let outs = add_arcs(add_arcs(no_edges(nodes.len()), fwd), flipped(back));
    Seq::new(nodes.len(), |i: int| Some((weight_of(nodes[i]), outs[i])))
}

/// The acyclic graph of the ranking: the state graph's nodes with the
/// forward edges of the walk and its backward edges turned around.
pub open spec fn turned_graph(
    nodes: Seq<Option<(Seq<char>, Seq<int>)>>,
    map: Map<Seq<char>, int>,
    start: Seq<char>,
) -> Seq<Option<(Seq<char>, Seq<int>)>> {
    let c = classified(nodes, map, start);
    dag_nodes(nodes, c.0, c.1)
}

/// The rank of each state: the longest-path ranks over the graph with the
/// backward edges turned around, taken in petgraph's topological order and
/// shifted to put the start at zero; the breadth-first ranks when that order
/// cannot be had for a graph with nodes.
pub open spec fn ranked(nodes: Seq<Option<(Seq<char>, Seq<int>)>>, map: Map<Seq<char>, int>, start: Seq<char>) -> Map<
    Seq<char>,
    int,
> {
    let dn = turned_graph(nodes, map, start);
    let topo = match topo_order(dn) {
        Some(o) => o,
        None => seq![],
    };
    if topo.len() > 0 || nodes.len() == 0 {
        normalized(longest(Seq::new(nodes.len(), |i: int| 0int), topo, outs_of(dn)), map, start)
    } else {
        bfs_ranked(nodes, map, start)
    }
}

/// Adding arcs keeps the number of lists and keeps every target a node.
proof fn lemma_add_arcs(outs: Seq<Seq<int>>, arcs: Seq<(int, int)>)
    requires
        arcs_in(arcs, outs.len() as int),
        forall|i: int, j: int| 0 <= i < outs.len() && 0 <= j < outs[i].len() ==> 0 <= #[trigger] outs[i][j] < outs.len(),
    ensures
        add_arcs(outs, arcs).len() == outs.len(),
        forall|i: int, j: int|
            0 <= i < outs.len() && 0 <= j < add_arcs(outs, arcs)[i].len() ==> 0 <= #[trigger] add_arcs(outs, arcs)[i][j]
                < outs.len(),
    decreases arcs.len(),
{
    if arcs.len() > 0 {
        assert(arcs_in(arcs.drop_last(), outs.len() as int)) by {
            assert forall|i: int| 0 <= i < arcs.drop_last().len() implies 0 <= (#[trigger] arcs.drop_last()[i]).0 < outs.len()
                && 0 <= arcs.drop_last()[i].1 < outs.len() by {
                assert(arcs.drop_last()[i] == arcs[i]);
            }
        }
        lemma_add_arcs(outs, arcs.drop_last());
        let o = add_arcs(outs, arcs.drop_last());
        let a = arcs.last();
        assert(arcs[arcs.len() - 1] == a);
        let w = add_arcs(outs, arcs);
        assert forall|i: int, j: int| 0 <= i < outs.len() && 0 <= j < w[i].len() implies 0 <= #[trigger] w[i][j] < outs.len() by {
            if i == a.0 && j > 0 {
                assert(w[i][j] == o[i][j - 1]);
            }
        }
    }
}

/// The ranks of the states: the graph's edges split by a depth-first walk
/// from the start state, the backward ones turned around to leave no cycle,
/// then longest-path ranks in topological order, shifted to put the start at
/// rank zero; breadth-first ranks from the start where no topological order
/// can be had. The acyclic graph keeps the node indices of the state graph.
/// Where no state has an edge to itself, the turned graph has no cycle, so
/// the topological order is always had and the breadth-first ranks are never used;
/// then every edge of the acyclic graph goes no higher, and, when the start
/// has a node, every edge out of a state's node is split into a forward or a
/// backward one, each backward one closing a cycle of forward ones.
pub fn assign_ranks_dfs(
    graph: &StableGraph<String, (), Directed, u32>,
    state_to_node: &RankMap,
    start: &String,
) -> (r: RankMap)
    requires
        all_present(graph_nodes(*graph)),
        graph_nodes(*graph).len() < u32::MAX,
        edges_in(graph_nodes(*graph)),
        names_nodes(graph_nodes(*graph), state_to_node@),
        total_entries(outs_of(graph_nodes(*graph))) < u32::MAX,
    ensures
        r@ == ranked(graph_nodes(*graph), state_to_node@, start@),
        forall|k: Seq<char>| #[trigger] r@.dom().contains(k) ==> 0 <= r@[k] <= graph_nodes(*graph).len(),
        no_self_loops(outs_of(graph_nodes(*graph))) ==> topo_order(
            turned_graph(graph_nodes(*graph), state_to_node@, start@),
        ) is Some && is_topological(
            turned_graph(graph_nodes(*graph), state_to_node@, start@),
            topo_order(turned_graph(graph_nodes(*graph), state_to_node@, start@))->0,
        ),
        no_self_loops(outs_of(graph_nodes(*graph))) ==> r@ == normalized(
            longest(
                crate::layout_laws::zero_ranks(graph_nodes(*graph).len()),
                topo_order(turned_graph(graph_nodes(*graph), state_to_node@, start@))->0,
                outs_of(turned_graph(graph_nodes(*graph), state_to_node@, start@)),
            ),
            state_to_node@,
            start@,
        ),
        no_self_loops(outs_of(graph_nodes(*graph))) ==> forall|a: Seq<char>, b: Seq<char>|
            #![trigger r@[a], r@[b]]
            state_to_node@.dom().contains(a) && state_to_node@.dom().contains(b) && out_of(
                turned_graph(graph_nodes(*graph), state_to_node@, start@)[state_to_node@[a]],
            ).contains(state_to_node@[b]) ==> r@[b] >= r@[a] && ((r@[a] > 0 || a == start@) ==> r@[b] >= r@[a] + 1),
        no_self_loops(outs_of(graph_nodes(*graph))) && state_to_node@.dom().contains(start@) ==> forall|k: Seq<char>, j: int|
            state_to_node@.dom().contains(k) && 0 <= j < out_of(graph_nodes(*graph)[state_to_node@[k]]).len() ==> ({
                let e = (state_to_node@[k], #[trigger] out_of(graph_nodes(*graph)[state_to_node@[k]])[j]);
                let c = classified(graph_nodes(*graph), state_to_node@, start@);
                c.0.contains(e) || c.1.contains(e)
            }),
        no_self_loops(outs_of(graph_nodes(*graph))) ==> forall|q: int|
            0 <= q < classified(graph_nodes(*graph), state_to_node@, start@).1.len() ==> fwd_path(
                classified(graph_nodes(*graph), state_to_node@, start@).0,
                (#[trigger] classified(graph_nodes(*graph), state_to_node@, start@).1[q]).1,
                classified(graph_nodes(*graph), state_to_node@, start@).1[q].0,
            ),
{
    let ghost nodes = graph_nodes(*graph);
    let (forward_edges, back_edges) = classify_edges_dfs(graph, state_to_node, start);
    let ghost fwd = int_pairs(forward_edges@);
    let ghost back = int_pairs(back_edges@);
    let ghost n = nodes.len();
    let count = graph_node_count(graph);
    let mut dag = graph_new();
    let mut i: usize = 0;
    while i < count
        invariant
            i <= count,
            count == n,
            n == nodes.len(),
            n < u32::MAX,
            nodes == graph_nodes(*graph),
            all_present(nodes),
            graph_nodes(dag) =~= Seq::new(i as nat, |k: int| Some((weight_of(nodes[k]), Seq::<int>::empty()))),
            graph_edge_slots(dag) == 0,
        decreases count - i,
    {
        let w = graph_weight(graph, i);
        graph_add_node(&mut dag, w);
        i += 1;
    }
    let ghost e0 = no_edges(n);
    let mut j: usize = 0;
    assert(fwd.take(0) =~= Seq::<(int, int)>::empty());
    while j < forward_edges.len()
        invariant
            j <= forward_edges.len(),
            fwd == int_pairs(forward_edges@),
            arcs_in(fwd, n as int),
            count == n,
            n < u32::MAX,
            forward_edges@.len() + back_edges@.len() < u32::MAX,
            e0 == no_edges(n),
            graph_nodes(dag) =~= ({
                let outs = add_arcs(e0, fwd.take(j as int));
                Seq::new(n, |k: int| Some((weight_of(nodes[k]), outs[k])))
            }),
            graph_edge_slots(dag) <= j,
        decreases forward_edges.len() - j,
    {
        let (src, dst) = forward_edges[j];
        assert(fwd[j as int] == (src as int, dst as int));
        assert(fwd.take(j + 1).drop_last() =~= fwd.take(j as int));
        proof {
            assert(arcs_in(fwd.take(j as int), n as int));
            lemma_add_arcs(e0, fwd.take(j as int));
        }
        graph_add_edge(&mut dag, src, dst);
        j += 1;
    }
    assert(fwd.take(j as int) =~= fwd);
    let ghost e1 = add_arcs(e0, fwd);
    let ghost fb = flipped(back);
    let mut m: usize = 0;
    assert(fb.take(0) =~= Seq::<(int, int)>::empty());
    proof {
        lemma_add_arcs(e0, fwd);
    }
    while m < back_edges.len()
        invariant
            m <= back_edges.len(),
            back == int_pairs(back_edges@),
            fb == flipped(back),
            arcs_in(back, n as int),
            count == n,
            n < u32::MAX,
            forward_edges@.len() + back_edges@.len() < u32::MAX,
            e1.len() == n,
            forall|a: int, b: int| 0 <= a < n && 0 <= b < e1[a].len() ==> 0 <= #[trigger] e1[a][b] < n,
            graph_nodes(dag) =~= ({
                let outs = add_arcs(e1, fb.take(m as int));
                Seq::new(n, |k: int| Some((weight_of(nodes[k]), outs[k])))
            }),
            graph_edge_slots(dag) <= forward_edges@.len() + m,
        decreases back_edges.len() - m,
    {
        let (src, dst) = back_edges[m];
        assert(back[m as int] == (src as int, dst as int));
        assert(fb[m as int] == (dst as int, src as int));
        assert(fb.take(m + 1).drop_last() =~= fb.take(m as int));
        proof {
            assert(arcs_in(fb.take(m as int), n as int)) by {
                assert forall|q: int| 0 <= q < fb.take(m as int).len() implies 0 <= (#[trigger] fb.take(m as int)[q]).0 < n
                    && 0 <= fb.take(m as int)[q].1 < n by {
                    assert(fb.take(m as int)[q] == (back[q].1, back[q].0));
                }
            }
            lemma_add_arcs(e1, fb.take(m as int));
        }
        graph_add_edge(&mut dag, dst, src);
        m += 1;
    }
    assert(fb.take(m as int) =~= fb);
    let ghost dn = graph_nodes(dag);
    assert(dn == dag_nodes(nodes, fwd, back));
    proof {
        assert(arcs_in(fb, n as int)) by {
            assert forall|q: int| 0 <= q < fb.len() implies 0 <= (#[trigger] fb[q]).0 < n && 0 <= fb[q].1 < n by {
                assert(fb[q] == (back[q].1, back[q].0));
            }
        }
        lemma_add_arcs(e1, fb);
        assert forall|i: int| 0 <= i < dn.len() implies (#[trigger] dn[i]) is Some by {
        }
        assert forall|u: int, k: int| 0 <= u < dn.len() && 0 <= k < out_of(dn[u]).len() implies 0 <= #[trigger] out_of(dn[u])[k]
            < dn.len() by {
            assert(out_of(dn[u]) == add_arcs(e1, fb)[u]);
        }
    }
    let sorted = graph_toposort(&dag);
    proof {
        if no_self_loops(outs_of(nodes)) {
            assert(sorted is Some);
        }
    }
    let topo = match sorted {
        Some(v) => v,
        None => Vec::new(),
    };
    proof {
        if topo@.len() > 0 {
            assert(topo_order(dn) is Some);
            let o = topo_order(dn)->0;
            assert(ints(topo@) =~= o);
        }
    }
    if topo.len() > 0 || count == 0 {
        proof {
            assert forall|q: int| 0 <= q < topo@.len() implies #[trigger] topo@[q] < n by {
                assert(ints(topo@)[q] == topo@[q] as int);
            }
            if topo@.len() > 0 {
                assert(topo@.len() == n);
            }
        }
        let r = ranks_from_order(&dag, &topo, state_to_node, start);
        proof {
            if topo@.len() == 0 {
                assert(ints(topo@) =~= Seq::<int>::empty());
                assert(outs_of(dn) =~= outs_of(dag_nodes(nodes, fwd, back)));
            }
            if no_self_loops(outs_of(nodes)) {
                let o = topo_order(dn)->0;
                let zeros = Seq::new(nodes.len(), |i: int| 0int);
                assert(r@ == normalized(longest(zeros, o, outs_of(dn)), state_to_node@, start@));
                assert forall|a: Seq<char>, b: Seq<char>|
                    #![trigger r@[a], r@[b]]
                    state_to_node@.dom().contains(a) && state_to_node@.dom().contains(b) && out_of(dn[state_to_node@[a]]).contains(
                        state_to_node@[b],
                    ) implies r@[b] >= r@[a] && ((r@[a] > 0 || a == start@) ==> r@[b] >= r@[a] + 1) by {
                    crate::layout_laws::law_shifted_edges_go_deeper(zeros, o, dn, state_to_node@, start@, a, b);
                }
            }
        }
        r
    } else {
        bfs_ranking(graph, state_to_node, start)
    }
}

} // verus!
