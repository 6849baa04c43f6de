use std::collections::BTreeMap;

use tla_studio::diagram::{edge_pairs_of, layered_diagram};
use tla_studio::layout::{collect_edge_groups, preferred_level_width, rebalance_levels_for_vertical_bias, Level};
use tla_studio::maps::RankMap;
use tla_studio::model::{Action, ParsedMachine};
use tla_studio::ranking::{assign_ranks_dfs, build_state_graph, sorted_keys};
use tla_studio::sweep::{barycenter, order_levels, reorder_level};

fn s(x: &str) -> String {
    x.to_string()
}

fn action(name: &str, from: &[&str], to: &[&str]) -> Action {
    Action {
        name: s(name),
        from: from.iter().map(|x| s(x)).collect(),
        to: to.iter().map(|x| s(x)).collect(),
        comment: None,
    }
}

fn machine(states: &[&str], init: Option<&str>, actions: Vec<Action>) -> ParsedMachine {
    ParsedMachine {
        module_name: s("Test"),
        states: states.iter().map(|x| s(x)).collect(),
        init_state: init.map(s),
        actions,
        invariants: Vec::new(),
        comments: Vec::new(),
        warnings: Vec::new(),
    }
}

fn rank_map(pairs: &[(&str, usize)]) -> RankMap {
    let mut m = RankMap::new();
    for (k, v) in pairs {
        m.insert(s(k), *v);
    }
    m
}

fn depth(m: &RankMap, k: &str) -> Option<usize> {
    m.get(&s(k))
}

fn level(rank: usize, states: &[&str]) -> Level {
    Level { rank, states: states.iter().map(|x| s(x)).collect() }
}

fn pairs(ps: &[(&str, &str)]) -> Vec<(String, String)> {
    ps.iter().map(|(a, b)| (s(a), s(b))).collect()
}

#[test]
fn vertical_bias_spills_wide_rank_downward() {
    let parsed = machine(
        &["Start", "A", "B", "C", "D", "E", "F"],
        Some("Start"),
        vec![
            action("ToA", &["Start"], &["A"]),
            action("ToB", &["Start"], &["B"]),
            action("ToC", &["Start"], &["C"]),
            action("ToD", &["Start"], &["D"]),
            action("ToE", &["Start"], &["E"]),
            action("ToF", &["Start"], &["F"]),
        ],
    );

    let layout = layered_diagram(&parsed);
    let mut counts = BTreeMap::<usize, usize>::new();
    for state in &parsed.states {
        let rank = depth(&layout.depths, state).unwrap();
        *counts.entry(rank).or_default() += 1;
    }

    assert!(counts.values().copied().max().unwrap_or(0) <= preferred_level_width(parsed.states.len()));
    assert!(parsed.states.iter().map(|x| depth(&layout.depths, x).unwrap()).max().unwrap_or(0) > 1);
}

#[test]
fn preferred_level_width_follows_square_root() {
    assert_eq!(preferred_level_width(0), 1);
    assert_eq!(preferred_level_width(1), 1);
    assert_eq!(preferred_level_width(2), 2);
    assert_eq!(preferred_level_width(4), 2);
    assert_eq!(preferred_level_width(5), 3);
    assert_eq!(preferred_level_width(11), 3);
    assert_eq!(preferred_level_width(12), 4);
    assert_eq!(preferred_level_width(1000), 4);
}

#[test]
fn edge_groups_collect_labels_by_pair_in_order() {
    let parsed = machine(
        &["A", "B", "C"],
        None,
        vec![
            action("Go", &["A"], &["B"]),
            action("Also", &["A"], &["B", "C"]),
            action("Back", &["B"], &["A"]),
            action("Stay", &["C"], &["C"]),
        ],
    );
    let groups = collect_edge_groups(&parsed);
    let keys: Vec<(String, String)> = groups.iter().map(|g| (g.from.clone(), g.to.clone())).collect();
    assert_eq!(keys, pairs(&[("A", "B"), ("A", "C"), ("B", "A"), ("C", "C")]));
    assert_eq!(groups[0].labels, vec![s("Go"), s("Also")]);
    assert_eq!(groups[1].labels, vec![s("Also")]);
    assert_eq!(groups[2].labels, vec![s("Back")]);
    assert_eq!(groups[3].labels, vec![s("Stay")]);
    assert_eq!(edge_pairs_of(&groups), keys);
}

#[test]
fn chain_ranks_follow_longest_path_from_start() {
    let states = vec![s("A"), s("B"), s("C"), s("D")];
    let edges = pairs(&[("A", "B"), ("B", "C"), ("A", "C"), ("C", "D")]);
    let (graph, map) = build_state_graph(&states, &edges);
    let ranks = assign_ranks_dfs(&graph, &map, &s("A"));
    assert_eq!(depth(&ranks, "A"), Some(0));
    assert_eq!(depth(&ranks, "B"), Some(1));
    assert_eq!(depth(&ranks, "C"), Some(2));
    assert_eq!(depth(&ranks, "D"), Some(3));
}

#[test]
fn cycle_closing_edge_is_turned_around() {
    let states = vec![s("A"), s("B"), s("C")];
    let edges = pairs(&[("A", "B"), ("B", "C"), ("C", "A")]);
    let (graph, map) = build_state_graph(&states, &edges);
    let ranks = assign_ranks_dfs(&graph, &map, &s("A"));
    assert_eq!(depth(&ranks, "A"), Some(0));
    assert_eq!(depth(&ranks, "B"), Some(1));
    assert_eq!(depth(&ranks, "C"), Some(2));
}

#[test]
fn self_loops_are_dropped_and_longest_paths_kept() {
    let states = vec![s("A"), s("B"), s("C"), s("D")];
    let edges = pairs(&[("A", "A"), ("A", "B"), ("B", "C"), ("A", "C")]);
    let (graph, map) = build_state_graph(&states, &edges);
    let ranks = assign_ranks_dfs(&graph, &map, &s("A"));
    assert_eq!(depth(&ranks, "A"), Some(0));
    assert_eq!(depth(&ranks, "B"), Some(1));
    assert_eq!(depth(&ranks, "C"), Some(2));
    assert_eq!(depth(&ranks, "D"), Some(0));
}

#[test]
fn without_self_loop_longest_paths_are_kept() {
    let states = vec![s("A"), s("B"), s("C"), s("D")];
    let edges = pairs(&[("A", "B"), ("B", "C"), ("A", "C"), ("C", "A")]);
    let (graph, map) = build_state_graph(&states, &edges);
    let ranks = assign_ranks_dfs(&graph, &map, &s("A"));
    assert_eq!(depth(&ranks, "A"), Some(0));
    assert_eq!(depth(&ranks, "B"), Some(1));
    assert_eq!(depth(&ranks, "C"), Some(2));
    assert_eq!(depth(&ranks, "D"), Some(0));
}

#[test]
fn start_is_ranked_zero_even_when_reached_from_elsewhere() {
    let states = vec![s("S"), s("X"), s("Y")];
    let edges = pairs(&[("X", "S"), ("S", "Y")]);
    let (graph, map) = build_state_graph(&states, &edges);
    let ranks = assign_ranks_dfs(&graph, &map, &s("S"));
    assert_eq!(depth(&ranks, "S"), Some(0));
    assert_eq!(depth(&ranks, "X"), Some(0));
    assert_eq!(depth(&ranks, "Y"), Some(1));
}

#[test]
fn unknown_start_leaves_every_state_at_rank_zero() {
    let states = vec![s("A"), s("B")];
    let edges = pairs(&[("A", "B")]);
    let (graph, map) = build_state_graph(&states, &edges);
    let ranks = assign_ranks_dfs(&graph, &map, &s("Nowhere"));
    assert_eq!(depth(&ranks, "A"), Some(0));
    assert_eq!(depth(&ranks, "B"), Some(0));
}

#[test]
fn sorted_keys_lists_each_name_once_in_order() {
    let m = rank_map(&[("b", 1), ("a", 2), ("c", 3), ("a", 4)]);
    assert_eq!(sorted_keys(&m), vec![s("a"), s("b"), s("c")]);
    assert_eq!(m.get(&s("a")), Some(4));
}

#[test]
fn barycenter_averages_neighbour_positions() {
    let edges = pairs(&[("X", "A"), ("X", "B"), ("Y", "B"), ("Q", "R")]);
    let depths = rank_map(&[("X", 1), ("Y", 1), ("A", 0), ("B", 0)]);
    let look = rank_map(&[("A", 0), ("B", 3)]);
    assert_eq!(barycenter(&s("X"), 0, &edges, &depths, &look), Some((3, 2)));
    assert_eq!(barycenter(&s("Y"), 0, &edges, &depths, &look), Some((3, 1)));
    assert_eq!(barycenter(&s("Q"), 0, &edges, &depths, &look), None);
}

#[test]
fn reorder_level_sorts_by_mean_neighbour_position_then_name() {
    let edges = pairs(&[("P", "Z"), ("Q", "Y"), ("R", "Y")]);
    let depths = rank_map(&[("P", 0), ("Q", 0), ("R", 0), ("Y", 1), ("Z", 1)]);
    let look = rank_map(&[("P", 0), ("Q", 1), ("R", 2), ("Z", 0), ("Y", 1)]);
    let mut lvl = vec![s("Z"), s("Y")];
    reorder_level(&mut lvl, 0, &edges, &depths, &look);
    assert_eq!(lvl, vec![s("Z"), s("Y")]);
    let mut lvl2 = vec![s("Y"), s("Z")];
    let look2 = rank_map(&[("P", 2), ("Q", 0), ("R", 1), ("Y", 0), ("Z", 1)]);
    reorder_level(&mut lvl2, 0, &edges, &depths, &look2);
    assert_eq!(lvl2, vec![s("Y"), s("Z")]);
}

#[test]
fn order_levels_groups_by_depth_in_rank_order() {
    let states = vec![s("C"), s("A"), s("B"), s("D"), s("Loose")];
    let depths = rank_map(&[("A", 0), ("B", 1), ("C", 1), ("D", 3)]);
    let edges = pairs(&[("A", "C"), ("A", "B")]);
    let levels = order_levels(&states, &edges, &depths);
    let ranks: Vec<usize> = levels.iter().map(|l| l.rank).collect();
    assert_eq!(ranks, vec![0, 1, 3]);
    assert_eq!(levels[0].states, vec![s("A")]);
    let mut mid = levels[1].states.clone();
    mid.sort();
    assert_eq!(mid, vec![s("B"), s("C")]);
    assert_eq!(levels[2].states, vec![s("D")]);
}

#[test]
fn rebalance_spills_states_past_full_levels() {
    let levels = vec![level(0, &["S"]), level(1, &["A", "B", "C", "D", "E"])];
    let edges = pairs(&[("S", "A"), ("S", "B"), ("S", "C"), ("S", "D"), ("S", "E")]);
    let depths = rebalance_levels_for_vertical_bias(&levels, &edges, 2);
    assert_eq!(depth(&depths, "S"), Some(0));
    assert_eq!(depth(&depths, "A"), Some(1));
    assert_eq!(depth(&depths, "B"), Some(1));
    assert_eq!(depth(&depths, "C"), Some(2));
    assert_eq!(depth(&depths, "D"), Some(2));
    assert_eq!(depth(&depths, "E"), Some(3));
}

#[test]
fn rebalance_places_states_below_forward_predecessors() {
    let levels = vec![level(0, &["S"]), level(1, &["A", "B", "C"]), level(2, &["T"])];
    let edges = pairs(&[("S", "A"), ("S", "B"), ("S", "C"), ("C", "T"), ("T", "S")]);
    let depths = rebalance_levels_for_vertical_bias(&levels, &edges, 2);
    assert_eq!(depth(&depths, "S"), Some(0));
    assert_eq!(depth(&depths, "C"), Some(2));
    assert_eq!(depth(&depths, "T"), Some(3));
}

#[test]
fn fitting_levels_come_back_unchanged() {
    let levels = vec![level(0, &["S"]), level(1, &["A", "B"]), level(2, &["C"])];
    let edges = pairs(&[("S", "A"), ("S", "B"), ("A", "C"), ("C", "S"), ("B", "B")]);
    let depths = rebalance_levels_for_vertical_bias(&levels, &edges, 2);
    assert_eq!(sorted_keys(&depths), vec![s("A"), s("B"), s("C"), s("S")]);
    assert_eq!(depth(&depths, "S"), Some(0));
    assert_eq!(depth(&depths, "A"), Some(1));
    assert_eq!(depth(&depths, "B"), Some(1));
    assert_eq!(depth(&depths, "C"), Some(2));
}

#[test]
fn later_and_self_edges_never_pull_states_down() {
    let levels = vec![level(0, &["S"]), level(1, &["A", "B", "C"]), level(2, &["T"])];
    let all = pairs(&[("S", "A"), ("S", "B"), ("S", "C"), ("C", "T"), ("T", "S"), ("B", "A"), ("A", "A")]);
    let kept = pairs(&[("S", "A"), ("S", "B"), ("S", "C"), ("C", "T")]);
    let with_all = rebalance_levels_for_vertical_bias(&levels, &all, 2);
    let with_kept = rebalance_levels_for_vertical_bias(&levels, &kept, 2);
    for st in ["S", "A", "B", "C", "T"] {
        assert_eq!(depth(&with_all, st), depth(&with_kept, st));
    }
    assert_eq!(depth(&with_all, "C"), Some(2));
    assert_eq!(depth(&with_all, "T"), Some(3));
}

#[test]
fn layered_diagram_ranks_every_state() {
    let parsed = machine(
        &["A", "B", "C", "D"],
        Some("B"),
        vec![action("AB", &["A"], &["B"]), action("BC", &["B"], &["C"]), action("CB", &["C"], &["B"])],
    );
    let layout = layered_diagram(&parsed);
    assert_eq!(sorted_keys(&layout.depths), parsed.states);
}

#[test]
fn layered_diagram_of_empty_machine_has_no_levels() {
    let parsed = machine(&[], None, Vec::new());
    let layout = layered_diagram(&parsed);
    assert_eq!(layout.start, s("No Spec"));
    assert!(layout.levels.is_empty());
    assert!(layout.edge_groups.is_empty());
}

#[test]
fn layered_diagram_levels_hold_each_state_once() {
    let parsed = machine(
        &["A", "B", "C", "D", "E"],
        Some("A"),
        vec![
            action("AB", &["A"], &["B"]),
            action("AC", &["A"], &["C"]),
            action("BD", &["B"], &["D"]),
            action("CD", &["C"], &["D"]),
            action("DE", &["D"], &["E"]),
            action("EA", &["E"], &["A"]),
        ],
    );
    let layout = layered_diagram(&parsed);
    let mut listed: Vec<String> = layout.levels.iter().flat_map(|l| l.states.clone()).collect();
    listed.sort();
    assert_eq!(listed, parsed.states);
    for l in &layout.levels {
        for st in &l.states {
            assert_eq!(depth(&layout.depths, st), Some(l.rank));
        }
    }
    assert_eq!(depth(&layout.depths, "A"), Some(0));
    assert_eq!(depth(&layout.depths, "E"), Some(3));
    let ranks: Vec<usize> = layout.levels.iter().map(|l| l.rank).collect();
    let mut sorted = ranks.clone();
    sorted.sort();
    sorted.dedup();
    assert_eq!(ranks, sorted);
}
