//! Properties of the layered layout.

use vstd::prelude::*;
use crate::layout::{first_free, place, rebalanced, spill};
use crate::graph::{is_topological, out_of};
use crate::maps::count_of;
use crate::ranking::{longest, normalized, outs_of, relax};
use crate::sweep::{add_to, down_pass, grouped, initial_levels, isort, name_lt, ordered_levels, reorder, reorder_at, sweep_count, sweeps, up_pass, holds};

verus! {

/// The states that `m` places at rank `t`.
pub open spec fn at_rank(m: Map<Seq<char>, int>, t: int) -> Set<Seq<char>> {
    m.dom().filter(|k: Seq<char>| m[k] == t)
}

/// The search for a free rank stops at a rank holding fewer than `width` states.
proof fn lemma_first_free(occ: Map<int, int>, t: int, width: int, lim: int)
    requires
        t <= lim,
        count_of(occ, lim) < width,
    ensures
        t <= first_free(occ, t, width, lim) <= lim,
        count_of(occ, first_free(occ, t, width, lim)) < width,
    decreases lim - t,
{
    if t < lim && count_of(occ, t) >= width {
        lemma_first_free(occ, t + 1, width, lim);
    }
}

/// What every placement keeps: no rank holds more than `width` states, and
/// each rank's count bounds the states placed there.
proof fn lemma_spill_width(
    fl: Seq<(int, Seq<char>)>,
    cur: Map<Seq<char>, int>,
    edges: Seq<(Seq<char>, Seq<char>)>,
    width: int,
)
    requires
        width >= 1,
    ensures
        spill(fl, cur, edges, width).adj.dom().finite(),
        forall|t: int| t >= spill(fl, cur, edges, width).top ==> #[trigger] count_of(spill(fl, cur, edges, width).occ, t) == 0,
        forall|t: int| #[trigger] count_of(spill(fl, cur, edges, width).occ, t) <= width,
        forall|t: int|
            (#[trigger] at_rank(spill(fl, cur, edges, width).adj, t)).len() <= count_of(spill(fl, cur, edges, width).occ, t),
    decreases fl.len(),
{
    if fl.len() == 0 {
        let st = spill(fl, cur, edges, width);
        assert forall|t: int| (#[trigger] at_rank(st.adj, t)).len() <= count_of(st.occ, t) by {
            assert(at_rank(st.adj, t) =~= Set::<Seq<char>>::empty());
        }
    } else {
        let prev = fl.drop_last();
        lemma_spill_width(prev, cur, edges, width);
        let st = spill(prev, cur, edges, width);
        let s = fl.last().1;
        let ps = crate::layout::preds_of(cur, edges, s);
        let t0 = crate::layout::floor_of(st.adj, ps, fl.last().0);
        let lim = (if t0 > st.top { t0 } else { st.top }) + 1;
        let t = first_free(st.occ, t0, width, lim);
        lemma_first_free(st.occ, t0, width, lim);
        let nx = place(st, fl.last().0, s, ps, width);
        assert(nx == spill(fl, cur, edges, width));
        assert(nx.adj == st.adj.insert(s, t));
        assert(nx.adj.dom() =~= st.adj.dom().insert(s));
        assert(nx.occ == st.occ.insert(t, count_of(st.occ, t) + 1));
        assert forall|u: int| #[trigger] count_of(nx.occ, u) == if u == t {
            count_of(st.occ, t) + 1
        } else {
            count_of(st.occ, u)
        } by {
            if u != t {
                assert(nx.occ.dom().contains(u) == st.occ.dom().contains(u));
            }
        }
        assert forall|u: int| u >= nx.top implies #[trigger] count_of(nx.occ, u) == 0 by {
            assert(u != t);
        }
        assert forall|u: int| (#[trigger] at_rank(nx.adj, u)).len() <= count_of(nx.occ, u) by {
            let old_set = at_rank(st.adj, u);
            st.adj.dom().lemma_len_filter(|k: Seq<char>| st.adj[k] == u);
            if u == t {
                assert(at_rank(nx.adj, u).subset_of(old_set.insert(s)));
                vstd::set_lib::lemma_len_subset(at_rank(nx.adj, u), old_set.insert(s));
            } else {
                assert(at_rank(nx.adj, u).subset_of(old_set));
                vstd::set_lib::lemma_len_subset(at_rank(nx.adj, u), old_set);
            }
        }
    }
}

/// A state's floor is never above its base rank.
proof fn lemma_floor_at_least(adj: Map<Seq<char>, int>, ps: Seq<Seq<char>>, base: int)
    ensures
        crate::layout::floor_of(adj, ps, base) >= base,
    decreases ps.len(),
{
    if ps.len() > 0 {
        lemma_floor_at_least(adj, ps.drop_last(), base);
    }
}

/// Spilling places exactly the listed states, none above the rank it was listed at last.
proof fn lemma_spill_down(
    fl: Seq<(int, Seq<char>)>,
    cur: Map<Seq<char>, int>,
    edges: Seq<(Seq<char>, Seq<char>)>,
    width: int,
)
    ensures
        spill(fl, cur, edges, width).adj.dom() =~= crate::layout::ranks_of(fl).dom(),
        forall|k: Seq<char>|
            #[trigger] crate::layout::ranks_of(fl).dom().contains(k) ==> spill(fl, cur, edges, width).adj[k]
                >= crate::layout::ranks_of(fl)[k],
    decreases fl.len(),
{
    if fl.len() > 0 {
        let prev = fl.drop_last();
        lemma_spill_down(prev, cur, edges, width);
        let st = spill(prev, cur, edges, width);
        let s = fl.last().1;
        let ps = crate::layout::preds_of(cur, edges, s);
        let t0 = crate::layout::floor_of(st.adj, ps, fl.last().0);
        let lim = (if t0 > st.top { t0 } else { st.top }) + 1;
        lemma_floor_at_least(st.adj, ps, fl.last().0);
        lemma_first_free_at_least(st.occ, t0, width, lim);
    }
}

/// Spilling places exactly the listed states.
pub(crate) proof fn lemma_spill_down_pub(
    fl: Seq<(int, Seq<char>)>,
    cur: Map<Seq<char>, int>,
    edges: Seq<(Seq<char>, Seq<char>)>,
    width: int,
)
    ensures
        spill(fl, cur, edges, width).adj.dom() =~= crate::layout::ranks_of(fl).dom(),
{
    lemma_spill_down(fl, cur, edges, width);
}

/// The search for a free rank never goes above where it starts.
proof fn lemma_first_free_at_least(occ: Map<int, int>, t: int, width: int, lim: int)
    ensures
        first_free(occ, t, width, lim) >= t || first_free(occ, t, width, lim) == lim,
        t <= lim ==> first_free(occ, t, width, lim) >= t,
    decreases lim - t,
{
    if t < lim && count_of(occ, t) >= width {
        lemma_first_free_at_least(occ, t + 1, width, lim);
    }
}

/// Spilling only moves states down: every state of the levels keeps a rank,
/// at or below the rank of the last level that lists it.
pub proof fn law_spilling_only_moves_down(
    ls: Seq<(int, Seq<Seq<char>>)>,
    edges: Seq<(Seq<char>, Seq<char>)>,
    width: int,
)
    ensures
        rebalanced(ls, edges, width).dom() =~= crate::layout::ranks_of(crate::layout::flat(ls)).dom(),
        forall|k: Seq<char>|
            #[trigger] crate::layout::ranks_of(crate::layout::flat(ls)).dom().contains(k) ==> rebalanced(
                ls,
                edges,
                width,
            )[k] >= crate::layout::ranks_of(crate::layout::flat(ls))[k],
{
    let fl = crate::layout::flat(ls);
    lemma_spill_down(fl, crate::layout::ranks_of(fl), edges, width);
}

/// After spilling, no rank holds more than `width` states.
pub proof fn law_ranks_hold_at_most_width(
    ls: Seq<(int, Seq<Seq<char>>)>,
    edges: Seq<(Seq<char>, Seq<char>)>,
    width: int,
)
    requires
        width >= 1,
    ensures
        forall|t: int| (#[trigger] at_rank(rebalanced(ls, edges, width), t)).len() <= width,
{
    let fl = crate::layout::flat(ls);
    lemma_spill_width(fl, crate::layout::ranks_of(fl), edges, width);
}

/// The states that the levels list at rank `r`, level after level.
pub open spec fn states_at(lv: Seq<(int, Seq<Seq<char>>)>, r: int) -> Seq<Seq<char>>
    decreases lv.len(),
{
    if lv.len() == 0 {
        seq![]
    } else {
        (if lv[0].0 == r { lv[0].1 } else { seq![] }) + states_at(lv.drop_first(), r)
    }
}

/// Whether the ranks of the levels strictly increase.
pub open spec fn increasing(lv: Seq<(int, Seq<Seq<char>>)>) -> bool {
    forall|i: int, j: int| 0 <= i < j < lv.len() ==> #[trigger] lv[i].0 < #[trigger] lv[j].0
}

/// The ranks of the levels.
pub open spec fn ranks_seq(lv: Seq<(int, Seq<Seq<char>>)>) -> Seq<int> {
    lv.map_values(|l: (int, Seq<Seq<char>>)| l.0)
}

/// The states that have depth `r`.
pub open spec fn at_depth(depths: Map<Seq<char>, int>, r: int) -> spec_fn(Seq<char>) -> bool {
    |s: Seq<char>| holds(depths, s, r)
}

/// Sorting by insertion keeps the items.
pub proof fn lemma_isort_keeps_items(s: Seq<Seq<char>>, lt: spec_fn(Seq<char>, Seq<char>) -> bool)
    ensures
        isort(s, lt).to_multiset() =~= s.to_multiset(),
    decreases s.len(),
{
    broadcast use vstd::seq_lib::to_multiset_insert, vstd::seq_lib::to_multiset_build;

    if s.len() > 0 {
        let r = isort(s.drop_last(), lt);
        lemma_isort_keeps_items(s.drop_last(), lt);
        crate::sweep::lemma_slot_range(r, s.last(), lt);
        assert(s.drop_last().push(s.last()) =~= s);
    }
}

/// Replacing one level's states by the same states in another order keeps
/// what every rank lists, and the ranks.
proof fn lemma_update_keeps(lv: Seq<(int, Seq<Seq<char>>)>, idx: int, t: Seq<Seq<char>>, r: int)
    requires
        0 <= idx < lv.len(),
        t.to_multiset() =~= lv[idx].1.to_multiset(),
    ensures
        states_at(lv.update(idx, (lv[idx].0, t)), r).to_multiset() =~= states_at(lv, r).to_multiset(),
        ranks_seq(lv.update(idx, (lv[idx].0, t))) =~= ranks_seq(lv),
    decreases lv.len(),
{
    broadcast use vstd::seq_lib::lemma_multiset_commutative;

    let lv2 = lv.update(idx, (lv[idx].0, t));
    if idx == 0 {
        assert(lv2.drop_first() =~= lv.drop_first());
    } else {
        lemma_update_keeps(lv.drop_first(), idx - 1, t, r);
        assert(lv2.drop_first() =~= lv.drop_first().update(idx - 1, (lv[idx].0, t)));
    }
}

/// Reordering a level keeps what every rank lists, and the ranks.
proof fn lemma_reorder_keeps(
    lv: Seq<(int, Seq<Seq<char>>)>,
    idx: int,
    adj: int,
    edges: Seq<(Seq<char>, Seq<char>)>,
    depths: Map<Seq<char>, int>,
    r: int,
)
    requires
        0 <= idx < lv.len(),
        0 <= adj < lv.len(),
    ensures
        states_at(reorder_at(lv, idx, adj, edges, depths), r).to_multiset() =~= states_at(lv, r).to_multiset(),
        ranks_seq(reorder_at(lv, idx, adj, edges, depths)) =~= ranks_seq(lv),
{
    let t = reorder(lv[idx].1, lv[adj].0, edges, depths, crate::sweep::lookup_of(lv));
    lemma_isort_keeps_items(lv[idx].1, crate::sweep::score_lt(lv[idx].1, lv[adj].0, edges, depths, crate::sweep::lookup_of(lv)));
    lemma_update_keeps(lv, idx, t, r);
}

/// The downward pass keeps what every rank lists, and the ranks.
proof fn lemma_down_keeps(
    lv: Seq<(int, Seq<Seq<char>>)>,
    k: int,
    edges: Seq<(Seq<char>, Seq<char>)>,
    depths: Map<Seq<char>, int>,
    r: int,
)
    requires
        k <= lv.len(),
    ensures
        states_at(down_pass(lv, k, edges, depths), r).to_multiset() =~= states_at(lv, r).to_multiset(),
        ranks_seq(down_pass(lv, k, edges, depths)) =~= ranks_seq(lv),
    decreases k,
{
    if k > 1 {
        lemma_down_keeps(lv, k - 1, edges, depths, r);
        let p = down_pass(lv, k - 1, edges, depths);
        assert(p.len() == ranks_seq(p).len());
        lemma_reorder_keeps(p, k - 1, k - 2, edges, depths, r);
    }
}

/// The upward pass keeps what every rank lists, and the ranks.
proof fn lemma_up_keeps(
    lv: Seq<(int, Seq<Seq<char>>)>,
    m: int,
    edges: Seq<(Seq<char>, Seq<char>)>,
    depths: Map<Seq<char>, int>,
    r: int,
)
    requires
        m < lv.len(),
    ensures
        states_at(up_pass(lv, m, edges, depths), r).to_multiset() =~= states_at(lv, r).to_multiset(),
        ranks_seq(up_pass(lv, m, edges, depths)) =~= ranks_seq(lv),
    decreases m,
{
    if m > 0 {
        lemma_up_keeps(lv, m - 1, edges, depths, r);
        let p = up_pass(lv, m - 1, edges, depths);
        assert(p.len() == ranks_seq(p).len());
        lemma_reorder_keeps(p, lv.len() - 1 - m, lv.len() - m, edges, depths, r);
    }
}

/// Sweeping keeps what every rank lists, and the ranks.
proof fn lemma_sweeps_keep(
    lv: Seq<(int, Seq<Seq<char>>)>,
    n: nat,
    edges: Seq<(Seq<char>, Seq<char>)>,
    depths: Map<Seq<char>, int>,
    r: int,
)
    ensures
        states_at(sweeps(lv, n, edges, depths), r).to_multiset() =~= states_at(lv, r).to_multiset(),
        ranks_seq(sweeps(lv, n, edges, depths)) =~= ranks_seq(lv),
    decreases n,
{
    if n > 0 {
        lemma_sweeps_keep(lv, (n - 1) as nat, edges, depths, r);
        let p = sweeps(lv, (n - 1) as nat, edges, depths);
        assert(p.len() == ranks_seq(p).len());
        lemma_down_keeps(p, p.len() as int, edges, depths, r);
        let d = down_pass(p, p.len() as int, edges, depths);
        assert(d.len() == ranks_seq(d).len());
        lemma_up_keeps(d, p.len() - 1, edges, depths, r);
    }
}

/// Adding `s` at rank `r` lists it once more at that rank and nowhere else.
proof fn lemma_add_to_items(lv: Seq<(int, Seq<Seq<char>>)>, r: int, s: Seq<char>, r2: int)
    ensures
        states_at(add_to(lv, r, s), r2).to_multiset() =~= if r2 == r {
            states_at(lv, r2).to_multiset().insert(s)
        } else {
            states_at(lv, r2).to_multiset()
        },
    decreases lv.len(),
{
    broadcast use vstd::seq_lib::lemma_multiset_commutative, vstd::seq_lib::to_multiset_build;
    broadcast use vstd::multiset::group_multiset_axioms;

    let a = add_to(lv, r, s);
    let e = Seq::<Seq<char>>::empty();
    assert(seq![s] =~= e.push(s));
    if lv.len() == 0 {
        assert(a.drop_first() =~= Seq::<(int, Seq<Seq<char>>)>::empty());
        let h = if r2 == r { seq![s] } else { e };
        assert(states_at(a.drop_first(), r2) == e);
        assert(states_at(lv, r2) == e);
        assert(states_at(a, r2) == h + e);
        assert(h + e =~= h);
    } else {
        let t = states_at(lv.drop_first(), r2);
        let h = if lv[0].0 == r2 { lv[0].1 } else { e };
        assert(states_at(lv, r2) == h + t);
        if lv[0].0 == r {
            assert(a.drop_first() =~= lv.drop_first());
            if r2 == r {
                assert(states_at(a, r2) == lv[0].1.push(s) + t);
                assert((lv[0].1.push(s) + t).to_multiset() =~= lv[0].1.to_multiset().insert(s).add(t.to_multiset()));
                assert((h + t).to_multiset() =~= lv[0].1.to_multiset().add(t.to_multiset()));
            } else {
                assert(states_at(a, r2) == e + t);
            }
        } else if r < lv[0].0 {
            assert(a.drop_first() =~= lv);
            if r2 == r {
                assert(states_at(a, r2) == seq![s] + states_at(lv, r2));
            } else {
                assert(states_at(a, r2) == e + states_at(lv, r2));
                assert(e + states_at(lv, r2) =~= states_at(lv, r2));
            }
        } else {
            lemma_add_to_items(lv.drop_first(), r, s, r2);
            assert(a.drop_first() =~= add_to(lv.drop_first(), r, s));
            assert(states_at(a, r2) == h + states_at(add_to(lv.drop_first(), r, s), r2));
        }
    }
}

/// Adding `s` at rank `r` keeps the ranks increasing, and adds no rank but `r`.
proof fn lemma_add_to(lv: Seq<(int, Seq<Seq<char>>)>, r: int, s: Seq<char>, r2: int)
    ensures
        states_at(add_to(lv, r, s), r2).to_multiset() =~= if r2 == r {
            states_at(lv, r2).to_multiset().insert(s)
        } else {
            states_at(lv, r2).to_multiset()
        },
        increasing(lv) ==> increasing(add_to(lv, r, s)),
        increasing(lv) ==> forall|i: int| 0 <= i < add_to(lv, r, s).len() ==> (#[trigger] add_to(lv, r, s)[i]).0 >= r
            || (exists|j: int| 0 <= j < lv.len() && lv[j].0 == add_to(lv, r, s)[i].0),
    decreases lv.len(),
{
    lemma_add_to_items(lv, r, s, r2);
    let a = add_to(lv, r, s);
    if lv.len() == 0 {
    } else if lv[0].0 == r {
        assert(a.drop_first() =~= lv.drop_first());
    } else if r < lv[0].0 {
        assert(a.drop_first() =~= lv);
        if increasing(lv) {
            assert forall|i: int, j: int| 0 <= i < j < a.len() implies #[trigger] a[i].0 < #[trigger] a[j].0 by {
                if i > 0 {
                    assert(a[i] == lv[i - 1] && a[j] == lv[j - 1]);
                } else {
                    assert(a[j] == lv[j - 1]);
                }
            }
        }
    } else {
        lemma_add_to(lv.drop_first(), r, s, r2);
        assert(a.drop_first() =~= add_to(lv.drop_first(), r, s));
        if increasing(lv) {
            let rest = add_to(lv.drop_first(), r, s);
            assert(increasing(lv.drop_first())) by {
                assert forall|i: int, j: int| 0 <= i < j < lv.drop_first().len() implies #[trigger] lv.drop_first()[i].0
                    < #[trigger] lv.drop_first()[j].0 by {
                    assert(lv.drop_first()[i] == lv[i + 1] && lv.drop_first()[j] == lv[j + 1]);
                }
            }
            assert forall|i: int| 0 <= i < rest.len() implies (#[trigger] rest[i]).0 > lv[0].0 by {
                if rest[i].0 < r {
                    let j = choose|j: int| 0 <= j < lv.drop_first().len() && lv.drop_first()[j].0 == rest[i].0;
                    assert(lv[j + 1] == lv.drop_first()[j]);
                }
            }
            assert forall|i: int, j: int| 0 <= i < j < a.len() implies #[trigger] a[i].0 < #[trigger] a[j].0 by {
                assert(a[j] == rest[j - 1]);
                if i > 0 {
                    assert(a[i] == rest[i - 1]);
                }
            }
            assert forall|i: int| 0 <= i < a.len() implies (#[trigger] a[i]).0 >= r || (exists|j: int|
                0 <= j < lv.len() && lv[j].0 == a[i].0) by {
                if i == 0 {
                    assert(lv[0].0 == a[0].0);
                } else {
                    assert(a[i] == rest[i - 1]);
                    if rest[i - 1].0 < r {
                        let j = choose|j: int| 0 <= j < lv.drop_first().len() && lv.drop_first()[j].0 == rest[i - 1].0;
                        assert(lv[j + 1] == lv.drop_first()[j]);
                    }
                }
            }
        }
    }
}

/// Grouping lists each state with a depth at its depth, once for each time
/// the list holds it, and keeps the ranks increasing.
proof fn lemma_grouped(states: Seq<Seq<char>>, depths: Map<Seq<char>, int>, r: int)
    ensures
        states_at(grouped(states, depths), r).to_multiset() =~= states.filter(at_depth(depths, r)).to_multiset(),
        increasing(grouped(states, depths)),
    decreases states.len(),
{
    broadcast use vstd::seq_lib::to_multiset_build;

    if states.len() > 0 {
        let pre = states.drop_last();
        lemma_grouped(pre, depths, r);
        let s = states.last();
        assert(pre.push(s) =~= states);
        pre.lemma_filter_push(s, at_depth(depths, r));
        if depths.dom().contains(s) {
            lemma_add_to(grouped(pre, depths), depths[s], s, r);
        }
    } else {
        assert(states.filter(at_depth(depths, r)) =~= Seq::<Seq<char>>::empty()) by {
            states.lemma_filter_len(at_depth(depths, r));
        }
    }
}

/// Sorting each level by name keeps what every rank lists.
proof fn lemma_sorted_levels(lv: Seq<(int, Seq<Seq<char>>)>, r: int)
    ensures
        states_at(lv.map_values(|l: (int, Seq<Seq<char>>)| (l.0, isort(l.1, name_lt()))), r).to_multiset()
            =~= states_at(lv, r).to_multiset(),
        ranks_seq(lv.map_values(|l: (int, Seq<Seq<char>>)| (l.0, isort(l.1, name_lt())))) =~= ranks_seq(lv),
    decreases lv.len(),
{
    broadcast use vstd::seq_lib::lemma_multiset_commutative;

    let f = |l: (int, Seq<Seq<char>>)| (l.0, isort(l.1, name_lt()));
    if lv.len() > 0 {
        lemma_sorted_levels(lv.drop_first(), r);
        assert(lv.map_values(f).drop_first() =~= lv.drop_first().map_values(f));
        lemma_isort_keeps_items(lv[0].1, name_lt());
    }
}

/// Increasing ranks stay increasing under a map that keeps them.
proof fn lemma_same_ranks_increasing(a: Seq<(int, Seq<Seq<char>>)>, b: Seq<(int, Seq<Seq<char>>)>)
    requires
        ranks_seq(a) =~= ranks_seq(b),
        increasing(b),
    ensures
        increasing(a),
{
    assert(a.len() == ranks_seq(a).len() && b.len() == ranks_seq(b).len());
    assert forall|i: int, j: int| 0 <= i < j < a.len() implies #[trigger] a[i].0 < #[trigger] a[j].0 by {
        assert(ranks_seq(a)[i] == a[i].0 && ranks_seq(b)[i] == b[i].0);
        assert(ranks_seq(a)[j] == a[j].0 && ranks_seq(b)[j] == b[j].0);
        assert(b[i].0 < b[j].0);
    }
}

/// Ordering the levels only moves states within their level: the levels come
/// in strictly increasing rank, and the level of each rank holds exactly the
/// states of that depth, as often as the list holds them.
pub proof fn law_levels_hold_states_by_depth(
    states: Seq<Seq<char>>,
    edges: Seq<(Seq<char>, Seq<char>)>,
    depths: Map<Seq<char>, int>,
)
    ensures
        increasing(ordered_levels(states, edges, depths)),
        forall|r: int|
            (#[trigger] states_at(ordered_levels(states, edges, depths), r)).to_multiset()
                =~= states.filter(at_depth(depths, r)).to_multiset(),
{
    let g = grouped(states, depths);
    let init = initial_levels(states, depths);
    let n = sweep_count(states.len() as int);
    lemma_grouped(states, depths, 0);
    assert forall|r: int|
        (#[trigger] states_at(ordered_levels(states, edges, depths), r)).to_multiset()
            =~= states.filter(at_depth(depths, r)).to_multiset() by {
        lemma_grouped(states, depths, r);
        lemma_sorted_levels(g, r);
        lemma_sweeps_keep(init, n, edges, depths, r);
    }
    lemma_sorted_levels(g, 0);
    lemma_sweeps_keep(init, n, edges, depths, 0);
    lemma_same_ranks_increasing(init, g);
    lemma_same_ranks_increasing(ordered_levels(states, edges, depths), init);
}

/// The rank and size of each level.
pub open spec fn shape(lv: Seq<(int, Seq<Seq<char>>)>) -> Seq<(int, nat)> {
    lv.map_values(|l: (int, Seq<Seq<char>>)| (l.0, l.1.len()))
}

/// How many states the levels list in all.
pub open spec fn total(lv: Seq<(int, Seq<Seq<char>>)>) -> int
    decreases lv.len(),
{
    if lv.len() == 0 {
        0
    } else {
        total(lv.drop_last()) + lv.last().1.len()
    }
}

/// Sorting by insertion keeps the length.
pub proof fn lemma_isort_len(s: Seq<Seq<char>>, lt: spec_fn(Seq<char>, Seq<char>) -> bool)
    ensures
        isort(s, lt).len() == s.len(),
    decreases s.len(),
{
    if s.len() > 0 {
        lemma_isort_len(s.drop_last(), lt);
        crate::sweep::lemma_slot_range(isort(s.drop_last(), lt), s.last(), lt);
    }
}

/// Levels of the same shape list as many states.
proof fn lemma_total_shape(a: Seq<(int, Seq<Seq<char>>)>, b: Seq<(int, Seq<Seq<char>>)>)
    requires
        shape(a) =~= shape(b),
    ensures
        total(a) == total(b),
    decreases a.len(),
{
    assert(a.len() == shape(a).len() && b.len() == shape(b).len());
    if a.len() > 0 {
        assert(shape(a.drop_last()) =~= shape(b.drop_last())) by {
            assert forall|i: int| 0 <= i < a.len() - 1 implies shape(a.drop_last())[i] == shape(b.drop_last())[i] by {
                assert(shape(a)[i] == shape(b)[i]);
            }
        }
        lemma_total_shape(a.drop_last(), b.drop_last());
        assert(shape(a)[a.len() - 1] == shape(b)[a.len() - 1]);
    }
}

/// The pairs of the levels number as many as the states they list.
pub proof fn lemma_flat_total(lv: Seq<(int, Seq<Seq<char>>)>)
    ensures
        crate::layout::flat(lv).len() == total(lv),
    decreases lv.len(),
{
    if lv.len() > 0 {
        lemma_flat_total(lv.drop_last());
    }
}

/// Sweeps keep the shape.
proof fn lemma_sweeps_shape(
    lv: Seq<(int, Seq<Seq<char>>)>,
    n: nat,
    edges: Seq<(Seq<char>, Seq<char>)>,
    depths: Map<Seq<char>, int>,
)
    ensures
        shape(sweeps(lv, n, edges, depths)) =~= shape(lv),
    decreases n,
{
    if n > 0 {
        lemma_sweeps_shape(lv, (n - 1) as nat, edges, depths);
        let p = sweeps(lv, (n - 1) as nat, edges, depths);
        lemma_down_shape(p, p.len() as int, edges, depths);
        let d = down_pass(p, p.len() as int, edges, depths);
        assert(d.len() == shape(d).len() && p.len() == shape(p).len());
        lemma_up_shape(d, p.len() - 1, edges, depths);
    }
}

/// Reordering a level keeps the shape.
proof fn lemma_reorder_shape(
    lv: Seq<(int, Seq<Seq<char>>)>,
    idx: int,
    adj: int,
    edges: Seq<(Seq<char>, Seq<char>)>,
    depths: Map<Seq<char>, int>,
)
    requires
        0 <= idx < lv.len(),
        0 <= adj < lv.len(),
    ensures
        shape(reorder_at(lv, idx, adj, edges, depths)) =~= shape(lv),
{
    lemma_isort_len(
        lv[idx].1,
        crate::sweep::score_lt(lv[idx].1, lv[adj].0, edges, depths, crate::sweep::lookup_of(lv)),
    );
}

proof fn lemma_down_shape(
    lv: Seq<(int, Seq<Seq<char>>)>,
    k: int,
    edges: Seq<(Seq<char>, Seq<char>)>,
    depths: Map<Seq<char>, int>,
)
    requires
        k <= lv.len(),
    ensures
        shape(down_pass(lv, k, edges, depths)) =~= shape(lv),
    decreases k,
{
    if k > 1 {
        lemma_down_shape(lv, k - 1, edges, depths);
        let p = down_pass(lv, k - 1, edges, depths);
        assert(p.len() == shape(p).len());
        lemma_reorder_shape(p, k - 1, k - 2, edges, depths);
    }
}

proof fn lemma_up_shape(
    lv: Seq<(int, Seq<Seq<char>>)>,
    m: int,
    edges: Seq<(Seq<char>, Seq<char>)>,
    depths: Map<Seq<char>, int>,
)
    requires
        m < lv.len(),
    ensures
        shape(up_pass(lv, m, edges, depths)) =~= shape(lv),
    decreases m,
{
    if m > 0 {
        lemma_up_shape(lv, m - 1, edges, depths);
        let p = up_pass(lv, m - 1, edges, depths);
        assert(p.len() == shape(p).len());
        lemma_reorder_shape(p, lv.len() - 1 - m, lv.len() - m, edges, depths);
    }
}

/// Grouping lists each state with a depth once, under ranks that are depths.
proof fn lemma_grouped_shape(states: Seq<Seq<char>>, depths: Map<Seq<char>, int>, b: int)
    requires
        forall|s: Seq<char>| #[trigger] depths.dom().contains(s) ==> 0 <= depths[s] <= b,
    ensures
        total(grouped(states, depths)) <= states.len(),
        forall|i: int| 0 <= i < grouped(states, depths).len() ==> 0 <= (#[trigger] grouped(states, depths)[i]).0 <= b,
    decreases states.len(),
{
    if states.len() > 0 {
        let pre = states.drop_last();
        lemma_grouped_shape(pre, depths, b);
        let s = states.last();
        if depths.dom().contains(s) {
            lemma_add_to_shape(grouped(pre, depths), depths[s], s, b);
        }
    }
}

/// Adding a state lists one more, under ranks kept within bounds.
proof fn lemma_add_to_shape(lv: Seq<(int, Seq<Seq<char>>)>, r: int, s: Seq<char>, b: int)
    requires
        0 <= r <= b,
        forall|i: int| 0 <= i < lv.len() ==> 0 <= (#[trigger] lv[i]).0 <= b,
    ensures
        total(add_to(lv, r, s)) == total(lv) + 1,
        forall|i: int| 0 <= i < add_to(lv, r, s).len() ==> 0 <= (#[trigger] add_to(lv, r, s)[i]).0 <= b,
    decreases lv.len(),
{
    let a = add_to(lv, r, s);
    lemma_total_front(lv);
    lemma_total_front(a);
    if lv.len() == 0 {
        assert(a.drop_first().len() == 0);
    } else if lv[0].0 == r {
        assert(a.drop_first() =~= lv.drop_first());
    } else if r < lv[0].0 {
        assert(a.drop_first() =~= lv);
        assert forall|i: int| 0 <= i < a.len() implies 0 <= (#[trigger] a[i]).0 <= b by {
            if i > 0 {
                assert(a[i] == lv[i - 1]);
            }
        }
    } else {
        assert forall|i: int| 0 <= i < lv.drop_first().len() implies 0 <= (#[trigger] lv.drop_first()[i]).0 <= b by {
            assert(lv.drop_first()[i] == lv[i + 1]);
        }
        lemma_add_to_shape(lv.drop_first(), r, s, b);
        assert(a.drop_first() =~= add_to(lv.drop_first(), r, s));
        assert forall|i: int| 0 <= i < a.len() implies 0 <= (#[trigger] a[i]).0 <= b by {
            if i > 0 {
                assert(a[i] == add_to(lv.drop_first(), r, s)[i - 1]);
            }
        }
    }
}

/// The total counted from the front.
proof fn lemma_total_front(lv: Seq<(int, Seq<Seq<char>>)>)
    ensures
        lv.len() > 0 ==> total(lv) == lv[0].1.len() + total(lv.drop_first()),
    decreases lv.len(),
{
    if lv.len() > 1 {
        lemma_total_front(lv.drop_last());
        assert(lv.drop_last().drop_first() =~= lv.drop_first().drop_last());
        assert(lv.drop_last()[0] == lv[0]);
        assert(lv.drop_first().last() == lv.last());
        assert(total(lv.drop_first()) == total(lv.drop_first().drop_last()) + lv.drop_first().last().1.len());
        assert(total(lv) == total(lv.drop_last()) + lv.last().1.len());
    } else if lv.len() == 1 {
        assert(lv.drop_first().len() == 0);
        assert(lv.drop_last().len() == 0);
        assert(lv.last() == lv[0]);
        assert(total(lv) == total(lv.drop_last()) + lv.last().1.len());
    }
}

/// The ordered levels list no more states than the list holds, each under a
/// rank that is some state's depth.
pub proof fn lemma_ordered_shape(
    states: Seq<Seq<char>>,
    edges: Seq<(Seq<char>, Seq<char>)>,
    depths: Map<Seq<char>, int>,
    b: int,
)
    requires
        forall|s: Seq<char>| #[trigger] depths.dom().contains(s) ==> 0 <= depths[s] <= b,
    ensures
        crate::layout::flat(ordered_levels(states, edges, depths)).len() <= states.len(),
        forall|i: int|
            0 <= i < ordered_levels(states, edges, depths).len() ==> 0 <= (#[trigger] ordered_levels(states, edges, depths)[i]).0
                <= b,
{
    let g = grouped(states, depths);
    let init = initial_levels(states, depths);
    let out = ordered_levels(states, edges, depths);
    lemma_grouped_shape(states, depths, b);
    assert(shape(init) =~= shape(g)) by {
        assert forall|i: int| 0 <= i < g.len() implies shape(init)[i] == shape(g)[i] by {
            lemma_isort_len(g[i].1, name_lt());
        }
    }
    lemma_sweeps_shape(init, sweep_count(states.len() as int), edges, depths);
    lemma_total_shape(out, g);
    lemma_flat_total(out);
    assert(out.len() == shape(out).len() && g.len() == shape(g).len());
    assert forall|i: int| 0 <= i < out.len() implies 0 <= (#[trigger] out[i]).0 <= b by {
        assert(shape(out)[i] == shape(init)[i]);
        assert(shape(init)[i] == shape(g)[i]);
    }
}

/// Shifting the ranks puts the start state, when it has a node, at rank zero.
pub proof fn law_start_shifted_to_rank_zero(ranks: Seq<int>, map: Map<Seq<char>, int>, start: Seq<char>)
    requires
        map.dom().contains(start),
    ensures
        normalized(ranks, map, start).dom().contains(start),
        normalized(ranks, map, start)[start] == 0,
{
}

/// Raising targets never lowers a rank, and leaves alone every node that is
/// not a target.
proof fn lemma_relax_mono(ranks: Seq<int>, nbrs: Seq<int>, cur: int)
    requires
        forall|k: int| 0 <= k < nbrs.len() ==> 0 <= #[trigger] nbrs[k] < ranks.len(),
    ensures
        relax(ranks, nbrs, cur).len() == ranks.len(),
        forall|x: int| 0 <= x < ranks.len() ==> #[trigger] relax(ranks, nbrs, cur)[x] >= ranks[x],
        forall|x: int| 0 <= x < ranks.len() && !nbrs.contains(x) ==> #[trigger] relax(ranks, nbrs, cur)[x] == ranks[x],
        forall|k: int| 0 <= k < nbrs.len() ==> relax(ranks, nbrs, cur)[#[trigger] nbrs[k]] >= cur + 1,
    decreases nbrs.len(),
{
    if nbrs.len() > 0 {
        let pre = nbrs.drop_last();
        lemma_relax_mono(ranks, pre, cur);
        let r = relax(ranks, pre, cur);
        let v = nbrs.last();
        assert(nbrs[nbrs.len() - 1] == v);
        assert forall|x: int| 0 <= x < ranks.len() && !nbrs.contains(x) implies #[trigger] relax(ranks, nbrs, cur)[x]
            == ranks[x] by {
            if pre.contains(x) {
                let k = choose|k: int| 0 <= k < pre.len() && pre[k] == x;
                assert(nbrs[k] == x);
            }
        }
        assert forall|k: int| 0 <= k < nbrs.len() implies relax(ranks, nbrs, cur)[#[trigger] nbrs[k]] >= cur + 1 by {
            if k < nbrs.len() - 1 {
                assert(nbrs[k] == pre[k]);
            }
        }
    }
}

/// Taking nodes in a topological order, each edge from a node already taken
/// reaches one rank deeper, and the ranks of nodes already taken are settled.
proof fn lemma_longest_prefix(
    base: Seq<int>,
    order: Seq<int>,
    nodes: Seq<Option<(Seq<char>, Seq<int>)>>,
    k: int,
)
    requires
        is_topological(nodes, order),
        base.len() == nodes.len(),
        0 <= k <= order.len(),
        forall|u: int, j: int| 0 <= u < nodes.len() && 0 <= j < out_of(nodes[u]).len() ==> 0 <= #[trigger] out_of(nodes[u])[j] < nodes.len(),
    ensures
        longest(base, order.take(k), outs_of(nodes)).len() == nodes.len(),
        forall|i: int, j: int|
            0 <= i < k && 0 <= j < out_of(nodes[order[i]]).len() ==> ({
                let r = longest(base, order.take(k), outs_of(nodes));
                r[#[trigger] out_of(nodes[order[i]])[j]] >= r[order[i]] + 1
            }),
    decreases k,
{
    let outs = outs_of(nodes);
    if k > 0 {
        lemma_longest_prefix(base, order, nodes, k - 1);
        let prev = longest(base, order.take(k - 1), outs);
        assert(order.take(k).drop_last() =~= order.take(k - 1));
        let u = order[k - 1];
        assert(order.take(k).last() == u);
        assert(outs[u] == out_of(nodes[u]));
        lemma_relax_mono(prev, outs[u], prev[u]);
        let r = longest(base, order.take(k), outs);
        assert(r == relax(prev, outs[u], prev[u]));
        assert forall|i: int, j: int|
            0 <= i < k && 0 <= j < out_of(nodes[order[i]]).len() implies r[#[trigger] out_of(nodes[order[i]])[j]] >= r[order[i]]
                + 1 by {
            let v = out_of(nodes[order[i]])[j];
            if i < k - 1 {
                let w = order[i];
                if outs[u].contains(w) {
                    let q = choose|q: int| 0 <= q < outs[u].len() && outs[u][q] == w;
                    assert(out_of(nodes[order[k - 1]])[q] == order[i]);
                    assert(k - 1 < i);
                }
                assert(r[w] == prev[w]);
                assert(prev[v] >= prev[w] + 1);
            } else {
                assert(outs[u][j] == v);
            }
        }
    }
}

/// Longest-path ranks taken in a topological order put the target of every
/// edge at least one rank deeper than its source.
pub proof fn law_longest_path_edges_go_deeper(
    base: Seq<int>,
    order: Seq<int>,
    nodes: Seq<Option<(Seq<char>, Seq<int>)>>,
    u: int,
    j: int,
)
    requires
        is_topological(nodes, order),
        base.len() == nodes.len(),
        forall|a: int, b: int| 0 <= a < nodes.len() && 0 <= b < out_of(nodes[a]).len() ==> 0 <= #[trigger] out_of(nodes[a])[b] < nodes.len(),
        0 <= u < nodes.len(),
        0 <= j < out_of(nodes[u]).len(),
    ensures
        ({
            let r = longest(base, order, outs_of(nodes));
            r[out_of(nodes[u])[j]] >= r[u] + 1
        }),
{
    lemma_longest_prefix(base, order, nodes, order.len() as int);
    assert(order.take(order.len() as int) =~= order);
    let i = order_index_of(order, nodes, u);
    assert(out_of(nodes[order[i]])[j] == out_of(nodes[u])[j]);
}

/// Where a topological order lists a node.
proof fn order_index_of(order: Seq<int>, nodes: Seq<Option<(Seq<char>, Seq<int>)>>, u: int) -> (i: int)
    requires
        is_topological(nodes, order),
        0 <= u < nodes.len(),
    ensures
        0 <= i < order.len(),
        order[i] == u,
{
    let s = order.to_set();
    assert forall|x: int| #[trigger] s.contains(x) implies 0 <= x < nodes.len() by {
        let i = choose|i: int| 0 <= i < order.len() && order[i] == x;
    }
    if !order.contains(u) {
        let full = Set::new(|x: int| 0 <= x < nodes.len());
        assert(s.subset_of(full.remove(u)));
        vstd::set_lib::lemma_int_range(0, nodes.len() as int);
        assert(full =~= vstd::set_lib::set_int_range(0, nodes.len() as int));
        vstd::set_lib::lemma_len_subset(s, full.remove(u));
        assert(order.no_duplicates()) by {
            assert forall|a: int, b: int| 0 <= a < order.len() && 0 <= b < order.len() && a != b implies order[a] != order[b] by {
                if a < b {
                } else {
                }
            }
        }
        order.unique_seq_to_set();
        assert(false);
    }
    choose|i: int| 0 <= i < order.len() && order[i] == u
}

/// Shifting longest-path ranks to put the start at zero keeps every edge
/// pointing downward: its target is never ranked above its source, and is
/// ranked at least one deeper when the source is the start or is not at rank
/// zero (only a state that the shift lifted above the start can share rank
/// zero with the target of its edge).
pub proof fn law_shifted_edges_go_deeper(
    base: Seq<int>,
    order: Seq<int>,
    nodes: Seq<Option<(Seq<char>, Seq<int>)>>,
    map: Map<Seq<char>, int>,
    start: Seq<char>,
    a: Seq<char>,
    b: Seq<char>,
)
    requires
        is_topological(nodes, order),
        base.len() == nodes.len(),
        forall|x: int, y: int| 0 <= x < nodes.len() && 0 <= y < out_of(nodes[x]).len() ==> 0 <= #[trigger] out_of(nodes[x])[y] < nodes.len(),
        forall|k: Seq<char>| #[trigger] map.dom().contains(k) ==> 0 <= map[k] < nodes.len(),
        map.dom().contains(a),
        map.dom().contains(b),
        out_of(nodes[map[a]]).contains(map[b]),
    ensures
        ({
            let r = normalized(longest(base, order, outs_of(nodes)), map, start);
            &&& r.dom().contains(a) && r.dom().contains(b)
            &&& r[b] >= r[a]
            &&& (r[a] > 0 || a == start) ==> r[b] >= r[a] + 1
        }),
{
    let j = choose|j: int| 0 <= j < out_of(nodes[map[a]]).len() && out_of(nodes[map[a]])[j] == map[b];
    law_longest_path_edges_go_deeper(base, order, nodes, map[a], j);
}

/// A state has a rank exactly when some pair names it.
pub(crate) proof fn lemma_ranks_of_dom(fl: Seq<(int, Seq<char>)>, k: Seq<char>)
    ensures
        crate::layout::ranks_of(fl).dom().contains(k) <==> exists|i: int| 0 <= i < fl.len() && (#[trigger] fl[i]).1 == k,
    decreases fl.len(),
{
    if fl.len() > 0 {
        let pre = fl.drop_last();
        lemma_ranks_of_dom(pre, k);
        if exists|i: int| 0 <= i < pre.len() && (#[trigger] pre[i]).1 == k {
            let i = choose|i: int| 0 <= i < pre.len() && (#[trigger] pre[i]).1 == k;
            assert(fl[i] == pre[i]);
        }
        if exists|i: int| 0 <= i < fl.len() && (#[trigger] fl[i]).1 == k {
            let i = choose|i: int| 0 <= i < fl.len() && (#[trigger] fl[i]).1 == k;
            if i < pre.len() {
                assert(pre[i] == fl[i]);
            }
        }
    }
}

/// The pairs of the levels name exactly the states that some level lists.
proof fn lemma_flat_has(ls: Seq<(int, Seq<Seq<char>>)>, k: Seq<char>)
    ensures
        (exists|i: int| 0 <= i < crate::layout::flat(ls).len() && (#[trigger] crate::layout::flat(ls)[i]).1 == k) <==> exists|
            j: int,
        | 0 <= j < ls.len() && (#[trigger] ls[j]).1.contains(k),
    decreases ls.len(),
{
    if ls.len() > 0 {
        let pre = ls.drop_last();
        lemma_flat_has(pre, k);
        let fp = crate::layout::flat(pre);
        let w = crate::layout::with_rank(ls.last().0, ls.last().1);
        let f = crate::layout::flat(ls);
        assert(f == fp + w);
        let j0 = ls.len() - 1;
        assert(ls[j0] == ls.last());
        if exists|i: int| 0 <= i < f.len() && (#[trigger] f[i]).1 == k {
            let i = choose|i: int| 0 <= i < f.len() && (#[trigger] f[i]).1 == k;
            if i < fp.len() {
                assert(fp[i] == f[i]);
                let j = choose|j: int| 0 <= j < pre.len() && (#[trigger] pre[j]).1.contains(k);
                assert(ls[j] == pre[j]);
            } else {
                assert(w[i - fp.len()] == f[i]);
                assert(ls.last().1[i - fp.len()] == k);
                assert(ls[j0].1.contains(k));
            }
        }
        if exists|j: int| 0 <= j < ls.len() && (#[trigger] ls[j]).1.contains(k) {
            let j = choose|j: int| 0 <= j < ls.len() && (#[trigger] ls[j]).1.contains(k);
            if j < pre.len() {
                assert(pre[j] == ls[j]);
                let i = choose|i: int| 0 <= i < fp.len() && (#[trigger] fp[i]).1 == k;
                assert(f[i] == fp[i]);
            } else {
                let q = choose|q: int| 0 <= q < ls[j].1.len() && ls[j].1[q] == k;
                assert(f[fp.len() + q] == w[q]);
                assert(f[fp.len() + q].1 == k);
            }
        }
    }
}

/// The states listed at rank `r` are those of the levels of rank `r`.
proof fn lemma_states_at_has(ls: Seq<(int, Seq<Seq<char>>)>, r: int, k: Seq<char>)
    ensures
        states_at(ls, r).contains(k) <==> exists|j: int| 0 <= j < ls.len() && (#[trigger] ls[j]).0 == r && ls[j].1.contains(k),
    decreases ls.len(),
{
    if ls.len() > 0 {
        let rest = ls.drop_first();
        lemma_states_at_has(rest, r, k);
        let head = if ls[0].0 == r { ls[0].1 } else { seq![] };
        let sa = states_at(ls, r);
        assert(sa == head + states_at(rest, r));
        if sa.contains(k) {
            let i = choose|i: int| 0 <= i < sa.len() && sa[i] == k;
            if i < head.len() {
                assert(ls[0].1[i] == k);
                assert(ls[0].1.contains(k));
            } else {
                assert(states_at(rest, r)[i - head.len()] == k);
                assert(states_at(rest, r).contains(k));
                let j = choose|j: int| 0 <= j < rest.len() && (#[trigger] rest[j]).0 == r && rest[j].1.contains(k);
                assert(ls[j + 1] == rest[j]);
            }
        }
        if exists|j: int| 0 <= j < ls.len() && (#[trigger] ls[j]).0 == r && ls[j].1.contains(k) {
            let j = choose|j: int| 0 <= j < ls.len() && (#[trigger] ls[j]).0 == r && ls[j].1.contains(k);
            if j == 0 {
                let q = choose|q: int| 0 <= q < ls[0].1.len() && ls[0].1[q] == k;
                assert(sa[q] == k);
            } else {
                assert(rest[j - 1] == ls[j]);
                assert(states_at(rest, r).contains(k));
                let q = choose|q: int| 0 <= q < states_at(rest, r).len() && states_at(rest, r)[q] == k;
                assert(sa[head.len() + q] == k);
            }
        }
    }
}

/// The ordered levels rank exactly the states of the list that have a depth.
pub proof fn law_levels_rank_states_with_depth(
    states: Seq<Seq<char>>,
    edges: Seq<(Seq<char>, Seq<char>)>,
    depths: Map<Seq<char>, int>,
    k: Seq<char>,
)
    ensures
        crate::layout::ranks_of(crate::layout::flat(ordered_levels(states, edges, depths))).dom().contains(k) <==> (
        states.contains(k) && depths.dom().contains(k)),
{
    let ls = ordered_levels(states, edges, depths);
    law_levels_hold_states_by_depth(states, edges, depths);
    lemma_ranks_of_dom(crate::layout::flat(ls), k);
    lemma_flat_has(ls, k);
    if crate::layout::ranks_of(crate::layout::flat(ls)).dom().contains(k) {
        let j = choose|j: int| 0 <= j < ls.len() && (#[trigger] ls[j]).1.contains(k);
        let r = ls[j].0;
        lemma_states_at_has(ls, r, k);
        let f = states.filter(at_depth(depths, r));
        assert(states_at(ls, r).to_multiset() =~= f.to_multiset());
        vstd::seq_lib::to_multiset_contains(states_at(ls, r), k);
        vstd::seq_lib::to_multiset_contains(f, k);
        assert(f.contains(k));
        #[allow(deprecated)]
        states.filter_lemma(at_depth(depths, r));
        let q = choose|q: int| 0 <= q < f.len() && f[q] == k;
        assert(at_depth(depths, r)(f[q]));
        assert(depths.dom().contains(k));
        states.lemma_filter_contains_rev(at_depth(depths, r), k);
        assert(states.contains(k));
    }
    if states.contains(k) && depths.dom().contains(k) {
        let r = depths[k];
        let f = states.filter(at_depth(depths, r));
        let i = choose|i: int| 0 <= i < states.len() && states[i] == k;
        states.lemma_filter_contains(at_depth(depths, r), i);
        assert(states_at(ls, r).to_multiset() =~= f.to_multiset());
        vstd::seq_lib::to_multiset_contains(states_at(ls, r), k);
        vstd::seq_lib::to_multiset_contains(f, k);
        assert(f.contains(k));
        assert(states_at(ls, r).contains(k));
        lemma_states_at_has(ls, r, k);
        let j = choose|j: int| 0 <= j < ls.len() && (#[trigger] ls[j]).0 == r && ls[j].1.contains(k);
        assert(ls[j].1.contains(k));
        let fl = crate::layout::flat(ls);
        assert(exists|i: int| 0 <= i < fl.len() && (#[trigger] fl[i]).1 == k);
        let i = choose|i: int| 0 <= i < fl.len() && (#[trigger] fl[i]).1 == k;
        assert(fl[i].1 == k);
        lemma_ranks_of_dom(fl, k);
        assert(crate::layout::ranks_of(fl).dom().contains(k));
    }
}

/// Ranks of zero for `n` nodes.
pub open spec fn zero_ranks(n: nat) -> Seq<int> {
    Seq::new(n, |i: int| 0int)
}

/// Whether `p` is a path of the graph: one node at least, each an index of
/// the graph, each next one a target of an edge of the one before.
pub open spec fn is_path(nodes: Seq<Option<(Seq<char>, Seq<int>)>>, p: Seq<int>) -> bool {
    &&& p.len() >= 1
    &&& forall|i: int| 0 <= i < p.len() ==> 0 <= #[trigger] p[i] < nodes.len()
    &&& forall|i: int, j: int| #![trigger p[i], p[j]] 0 <= i && j == i + 1 && j < p.len() ==> out_of(nodes[p[i]]).contains(p[j])
}

/// Raising targets sets each one to the larger of its rank and `cur + 1`,
/// and leaves every other rank alone.
proof fn lemma_relax_exact(ranks: Seq<int>, nbrs: Seq<int>, cur: int, x: int)
    requires
        forall|k: int| 0 <= k < nbrs.len() ==> 0 <= #[trigger] nbrs[k] < ranks.len(),
        0 <= x < ranks.len(),
    ensures
        relax(ranks, nbrs, cur)[x] == ranks[x] || (nbrs.contains(x) && relax(ranks, nbrs, cur)[x] == cur + 1),
    decreases nbrs.len(),
{
    if nbrs.len() > 0 {
        let pre = nbrs.drop_last();
        lemma_relax_exact(ranks, pre, cur, x);
        lemma_relax_mono(ranks, pre, cur);
        if pre.contains(x) {
            let k = choose|k: int| 0 <= k < pre.len() && pre[k] == x;
            assert(nbrs[k] == x);
        }
        assert(nbrs[nbrs.len() - 1] == nbrs.last());
    }
}

/// Taking nodes in a topological order from ranks of zero, every node of a
/// positive rank is the target of an edge from a node already taken whose
/// rank is one less.
proof fn lemma_longest_witness(order: Seq<int>, nodes: Seq<Option<(Seq<char>, Seq<int>)>>, k: int)
    requires
        is_topological(nodes, order),
        0 <= k <= order.len(),
        forall|u: int, j: int| 0 <= u < nodes.len() && 0 <= j < out_of(nodes[u]).len() ==> 0 <= #[trigger] out_of(nodes[u])[j] < nodes.len(),
    ensures
        longest(zero_ranks(nodes.len()), order.take(k), outs_of(nodes)).len() == nodes.len(),
        forall|v: int| 0 <= v < nodes.len() ==> #[trigger] longest(zero_ranks(nodes.len()), order.take(k), outs_of(nodes))[v] >= 0,
        forall|v: int|
            0 <= v < nodes.len() && #[trigger] longest(zero_ranks(nodes.len()), order.take(k), outs_of(nodes))[v] > 0
                ==> exists|i: int|
                0 <= i < k && out_of(nodes[order[i]]).contains(v) && longest(
                    zero_ranks(nodes.len()),
                    order.take(k),
                    outs_of(nodes),
                )[#[trigger] order[i]] + 1 == longest(zero_ranks(nodes.len()), order.take(k), outs_of(nodes))[v],
    decreases k,
{
    let zeros = zero_ranks(nodes.len());
    let outs = outs_of(nodes);
    if k > 0 {
        lemma_longest_witness(order, nodes, k - 1);
        let prev = longest(zeros, order.take(k - 1), outs);
        assert(order.take(k).drop_last() =~= order.take(k - 1));
        let u = order[k - 1];
        assert(order.take(k).last() == u);
        assert(outs[u] == out_of(nodes[u]));
        let r = longest(zeros, order.take(k), outs);
        assert(r == relax(prev, outs[u], prev[u]));
        lemma_relax_mono(prev, outs[u], prev[u]);
        assert forall|i: int| 0 <= i < k implies !outs[u].contains(#[trigger] order[i]) by {
            if outs[u].contains(order[i]) {
                let q = choose|q: int| 0 <= q < outs[u].len() && outs[u][q] == order[i];
                assert(out_of(nodes[order[k - 1]])[q] == order[i]);
            }
        }
        assert forall|i: int| 0 <= i < k implies r[#[trigger] order[i]] == prev[order[i]] by {
        }
        assert forall|v: int| 0 <= v < nodes.len() implies #[trigger] r[v] >= 0 by {
        }
        assert forall|v: int| 0 <= v < nodes.len() && #[trigger] r[v] > 0 implies exists|i: int|
            0 <= i < k && out_of(nodes[order[i]]).contains(v) && r[#[trigger] order[i]] + 1 == r[v] by {
            lemma_relax_exact(prev, outs[u], prev[u], v);
            if r[v] == prev[v] {
                let i = choose|i: int| 0 <= i < k - 1 && out_of(nodes[order[i]]).contains(v) && prev[#[trigger] order[i]] + 1 == prev[v];
                assert(r[order[i]] == prev[order[i]]);
            } else {
                assert(r[order[k - 1]] == prev[u]);
            }
        }
    } else {
        assert(order.take(0) =~= Seq::<int>::empty());
    }
}

/// Every node of longest-path rank `n` ends a path of `n` edges.
proof fn lemma_path_to(order: Seq<int>, nodes: Seq<Option<(Seq<char>, Seq<int>)>>, v: int) -> (p: Seq<int>)
    requires
        is_topological(nodes, order),
        forall|u: int, j: int| 0 <= u < nodes.len() && 0 <= j < out_of(nodes[u]).len() ==> 0 <= #[trigger] out_of(nodes[u])[j] < nodes.len(),
        0 <= v < nodes.len(),
    ensures
        is_path(nodes, p),
        p[p.len() - 1] == v,
        p.len() == longest(zero_ranks(nodes.len()), order, outs_of(nodes))[v] + 1,
    decreases longest(zero_ranks(nodes.len()), order, outs_of(nodes))[v],
{
    let zeros = zero_ranks(nodes.len());
    let l = longest(zeros, order, outs_of(nodes));
    lemma_longest_witness(order, nodes, order.len() as int);
    assert(order.take(order.len() as int) =~= order);
    if l[v] == 0 {
        let p = seq![v];
        assert(is_path(nodes, p));
        p
    } else {
        let i = choose|i: int| 0 <= i < order.len() && out_of(nodes[order[i]]).contains(v) && l[#[trigger] order[i]] + 1 == l[v];
        let u = order[i];
        let q = lemma_path_to(order, nodes, u);
        let p = q.push(v);
        assert(p[p.len() - 1] == v);
        assert forall|a: int| 0 <= a < p.len() implies 0 <= #[trigger] p[a] < nodes.len() by {
            if a < q.len() {
                assert(p[a] == q[a]);
            }
        }
        assert forall|a: int, b: int| #![trigger p[a], p[b]] 0 <= a && b == a + 1 && b < p.len() implies out_of(nodes[p[a]]).contains(p[b]) by {
            if b < q.len() {
                assert(p[a] == q[a] && p[b] == q[b]);
            } else {
                assert(p[a] == q[q.len() - 1]);
            }
        }
        p
    }
}

/// A path of `n` edges ends at a node of longest-path rank at least `n` more
/// than where it starts.
proof fn lemma_path_rank(order: Seq<int>, nodes: Seq<Option<(Seq<char>, Seq<int>)>>, p: Seq<int>)
    requires
        is_topological(nodes, order),
        forall|u: int, j: int| 0 <= u < nodes.len() && 0 <= j < out_of(nodes[u]).len() ==> 0 <= #[trigger] out_of(nodes[u])[j] < nodes.len(),
        is_path(nodes, p),
    ensures
        longest(zero_ranks(nodes.len()), order, outs_of(nodes))[p[p.len() - 1]] >= longest(
            zero_ranks(nodes.len()),
            order,
            outs_of(nodes),
        )[p[0]] + p.len() - 1,
    decreases p.len(),
{
    if p.len() > 1 {
        let q = p.drop_last();
        assert forall|a: int| 0 <= a < q.len() implies 0 <= #[trigger] q[a] < nodes.len() by {
            assert(q[a] == p[a]);
        }
        assert forall|a: int, b: int| #![trigger q[a], q[b]] 0 <= a && b == a + 1 && b < q.len() implies out_of(nodes[q[a]]).contains(q[b]) by {
            assert(q[a] == p[a] && q[b] == p[b]);
        }
        lemma_path_rank(order, nodes, q);
        let x = p[p.len() - 2];
        let y = p[p.len() - 1];
        assert(out_of(nodes[x]).contains(y));
        let j = choose|j: int| 0 <= j < out_of(nodes[x]).len() && out_of(nodes[x])[j] == y;
        law_longest_path_edges_go_deeper(zero_ranks(nodes.len()), order, nodes, x, j);
        assert(q[q.len() - 1] == x);
        assert(q[0] == p[0]);
    }
}

/// Longest-path ranks taken in a topological order from ranks of zero are
/// longest path lengths: no path ending at a node has more edges than the
/// node's rank, and some path ending there has exactly that many.
pub proof fn law_longest_ranks_are_longest_paths(order: Seq<int>, nodes: Seq<Option<(Seq<char>, Seq<int>)>>, v: int)
    requires
        is_topological(nodes, order),
        forall|u: int, j: int| 0 <= u < nodes.len() && 0 <= j < out_of(nodes[u]).len() ==> 0 <= #[trigger] out_of(nodes[u])[j] < nodes.len(),
        0 <= v < nodes.len(),
    ensures
        forall|p: Seq<int>| #[trigger] is_path(nodes, p) && p[p.len() - 1] == v ==> p.len() - 1 <= longest(
            zero_ranks(nodes.len()),
            order,
            outs_of(nodes),
        )[v],
        exists|p: Seq<int>| is_path(nodes, p) && p[p.len() - 1] == v && p.len() - 1 == longest(
            zero_ranks(nodes.len()),
            order,
            outs_of(nodes),
        )[v],
{
    let l = longest(zero_ranks(nodes.len()), order, outs_of(nodes));
    lemma_longest_witness(order, nodes, order.len() as int);
    assert(order.take(order.len() as int) =~= order);
    assert forall|p: Seq<int>| #[trigger] is_path(nodes, p) && p[p.len() - 1] == v implies p.len() - 1 <= l[v] by {
        lemma_path_rank(order, nodes, p);
        assert(l[p[0]] >= 0);
    }
    let p = lemma_path_to(order, nodes, v);
}

} // verus!
