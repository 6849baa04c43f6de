//! A layering that already fits the preferred width comes back from the
//! spilling step unchanged.

use vstd::prelude::*;
use crate::layout::{first_free, flat, floor_of, forward_into, place, preds_of, rank0, ranks_of, rebalanced, spill, with_rank};
use crate::layout_laws::{increasing, lemma_ranks_of_dom};
use crate::maps::count_of;

verus! {

/// How many pairs have rank `t`.
pub open spec fn cnt(fl: Seq<(int, Seq<char>)>, t: int) -> int
    decreases fl.len(),
{
    if fl.len() == 0 {
        0
    } else {
        cnt(fl.drop_last(), t) + if fl.last().0 == t {
            1int
        } else {
            0
        }
    }
}

/// Whether no state occurs in two pairs.
pub open spec fn distinct_states(fl: Seq<(int, Seq<char>)>) -> bool {
    forall|i: int, j: int| 0 <= i < j < fl.len() ==> (#[trigger] fl[i]).1 != (#[trigger] fl[j]).1
}

/// Whether no edge joins two different states of one level.
pub open spec fn no_edge_within(ls: Seq<(int, Seq<Seq<char>>)>, edges: Seq<(Seq<char>, Seq<char>)>) -> bool {
    forall|q: int, j: int|
        0 <= q < edges.len() && 0 <= j < ls.len() && (#[trigger] edges[q]).0 != edges[q].1 && (#[trigger] ls[j]).1.contains(
            edges[q].0,
        ) ==> !ls[j].1.contains(edges[q].1)
}

/// Counting over two sequences one after the other adds up.
proof fn lemma_cnt_add(a: Seq<(int, Seq<char>)>, b: Seq<(int, Seq<char>)>, t: int)
    ensures
        cnt(a + b, t) == cnt(a, t) + cnt(b, t),
    decreases b.len(),
{
    if b.len() > 0 {
        lemma_cnt_add(a, b.drop_last(), t);
        assert((a + b).drop_last() =~= a + b.drop_last());
        assert((a + b).last() == b.last());
    }
}

/// A level's pairs all have the level's rank.
proof fn lemma_cnt_with_rank(r: int, xs: Seq<Seq<char>>, t: int)
    ensures
        cnt(with_rank(r, xs), t) == if r == t {
            xs.len() as int
        } else {
            0
        },
    decreases xs.len(),
{
    if xs.len() > 0 {
        lemma_cnt_with_rank(r, xs.drop_last(), t);
        assert(with_rank(r, xs).drop_last() =~= with_rank(r, xs.drop_last()));
    }
}

/// With increasing ranks and no level wider than `width`, no rank has more
/// than `width` pairs, and a rank that no level has has none.
proof fn lemma_cnt_flat(ls: Seq<(int, Seq<Seq<char>>)>, width: int, t: int)
    requires
        increasing(ls),
        width >= 0,
        forall|j: int| 0 <= j < ls.len() ==> (#[trigger] ls[j]).1.len() <= width,
    ensures
        cnt(flat(ls), t) <= width,
        (forall|j: int| 0 <= j < ls.len() ==> (#[trigger] ls[j]).0 != t) ==> cnt(flat(ls), t) == 0,
    decreases ls.len(),
{
    if ls.len() > 0 {
        let pre = ls.drop_last();
        assert(increasing(pre)) by {
            assert forall|i: int, j: int| 0 <= i < j < pre.len() implies #[trigger] pre[i].0 < #[trigger] pre[j].0 by {
                assert(pre[i] == ls[i] && pre[j] == ls[j]);
            }
        }
        assert forall|j: int| 0 <= j < pre.len() implies (#[trigger] pre[j]).1.len() <= width by {
            assert(pre[j] == ls[j]);
        }
        lemma_cnt_flat(pre, width, t);
        let last = ls.last();
        assert(ls[ls.len() - 1] == last);
        lemma_cnt_add(flat(pre), with_rank(last.0, last.1), t);
        lemma_cnt_with_rank(last.0, last.1, t);
        if last.0 == t {
            assert forall|j: int| 0 <= j < pre.len() implies (#[trigger] pre[j]).0 != t by {
                assert(pre[j] == ls[j]);
                assert(ls[j].0 < ls[ls.len() - 1].0);
            }
        }
        if forall|j: int| 0 <= j < ls.len() ==> (#[trigger] ls[j]).0 != t {
            assert forall|j: int| 0 <= j < pre.len() implies (#[trigger] pre[j]).0 != t by {
                assert(pre[j] == ls[j]);
            }
        }
    }
}

/// Counting over a prefix never gives more.
proof fn lemma_cnt_prefix(fl: Seq<(int, Seq<char>)>, k: int, t: int)
    requires
        0 <= k <= fl.len(),
    ensures
        cnt(fl.take(k), t) <= cnt(fl, t),
    decreases fl.len() - k,
{
    if k < fl.len() {
        lemma_cnt_prefix(fl, k + 1, t);
        assert(fl.take(k + 1).drop_last() =~= fl.take(k));
    } else {
        assert(fl.take(k) =~= fl);
    }
}

/// Each pair of the levels comes from a level of its rank that lists its state.
proof fn lemma_flat_entry(ls: Seq<(int, Seq<Seq<char>>)>, i: int)
    requires
        0 <= i < flat(ls).len(),
    ensures
        exists|j: int| 0 <= j < ls.len() && (#[trigger] ls[j]).0 == flat(ls)[i].0 && ls[j].1.contains(flat(ls)[i].1),
    decreases ls.len(),
{
    let pre = ls.drop_last();
    let fp = flat(pre);
    let last = ls.last();
    let w = with_rank(last.0, last.1);
    assert(flat(ls) == fp + w);
    if i < fp.len() {
        lemma_flat_entry(pre, i);
        assert(flat(ls)[i] == fp[i]);
        let j = choose|j: int| 0 <= j < pre.len() && (#[trigger] pre[j]).0 == fp[i].0 && pre[j].1.contains(fp[i].1);
        assert(ls[j] == pre[j]);
    } else {
        let m = i - fp.len();
        assert(flat(ls)[i] == w[m]);
        assert(w[m] == (last.0, last.1[m]));
        assert(ls[ls.len() - 1] == last);
        assert(last.1.contains(last.1[m]));
    }
}

/// With every state once, a state's rank is the rank of its pair.
proof fn lemma_ranks_of_at(fl: Seq<(int, Seq<char>)>, i: int)
    requires
        distinct_states(fl),
        0 <= i < fl.len(),
    ensures
        ranks_of(fl).dom().contains(fl[i].1),
        ranks_of(fl)[fl[i].1] == fl[i].0,
    decreases fl.len(),
{
    let pre = fl.drop_last();
    if i < pre.len() {
        assert(distinct_states(pre)) by {
            assert forall|a: int, b: int| 0 <= a < b < pre.len() implies (#[trigger] pre[a]).1 != (#[trigger] pre[b]).1 by {
                assert(pre[a] == fl[a] && pre[b] == fl[b]);
            }
        }
        lemma_ranks_of_at(pre, i);
        assert(pre[i] == fl[i]);
        assert(fl[i].1 != fl[fl.len() - 1].1);
    }
}

/// The floor is the base rank when every placed predecessor lies above it.
proof fn lemma_floor_is_base(adj: Map<Seq<char>, int>, ps: Seq<Seq<char>>, base: int)
    requires
        forall|m: int| 0 <= m < ps.len() && adj.dom().contains(#[trigger] ps[m]) ==> adj[ps[m]] < base,
    ensures
        floor_of(adj, ps, base) == base,
    decreases ps.len(),
{
    if ps.len() > 0 {
        let pre = ps.drop_last();
        assert forall|m: int| 0 <= m < pre.len() && adj.dom().contains(#[trigger] pre[m]) implies adj[pre[m]] < base by {
            assert(pre[m] == ps[m]);
        }
        lemma_floor_is_base(adj, pre, base);
        assert(ps[ps.len() - 1] == ps.last());
    }
}

/// Spilling the first `k` pairs of a fitting layering places each of them at
/// its own rank, and counts at each rank the pairs of that rank.
proof fn lemma_fit_prefix(ls: Seq<(int, Seq<Seq<char>>)>, edges: Seq<(Seq<char>, Seq<char>)>, width: int, k: int)
    requires
        width >= 1,
        increasing(ls),
        distinct_states(flat(ls)),
        forall|j: int| 0 <= j < ls.len() ==> (#[trigger] ls[j]).1.len() <= width,
        no_edge_within(ls, edges),
        0 <= k <= flat(ls).len(),
    ensures
        spill(flat(ls).take(k), ranks_of(flat(ls)), edges, width).adj == ranks_of(flat(ls).take(k)),
        forall|t: int| #[trigger] count_of(spill(flat(ls).take(k), ranks_of(flat(ls)), edges, width).occ, t) == cnt(flat(ls).take(k), t),
    decreases k,
{
    let fl = flat(ls);
    let cur = ranks_of(fl);
    if k == 0 {
        assert(fl.take(0) =~= Seq::<(int, Seq<char>)>::empty());
    } else {
        let j = k - 1;
        lemma_fit_prefix(ls, edges, width, j);
        let pre = fl.take(j);
        let cur_k = fl.take(k);
        assert(cur_k.drop_last() =~= pre);
        assert(cur_k.last() == fl[j]);
        let st = spill(pre, cur, edges, width);
        let r = fl[j].0;
        let s = fl[j].1;
        let ps = preds_of(cur, edges, s);
        assert(distinct_states(pre)) by {
            assert forall|a: int, b: int| 0 <= a < b < pre.len() implies (#[trigger] pre[a]).1 != (#[trigger] pre[b]).1 by {
                assert(pre[a] == fl[a] && pre[b] == fl[b]);
            }
        }
        lemma_ranks_of_at(fl, j);
        lemma_flat_entry(ls, j);
        let js = choose|x: int| 0 <= x < ls.len() && (#[trigger] ls[x]).0 == fl[j].0 && ls[x].1.contains(fl[j].1);
        let fw = forward_into(cur, s);
        let filt = edges.filter(fw);
        #[allow(deprecated)]
        edges.filter_lemma(fw);
        assert forall|m: int| 0 <= m < ps.len() && st.adj.dom().contains(#[trigger] ps[m]) implies st.adj[ps[m]] < r by {
            let p = ps[m];
            assert(p == filt[m].0);
            let e = filt[m];
            assert(fw(e));
            assert(filt.contains(filt[m]));
            edges.lemma_filter_contains_rev(fw, e);
            assert(edges.contains(e));
            let q = choose|q: int| 0 <= q < edges.len() && edges[q] == e;
            lemma_ranks_of_dom(pre, p);
            let i = choose|i: int| 0 <= i < pre.len() && (#[trigger] pre[i]).1 == p;
            assert(pre[i] == fl[i]);
            lemma_ranks_of_at(pre, i);
            lemma_ranks_of_at(fl, i);
            assert(rank0(cur, e.0) == fl[i].0);
            assert(rank0(cur, e.1) == r);
            if fl[i].0 == r {
                lemma_flat_entry(ls, i);
                let ji = choose|x: int| 0 <= x < ls.len() && (#[trigger] ls[x]).0 == fl[i].0 && ls[x].1.contains(fl[i].1);
                if ji < js {
                    assert(ls[ji].0 < ls[js].0);
                } else if js < ji {
                    assert(ls[js].0 < ls[ji].0);
                }
                assert(ls[js].1.contains(edges[q].0));
                assert(false);
            }
        }
        lemma_floor_is_base(st.adj, ps, r);
        lemma_cnt_flat(ls, width, r);
        lemma_cnt_prefix(fl, k, r);
        assert(cnt(cur_k, r) == cnt(pre, r) + 1);
        assert(count_of(st.occ, r) < width);
        let lim = (if r > st.top { r } else { st.top }) + 1;
        assert(first_free(st.occ, r, width, lim) == r);
        let nx = place(st, r, s, ps, width);
        assert(nx == spill(cur_k, cur, edges, width));
        assert(nx.adj == ranks_of(cur_k));
        assert(nx.occ == st.occ.insert(r, count_of(st.occ, r) + 1));
        assert forall|t: int| #[trigger] count_of(nx.occ, t) == cnt(cur_k, t) by {
            assert(cnt(cur_k, t) == cnt(pre, t) + if r == t { 1int } else { 0 });
            assert(count_of(st.occ, t) == cnt(pre, t));
            if t != r {
                assert(nx.occ.dom().contains(t) == st.occ.dom().contains(t));
                if st.occ.dom().contains(t) {
                    assert(nx.occ[t] == st.occ[t]);
                }
            }
        }
    }
}

/// A layering that already fits comes back unchanged: where the levels have
/// strictly increasing ranks, list each state once, hold no more than
/// `width` states each, and no edge joins two different states of one
/// level, every state keeps the rank of its level.
pub proof fn law_fitting_levels_unchanged(
    ls: Seq<(int, Seq<Seq<char>>)>,
    edges: Seq<(Seq<char>, Seq<char>)>,
    width: int,
)
    requires
        width >= 1,
        increasing(ls),
        distinct_states(flat(ls)),
        forall|j: int| 0 <= j < ls.len() ==> (#[trigger] ls[j]).1.len() <= width,
        no_edge_within(ls, edges),
    ensures
        rebalanced(ls, edges, width) == ranks_of(flat(ls)),
{
    let fl = flat(ls);
    lemma_fit_prefix(ls, edges, width, fl.len() as int);
    assert(fl.take(fl.len() as int) =~= fl);
}

/// Whether an edge neither joins a state to itself nor comes from a state
/// that the pairs list after its target.
pub open spec fn not_later(fl: Seq<(int, Seq<char>)>) -> spec_fn((Seq<char>, Seq<char>)) -> bool {
    |e: (Seq<char>, Seq<char>)|
        e.0 != e.1 && !(exists|i: int, j: int| 0 <= j < i < fl.len() && (#[trigger] fl[i]).1 == e.0 && (#[trigger] fl[j]).1 == e.1)
}

/// The floor is the base rank raised to one below the lowest placed predecessor.
proof fn lemma_floor_char(adj: Map<Seq<char>, int>, ps: Seq<Seq<char>>, b: int)
    ensures
        floor_of(adj, ps, b) >= b,
        forall|m: int| 0 <= m < ps.len() && adj.dom().contains(#[trigger] ps[m]) ==> floor_of(adj, ps, b) >= adj[ps[m]] + 1,
        floor_of(adj, ps, b) == b || exists|m: int|
            0 <= m < ps.len() && adj.dom().contains(#[trigger] ps[m]) && floor_of(adj, ps, b) == adj[ps[m]] + 1,
    decreases ps.len(),
{
    if ps.len() > 0 {
        let pre = ps.drop_last();
        lemma_floor_char(adj, pre, b);
        let l = ps.len() - 1;
        assert(ps[l] == ps.last());
        assert forall|m: int| 0 <= m < ps.len() && adj.dom().contains(#[trigger] ps[m]) implies floor_of(adj, ps, b)
            >= adj[ps[m]] + 1 by {
            if m < l {
                assert(pre[m] == ps[m]);
            }
        }
        if floor_of(adj, ps, b) != b && floor_of(adj, ps, b) == floor_of(adj, pre, b) {
            let m = choose|m: int| 0 <= m < pre.len() && adj.dom().contains(#[trigger] pre[m]) && floor_of(adj, pre, b) == adj[pre[m]] + 1;
            assert(ps[m] == pre[m]);
        }
    }
}

/// Two lists with the same placed states give the same floor.
proof fn lemma_floor_same(adj: Map<Seq<char>, int>, xs: Seq<Seq<char>>, ys: Seq<Seq<char>>, b: int)
    requires
        forall|x: Seq<char>| adj.dom().contains(x) ==> (xs.contains(x) <==> ys.contains(x)),
    ensures
        floor_of(adj, xs, b) == floor_of(adj, ys, b),
{
    lemma_floor_char(adj, xs, b);
    lemma_floor_char(adj, ys, b);
    let fx = floor_of(adj, xs, b);
    let fy = floor_of(adj, ys, b);
    if fy != b {
        let m = choose|m: int| 0 <= m < ys.len() && adj.dom().contains(#[trigger] ys[m]) && fy == adj[ys[m]] + 1;
        assert(ys.contains(ys[m]));
        let m2 = choose|m2: int| 0 <= m2 < xs.len() && xs[m2] == ys[m];
        assert(adj.dom().contains(xs[m2]));
    }
    if fx != b {
        let m = choose|m: int| 0 <= m < xs.len() && adj.dom().contains(#[trigger] xs[m]) && fx == adj[xs[m]] + 1;
        assert(xs.contains(xs[m]));
        let m2 = choose|m2: int| 0 <= m2 < ys.len() && ys[m2] == xs[m];
        assert(adj.dom().contains(ys[m2]));
    }
}

/// A source of an edge into `s` among the predecessors is the source of an
/// edge of the list that goes into `s` and does not go up.
proof fn lemma_pred_edge(cur: Map<Seq<char>, int>, edges: Seq<(Seq<char>, Seq<char>)>, s: Seq<char>, x: Seq<char>)
    ensures
        preds_of(cur, edges, s).contains(x) <==> exists|q: int|
            0 <= q < edges.len() && (#[trigger] edges[q]).0 == x && forward_into(cur, s)(edges[q]),
{
    let fw = forward_into(cur, s);
    let filt = edges.filter(fw);
    let ps = preds_of(cur, edges, s);
    #[allow(deprecated)]
    edges.filter_lemma(fw);
    if ps.contains(x) {
        let m = choose|m: int| 0 <= m < ps.len() && ps[m] == x;
        assert(ps[m] == filt[m].0);
        assert(filt.contains(filt[m]));
        edges.lemma_filter_contains_rev(fw, filt[m]);
        let q = choose|q: int| 0 <= q < edges.len() && edges[q] == filt[m];
        assert(fw(filt[m]));
        assert(edges[q].0 == x && fw(edges[q]));
    }
    if exists|q: int| 0 <= q < edges.len() && (#[trigger] edges[q]).0 == x && fw(edges[q]) {
        let q = choose|q: int| 0 <= q < edges.len() && (#[trigger] edges[q]).0 == x && fw(edges[q]);
        edges.lemma_filter_contains(fw, q);
        let m = choose|m: int| 0 <= m < filt.len() && filt[m] == edges[q];
        assert(ps[m] == x);
    }
}

/// Spilling a prefix of the pairs gives the same placement with the edges
/// that come from later states left out.
proof fn lemma_later_prefix(ls: Seq<(int, Seq<Seq<char>>)>, edges: Seq<(Seq<char>, Seq<char>)>, width: int, k: int)
    requires
        distinct_states(flat(ls)),
        0 <= k <= flat(ls).len(),
    ensures
        spill(flat(ls).take(k), ranks_of(flat(ls)), edges.filter(not_later(flat(ls))), width) == spill(
            flat(ls).take(k),
            ranks_of(flat(ls)),
            edges,
            width,
        ),
    decreases k,
{
    let fl = flat(ls);
    let cur = ranks_of(fl);
    let keep = not_later(fl);
    let e2 = edges.filter(keep);
    if k > 0 {
        let j = k - 1;
        lemma_later_prefix(ls, edges, width, j);
        let pre = fl.take(j);
        let cur_k = fl.take(k);
        assert(cur_k.drop_last() =~= pre);
        assert(cur_k.last() == fl[j]);
        let st = spill(pre, cur, edges, width);
        crate::layout_laws::lemma_spill_down_pub(pre, cur, edges, width);
        let s = fl[j].1;
        let xs = preds_of(cur, e2, s);
        let ys = preds_of(cur, edges, s);
        #[allow(deprecated)]
        edges.filter_lemma(keep);
        assert forall|x: Seq<char>| st.adj.dom().contains(x) implies (xs.contains(x) <==> ys.contains(x)) by {
            lemma_pred_edge(cur, e2, s, x);
            lemma_pred_edge(cur, edges, s, x);
            if xs.contains(x) {
                let q = choose|q: int| 0 <= q < e2.len() && (#[trigger] e2[q]).0 == x && forward_into(cur, s)(e2[q]);
                assert(e2.contains(e2[q]));
                edges.lemma_filter_contains_rev(keep, e2[q]);
                let q2 = choose|q2: int| 0 <= q2 < edges.len() && edges[q2] == e2[q];
                assert(edges[q2].0 == x);
            }
            if ys.contains(x) {
                let q = choose|q: int| 0 <= q < edges.len() && (#[trigger] edges[q]).0 == x && forward_into(cur, s)(edges[q]);
                lemma_ranks_of_dom(pre, x);
                let i = choose|i: int| 0 <= i < pre.len() && (#[trigger] pre[i]).1 == x;
                assert(pre[i] == fl[i]);
                assert(edges[q].1 == s);
                if exists|a: int, b: int| 0 <= b < a < fl.len() && (#[trigger] fl[a]).1 == edges[q].0 && (#[trigger] fl[b]).1 == edges[q].1 {
                    let (a, b) = choose|a: int, b: int| 0 <= b < a < fl.len() && (#[trigger] fl[a]).1 == edges[q].0 && (#[trigger] fl[b]).1 == edges[q].1;
                    if a != i {
                        if a < i {
                            assert(fl[a].1 != fl[i].1);
                        } else {
                            assert(fl[i].1 != fl[a].1);
                        }
                    }
                    if b != j {
                        if b < j {
                            assert(fl[b].1 != fl[j].1);
                        } else {
                            assert(fl[j].1 != fl[b].1);
                        }
                    }
                }
                assert(keep(edges[q]));
                edges.lemma_filter_contains(keep, q);
                let m = choose|m: int| 0 <= m < e2.len() && e2[m] == edges[q];
                assert(e2[m].0 == x);
            }
        }
        lemma_floor_same(st.adj, xs, ys, fl[j].0);
    }
}

/// Edges from a state to itself, and edges from a state that the levels
/// list after their target (every edge that goes up among them), never pull
/// a state down: leaving them out changes nothing, where each state is listed once.
pub proof fn law_later_edges_change_nothing(
    ls: Seq<(int, Seq<Seq<char>>)>,
    edges: Seq<(Seq<char>, Seq<char>)>,
    width: int,
)
    requires
        distinct_states(flat(ls)),
    ensures
        rebalanced(ls, edges.filter(not_later(flat(ls))), width) == rebalanced(ls, edges, width),
{
    let fl = flat(ls);
    lemma_later_prefix(ls, edges, width, fl.len() as int);
    assert(fl.take(fl.len() as int) =~= fl);
}

} // verus!
