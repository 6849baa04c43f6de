//! Layered layout of the state diagram: how wide a level may grow, which
//! transitions connect which pair of states, how states spill to lower levels,
//! and in which order each level lists its states.

use vstd::prelude::*;
use crate::model::{strings_view, ActionView, ParsedMachine};
use crate::order::{chars_lt, lemma_lt_irreflexive, lemma_lt_total, lemma_lt_transitive, str_lt};
use crate::text::chars_of;
use crate::maps::{count_of, CountMap, RankMap};

verus! {

/// How many states a level should hold at most, for a machine with `n`
/// states: one for a single state, else the ceiling of `0.9 * sqrt(n)` kept
/// within `[2, 4]`.
pub open spec fn is_level_width(n: int, r: int) -> bool {
    if n <= 1 {
        r == 1
    } else {
        &&& 2 <= r <= 4
        &&& r < 4 ==> 100 * r * r >= 81 * n
        &&& r > 2 ==> 100 * (r - 1) * (r - 1) < 81 * n
    }
}

/// The preferred number of states per level.
pub fn preferred_level_width(state_count: usize) -> (r: usize)
    ensures
        is_level_width(state_count as int, r as int),
{
    if state_count <= 1 {
        1
    } else if state_count <= 4 {
        2
    } else if state_count <= 11 {
        3
    } else {
        4
    }
}

/// A transition edge: source state, target state, action name.
pub type Triple = (Seq<char>, Seq<char>, Seq<char>);

/// The edges from `f` to each of `tos`, labelled `name`.
pub open spec fn pairs_from(f: Seq<char>, tos: Seq<Seq<char>>, name: Seq<char>) -> Seq<Triple> {
    tos.map_values(|t: Seq<char>| (f, t, name))
}

/// The edges of one action: from each source (in order) to each target (in order).
pub open spec fn action_edges(name: Seq<char>, froms: Seq<Seq<char>>, tos: Seq<Seq<char>>) -> Seq<Triple>
    decreases froms.len(),
{
    if froms.len() == 0 {
        seq![]
    } else {
        action_edges(name, froms.drop_last(), tos) + pairs_from(froms.last(), tos, name)
    }
}

/// The edges of all actions, in action order.
pub open spec fn edges_of(acts: Seq<ActionView>) -> Seq<Triple>
    decreases acts.len(),
{
    if acts.len() == 0 {
        seq![]
    } else {
        edges_of(acts.drop_last()) + action_edges(acts.last().name, acts.last().from, acts.last().to)
    }
}

/// Order on (source, target) pairs: by source, then by target.
pub open spec fn pair_lt(a: (Seq<char>, Seq<char>), b: (Seq<char>, Seq<char>)) -> bool {
    str_lt(a.0, b.0) || (a.0 == b.0 && str_lt(a.1, b.1))
}

pub proof fn lemma_pair_irreflexive(a: (Seq<char>, Seq<char>))
    ensures
        !pair_lt(a, a),
{
    lemma_lt_irreflexive(a.0);
    lemma_lt_irreflexive(a.1);
}

proof fn lemma_pair_transitive(a: (Seq<char>, Seq<char>), b: (Seq<char>, Seq<char>), c: (Seq<char>, Seq<char>))
    requires
        pair_lt(a, b),
        pair_lt(b, c),
    ensures
        pair_lt(a, c),
{
    if str_lt(a.0, b.0) && str_lt(b.0, c.0) {
        lemma_lt_transitive(a.0, b.0, c.0);
    } else if str_lt(a.1, b.1) && str_lt(b.1, c.1) && a.0 == b.0 && b.0 == c.0 {
        lemma_lt_transitive(a.1, b.1, c.1);
    }
}

proof fn lemma_pair_total(a: (Seq<char>, Seq<char>), b: (Seq<char>, Seq<char>))
    requires
        a != b,
    ensures
        pair_lt(a, b) || pair_lt(b, a),
{
    if a.0 != b.0 {
        lemma_lt_total(a.0, b.0);
    } else {
        lemma_lt_total(a.1, b.1);
    }
}

/// Edges with the given source and target.
pub open spec fn on_pair(k: (Seq<char>, Seq<char>)) -> spec_fn(Triple) -> bool {
    |t: Triple| t.0 == k.0 && t.1 == k.1
}

/// The labels of the edges with the given source and target, in edge order.
pub open spec fn labels_for(es: Seq<Triple>, k: (Seq<char>, Seq<char>)) -> Seq<Seq<char>> {
    es.filter(on_pair(k)).map_values(|t: Triple| t.2)
}

/// The actions that go from one state to another.
pub struct EdgeGroup {
    pub from: String,
    pub to: String,
    pub labels: Vec<String>,
}

/// The value of an `EdgeGroup`.
pub struct GroupView {
    pub from: Seq<char>,
    pub to: Seq<char>,
    pub labels: Seq<Seq<char>>,
}

/// The value of each group.
pub open spec fn groups_view(gs: Seq<EdgeGroup>) -> Seq<GroupView> {
    gs.map_values(|g: EdgeGroup| GroupView { from: g.from@, to: g.to@, labels: strings_view(g.labels@) })
}

/// The (source, target) pair of a group.
pub open spec fn key_of(g: GroupView) -> (Seq<char>, Seq<char>) {
    (g.from, g.to)
}

/// Whether the group is the one for the edge's pair.
pub open spec fn covers(g: GroupView, t: Triple) -> bool {
    g.from == t.0 && g.to == t.1
}

/// Whether `gs` groups the edges `es` by (source, target): one group per pair
/// that occurs, in increasing pair order, each holding the labels of that
/// pair's edges in edge order.
pub open spec fn groups_edges(es: Seq<Triple>, gs: Seq<GroupView>) -> bool {
    &&& forall|i: int, j: int| 0 <= i < j < gs.len() ==> pair_lt(key_of(#[trigger] gs[i]), key_of(#[trigger] gs[j]))
    &&& forall|i: int| 0 <= i < gs.len() ==> (#[trigger] gs[i]).labels == labels_for(es, key_of(gs[i]))
        && gs[i].labels.len() > 0
    &&& forall|t: int| 0 <= t < es.len() ==> exists|i: int| 0 <= i < gs.len() && covers(#[trigger] gs[i], #[trigger] es[t])
}

/// Whether pair `a` comes before pair `b`.
fn pair_before(a0: &String, a1: &String, b0: &String, b1: &String) -> (r: bool)
    ensures
        r == pair_lt((a0@, a1@), (b0@, b1@)),
{
    let x0 = chars_of(a0.as_str());
    let y0 = chars_of(b0.as_str());
    if chars_lt(&x0, &y0) {
        return true;
    }
    if *a0 == *b0 {
        let x1 = chars_of(a1.as_str());
        let y1 = chars_of(b1.as_str());
        chars_lt(&x1, &y1)
    } else {
        false
    }
}

/// The labels of a grown edge list.
proof fn lemma_labels_push(es: Seq<Triple>, x: Triple, k: (Seq<char>, Seq<char>))
    ensures
        labels_for(es.push(x), k) == if x.0 == k.0 && x.1 == k.1 {
            labels_for(es, k).push(x.2)
        } else {
            labels_for(es, k)
        },
{
    es.lemma_filter_push(x, on_pair(k));
    if x.0 == k.0 && x.1 == k.1 {
        assert(es.filter(on_pair(k)).push(x).map_values(|t: Triple| t.2) =~= es.filter(on_pair(k)).map_values(
            |t: Triple| t.2,
        ).push(x.2));
    }
}

/// Adds the edge `(f, t)` labelled `name` to groups that group `es`.
#[verifier::spinoff_prover]
#[verifier::rlimit(50)]
fn add_edge_to_groups(gs: &mut Vec<EdgeGroup>, f: &String, t: &String, name: &String, Ghost(es): Ghost<Seq<Triple>>)
    requires
        groups_edges(es, groups_view(old(gs)@)),
    ensures
        groups_edges(es.push((f@, t@, name@)), groups_view(final(gs)@)),
{
    let ghost x: Triple = (f@, t@, name@);
    let ghost kx = (f@, t@);
    let ghost old_v = groups_view(gs@);
    let mut p: usize = 0;
    while p < gs.len() && pair_before(&gs[p].from, &gs[p].to, f, t)
        invariant
            p <= gs.len(),
            gs@ == old(gs)@,
            old_v == groups_view(gs@),
            kx == (f@, t@),
            forall|i: int| 0 <= i < p ==> pair_lt(key_of(#[trigger] old_v[i]), kx),
        decreases gs.len() - p,
    {
        assert(old_v[p as int].from == gs@[p as int].from@ && old_v[p as int].to == gs@[p as int].to@);
        p += 1;
    }
    let ghost es2 = es.push(x);
    if p < gs.len() && gs[p].from == *f && gs[p].to == *t {
        let ghost old_gs = gs@;
        let mut g = gs.remove(p);
        assert(g == old_gs[p as int]);
        let ghost old_labels = g.labels@;
        g.labels.push(name.clone());
        assert(strings_view(g.labels@) =~= strings_view(old_labels).push(name@));
        let ghost gv = GroupView { from: g.from@, to: g.to@, labels: strings_view(g.labels@) };
        gs.insert(p, g);
        assert(gs@ =~= old_gs.update(p as int, g));
        assert forall|i: int| 0 <= i < gs@.len() && i != p implies #[trigger] groups_view(gs@)[i] == old_v[i] by {
            assert(gs@[i] == old_gs[i]);
        }
        assert(groups_view(gs@)[p as int] == gv);
        assert forall|i: int| 0 <= i < groups_view(gs@).len() implies (#[trigger] groups_view(gs@)[i]).labels
            == labels_for(es2, key_of(groups_view(gs@)[i])) && groups_view(gs@)[i].labels.len() > 0 by {
            lemma_labels_push(es, x, key_of(old_v[i]));
            assert(key_of(old_v[p as int]) == kx);
            if i == p {
                assert(gv.labels =~= old_v[i].labels.push(name@));
                assert(old_v[i].labels == labels_for(es, key_of(old_v[i])));
                assert(key_of(gv) == key_of(old_v[i]));
            } else {
                assert(groups_view(gs@)[i] == old_v[i]);
                if key_of(old_v[i]) == kx {
                    if i < p {
                        assert(pair_lt(key_of(old_v[i]), key_of(old_v[p as int])));
                    } else {
                        assert(pair_lt(key_of(old_v[p as int]), key_of(old_v[i])));
                    }
                    lemma_pair_irreflexive(kx);
                }
                assert(old_v[i].labels == labels_for(es, key_of(old_v[i])));
            }
        }
        assert(forall|i: int| 0 <= i < gs@.len() ==> key_of(#[trigger] groups_view(gs@)[i]) == key_of(old_v[i]));
        assert forall|u: int| 0 <= u < es2.len() implies exists|i: int| 0 <= i < groups_view(gs@).len() && covers(
            #[trigger] groups_view(gs@)[i], #[trigger] es2[u]) by {
            if u < es.len() {
                assert(es2[u] == es[u]);
                let i = choose|i: int| 0 <= i < old_v.len() && covers(#[trigger] old_v[i], es[u]);
                assert(key_of(groups_view(gs@)[i]) == key_of(old_v[i]));
            } else {
                assert(key_of(groups_view(gs@)[p as int]) == kx);
            }
        }
        assert forall|i: int, j: int| 0 <= i < j < groups_view(gs@).len() implies pair_lt(key_of(#[trigger] groups_view(gs@)[i]), key_of(#[trigger] groups_view(gs@)[j])) by {
            assert(key_of(groups_view(gs@)[i]) == key_of(old_v[i]));
            assert(key_of(groups_view(gs@)[j]) == key_of(old_v[j]));
        }
        assert(groups_view(gs@).len() == old_v.len());
    } else {
        proof {
            if p < gs.len() {
                assert(!pair_lt(key_of(old_v[p as int]), kx));
                assert(key_of(old_v[p as int]) != kx);
                lemma_pair_total(key_of(old_v[p as int]), kx);
            }
            assert forall|i: int| 0 <= i < old_v.len() implies key_of(#[trigger] old_v[i]) != kx by {
                if i < p {
                    lemma_pair_irreflexive(kx);
                } else {
                    if i > p {
                        lemma_pair_transitive(kx, key_of(old_v[p as int]), key_of(old_v[i]));
                    }
                    lemma_pair_irreflexive(kx);
                }
            }
            assert forall|u: int| 0 <= u < es.len() implies !on_pair(kx)(#[trigger] es[u]) by {
                let i = choose|i: int| 0 <= i < old_v.len() && covers(#[trigger] old_v[i], es[u]);
            }
            es.lemma_all_neg_filter_empty(on_pair(kx));
            lemma_labels_push(es, x, kx);
            assert(labels_for(es, kx) =~= Seq::<Seq<char>>::empty());
        }
        let mut labels: Vec<String> = Vec::new();
        labels.push(name.clone());
        assert(strings_view(labels@) =~= seq![name@]);
        let g = EdgeGroup { from: f.clone(), to: t.clone(), labels };
        let ghost gv = GroupView { from: f@, to: t@, labels: seq![name@] };
        let ghost old_gs = gs@;
        gs.insert(p, g);
        let ghost nv = groups_view(gs@);
        assert(gs@ =~= old_gs.insert(p as int, g));
        assert forall|i: int| 0 <= i < nv.len() implies #[trigger] nv[i] == old_v.insert(p as int, gv)[i] by {
            if i < p {
                assert(gs@[i] == old_gs[i]);
            } else if i > p {
                assert(gs@[i] == old_gs[i - 1]);
            }
        }
        assert(nv =~= old_v.insert(p as int, gv));
        assert forall|i: int| 0 <= i < nv.len() implies (#[trigger] nv[i]).labels == labels_for(es2, key_of(nv[i]))
            && nv[i].labels.len() > 0 by {
            if i == p {
            } else {
                let j = if i < p { i } else { i - 1 };
                assert(nv[i] == old_v[j]);
                lemma_labels_push(es, x, key_of(old_v[j]));
            }
        }
        assert forall|i: int, j: int| 0 <= i < j < nv.len() implies pair_lt(key_of(#[trigger] nv[i]), key_of(#[trigger] nv[j])) by {
            if i == p {
                let jj = j - 1;
                assert(nv[j] == old_v[jj]);
                if jj > p {
                    lemma_pair_transitive(kx, key_of(old_v[p as int]), key_of(old_v[jj]));
                }
            } else if j == p {
                assert(nv[i] == old_v[i]);
            } else {
                let ii = if i < p { i } else { i - 1 };
                let jj = if j < p { j } else { j - 1 };
                assert(nv[i] == old_v[ii]);
                assert(nv[j] == old_v[jj]);
            }
        }
        assert forall|u: int| 0 <= u < es2.len() implies exists|i: int| 0 <= i < nv.len() && covers(#[trigger] nv[i], #[trigger] es2[u]) by {
            if u < es.len() {
                assert(es2[u] == es[u]);
                let i = choose|i: int| 0 <= i < old_v.len() && covers(#[trigger] old_v[i], es[u]);
                let j = if i < p { i } else { i + 1 };
                assert(nv[j] == old_v[i]);
            } else {
                assert(key_of(nv[p as int]) == kx);
            }
        }
    }
}

/// The transitions grouped by (source, target) pair, in increasing pair order,
/// each with the names of its actions in action order.
pub fn collect_edge_groups(parsed: &ParsedMachine) -> (r: Vec<EdgeGroup>)
    ensures
        groups_edges(edges_of(parsed@.actions), groups_view(r@)),
{
    let mut gs: Vec<EdgeGroup> = Vec::new();
    let ghost acts = parsed@.actions;
    assert(edges_of(acts.take(0)) =~= Seq::<Triple>::empty());
    let mut i: usize = 0;
    while i < parsed.actions.len()
        invariant
            i <= parsed.actions.len(),
            acts == parsed@.actions,
            groups_edges(edges_of(acts.take(i as int)), groups_view(gs@)),
        decreases parsed.actions.len() - i,
    {
        let a = &parsed.actions[i];
        let ghost av = acts[i as int];
        assert(av == a@);
        let ghost base = edges_of(acts.take(i as int));
        assert(acts.take(i + 1).drop_last() =~= acts.take(i as int));
        assert(action_edges(av.name, av.from.take(0), av.to) =~= Seq::<Triple>::empty());
        assert(base + action_edges(av.name, av.from.take(0), av.to) =~= base);
        let mut j: usize = 0;
        while j < a.from.len()
            invariant
                j <= a.from.len(),
                av == a@,
                groups_edges(base + action_edges(av.name, av.from.take(j as int), av.to), groups_view(gs@)),
            decreases a.from.len() - j,
        {
            let f = &a.from[j];
            assert(av.from[j as int] == f@);
            let ghost mid = base + action_edges(av.name, av.from.take(j as int), av.to);
            assert(av.from.take(j + 1).drop_last() =~= av.from.take(j as int));
            assert(mid + pairs_from(f@, av.to.take(0), av.name) =~= mid);
            let mut k: usize = 0;
            while k < a.to.len()
                invariant
                    k <= a.to.len(),
                    av == a@,
                    f@ == av.from[j as int],
                    groups_edges(mid + pairs_from(f@, av.to.take(k as int), av.name), groups_view(gs@)),
                decreases a.to.len() - k,
            {
                let t = &a.to[k];
                assert(av.to[k as int] == t@);
                add_edge_to_groups(&mut gs, f, t, &a.name, Ghost(mid + pairs_from(f@, av.to.take(k as int), av.name)));
                assert((mid + pairs_from(f@, av.to.take(k as int), av.name)).push((f@, t@, a.name@)) =~= mid
                    + pairs_from(f@, av.to.take(k + 1), av.name));
                k += 1;
            }
            assert(av.to.take(k as int) =~= av.to);
            assert(mid + pairs_from(f@, av.to, av.name) =~= base + action_edges(av.name, av.from.take(j + 1), av.to));
            j += 1;
        }
        assert(av.from.take(j as int) =~= av.from);
        i += 1;
    }
    assert(acts.take(i as int) =~= acts);
    gs
}

/// The states placed at one rank.
pub struct Level {
    pub rank: usize,
    pub states: Vec<String>,
}

/// The value of each level: its rank and its states.
pub open spec fn levels_view(ls: Seq<Level>) -> Seq<(int, Seq<Seq<char>>)> {
    ls.map_values(|l: Level| (l.rank as int, strings_view(l.states@)))
}

/// Each state of a level paired with the level's rank.
pub open spec fn with_rank(rank: int, states: Seq<Seq<char>>) -> Seq<(int, Seq<char>)> {
    states.map_values(|s: Seq<char>| (rank, s))
}

/// The (rank, state) pairs of the levels, level by level.
pub open spec fn flat(ls: Seq<(int, Seq<Seq<char>>)>) -> Seq<(int, Seq<char>)>
    decreases ls.len(),
{
    if ls.len() == 0 {
        seq![]
    } else {
        flat(ls.drop_last()) + with_rank(ls.last().0, ls.last().1)
    }
}

/// The rank of each state, a later pair overriding an earlier one.
pub open spec fn ranks_of(fl: Seq<(int, Seq<char>)>) -> Map<Seq<char>, int>
    decreases fl.len(),
{
    if fl.len() == 0 {
        Map::empty()
    } else {
        ranks_of(fl.drop_last()).insert(fl.last().1, fl.last().0)
    }
}

/// The rank of `k`, zero when it has none.
pub open spec fn rank0(m: Map<Seq<char>, int>, k: Seq<char>) -> int {
    if m.dom().contains(k) {
        m[k]
    } else {
        0
    }
}

/// Edges into `s` that do not go up: from another state of no greater rank.
pub open spec fn forward_into(cur: Map<Seq<char>, int>, s: Seq<char>) -> spec_fn((Seq<char>, Seq<char>)) -> bool {
    |e: (Seq<char>, Seq<char>)| e.1 == s && e.0 != e.1 && rank0(cur, e.0) <= rank0(cur, e.1)
}

/// The sources of the edges into `s` that do not go up, in edge order.
pub open spec fn preds_of(cur: Map<Seq<char>, int>, edges: Seq<(Seq<char>, Seq<char>)>, s: Seq<char>) -> Seq<Seq<char>> {
    edges.filter(forward_into(cur, s)).map_values(|e: (Seq<char>, Seq<char>)| e.0)
}

/// The lowest rank a state may take below its already placed predecessors:
/// its base rank, raised to one below each placed predecessor.
pub open spec fn floor_of(adj: Map<Seq<char>, int>, ps: Seq<Seq<char>>, base: int) -> int
    decreases ps.len(),
{
    if ps.len() == 0 {
        base
    } else {
        let b = floor_of(adj, ps.drop_last(), base);
        if adj.dom().contains(ps.last()) && adj[ps.last()] + 1 > b {
            adj[ps.last()] + 1
        } else {
            b
        }
    }
}

/// The first rank from `t` on (below `lim`) that holds fewer than `width` states.
pub open spec fn first_free(occ: Map<int, int>, t: int, width: int, lim: int) -> int
    decreases lim - t,
{
    if t >= lim {
        lim
    } else if count_of(occ, t) < width {
        t
    } else {
        first_free(occ, t + 1, width, lim)
    }
}

/// The placement so far: each placed state's rank, how many states each rank
/// holds, and a rank above which no rank holds any.
pub struct Spill {
    pub adj: Map<Seq<char>, int>,
    pub occ: Map<int, int>,
    pub top: int,
}

/// Places one state: at its floor, moved down past every full rank.
pub open spec fn place(st: Spill, base: int, s: Seq<char>, ps: Seq<Seq<char>>, width: int) -> Spill {
    let t0 = floor_of(st.adj, ps, base);
    let t = first_free(st.occ, t0, width, (if t0 > st.top { t0 } else { st.top }) + 1);
    Spill {
        adj: st.adj.insert(s, t),
        occ: st.occ.insert(t, count_of(st.occ, t) + 1),
        top: if t + 1 > st.top { t + 1 } else { st.top },
    }
}

/// The placement of the (rank, state) pairs `fl`, in order.
pub open spec fn spill(fl: Seq<(int, Seq<char>)>, cur: Map<Seq<char>, int>, edges: Seq<(Seq<char>, Seq<char>)>, width: int) -> Spill
    decreases fl.len(),
{
    if fl.len() == 0 {
        Spill { adj: Map::empty(), occ: Map::empty(), top: 0 }
    } else {
        place(
            spill(fl.drop_last(), cur, edges, width),
            fl.last().0,
            fl.last().1,
            preds_of(cur, edges, fl.last().1),
            width,
        )
    }
}

/// The ranks after spilling: states taken level by level, each placed no
/// higher than one below its forward predecessors and moved down past ranks
/// that already hold `width` states.
pub open spec fn rebalanced(ls: Seq<(int, Seq<Seq<char>>)>, edges: Seq<(Seq<char>, Seq<char>)>, width: int) -> Map<Seq<char>, int> {
    spill(flat(ls), ranks_of(flat(ls)), edges, width).adj
}

/// The value of the edge list.
pub open spec fn pairs_view(es: Seq<(String, String)>) -> Seq<(Seq<char>, Seq<char>)> {
    es.map_values(|e: (String, String)| (e.0@, e.1@))
}

/// The rank of each state in the levels, a later level overriding an earlier one.
pub fn level_ranks(levels: &Vec<Level>) -> (r: RankMap)
    ensures
        r@ == ranks_of(flat(levels_view(levels@))),
{
    let ghost lv = levels_view(levels@);
    let mut cur = RankMap::new();
    assert(flat(lv.take(0)) =~= Seq::<(int, Seq<char>)>::empty());
    let mut i: usize = 0;
    while i < levels.len()
        invariant
            i <= levels.len(),
            lv == levels_view(levels@),
            cur@ == ranks_of(flat(lv.take(i as int))),
        decreases levels.len() - i,
    {
        let l = &levels[i];
        let ghost base = flat(lv.take(i as int));
        let ghost st = strings_view(l.states@);
        assert(lv.take(i + 1).drop_last() =~= lv.take(i as int));
        assert(lv[i as int] == (l.rank as int, st));
        assert(base + with_rank(l.rank as int, st.take(0)) =~= base);
        let mut j: usize = 0;
        while j < l.states.len()
            invariant
                j <= l.states.len(),
                st == strings_view(l.states@),
                cur@ == ranks_of(base + with_rank(l.rank as int, st.take(j as int))),
            decreases l.states.len() - j,
        {
            let ghost prev = base + with_rank(l.rank as int, st.take(j as int));
            assert(base + with_rank(l.rank as int, st.take(j + 1)) =~= prev.push((l.rank as int, st[j as int])));
            assert(prev.push((l.rank as int, st[j as int])).drop_last() =~= prev);
            cur.insert(l.states[j].clone(), l.rank);
            j += 1;
        }
        assert(st.take(j as int) =~= st);
        i += 1;
    }
    assert(lv.take(i as int) =~= lv);
    cur
}

/// The rank of `k`, zero when it has none.
fn rank_or_zero(m: &RankMap, k: &String) -> (r: usize)
    ensures
        r == rank0(m@, k@),
{
    match m.get(k) {
        Some(v) => v,
        None => 0,
    }
}

/// The sources of the edges into `s` that do not go up, in edge order.
pub fn preds(cur: &RankMap, edges: &Vec<(String, String)>, s: &String) -> (r: Vec<String>)
    ensures
        strings_view(r@) == preds_of(cur@, pairs_view(edges@), s@),
{
    let ghost ev = pairs_view(edges@);
    let ghost pr = forward_into(cur@, s@);
    let mut r: Vec<String> = Vec::new();
    assert(ev.take(0).filter(pr) =~= Seq::<(Seq<char>, Seq<char>)>::empty()) by {
        ev.take(0).lemma_filter_len(pr);
    }
    let mut i: usize = 0;
    while i < edges.len()
        invariant
            i <= edges.len(),
            ev == pairs_view(edges@),
            pr == forward_into(cur@, s@),
            strings_view(r@) =~= ev.take(i as int).filter(pr).map_values(|e: (Seq<char>, Seq<char>)| e.0),
        decreases edges.len() - i,
    {
        let e = &edges[i];
        assert(ev[i as int] == (e.0@, e.1@));
        assert(ev.take(i + 1) =~= ev.take(i as int).push(ev[i as int]));
        proof {
            ev.take(i as int).lemma_filter_push(ev[i as int], pr);
        }
        if e.1 == *s && e.0 != e.1 && rank_or_zero(cur, &e.0) <= rank_or_zero(cur, &e.1) {
            let ghost before = r@;
            r.push(e.0.clone());
            assert(strings_view(r@) =~= strings_view(before).push(e.0@));
        }
        i += 1;
    }
    assert(ev.take(i as int) =~= ev);
    r
}

/// Levels earlier in the list contribute no more pairs than the whole list.
proof fn lemma_flat_len(lv: Seq<(int, Seq<Seq<char>>)>, i: int, k: int)
    requires
        0 <= i <= k <= lv.len(),
    ensures
        flat(lv.take(i)).len() <= flat(lv.take(k)).len(),
    decreases k - i,
{
    if i < k {
        lemma_flat_len(lv, i, k - 1);
        assert(lv.take(k).drop_last() =~= lv.take(k - 1));
    }
}

/// Places each state, level by level and in level order: a state goes to
/// its level's rank, or lower, to one below the deepest already placed state
/// that reaches it by an edge that does not go up; then further down past
/// every rank that already holds `preferred_width` states.
#[verifier::rlimit(50)]
pub fn rebalance_levels_for_vertical_bias(
    ordered_levels: &Vec<Level>,
    edge_pairs: &Vec<(String, String)>,
    preferred_width: usize,
) -> (r: RankMap)
    requires
        preferred_width >= 1,
        forall|i: int|
            0 <= i < ordered_levels@.len() ==> (#[trigger] ordered_levels@[i]).rank + flat(
                levels_view(ordered_levels@),
            ).len() < usize::MAX,
    ensures
        r@ == rebalanced(levels_view(ordered_levels@), pairs_view(edge_pairs@), preferred_width as int),
{
    let ghost lv = levels_view(ordered_levels@);
    let ghost fl = flat(lv);
    let ghost ev = pairs_view(edge_pairs@);
    let ghost w = preferred_width as int;
    let ghost cap: int = usize::MAX - 1 - fl.len();
    let cur = level_ranks(ordered_levels);
    let mut adjusted = RankMap::new();
    let mut occ = CountMap::new();
    let ghost mut top: int = 0;
    assert(flat(lv.take(0)) =~= Seq::<(int, Seq<char>)>::empty());
    let mut i: usize = 0;
    while i < ordered_levels.len()
        invariant
            i <= ordered_levels.len(),
            lv == levels_view(ordered_levels@),
            fl == flat(lv),
            ev == pairs_view(edge_pairs@),
            w == preferred_width as int,
            w >= 1,
            cap == usize::MAX - 1 - fl.len(),
            cur@ == ranks_of(fl),
            forall|k: int| 0 <= k < ordered_levels@.len() ==> (#[trigger] ordered_levels@[k]).rank <= cap,
            spill(flat(lv.take(i as int)), cur@, ev, w) == (Spill { adj: adjusted@, occ: occ@, top }),
            forall|k: Seq<char>| adjusted@.dom().contains(k) ==> 0 <= #[trigger] adjusted@[k] <= cap + flat(lv.take(i as int)).len(),
            0 <= top <= cap + flat(lv.take(i as int)).len() + 1,
            forall|t: int| t >= top ==> #[trigger] count_of(occ@, t) == 0,
            forall|t: int| #[trigger] count_of(occ@, t) <= flat(lv.take(i as int)).len(),
        decreases ordered_levels.len() - i,
    {
        let l = &ordered_levels[i];
        let ghost st = strings_view(l.states@);
        let ghost base_fl = flat(lv.take(i as int));
        assert(lv.take(i + 1).drop_last() =~= lv.take(i as int));
        assert(lv[i as int] == (l.rank as int, st));
        assert(base_fl + with_rank(l.rank as int, st.take(0)) =~= base_fl);
        proof {
            lemma_flat_len(lv, i + 1, lv.len() as int);
            assert(lv.take(lv.len() as int) =~= lv);
        }
        let mut j: usize = 0;
        while j < l.states.len()
            invariant
                j <= l.states.len(),
                lv == levels_view(ordered_levels@),
                fl == flat(lv),
                ev == pairs_view(edge_pairs@),
                w == preferred_width as int,
                w >= 1,
                cap == usize::MAX - 1 - fl.len(),
                cur@ == ranks_of(fl),
                l.rank <= cap,
                st == strings_view(l.states@),
                base_fl.len() + st.len() <= fl.len(),
                spill(base_fl + with_rank(l.rank as int, st.take(j as int)), cur@, ev, w) == (Spill { adj: adjusted@, occ: occ@, top }),
                forall|k: Seq<char>| adjusted@.dom().contains(k) ==> 0 <= #[trigger] adjusted@[k] <= cap + base_fl.len() + j,
                0 <= top <= cap + base_fl.len() + j + 1,
                forall|t: int| t >= top ==> #[trigger] count_of(occ@, t) == 0,
                forall|t: int| #[trigger] count_of(occ@, t) <= base_fl.len() + j,
            decreases l.states.len() - j,
        {
            let s_j = &l.states[j];
            assert(st[j as int] == s_j@);
            let ghost prev = base_fl + with_rank(l.rank as int, st.take(j as int));
            let ghost placed = base_fl.len() + j;
            assert(prev.len() == placed);
            assert(base_fl + with_rank(l.rank as int, st.take(j + 1)) =~= prev.push((l.rank as int, s_j@)));
            assert(prev.push((l.rank as int, s_j@)).drop_last() =~= prev);
            let ps = preds(&cur, edge_pairs, s_j);
            let ghost psv = strings_view(ps@);
            let mut target = l.rank;
            let mut m: usize = 0;
            assert(psv.take(0) =~= Seq::<Seq<char>>::empty());
            while m < ps.len()
                invariant
                    m <= ps.len(),
                    psv == strings_view(ps@),
                    target == floor_of(adjusted@, psv.take(m as int), l.rank as int),
                    l.rank <= target <= cap + placed + 1,
                    forall|k: Seq<char>| adjusted@.dom().contains(k) ==> 0 <= #[trigger] adjusted@[k] <= cap + placed,
                    placed < fl.len(),
                    cap == usize::MAX - 1 - fl.len(),
                decreases ps.len() - m,
            {
                assert(psv.take(m + 1).drop_last() =~= psv.take(m as int));
                assert(psv[m as int] == ps@[m as int]@);
                match adjusted.get(&ps[m]) {
                    Some(pr) => {
                        if pr + 1 > target {
                            target = pr + 1;
                        }
                    },
                    None => {},
                }
                m += 1;
            }
            assert(psv.take(m as int) =~= psv);
            let ghost t0 = target as int;
            let ghost lim = (if t0 > top { t0 } else { top }) + 1;
            while occ.get(target) >= preferred_width
                invariant
                    t0 <= target,
                    target < lim,
                    lim == (if t0 > top { t0 } else { top }) + 1,
                    w == preferred_width as int,
                    w >= 1,
                    forall|t: int| t >= top ==> #[trigger] count_of(occ@, t) == 0,
                    first_free(occ@, t0, w, lim) == first_free(occ@, target as int, w, lim),
                    lim <= cap + placed + 2,
                    placed < fl.len(),
                    cap == usize::MAX - 1 - fl.len(),
                decreases lim - target,
            {
                target += 1;
            }
            let cnt = occ.get(target);
            adjusted.insert(s_j.clone(), target);
            let ghost old_occ = occ@;
            occ.set(target, cnt + 1);
            assert forall|t: int| #[trigger] count_of(occ@, t) == (if t == target as int {
                cnt as int + 1
            } else {
                count_of(old_occ, t)
            }) by {
                if t != target as int {
                    assert(occ@.dom().contains(t) == old_occ.dom().contains(t));
                }
            }
            proof {
                top = if target + 1 > top { target + 1 } else { top };
            }
            j += 1;
        }
        assert(st.take(j as int) =~= st);
        assert(flat(lv.take(i + 1)) =~= base_fl + with_rank(l.rank as int, st));
        i += 1;
    }
    assert(lv.take(i as int) =~= lv);
    adjusted
}

} // verus!
