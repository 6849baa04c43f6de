//! The graph that the ranking builds, with the backward edges turned
//! around, has no cycle: the order in which the depth-first walk finishes its
//! nodes, reversed, is a topological order of it.

use vstd::prelude::*;
use crate::graph::{is_topological, out_of};
use crate::ranking::{add_arcs, arcs_in, dag_nodes, edges_in, flipped, fresh_walk, lemma_walk_roots, no_edges, outs_of, lemma_walk_step, walk_measure, walk_roots, walk_run, walk_step, walk_wf, Walk};

verus! {

/// Whether a frame of the path holds node `x`.
pub open spec fn on_stack(st: Seq<(int, Seq<int>, int)>, x: int) -> bool {
    exists|f: int| 0 <= f < st.len() && (#[trigger] st[f]).0 == x
}

/// Whether node `a` lies deeper in the path than node `b`.
pub open spec fn below(st: Seq<(int, Seq<int>, int)>, a: int, b: int) -> bool {
    exists|f: int, g: int| 0 <= f < g < st.len() && (#[trigger] st[f]).0 == a && (#[trigger] st[g]).0 == b
}

/// Whether `a` comes before `b` in `d`.
pub open spec fn before_in(d: Seq<int>, a: int, b: int) -> bool {
    exists|p: int, q: int| 0 <= p < q < d.len() && #[trigger] d[p] == a && #[trigger] d[q] == b
}

/// A forward arc ends at a node finished before its source, or sits on the path.
pub open spec fn fwd_ok(w: Walk, a: (int, int)) -> bool {
    ||| w.done.contains(a.1) && (w.done.contains(a.0) ==> before_in(w.done, a.1, a.0))
    ||| below(w.stack, a.0, a.1)
}

/// A backward arc starts at a node finished before its target, or whose
/// target is still on the path (deeper than the source, if that is too).
pub open spec fn back_ok(w: Walk, a: (int, int)) -> bool {
    ||| before_in(w.done, a.0, a.1)
    ||| w.done.contains(a.0) && on_stack(w.stack, a.1)
    ||| below(w.stack, a.1, a.0)
}

/// Whether no node has an edge to itself.
pub open spec fn no_self_loops(outs: Seq<Seq<int>>) -> bool {
    forall|u: int, k: int| 0 <= u < outs.len() && 0 <= k < outs[u].len() ==> #[trigger] outs[u][k] != u
}

/// What the walk keeps about colours, the path, the finished nodes and the arcs.
pub open spec fn ordered_walk(w: Walk, outs: Seq<Seq<int>>) -> bool {
    let n = outs.len() as int;
    &&& walk_wf(w, outs)
    &&& forall|i: int| 0 <= i < n ==> 0 <= #[trigger] w.color[i] <= 2
    &&& forall|i: int| 0 <= i < n ==> (#[trigger] w.color[i] == 2 <==> w.done.contains(i))
    &&& forall|i: int| 0 <= i < n ==> (#[trigger] w.color[i] == 1 <==> on_stack(w.stack, i))
    &&& forall|i: int| 0 <= i < w.done.len() ==> 0 <= #[trigger] w.done[i] < n
    &&& w.done.no_duplicates()
    &&& forall|f: int, g: int| 0 <= f < g < w.stack.len() ==> (#[trigger] w.stack[f]).0 != (#[trigger] w.stack[g]).0
    &&& forall|k: int|
        0 <= k < w.fwd.len() ==> fwd_ok(w, #[trigger] w.fwd[k]) && w.color[w.fwd[k].0] >= 1 && w.color[w.fwd[k].1] >= 1
    &&& forall|k: int|
        0 <= k < w.back.len() ==> back_ok(w, #[trigger] w.back[k]) && w.color[w.back[k].0] >= 1 && w.color[w.back[k].1]
            >= 1
}

/// Replacing the top frame by one for the same node keeps who is on the path, and where.
proof fn lemma_same_top(st: Seq<(int, Seq<int>, int)>, fr: (int, Seq<int>, int))
    requires
        st.len() > 0,
        fr.0 == st.last().0,
    ensures
        forall|x: int| on_stack(st.drop_last().push(fr), x) == on_stack(st, x),
        forall|a: int, b: int| below(st.drop_last().push(fr), a, b) == below(st, a, b),
        forall|f: int| 0 <= f < st.len() ==> (#[trigger] st.drop_last().push(fr)[f]).0 == st[f].0,
{
    let s2 = st.drop_last().push(fr);
    assert forall|f: int| 0 <= f < st.len() implies (#[trigger] s2[f]).0 == st[f].0 by {
    }
    assert forall|x: int| on_stack(s2, x) == on_stack(st, x) by {
        if on_stack(s2, x) {
            let f = choose|f: int| 0 <= f < s2.len() && (#[trigger] s2[f]).0 == x;
            assert(st[f].0 == x);
        }
        if on_stack(st, x) {
            let f = choose|f: int| 0 <= f < st.len() && (#[trigger] st[f]).0 == x;
            assert(s2[f].0 == x);
        }
    }
    assert forall|a: int, b: int| below(s2, a, b) == below(st, a, b) by {
        if below(s2, a, b) {
            let (f, g) = choose|f: int, g: int| 0 <= f < g < s2.len() && (#[trigger] s2[f]).0 == a && (#[trigger] s2[g]).0 == b;
            assert(st[f].0 == a && st[g].0 == b);
        }
        if below(st, a, b) {
            let (f, g) = choose|f: int, g: int| 0 <= f < g < st.len() && (#[trigger] st[f]).0 == a && (#[trigger] st[g]).0 == b;
            assert(s2[f].0 == a && s2[g].0 == b);
        }
    }
}

/// Pushing a frame keeps who is on the path, adds its node on top.
proof fn lemma_push(st: Seq<(int, Seq<int>, int)>, fr: (int, Seq<int>, int))
    ensures
        forall|x: int| on_stack(st.push(fr), x) == (on_stack(st, x) || x == fr.0),
        forall|a: int, b: int| below(st, a, b) ==> below(st.push(fr), a, b),
        forall|a: int| on_stack(st, a) ==> below(st.push(fr), a, fr.0),
{
    let s2 = st.push(fr);
    assert forall|x: int| on_stack(s2, x) == (on_stack(st, x) || x == fr.0) by {
        if on_stack(s2, x) {
            let f = choose|f: int| 0 <= f < s2.len() && (#[trigger] s2[f]).0 == x;
            if f < st.len() {
                assert(st[f].0 == x);
            }
        }
        if on_stack(st, x) {
            let f = choose|f: int| 0 <= f < st.len() && (#[trigger] st[f]).0 == x;
            assert(s2[f].0 == x);
        }
        if x == fr.0 {
            assert(s2[st.len() as int].0 == x);
        }
    }
    assert forall|a: int, b: int| below(st, a, b) implies below(s2, a, b) by {
        let (f, g) = choose|f: int, g: int| 0 <= f < g < st.len() && (#[trigger] st[f]).0 == a && (#[trigger] st[g]).0 == b;
        assert(s2[f].0 == a && s2[g].0 == b);
    }
    assert forall|a: int| on_stack(st, a) implies below(s2, a, fr.0) by {
        let f = choose|f: int| 0 <= f < st.len() && (#[trigger] st[f]).0 == a;
        assert(s2[f].0 == a && s2[st.len() as int].0 == fr.0);
    }
}

/// Popping the top frame, whose node occurs nowhere else on the path.
proof fn lemma_pop(st: Seq<(int, Seq<int>, int)>)
    requires
        st.len() > 0,
        forall|f: int, g: int| 0 <= f < g < st.len() ==> (#[trigger] st[f]).0 != (#[trigger] st[g]).0,
    ensures
        forall|x: int| on_stack(st.drop_last(), x) == (on_stack(st, x) && x != st.last().0),
        forall|a: int, b: int| below(st, a, b) && b != st.last().0 ==> below(st.drop_last(), a, b),
        forall|a: int| !below(st, st.last().0, a),
        forall|a: int| below(st, a, st.last().0) ==> on_stack(st.drop_last(), a),
{
    let s2 = st.drop_last();
    let top = st.last().0;
    let t = st.len() - 1;
    assert(st[t].0 == top);
    assert forall|x: int| on_stack(s2, x) == (on_stack(st, x) && x != top) by {
        if on_stack(s2, x) {
            let f = choose|f: int| 0 <= f < s2.len() && (#[trigger] s2[f]).0 == x;
            assert(st[f].0 == x);
            assert(st[f].0 != st[t].0);
        }
        if on_stack(st, x) && x != top {
            let f = choose|f: int| 0 <= f < st.len() && (#[trigger] st[f]).0 == x;
            assert(f != t);
            assert(s2[f].0 == x);
        }
    }
    assert forall|a: int, b: int| below(st, a, b) && b != top implies below(s2, a, b) by {
        let (f, g) = choose|f: int, g: int| 0 <= f < g < st.len() && (#[trigger] st[f]).0 == a && (#[trigger] st[g]).0 == b;
        assert(g != t);
        assert(s2[f].0 == a && s2[g].0 == b);
    }
    assert forall|a: int| !below(st, top, a) by {
        if below(st, top, a) {
            let (f, g) = choose|f: int, g: int| 0 <= f < g < st.len() && (#[trigger] st[f]).0 == top && (#[trigger] st[g]).0 == a;
            assert(st[f].0 != st[t].0);
        }
    }
    assert forall|a: int| below(st, a, top) implies on_stack(s2, a) by {
        let (f, g) = choose|f: int, g: int| 0 <= f < g < st.len() && (#[trigger] st[f]).0 == a && (#[trigger] st[g]).0 == top;
        assert(s2[f].0 == a);
    }
}

/// Appending a node to the finished ones keeps every order among them and
/// puts each of them before it.
proof fn lemma_done_push(d: Seq<int>, x: int)
    ensures
        forall|a: int, b: int| before_in(d, a, b) ==> before_in(d.push(x), a, b),
        forall|a: int| d.contains(a) ==> before_in(d.push(x), a, x),
        forall|a: int| d.push(x).contains(a) == (d.contains(a) || a == x),
{
    let d2 = d.push(x);
    assert forall|a: int, b: int| before_in(d, a, b) implies before_in(d2, a, b) by {
        let (p, q) = choose|p: int, q: int| 0 <= p < q < d.len() && #[trigger] d[p] == a && #[trigger] d[q] == b;
        assert(d2[p] == a && d2[q] == b);
    }
    assert forall|a: int| d.contains(a) implies before_in(d2, a, x) by {
        let p = choose|p: int| 0 <= p < d.len() && d[p] == a;
        assert(d2[p] == a && d2[d.len() as int] == x);
    }
    assert forall|a: int| d2.contains(a) == (d.contains(a) || a == x) by {
        if d2.contains(a) {
            let p = choose|p: int| 0 <= p < d2.len() && d2[p] == a;
            if p < d.len() {
                assert(d[p] == a);
            }
        }
        if d.contains(a) {
            let p = choose|p: int| 0 <= p < d.len() && d[p] == a;
            assert(d2[p] == a);
        }
        if a == x {
            assert(d2[d.len() as int] == a);
        }
    }
}

/// Descending into a node not reached yet keeps the walk ordered: the edge
/// followed joins the forward ones, its target on top of the path.
proof fn lemma_descend(w: Walk, outs: Seq<Seq<int>>)
    requires
        ordered_walk(w, outs),
        w.stack.len() > 0,
        w.stack.last().2 < w.stack.last().1.len(),
        w.color[w.stack.last().1[w.stack.last().2]] == 0,
    ensures
        ordered_walk(walk_step(w, outs), outs),
{
    lemma_walk_step(w, outs);
    let n = outs.len() as int;
    let t = w.stack.len() - 1;
    let top = w.stack.last();
    let u = top.0;
    assert(w.stack[t] == top);
    let v = top.1[top.2];
    assert(top.1 == outs[u]);
    assert(0 <= v < n);
    let nt = (u, top.1, top.2 + 1);
    let st = w.stack.drop_last().push(nt);
    let fr = (v, outs[v], 0int);
    let w2 = walk_step(w, outs);
    lemma_same_top(w.stack, nt);
    lemma_push(st, fr);
    assert(w2.stack == st.push(fr));
    assert(w2.color == w.color.update(v, 1));
    assert(w2.done == w.done);
    assert(!on_stack(w.stack, v));
    assert(on_stack(st, u)) by {
        assert(st[t].0 == u);
    }
    assert forall|i: int| 0 <= i < n implies (#[trigger] w2.color[i] == 1 <==> on_stack(w2.stack, i)) by {
    }
    assert forall|i: int| 0 <= i < n implies (#[trigger] w2.color[i] == 2 <==> w2.done.contains(i)) by {
    }
    assert forall|i: int| 0 <= i < n implies 0 <= #[trigger] w2.color[i] <= 2 by {
    }
    assert forall|f: int, g: int| 0 <= f < g < w2.stack.len() implies (#[trigger] w2.stack[f]).0 != (
    #[trigger] w2.stack[g]).0 by {
        assert(w2.stack[f] == st[f]);
        assert(st[f].0 == w.stack[f].0);
        if g == w.stack.len() {
            assert(w2.stack[g].0 == v);
            if w.stack[f].0 == v {
                assert(on_stack(w.stack, v));
            }
        } else {
            assert(w2.stack[g] == st[g]);
            assert(st[g].0 == w.stack[g].0);
        }
    }
    assert forall|k: int| 0 <= k < w2.fwd.len() implies fwd_ok(w2, #[trigger] w2.fwd[k]) && w2.color[w2.fwd[k].0] >= 1
        && w2.color[w2.fwd[k].1] >= 1 by {
        if k < w.fwd.len() {
            assert(w2.fwd[k] == w.fwd[k]);
            assert(fwd_ok(w, w.fwd[k]));
        } else {
            assert(w2.fwd[k] == (u, v));
            assert(below(w2.stack, u, v));
        }
    }
    assert forall|k: int| 0 <= k < w2.back.len() implies back_ok(w2, #[trigger] w2.back[k]) && w2.color[w2.back[k].0]
        >= 1 && w2.color[w2.back[k].1] >= 1 by {
        assert(w2.back[k] == w.back[k]);
        assert(back_ok(w, w.back[k]));
    }
}

/// Meeting a node on the path keeps the walk ordered: that node lies below
/// the top, so the edge goes back along the path.
proof fn lemma_close(w: Walk, outs: Seq<Seq<int>>)
    requires
        ordered_walk(w, outs),
        no_self_loops(outs),
        w.stack.len() > 0,
        w.stack.last().2 < w.stack.last().1.len(),
        w.color[w.stack.last().1[w.stack.last().2]] == 1,
    ensures
        ordered_walk(walk_step(w, outs), outs),
{
    lemma_walk_step(w, outs);
    let n = outs.len() as int;
    let t = w.stack.len() - 1;
    let top = w.stack.last();
    let u = top.0;
    assert(w.stack[t] == top);
    let v = top.1[top.2];
    assert(top.1 == outs[u]);
    assert(0 <= v < n);
    assert(outs[u][top.2] != u);
    let nt = (u, top.1, top.2 + 1);
    let st = w.stack.drop_last().push(nt);
    let w2 = walk_step(w, outs);
    lemma_same_top(w.stack, nt);
    assert(w2.stack == st);
    assert(on_stack(w.stack, v));
    let f0 = choose|f: int| 0 <= f < w.stack.len() && (#[trigger] w.stack[f]).0 == v;
    assert(f0 != t);
    assert(below(w.stack, v, u)) by {
        assert(w.stack[f0].0 == v && w.stack[t].0 == u);
    }
    assert forall|f: int, g: int| 0 <= f < g < w2.stack.len() implies (#[trigger] w2.stack[f]).0 != (
    #[trigger] w2.stack[g]).0 by {
        assert(st[f].0 == w.stack[f].0);
        assert(st[g].0 == w.stack[g].0);
    }
    assert forall|k: int| 0 <= k < w2.fwd.len() implies fwd_ok(w2, #[trigger] w2.fwd[k]) && w2.color[w2.fwd[k].0] >= 1
        && w2.color[w2.fwd[k].1] >= 1 by {
        assert(fwd_ok(w, w.fwd[k]));
    }
    assert forall|k: int| 0 <= k < w2.back.len() implies back_ok(w2, #[trigger] w2.back[k]) && w2.color[w2.back[k].0]
        >= 1 && w2.color[w2.back[k].1] >= 1 by {
        if k < w.back.len() {
            assert(w2.back[k] == w.back[k]);
            assert(back_ok(w, w.back[k]));
        } else {
            assert(w2.back[k] == (u, v));
        }
    }
    assert forall|i: int| 0 <= i < n implies (#[trigger] w2.color[i] == 1 <==> on_stack(w2.stack, i)) by {
    }
}

/// Meeting a finished node keeps the walk ordered: it was finished before
/// the top, which is still on the path.
proof fn lemma_cross(w: Walk, outs: Seq<Seq<int>>)
    requires
        ordered_walk(w, outs),
        w.stack.len() > 0,
        w.stack.last().2 < w.stack.last().1.len(),
        w.color[w.stack.last().1[w.stack.last().2]] == 2,
    ensures
        ordered_walk(walk_step(w, outs), outs),
{
    lemma_walk_step(w, outs);
    let n = outs.len() as int;
    let t = w.stack.len() - 1;
    let top = w.stack.last();
    let u = top.0;
    assert(w.stack[t] == top);
    let v = top.1[top.2];
    assert(top.1 == outs[u]);
    assert(0 <= v < n);
    let nt = (u, top.1, top.2 + 1);
    let st = w.stack.drop_last().push(nt);
    let w2 = walk_step(w, outs);
    lemma_same_top(w.stack, nt);
    assert(w2.stack == st);
    assert(on_stack(w.stack, u)) by {
        assert(w.stack[t].0 == u);
    }
    assert(w.color[u] == 1);
    assert(!w.done.contains(u));
    assert(w.done.contains(v));
    assert forall|f: int, g: int| 0 <= f < g < w2.stack.len() implies (#[trigger] w2.stack[f]).0 != (
    #[trigger] w2.stack[g]).0 by {
        assert(st[f].0 == w.stack[f].0);
        assert(st[g].0 == w.stack[g].0);
    }
    assert forall|k: int| 0 <= k < w2.fwd.len() implies fwd_ok(w2, #[trigger] w2.fwd[k]) && w2.color[w2.fwd[k].0] >= 1
        && w2.color[w2.fwd[k].1] >= 1 by {
        if k < w.fwd.len() {
            assert(w2.fwd[k] == w.fwd[k]);
            assert(fwd_ok(w, w.fwd[k]));
        } else {
            assert(w2.fwd[k] == (u, v));
        }
    }
    assert forall|k: int| 0 <= k < w2.back.len() implies back_ok(w2, #[trigger] w2.back[k]) && w2.color[w2.back[k].0]
        >= 1 && w2.color[w2.back[k].1] >= 1 by {
        assert(back_ok(w, w.back[k]));
    }
    assert forall|i: int| 0 <= i < n implies (#[trigger] w2.color[i] == 1 <==> on_stack(w2.stack, i)) by {
    }
}

/// Finishing the node on top keeps the walk ordered: it goes after every
/// node finished before it, and the edges into it from the path below
/// become edges into a finished node.
proof fn lemma_finish(w: Walk, outs: Seq<Seq<int>>)
    requires
        ordered_walk(w, outs),
        w.stack.len() > 0,
        w.stack.last().2 >= w.stack.last().1.len(),
    ensures
        ordered_walk(walk_step(w, outs), outs),
{
    lemma_walk_step(w, outs);
    let n = outs.len() as int;
    let t = w.stack.len() - 1;
    let top = w.stack.last();
    let u = top.0;
    assert(w.stack[t] == top);
    assert(0 <= u < n);
    let w2 = walk_step(w, outs);
    lemma_pop(w.stack);
    lemma_done_push(w.done, u);
    assert(w2.stack == w.stack.drop_last());
    assert(w2.done == w.done.push(u));
    assert(w2.color == w.color.update(u, 2));
    assert(on_stack(w.stack, u)) by {
        assert(w.stack[t].0 == u);
    }
    assert(w.color[u] == 1);
    assert(!w.done.contains(u));
    assert forall|i: int, j: int| 0 <= i < w2.done.len() && 0 <= j < w2.done.len() && i != j implies w2.done[i]
        != w2.done[j] by {
        if i < w.done.len() && j < w.done.len() {
        } else if i < w.done.len() {
            assert(w.done.contains(w.done[i]));
        } else {
            assert(w.done.contains(w.done[j]));
        }
    }
    assert forall|i: int| 0 <= i < w2.done.len() implies 0 <= #[trigger] w2.done[i] < n by {
        if i < w.done.len() {
            assert(w2.done[i] == w.done[i]);
        }
    }
    assert forall|f: int, g: int| 0 <= f < g < w2.stack.len() implies (#[trigger] w2.stack[f]).0 != (
    #[trigger] w2.stack[g]).0 by {
        assert(w2.stack[f] == w.stack[f]);
        assert(w2.stack[g] == w.stack[g]);
    }
    assert forall|i: int| 0 <= i < n implies (#[trigger] w2.color[i] == 1 <==> on_stack(w2.stack, i)) by {
    }
    assert forall|i: int| 0 <= i < n implies (#[trigger] w2.color[i] == 2 <==> w2.done.contains(i)) by {
    }
    assert forall|k: int| 0 <= k < w2.fwd.len() implies fwd_ok(w2, #[trigger] w2.fwd[k]) && w2.color[w2.fwd[k].0] >= 1
        && w2.color[w2.fwd[k].1] >= 1 by {
        let a = w.fwd[k];
        assert(fwd_ok(w, a));
        if below(w.stack, a.0, a.1) && a.1 == u {
            assert(on_stack(w2.stack, a.0));
            assert(a.0 != u);
            assert(!w2.done.contains(a.0));
        }
    }
    assert forall|k: int| 0 <= k < w2.back.len() implies back_ok(w2, #[trigger] w2.back[k]) && w2.color[w2.back[k].0]
        >= 1 && w2.color[w2.back[k].1] >= 1 by {
        let a = w.back[k];
        assert(back_ok(w, a));
        if below(w.stack, a.1, a.0) && a.0 == u {
            assert(on_stack(w2.stack, a.1));
        }
    }
}

/// Every step keeps the walk ordered, where no node has an edge to itself.
proof fn lemma_step_ordered(w: Walk, outs: Seq<Seq<int>>)
    requires
        ordered_walk(w, outs),
        no_self_loops(outs),
        w.stack.len() > 0,
    ensures
        ordered_walk(walk_step(w, outs), outs),
{
    let top = w.stack.last();
    assert(w.stack[w.stack.len() - 1] == top);
    if top.2 < top.1.len() {
        assert(top.1 == outs[top.0]);
        let v = top.1[top.2];
        assert(0 <= v < outs.len());
        if w.color[v] == 0 {
            lemma_descend(w, outs);
        } else if w.color[v] == 1 {
            lemma_close(w, outs);
        } else {
            lemma_cross(w, outs);
        }
    } else {
        lemma_finish(w, outs);
    }
}

/// A whole run keeps the walk ordered.
proof fn lemma_run_ordered(w: Walk, outs: Seq<Seq<int>>)
    requires
        ordered_walk(w, outs),
        no_self_loops(outs),
    ensures
        ordered_walk(walk_run(w, outs), outs),
    decreases walk_measure(w, outs),
{
    if w.stack.len() > 0 {
        lemma_walk_step(w, outs);
        lemma_step_ordered(w, outs);
        lemma_run_ordered(walk_step(w, outs), outs);
    }
}

/// Starting from each root in turn keeps the walk ordered.
proof fn lemma_roots_ordered(w: Walk, roots: Seq<int>, outs: Seq<Seq<int>>)
    requires
        ordered_walk(w, outs),
        no_self_loops(outs),
        w.stack.len() == 0,
        forall|k: int| 0 <= k < roots.len() ==> 0 <= #[trigger] roots[k] < outs.len(),
    ensures
        ordered_walk(walk_roots(w, roots, outs), outs),
        walk_roots(w, roots, outs).stack.len() == 0,
    decreases roots.len(),
{
    if roots.len() > 0 {
        lemma_roots_ordered(w, roots.drop_last(), outs);
        lemma_walk_roots(w, roots.drop_last(), outs);
        let p = walk_roots(w, roots.drop_last(), outs);
        let r = roots.last();
        assert(roots[roots.len() - 1] == r);
        lemma_walk_roots(w, roots, outs);
        if p.color[r] == 0 {
            let fr = (r, outs[r], 0int);
            let init = Walk { color: p.color.update(r, 1), stack: seq![fr], fwd: p.fwd, back: p.back, done: p.done };
            let n = outs.len() as int;
            assert(init.stack[0] == fr);
            assert(walk_wf(init, outs)) by {
                assert forall|f: int| 0 <= f < init.stack.len() implies 0 <= (#[trigger] init.stack[f]).0 < n
                    && init.stack[f].1 == outs[init.stack[f].0] && 0 <= init.stack[f].2 <= init.stack[f].1.len() by {
                    assert(f == 0);
                }
            }
            assert forall|x: int| on_stack(init.stack, x) == (x == r) by {
                if x == r {
                    assert(init.stack[0].0 == x);
                }
            }
            assert forall|x: int| !on_stack(p.stack, x) by {
            }
            assert forall|a: int, b: int| !below(init.stack, a, b) by {
            }
            assert forall|i: int| 0 <= i < n implies (#[trigger] init.color[i] == 1 <==> on_stack(init.stack, i)) by {
            }
            assert forall|k: int| 0 <= k < init.fwd.len() implies fwd_ok(init, #[trigger] init.fwd[k])
                && init.color[init.fwd[k].0] >= 1 && init.color[init.fwd[k].1] >= 1 by {
                assert(fwd_ok(p, p.fwd[k]));
            }
            assert forall|k: int| 0 <= k < init.back.len() implies back_ok(init, #[trigger] init.back[k])
                && init.color[init.back[k].0] >= 1 && init.color[init.back[k].1] >= 1 by {
                assert(back_ok(p, p.back[k]));
            }
            assert(ordered_walk(init, outs));
            lemma_run_ordered(init, outs);
        }
    }
}

/// Once the path is empty, every forward edge ends at a node finished before
/// its source, and every backward edge starts at a node finished before its target.
proof fn lemma_finished(w: Walk, outs: Seq<Seq<int>>)
    requires
        ordered_walk(w, outs),
        w.stack.len() == 0,
    ensures
        forall|k: int| 0 <= k < w.fwd.len() ==> before_in(w.done, (#[trigger] w.fwd[k]).1, w.fwd[k].0),
        forall|k: int| 0 <= k < w.back.len() ==> before_in(w.done, (#[trigger] w.back[k]).0, w.back[k].1),
{
    let n = outs.len() as int;
    assert forall|x: int| !on_stack(w.stack, x) by {
    }
    assert forall|k: int| 0 <= k < w.fwd.len() implies before_in(w.done, (#[trigger] w.fwd[k]).1, w.fwd[k].0) by {
        let a = w.fwd[k];
        assert(fwd_ok(w, a));
        assert(0 <= a.0 < n);
        assert(w.color[a.0] >= 1);
        assert(w.color[a.0] != 1);
    }
    assert forall|k: int| 0 <= k < w.back.len() implies before_in(w.done, (#[trigger] w.back[k]).0, w.back[k].1) by {
        let a = w.back[k];
        assert(back_ok(w, a));
    }
}

/// The nodes below `k` that `done` does not hold, in increasing order.
pub open spec fn missing(done: Seq<int>, k: int) -> Seq<int>
    decreases k,
{
    if k <= 0 {
        seq![]
    } else if done.contains(k - 1) {
        missing(done, k - 1)
    } else {
        missing(done, k - 1).push(k - 1)
    }
}

/// The finished nodes, last finished first, then the nodes never finished.
pub open spec fn finish_order(done: Seq<int>, n: int) -> Seq<int> {
    Seq::new(done.len(), |i: int| done[done.len() - 1 - i]) + missing(done, n)
}

/// What `missing` holds: each node below `k` outside `done`, once.
proof fn lemma_missing(done: Seq<int>, k: int)
    requires
        k >= 0,
    ensures
        forall|x: int| #[trigger] missing(done, k).contains(x) <==> 0 <= x < k && !done.contains(x),
        missing(done, k).no_duplicates(),
        forall|i: int| 0 <= i < missing(done, k).len() ==> 0 <= #[trigger] missing(done, k)[i] < k,
    decreases k,
{
    if k > 0 {
        lemma_missing(done, k - 1);
        let m = missing(done, k - 1);
        if !done.contains(k - 1) {
            let m2 = m.push(k - 1);
            assert forall|x: int| #[trigger] m2.contains(x) <==> 0 <= x < k && !done.contains(x) by {
                if m2.contains(x) {
                    let i = choose|i: int| 0 <= i < m2.len() && m2[i] == x;
                    if i < m.len() {
                        assert(m.contains(m[i]));
                    }
                }
                if 0 <= x < k && !done.contains(x) {
                    if x < k - 1 {
                        assert(m.contains(x));
                        let i = choose|i: int| 0 <= i < m.len() && m[i] == x;
                        assert(m2[i] == x);
                    } else {
                        assert(m2[m.len() as int] == x);
                    }
                }
            }
            assert forall|i: int, j: int| 0 <= i < m2.len() && 0 <= j < m2.len() && i != j implies m2[i] != m2[j] by {
                if i < m.len() && j < m.len() {
                } else if i < m.len() {
                    assert(m[i] < k - 1);
                } else {
                    assert(m[j] < k - 1);
                }
            }
        }
    }
}

/// The finish order lists every node below `n` once, the finished ones
/// first, last finished first.
proof fn lemma_finish_order(done: Seq<int>, n: int)
    requires
        n >= 0,
        done.no_duplicates(),
        forall|i: int| 0 <= i < done.len() ==> 0 <= #[trigger] done[i] < n,
    ensures
        finish_order(done, n).len() == n,
        forall|i: int| 0 <= i < n ==> 0 <= #[trigger] finish_order(done, n)[i] < n,
        forall|i: int, j: int| 0 <= i < j < n ==> #[trigger] finish_order(done, n)[i] != #[trigger] finish_order(done, n)[j],
        forall|i: int| 0 <= i < done.len() ==> #[trigger] finish_order(done, n)[i] == done[done.len() - 1 - i],
        forall|i: int| done.len() <= i < n ==> !done.contains(#[trigger] finish_order(done, n)[i]),
{
    let l = done.len() as int;
    let r = Seq::new(done.len(), |i: int| done[done.len() - 1 - i]);
    lemma_missing(done, n);
    let m = missing(done, n);
    let o = finish_order(done, n);
    assert(o == r + m);
    assert forall|i: int| 0 <= i < o.len() implies 0 <= #[trigger] o[i] < n by {
        if i < l {
            assert(o[i] == done[l - 1 - i]);
        } else {
            assert(o[i] == m[i - l]);
        }
    }
    assert forall|i: int| l <= i < o.len() implies !done.contains(#[trigger] o[i]) by {
        assert(o[i] == m[i - l]);
        assert(m.contains(m[i - l]));
    }
    assert forall|i: int, j: int| 0 <= i < o.len() && 0 <= j < o.len() && i != j implies o[i] != o[j] by {
        if i < l && j < l {
            assert(o[i] == done[l - 1 - i] && o[j] == done[l - 1 - j]);
        } else if i < l {
            assert(o[i] == done[l - 1 - i]);
            assert(done.contains(done[l - 1 - i]));
            assert(!done.contains(o[j]));
        } else if j < l {
            assert(o[j] == done[l - 1 - j]);
            assert(done.contains(done[l - 1 - j]));
            assert(!done.contains(o[i]));
        } else {
            assert(o[i] == m[i - l] && o[j] == m[j - l]);
        }
    }
    assert(o.no_duplicates());
    assert(o.to_set() =~= vstd::set_lib::set_int_range(0, n)) by {
        assert forall|x: int| o.to_set().contains(x) <==> 0 <= x < n by {
            if 0 <= x < n {
                if done.contains(x) {
                    let p = choose|p: int| 0 <= p < done.len() && done[p] == x;
                    assert(o[l - 1 - p] == x);
                } else {
                    assert(m.contains(x));
                    let q = choose|q: int| 0 <= q < m.len() && m[q] == x;
                    assert(o[l + q] == x);
                }
                assert(o.contains(x));
            }
        }
    }
    o.unique_seq_to_set();
    vstd::set_lib::lemma_int_range(0, n);
}

/// Adding arcs only adds targets: every target after comes from the lists
/// before, or from an arc out of that node.
proof fn lemma_arc_source(base: Seq<Seq<int>>, arcs: Seq<(int, int)>, x: int, k: int)
    requires
        arcs_in(arcs, base.len() as int),
        0 <= x < base.len(),
        0 <= k < add_arcs(base, arcs)[x].len(),
    ensures
        add_arcs(base, arcs).len() == base.len(),
        (exists|j: int| 0 <= j < base[x].len() && #[trigger] base[x][j] == add_arcs(base, arcs)[x][k]) || (exists|q: int|
            0 <= q < arcs.len() && #[trigger] arcs[q] == (x, add_arcs(base, arcs)[x][k])),
    decreases arcs.len(),
{
    if arcs.len() > 0 {
        let pre = arcs.drop_last();
        assert(arcs_in(pre, base.len() as int)) by {
            assert forall|i: int| 0 <= i < pre.len() implies 0 <= (#[trigger] pre[i]).0 < base.len() && 0 <= pre[i].1
                < base.len() by {
                assert(pre[i] == arcs[i]);
            }
        }
        lemma_add_arcs_len(base, pre);
        let o = add_arcs(base, pre);
        let a = arcs.last();
        assert(arcs[arcs.len() - 1] == a);
        let y = add_arcs(base, arcs)[x][k];
        if a.0 == x {
            if k == 0 {
                assert(arcs[arcs.len() - 1] == (x, y));
            } else {
                assert(o[x][k - 1] == y);
                lemma_arc_source(base, pre, x, k - 1);
                if exists|q: int| 0 <= q < pre.len() && #[trigger] pre[q] == (x, y) {
                    let q = choose|q: int| 0 <= q < pre.len() && #[trigger] pre[q] == (x, y);
                    assert(arcs[q] == (x, y));
                }
            }
        } else {
            assert(o[x][k] == y);
            lemma_arc_source(base, pre, x, k);
            if exists|q: int| 0 <= q < pre.len() && #[trigger] pre[q] == (x, y) {
                let q = choose|q: int| 0 <= q < pre.len() && #[trigger] pre[q] == (x, y);
                assert(arcs[q] == (x, y));
            }
        }
    } else {
        assert(base[x][k] == add_arcs(base, arcs)[x][k]);
    }
}

/// Adding arcs between nodes keeps the number of lists.
proof fn lemma_add_arcs_len(base: Seq<Seq<int>>, arcs: Seq<(int, int)>)
    requires
        arcs_in(arcs, base.len() as int),
    ensures
        add_arcs(base, arcs).len() == base.len(),
    decreases arcs.len(),
{
    if arcs.len() > 0 {
        let pre = arcs.drop_last();
        assert(arcs_in(pre, base.len() as int)) by {
            assert forall|i: int| 0 <= i < pre.len() implies 0 <= (#[trigger] pre[i]).0 < base.len() && 0 <= pre[i].1
                < base.len() by {
                assert(pre[i] == arcs[i]);
            }
        }
        lemma_add_arcs_len(base, pre);
    }
}

/// Where every forward arc ends at a node finished before its source, and
/// every backward arc starts at a node finished before its target, the
/// finish order is a topological order of the graph with the forward arcs
/// and the backward arcs turned around.
proof fn lemma_turned_order(
    nodes: Seq<Option<(Seq<char>, Seq<int>)>>,
    fwd: Seq<(int, int)>,
    back: Seq<(int, int)>,
    done: Seq<int>,
)
    requires
        done.no_duplicates(),
        forall|i: int| 0 <= i < done.len() ==> 0 <= #[trigger] done[i] < nodes.len(),
        arcs_in(fwd, nodes.len() as int),
        arcs_in(back, nodes.len() as int),
        forall|k: int| 0 <= k < fwd.len() ==> before_in(done, (#[trigger] fwd[k]).1, fwd[k].0),
        forall|k: int| 0 <= k < back.len() ==> before_in(done, (#[trigger] back[k]).0, back[k].1),
    ensures
        is_topological(dag_nodes(nodes, fwd, back), finish_order(done, nodes.len() as int)),
{
    let n = nodes.len() as int;
    let l = done.len() as int;
    let e0 = no_edges(nodes.len());
    let e1 = add_arcs(e0, fwd);
    let fb = flipped(back);
    let outs = add_arcs(e1, fb);
    let dn = dag_nodes(nodes, fwd, back);
    let o = finish_order(done, n);
    lemma_finish_order(done, n);
    lemma_add_arcs_len(e0, fwd);
    assert(arcs_in(fb, n)) by {
        assert forall|q: int| 0 <= q < fb.len() implies 0 <= (#[trigger] fb[q]).0 < n && 0 <= fb[q].1 < n by {
            assert(fb[q] == (back[q].1, back[q].0));
        }
    }
    lemma_add_arcs_len(e1, fb);
    assert forall|i: int, j: int, k: int|
        0 <= i < o.len() && 0 <= j < o.len() && 0 <= k < out_of(dn[o[i]]).len() && out_of(dn[o[i]])[k] == o[j] implies i
        < j by {
        let x = o[i];
        let y = o[j];
        assert(out_of(dn[x]) == outs[x]);
        lemma_arc_source(e1, fb, x, k);
        if exists|q: int| 0 <= q < fb.len() && #[trigger] fb[q] == (x, y) {
            let q = choose|q: int| 0 <= q < fb.len() && #[trigger] fb[q] == (x, y);
            assert(fb[q] == (back[q].1, back[q].0));
            assert(before_in(done, back[q].0, back[q].1));
        } else {
            let jj = choose|jj: int| 0 <= jj < e1[x].len() && #[trigger] e1[x][jj] == y;
            lemma_arc_source(e0, fwd, x, jj);
            assert(e0[x].len() == 0);
            let q = choose|q: int| 0 <= q < fwd.len() && #[trigger] fwd[q] == (x, y);
            assert(before_in(done, fwd[q].1, fwd[q].0));
        }
        assert(before_in(done, y, x));
        let (p, q) = choose|p: int, q: int| 0 <= p < q < done.len() && #[trigger] done[p] == y && #[trigger] done[q] == x;
        assert(done.contains(x) && done.contains(y));
        assert(i < l);
        assert(j < l);
        assert(done[l - 1 - i] == x);
        assert(done[l - 1 - j] == y);
    }
}

/// A walk from any roots, over a graph where no node has an edge to itself,
/// leaves forward and backward edges whose turned graph has the finish
/// order as a topological order.
pub(crate) proof fn lemma_walk_acyclic(nodes: Seq<Option<(Seq<char>, Seq<int>)>>, roots: Seq<int>)
    requires
        edges_in(nodes),
        forall|k: int| 0 <= k < roots.len() ==> 0 <= #[trigger] roots[k] < nodes.len(),
        no_self_loops(outs_of(nodes)),
    ensures
        is_topological(
            dag_nodes(
                nodes,
                walk_roots(fresh_walk(nodes.len()), roots, outs_of(nodes)).fwd,
                walk_roots(fresh_walk(nodes.len()), roots, outs_of(nodes)).back,
            ),
            finish_order(walk_roots(fresh_walk(nodes.len()), roots, outs_of(nodes)).done, nodes.len() as int),
        ),
{
    let n = nodes.len() as int;
    let outs = outs_of(nodes);
    let w0 = fresh_walk(nodes.len());
    assert(outs.len() == n);
    assert(walk_wf(w0, outs)) by {
        assert forall|u: int, k: int| 0 <= u < outs.len() && 0 <= k < outs[u].len() implies 0 <= #[trigger] outs[u][k]
            < outs.len() by {
            assert(outs[u] == out_of(nodes[u]));
        }
    }
    assert forall|x: int| !on_stack(w0.stack, x) by {
    }
    assert(w0.done.no_duplicates());
    assert(ordered_walk(w0, outs));
    lemma_roots_ordered(w0, roots, outs);
    let w = walk_roots(w0, roots, outs);
    lemma_finished(w, outs);
    lemma_turned_order(nodes, w.fwd, w.back, w.done);
}

/// Whether the walk has classified the arc, as forward or as backward.
pub open spec fn classified_arc(w: Walk, a: (int, int)) -> bool {
    w.fwd.contains(a) || w.back.contains(a)
}

/// Whether node `b` can be reached from node `a` along forward arcs.
pub open spec fn fwd_path(fwd: Seq<(int, int)>, a: int, b: int) -> bool {
    exists|p: Seq<int>|
        p.len() >= 1 && p[0] == a && p[p.len() - 1] == b && forall|i: int, j: int|
            #![trigger p[i], p[j]]
            0 <= i && j == i + 1 && j < p.len() ==> fwd.contains((p[i], p[j]))
}

/// What the walk keeps about coverage: every edge of a finished node, and
/// every edge a frame has looked at, is classified; the path is a chain of
/// forward arcs; and every backward arc's target reaches its source along
/// forward arcs.
pub open spec fn covered_walk(w: Walk, outs: Seq<Seq<int>>) -> bool {
    &&& forall|x: int, k: int|
        0 <= x < outs.len() && w.done.contains(x) && 0 <= k < outs[x].len() ==> classified_arc(w, (x, #[trigger] outs[x][k]))
    &&& forall|f: int, k: int|
        0 <= f < w.stack.len() && 0 <= k < w.stack[f].2 ==> classified_arc(w, (w.stack[f].0, #[trigger] w.stack[f].1[k]))
    &&& forall|f: int, g: int| #![trigger w.stack[f], w.stack[g]] 0 <= f && g == f + 1 && g < w.stack.len() ==> w.fwd.contains((w.stack[f].0, w.stack[g].0))
    &&& forall|q: int| 0 <= q < w.back.len() ==> fwd_path(w.fwd, (#[trigger] w.back[q]).1, w.back[q].0)
}

/// Adding an arc keeps every arc and every path.
proof fn lemma_arcs_grow(fwd: Seq<(int, int)>, a: (int, int))
    ensures
        forall|b: (int, int)| fwd.contains(b) ==> fwd.push(a).contains(b),
        fwd.push(a).contains(a),
        forall|x: int, y: int| fwd_path(fwd, x, y) ==> fwd_path(fwd.push(a), x, y),
{
    let f2 = fwd.push(a);
    assert forall|b: (int, int)| fwd.contains(b) implies f2.contains(b) by {
        let i = choose|i: int| 0 <= i < fwd.len() && fwd[i] == b;
        assert(f2[i] == b);
    }
    assert(f2[fwd.len() as int] == a);
    assert forall|x: int, y: int| fwd_path(fwd, x, y) implies fwd_path(f2, x, y) by {
        let p = choose|p: Seq<int>|
            p.len() >= 1 && p[0] == x && p[p.len() - 1] == y && forall|i: int, j: int|
                #![trigger p[i], p[j]]
                0 <= i && j == i + 1 && j < p.len() ==> fwd.contains((p[i], p[j]));
        assert forall|i: int, j: int| #![trigger p[i], p[j]] 0 <= i && j == i + 1 && j < p.len() implies f2.contains((p[i], p[j])) by {
            assert(fwd.contains((p[i], p[j])));
        }
    }
}

/// The path holds a chain of forward arcs from any frame's node up to a
/// higher frame's node.
proof fn lemma_stack_path(w: Walk, g: int, t: int)
    requires
        0 <= g <= t < w.stack.len(),
        forall|f: int, g: int| #![trigger w.stack[f], w.stack[g]] 0 <= f && g == f + 1 && g < w.stack.len() ==> w.fwd.contains((w.stack[f].0, w.stack[g].0)),
    ensures
        fwd_path(w.fwd, w.stack[g].0, w.stack[t].0),
{
    let p = Seq::new((t - g + 1) as nat, |m: int| w.stack[g + m].0);
    assert(p[0] == w.stack[g].0);
    assert(p[p.len() - 1] == w.stack[t].0);
    assert forall|m: int, m2: int| #![trigger p[m], p[m2]] 0 <= m && m2 == m + 1 && m2 < p.len() implies w.fwd.contains((p[m], p[m2])) by {
        assert(p[m] == w.stack[g + m].0 && p[m2] == w.stack[g + m2].0);
        assert(w.fwd.contains((w.stack[g + m].0, w.stack[g + m2].0)));
    }
}

/// Looking at the next edge of the top frame keeps the walk covered.
proof fn lemma_look_covered(w: Walk, outs: Seq<Seq<int>>)
    requires
        ordered_walk(w, outs),
        covered_walk(w, outs),
        no_self_loops(outs),
        w.stack.len() > 0,
        w.stack.last().2 < w.stack.last().1.len(),
    ensures
        covered_walk(walk_step(w, outs), outs),
{
    lemma_walk_step(w, outs);
    let n = outs.len() as int;
    let t = w.stack.len() - 1;
    let top = w.stack.last();
    let u = top.0;
    let nb = top.1;
    let i = top.2;
    assert(w.stack[t] == top);
    assert(nb == outs[u]);
    let w2 = walk_step(w, outs);
    let v = nb[i];
    assert(0 <= v < n);
    let nt = (u, nb, i + 1);
    if w.color[v] == 1 {
        lemma_arcs_grow(w.back, (u, v));
    } else {
        lemma_arcs_grow(w.fwd, (u, v));
    }
    assert(classified_arc(w2, (u, v)));
    assert forall|b: (int, int)| classified_arc(w, b) implies classified_arc(w2, b) by {
    }
    assert forall|x: int, k: int|
        0 <= x < outs.len() && w2.done.contains(x) && 0 <= k < outs[x].len() implies classified_arc(w2, (x, #[trigger] outs[x][k])) by {
        assert(classified_arc(w, (x, outs[x][k])));
    }
    assert forall|f: int, k: int| 0 <= f < w2.stack.len() && 0 <= k < w2.stack[f].2 implies classified_arc(
        w2,
        (w2.stack[f].0, #[trigger] w2.stack[f].1[k]),
    ) by {
        if f < t {
            assert(w2.stack[f] == w.stack[f]);
            assert(classified_arc(w, (w.stack[f].0, w.stack[f].1[k])));
        } else if f == t {
            assert(w2.stack[f] == nt);
            if k < i {
                assert(classified_arc(w, (w.stack[t].0, w.stack[t].1[k])));
            }
        }
    }
    assert forall|f: int, g: int| #![trigger w2.stack[f], w2.stack[g]] 0 <= f && g == f + 1 && g < w2.stack.len() implies w2.fwd.contains((w2.stack[f].0, w2.stack[g].0)) by {
        if f < t - 1 {
            assert(w2.stack[f] == w.stack[f] && w2.stack[g] == w.stack[g]);
            assert(w.fwd.contains((w.stack[f].0, w.stack[g].0)));
        } else if f == t - 1 {
            assert(w2.stack[f] == w.stack[f]);
            assert(w2.stack[g].0 == u);
            assert(w.fwd.contains((w.stack[f].0, w.stack[g].0)));
        } else {
            assert(w2.stack[f].0 == u && w2.stack[g].0 == v);
        }
    }
    assert forall|q: int| 0 <= q < w2.back.len() implies fwd_path(w2.fwd, (#[trigger] w2.back[q]).1, w2.back[q].0) by {
        if q < w.back.len() {
            assert(w2.back[q] == w.back[q]);
            assert(fwd_path(w.fwd, w.back[q].1, w.back[q].0));
        } else {
            assert(w2.back[q] == (u, v));
            assert(on_stack(w.stack, v));
            let g = choose|g: int| 0 <= g < w.stack.len() && (#[trigger] w.stack[g]).0 == v;
            assert(outs[u][i] != u);
            assert(g != t);
            lemma_stack_path(w, g, t);
        }
    }
}

/// Finishing the top frame keeps the walk covered: all its edges were looked at.
proof fn lemma_finish_covered(w: Walk, outs: Seq<Seq<int>>)
    requires
        ordered_walk(w, outs),
        covered_walk(w, outs),
        w.stack.len() > 0,
        w.stack.last().2 >= w.stack.last().1.len(),
    ensures
        covered_walk(walk_step(w, outs), outs),
{
    lemma_walk_step(w, outs);
    let t = w.stack.len() - 1;
    let top = w.stack.last();
    let u = top.0;
    assert(w.stack[t] == top);
    assert(top.1 == outs[u]);
    let w2 = walk_step(w, outs);
    lemma_done_push(w.done, u);
    assert forall|x: int, k: int|
        0 <= x < outs.len() && w2.done.contains(x) && 0 <= k < outs[x].len() implies classified_arc(w2, (x, #[trigger] outs[x][k])) by {
        if w.done.contains(x) {
            assert(classified_arc(w, (x, outs[x][k])));
        } else {
            assert(classified_arc(w, (w.stack[t].0, w.stack[t].1[k])));
        }
    }
    assert forall|f: int, k: int| 0 <= f < w2.stack.len() && 0 <= k < w2.stack[f].2 implies classified_arc(
        w2,
        (w2.stack[f].0, #[trigger] w2.stack[f].1[k]),
    ) by {
        assert(w2.stack[f] == w.stack[f]);
        assert(classified_arc(w, (w.stack[f].0, w.stack[f].1[k])));
    }
    assert forall|f: int, g: int| #![trigger w2.stack[f], w2.stack[g]] 0 <= f && g == f + 1 && g < w2.stack.len() implies w2.fwd.contains((w2.stack[f].0, w2.stack[g].0)) by {
        assert(w2.stack[f] == w.stack[f] && w2.stack[g] == w.stack[g]);
        assert(w.fwd.contains((w.stack[f].0, w.stack[g].0)));
    }
    assert forall|q: int| 0 <= q < w2.back.len() implies fwd_path(w2.fwd, (#[trigger] w2.back[q]).1, w2.back[q].0) by {
        assert(fwd_path(w.fwd, w.back[q].1, w.back[q].0));
    }
}

/// A step never lowers a colour.
proof fn lemma_step_mono(w: Walk, outs: Seq<Seq<int>>)
    requires
        ordered_walk(w, outs),
        w.stack.len() > 0,
    ensures
        forall|x: int| 0 <= x < outs.len() ==> #[trigger] walk_step(w, outs).color[x] >= w.color[x],
{
    let t = w.stack.len() - 1;
    let top = w.stack.last();
    assert(w.stack[t] == top);
    assert(on_stack(w.stack, top.0)) by {
        assert(w.stack[t].0 == top.0);
    }
    assert(0 <= top.0 < outs.len());
    assert(w.color[top.0] == 1);
}

/// A step keeps the walk covered, and never lowers a colour.
proof fn lemma_step_covered(w: Walk, outs: Seq<Seq<int>>)
    requires
        ordered_walk(w, outs),
        covered_walk(w, outs),
        no_self_loops(outs),
        w.stack.len() > 0,
    ensures
        covered_walk(walk_step(w, outs), outs),
        forall|x: int| 0 <= x < outs.len() ==> #[trigger] walk_step(w, outs).color[x] >= w.color[x],
{
    lemma_step_mono(w, outs);
    if w.stack.last().2 < w.stack.last().1.len() {
        lemma_look_covered(w, outs);
    } else {
        lemma_finish_covered(w, outs);
    }
}

/// A whole run keeps the walk covered and never lowers a colour.
proof fn lemma_run_covered(w: Walk, outs: Seq<Seq<int>>)
    requires
        ordered_walk(w, outs),
        covered_walk(w, outs),
        no_self_loops(outs),
    ensures
        covered_walk(walk_run(w, outs), outs),
        forall|x: int| 0 <= x < outs.len() ==> #[trigger] walk_run(w, outs).color[x] >= w.color[x],
    decreases walk_measure(w, outs),
{
    if w.stack.len() > 0 {
        lemma_walk_step(w, outs);
        lemma_step_ordered(w, outs);
        lemma_step_covered(w, outs);
        lemma_run_covered(walk_step(w, outs), outs);
    }
}

/// Starting from each root in turn keeps the walk covered, never lowers a
/// colour, and reaches every root.
proof fn lemma_roots_covered(w: Walk, roots: Seq<int>, outs: Seq<Seq<int>>)
    requires
        ordered_walk(w, outs),
        covered_walk(w, outs),
        no_self_loops(outs),
        w.stack.len() == 0,
        forall|k: int| 0 <= k < roots.len() ==> 0 <= #[trigger] roots[k] < outs.len(),
    ensures
        covered_walk(walk_roots(w, roots, outs), outs),
        forall|x: int| 0 <= x < outs.len() ==> #[trigger] walk_roots(w, roots, outs).color[x] >= w.color[x],
        forall|k: int| 0 <= k < roots.len() ==> walk_roots(w, roots, outs).color[#[trigger] roots[k]] != 0,
    decreases roots.len(),
{
    if roots.len() > 0 {
        let pr = roots.drop_last();
        assert forall|k: int| 0 <= k < pr.len() implies 0 <= #[trigger] pr[k] < outs.len() by {
            assert(pr[k] == roots[k]);
        }
        lemma_roots_covered(w, pr, outs);
        lemma_roots_ordered(w, pr, outs);
        lemma_walk_roots(w, pr, outs);
        let p = walk_roots(w, pr, outs);
        let r = roots.last();
        assert(roots[roots.len() - 1] == r);
        let fin = walk_roots(w, roots, outs);
        if p.color[r] == 0 {
            let fr = (r, outs[r], 0int);
            let init = Walk { color: p.color.update(r, 1), stack: seq![fr], fwd: p.fwd, back: p.back, done: p.done };
            let n = outs.len() as int;
            assert(init.stack[0] == fr);
            assert(walk_wf(init, outs)) by {
                assert forall|f: int| 0 <= f < init.stack.len() implies 0 <= (#[trigger] init.stack[f]).0 < n
                    && init.stack[f].1 == outs[init.stack[f].0] && 0 <= init.stack[f].2 <= init.stack[f].1.len() by {
                    assert(f == 0);
                }
            }
            assert forall|x: int| on_stack(init.stack, x) == (x == r) by {
                if x == r {
                    assert(init.stack[0].0 == x);
                }
            }
            assert forall|x: int| !on_stack(p.stack, x) by {
            }
            assert forall|a: int, b: int| !below(init.stack, a, b) by {
            }
            assert forall|i: int| 0 <= i < n implies (#[trigger] init.color[i] == 1 <==> on_stack(init.stack, i)) by {
            }
            assert forall|k: int| 0 <= k < init.fwd.len() implies fwd_ok(init, #[trigger] init.fwd[k])
                && init.color[init.fwd[k].0] >= 1 && init.color[init.fwd[k].1] >= 1 by {
                assert(fwd_ok(p, p.fwd[k]));
            }
            assert forall|k: int| 0 <= k < init.back.len() implies back_ok(init, #[trigger] init.back[k])
                && init.color[init.back[k].0] >= 1 && init.color[init.back[k].1] >= 1 by {
                assert(back_ok(p, p.back[k]));
            }
            assert(ordered_walk(init, outs));
            assert(covered_walk(init, outs)) by {
                assert forall|x: int, k: int|
                    0 <= x < outs.len() && init.done.contains(x) && 0 <= k < outs[x].len() implies classified_arc(init, (x, #[trigger] outs[x][k])) by {
                    assert(classified_arc(p, (x, outs[x][k])));
                }
                assert forall|q: int| 0 <= q < init.back.len() implies fwd_path(init.fwd, (#[trigger] init.back[q]).1, init.back[q].0) by {
                    assert(fwd_path(p.fwd, p.back[q].1, p.back[q].0));
                }
            }
            lemma_run_covered(init, outs);
            assert(fin == walk_run(init, outs));
            assert(fin.color[r] >= init.color[r]);
        }
        assert forall|k: int| 0 <= k < roots.len() implies fin.color[#[trigger] roots[k]] != 0 by {
            if k < pr.len() {
                assert(pr[k] == roots[k]);
                assert(p.color[pr[k]] != 0);
            }
        }
    }
}

/// A walk from any roots, over a graph where no node has an edge to itself,
/// classifies every edge out of every root, and the target of each backward
/// edge reaches its source along forward edges: the backward edges are the
/// ones that close a cycle.
pub(crate) proof fn lemma_walk_covers(nodes: Seq<Option<(Seq<char>, Seq<int>)>>, roots: Seq<int>)
    requires
        edges_in(nodes),
        forall|k: int| 0 <= k < roots.len() ==> 0 <= #[trigger] roots[k] < nodes.len(),
        no_self_loops(outs_of(nodes)),
    ensures
        ({
            let w = walk_roots(fresh_walk(nodes.len()), roots, outs_of(nodes));
            &&& forall|k: int, j: int|
                0 <= k < roots.len() && 0 <= j < out_of(nodes[roots[k]]).len() ==> classified_arc(
                    w,
                    (#[trigger] roots[k], #[trigger] out_of(nodes[roots[k]])[j]),
                )
            &&& forall|q: int| 0 <= q < w.back.len() ==> fwd_path(w.fwd, (#[trigger] w.back[q]).1, w.back[q].0)
        }),
{
    let n = nodes.len() as int;
    let outs = outs_of(nodes);
    let w0 = fresh_walk(nodes.len());
    assert(walk_wf(w0, outs)) by {
        assert forall|u: int, k: int| 0 <= u < outs.len() && 0 <= k < outs[u].len() implies 0 <= #[trigger] outs[u][k]
            < outs.len() by {
            assert(outs[u] == out_of(nodes[u]));
        }
    }
    assert forall|x: int| !on_stack(w0.stack, x) by {
    }
    assert(ordered_walk(w0, outs));
    assert(covered_walk(w0, outs));
    lemma_roots_ordered(w0, roots, outs);
    lemma_roots_covered(w0, roots, outs);
    let w = walk_roots(w0, roots, outs);
    assert forall|x: int| !on_stack(w.stack, x) by {
    }
    assert forall|k: int, j: int| 0 <= k < roots.len() && 0 <= j < out_of(nodes[roots[k]]).len() implies classified_arc(
        w,
        (#[trigger] roots[k], #[trigger] out_of(nodes[roots[k]])[j]),
    ) by {
        let r = roots[k];
        assert(w.color[r] != 0);
        assert(w.color[r] != 1);
        assert(w.done.contains(r));
        assert(outs[r] == out_of(nodes[r]));
        assert(classified_arc(w, (r, outs[r][j])));
    }
}

} // verus!
