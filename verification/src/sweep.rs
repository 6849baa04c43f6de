//! Ordering the states within each level: states grouped by rank, sorted by
//! name, then reordered in sweeps, down and up, by the mean position of
//! their neighbours on the adjacent level.

use vstd::prelude::*;
use crate::layout::{levels_view, pairs_view, ranks_of, Level};
use crate::maps::RankMap;
use crate::model::strings_view;
use crate::order::{chars_lt, str_lt};
use crate::text::chars_of;

verus! {

/// Where `x` goes among the items of `r`: before the first item it comes before.
pub open spec fn slot(r: Seq<Seq<char>>, x: Seq<char>, lt: spec_fn(Seq<char>, Seq<char>) -> bool) -> int
    decreases r.len(),
{
    if r.len() == 0 {
        0
    } else if lt(x, r[0]) {
        0
    } else {
        1 + slot(r.drop_first(), x, lt)
    }
}

/// The items of `s` sorted by insertion: each in turn goes after every item
/// placed so far that it does not come before.
pub open spec fn isort(s: Seq<Seq<char>>, lt: spec_fn(Seq<char>, Seq<char>) -> bool) -> Seq<Seq<char>>
    decreases s.len(),
{
    if s.len() == 0 {
        s
    } else {
        let r = isort(s.drop_last(), lt);
        r.insert(slot(r, s.last(), lt), s.last())
    }
}

/// Order by name.
pub open spec fn name_lt() -> spec_fn(Seq<char>, Seq<char>) -> bool {
    |a: Seq<char>, b: Seq<char>| str_lt(a, b)
}

/// The slot, counted from position `p` on.
proof fn lemma_slot_step(r: Seq<Seq<char>>, x: Seq<char>, lt: spec_fn(Seq<char>, Seq<char>) -> bool, p: int)
    requires
        0 <= p < r.len(),
        !lt(x, r[p]),
    ensures
        slot(r.skip(p), x, lt) == 1 + slot(r.skip(p + 1), x, lt),
{
    assert(r.skip(p).drop_first() =~= r.skip(p + 1));
}

/// The slot is within the sequence.
pub proof fn lemma_slot_range(r: Seq<Seq<char>>, x: Seq<char>, lt: spec_fn(Seq<char>, Seq<char>) -> bool)
    ensures
        0 <= slot(r, x, lt) <= r.len(),
    decreases r.len(),
{
    if r.len() > 0 && !lt(x, r[0]) {
        lemma_slot_range(r.drop_first(), x, lt);
    }
}

/// The states of a level sorted by name.
pub fn sort_by_name(v: &Vec<String>) -> (r: Vec<String>)
    ensures
        strings_view(r@) == isort(strings_view(v@), name_lt()),
{
    let ghost a = strings_view(v@);
    let ghost lt = name_lt();
    let mut out: Vec<String> = Vec::new();
    let mut i: usize = 0;
    assert(isort(a.take(0), lt) =~= strings_view(out@));
    while i < v.len()
        invariant
            i <= v.len(),
            a == strings_view(v@),
            lt == name_lt(),
            strings_view(out@) == isort(a.take(i as int), lt),
        decreases v.len() - i,
    {
        let x = v[i].clone();
        let xc = chars_of(x.as_str());
        let ghost before = strings_view(out@);
        let mut p: usize = 0;
        assert(before.skip(0) =~= before);
        while p < out.len() && !chars_lt(&xc, &chars_of(out[p].as_str()))
            invariant
                p <= out.len(),
                xc@ == x@,
                before == strings_view(out@),
                lt == name_lt(),
                slot(before, x@, lt) == p + slot(before.skip(p as int), x@, lt),
            decreases out.len() - p,
        {
            proof {
                lemma_slot_step(before, x@, lt, p as int);
            }
            p += 1;
        }
        proof {
            if p < out.len() {
                assert(before.skip(p as int)[0] == before[p as int]);
            }
        }
        assert(slot(before, x@, lt) == p);
        assert(a.take(i + 1).drop_last() =~= a.take(i as int));
        assert(a.take(i + 1).last() == x@);
        out.insert(p, x);
        assert(strings_view(out@) =~= before.insert(p as int, x@));
        i += 1;
    }
    assert(a.take(i as int) =~= a);
    out
}

/// Each state of a level paired with its position there.
pub open spec fn positions(states: Seq<Seq<char>>) -> Seq<(int, Seq<char>)> {
    Seq::new(states.len(), |i: int| (i, states[i]))
}

/// The (position, state) pairs of every level, level by level.
pub open spec fn flat_positions(lv: Seq<(int, Seq<Seq<char>>)>) -> Seq<(int, Seq<char>)>
    decreases lv.len(),
{
    if lv.len() == 0 {
        seq![]
    } else {
        flat_positions(lv.drop_last()) + positions(lv.last().1)
    }
}

/// The position of each state within its level, a later level overriding an earlier one.
pub open spec fn lookup_of(lv: Seq<(int, Seq<Seq<char>>)>) -> Map<Seq<char>, int> {
    ranks_of(flat_positions(lv))
}

/// The position of each state of the level, a later occurrence overriding an earlier one.
pub fn position_map(states: &Vec<String>) -> (r: RankMap)
    ensures
        r@ == ranks_of(positions(strings_view(states@))),
{
    let ghost st = strings_view(states@);
    let mut m = RankMap::new();
    let mut j: usize = 0;
    assert(positions(st).take(0) =~= Seq::<(int, Seq<char>)>::empty());
    while j < states.len()
        invariant
            j <= states.len(),
            st == strings_view(states@),
            m@ == ranks_of(positions(st).take(j as int)),
        decreases states.len() - j,
    {
        assert(positions(st).take(j + 1).drop_last() =~= positions(st).take(j as int));
        assert(positions(st).take(j + 1).last() == (j as int, states@[j as int]@));
        m.insert(states[j].clone(), j);
        j += 1;
    }
    assert(positions(st).take(j as int) =~= positions(st));
    m
}

/// The position of each state within its level, over all levels, a later
/// level overriding an earlier one.
pub fn order_lookup(levels: &Vec<Level>) -> (r: RankMap)
    ensures
        r@ == lookup_of(levels_view(levels@)),
{
    let ghost lv = levels_view(levels@);
    let mut m = RankMap::new();
    let mut i: usize = 0;
    assert(flat_positions(lv.take(0)) =~= Seq::<(int, Seq<char>)>::empty());
    while i < levels.len()
        invariant
            i <= levels.len(),
            lv == levels_view(levels@),
            m@ == ranks_of(flat_positions(lv.take(i as int))),
        decreases levels.len() - i,
    {
        let l = &levels[i];
        let ghost base = flat_positions(lv.take(i as int));
        let ghost st = strings_view(l.states@);
        assert(lv.take(i + 1).drop_last() =~= lv.take(i as int));
        assert(lv[i as int] == (l.rank as int, st));
        assert(base + positions(st).take(0) =~= base);
        let mut j: usize = 0;
        while j < l.states.len()
            invariant
                j <= l.states.len(),
                st == strings_view(l.states@),
                m@ == ranks_of(base + positions(st).take(j as int)),
            decreases l.states.len() - j,
        {
            let ghost prev = base + positions(st).take(j as int);
            assert(base + positions(st).take(j + 1) =~= prev.push((j as int, st[j as int])));
            assert(prev.push((j as int, st[j as int])).drop_last() =~= prev);
            m.insert(l.states[j].clone(), j);
            j += 1;
        }
        assert(positions(st).take(j as int) =~= positions(st));
        assert(flat_positions(lv.take(i + 1)) =~= base + positions(st));
        i += 1;
    }
    assert(lv.take(i as int) =~= lv);
    m
}

/// Whether `m` holds `k` with the value `v`.
pub open spec fn holds(m: Map<Seq<char>, int>, k: Seq<char>, v: int) -> bool {
    m.dom().contains(k) && m[k] == v
}

/// The positions of the neighbours of `state` that lie at rank `adj`, one per
/// edge that touches `state`, in edge order; an edge from `state` counts its
/// target, any other edge into `state` its source.
pub open spec fn neighbour_orders(
    state: Seq<char>,
    adj: int,
    edges: Seq<(Seq<char>, Seq<char>)>,
    depths: Map<Seq<char>, int>,
    look: Map<Seq<char>, int>,
) -> Seq<int>
    decreases edges.len(),
{
    if edges.len() == 0 {
        seq![]
    } else {
        let rest = neighbour_orders(state, adj, edges.drop_last(), depths, look);
        let e = edges.last();
        if e.0 == state {
            if holds(depths, e.1, adj) && look.dom().contains(e.1) {
                rest.push(look[e.1])
            } else {
                rest
            }
        } else if e.1 == state {
            if holds(depths, e.0, adj) && look.dom().contains(e.0) {
                rest.push(look[e.0])
            } else {
                rest
            }
        } else {
            rest
        }
    }
}

/// The sum of the numbers.
pub open spec fn sum_of(s: Seq<int>) -> int
    decreases s.len(),
{
    if s.len() == 0 {
        0
    } else {
        sum_of(s.drop_last()) + s.last()
    }
}

/// The numbers are no larger than their bound and the sum no larger than
/// their count times it.
proof fn lemma_sum_bound(s: Seq<int>, b: int)
    requires
        forall|i: int| 0 <= i < s.len() ==> 0 <= #[trigger] s[i] <= b,
    ensures
        0 <= sum_of(s) <= s.len() * b,
    decreases s.len(),
{
    if s.len() > 0 {
        lemma_sum_bound(s.drop_last(), b);
        assert(s.len() * b == (s.len() - 1) * b + b) by (nonlinear_arith);
    }
}

/// The position of `o`, when it lies at rank `adj` and has a position.
fn neighbour_position(o: &String, adj: usize, depths: &RankMap, look: &RankMap) -> (r: Option<usize>)
    ensures
        r matches Some(p) ==> holds(depths@, o@, adj as int) && look@.dom().contains(o@) && look@[o@] == p,
        r is None ==> !(holds(depths@, o@, adj as int) && look@.dom().contains(o@)),
{
    match depths.get(o) {
        Some(d) => {
            if d == adj {
                look.get(o)
            } else {
                None
            }
        },
        None => None,
    }
}

/// The mean position of the neighbours at rank `adj`, as a sum and a count,
/// when there are any.
pub fn barycenter(
    state: &String,
    adjacent_rank: usize,
    edge_pairs: &Vec<(String, String)>,
    depths: &RankMap,
    order_lookup: &RankMap,
) -> (r: Option<(u128, usize)>)
    ensures
        ({
            let ns = neighbour_orders(state@, adjacent_rank as int, pairs_view(edge_pairs@), depths@, order_lookup@);
            match r {
                None => ns.len() == 0,
                Some((s, c)) => ns.len() > 0 && s == sum_of(ns) && c == ns.len(),
            }
        }),
{
    let ghost ev = pairs_view(edge_pairs@);
    let ghost look = order_lookup@;
    proof {
        crate::maps::lemma_log_map_bounds(order_lookup.entries@);
    }
    let mut sum: u128 = 0;
    let mut count: usize = 0;
    let mut i: usize = 0;
    while i < edge_pairs.len()
        invariant
            i <= edge_pairs.len(),
            ev == pairs_view(edge_pairs@),
            look == order_lookup@,
            forall|k: Seq<char>| #[trigger] look.dom().contains(k) ==> 0 <= look[k] <= usize::MAX,
            count <= i,
            ({
                let ns = neighbour_orders(state@, adjacent_rank as int, ev.take(i as int), depths@, look);
                &&& count == ns.len()
                &&& sum == sum_of(ns)
                &&& forall|m: int| 0 <= m < ns.len() ==> 0 <= #[trigger] ns[m] <= usize::MAX
            }),
        decreases edge_pairs.len() - i,
    {
        let e = &edge_pairs[i];
        let ghost ns = neighbour_orders(state@, adjacent_rank as int, ev.take(i as int), depths@, look);
        assert(ev.take(i + 1).drop_last() =~= ev.take(i as int));
        assert(ev.take(i + 1).last() == (e.0@, e.1@));
        proof {
            lemma_sum_bound(ns, usize::MAX as int);
            assert(count * (usize::MAX as int) <= usize::MAX as int * usize::MAX as int) by (nonlinear_arith)
                requires
                    count <= usize::MAX;
        }
        let found = if e.0 == *state {
            neighbour_position(&e.1, adjacent_rank, depths, order_lookup)
        } else if e.1 == *state {
            neighbour_position(&e.0, adjacent_rank, depths, order_lookup)
        } else {
            None
        };
        match found {
            Some(pos) => {
                assert(sum + pos <= (count + 1) * (usize::MAX as int)) by (nonlinear_arith)
                    requires
                        sum <= count * (usize::MAX as int),
                        pos <= usize::MAX;
                assert((count + 1) * (usize::MAX as int) <= u128::MAX) by (nonlinear_arith)
                    requires
                        count < usize::MAX,
                        usize::MAX <= u64::MAX;
                sum = sum + pos as u128;
                count = count + 1;
                let ghost ns2 = neighbour_orders(state@, adjacent_rank as int, ev.take(i + 1), depths@, look);
                assert(ns2 =~= ns.push(pos as int));
                assert(ns2.drop_last() =~= ns);
            },
            None => {
                assert(neighbour_orders(state@, adjacent_rank as int, ev.take(i + 1), depths@, look) =~= ns);
            },
        }
        i += 1;
    }
    assert(ev.take(i as int) =~= ev);
    if count == 0 {
        None
    } else {
        Some((sum, count))
    }
}

/// The sort key of a state: the mean position of its neighbours at rank
/// `adj`, as a sum and a count, or, with none, its own position in the level.
pub open spec fn score(
    state: Seq<char>,
    level: Seq<Seq<char>>,
    adj: int,
    edges: Seq<(Seq<char>, Seq<char>)>,
    depths: Map<Seq<char>, int>,
    look: Map<Seq<char>, int>,
) -> (int, int) {
    let ns = neighbour_orders(state, adj, edges, depths, look);
    if ns.len() == 0 {
        (crate::layout::rank0(ranks_of(positions(level)), state), 1)
    } else {
        (sum_of(ns), ns.len() as int)
    }
}

/// Whether key `a` (a fraction) with name `na` comes before key `b` with name
/// `nb`: the smaller fraction first, equal fractions by name.
pub open spec fn key_lt(a: (int, int), na: Seq<char>, b: (int, int), nb: Seq<char>) -> bool {
    a.0 * b.1 < b.0 * a.1 || (a.0 * b.1 == b.0 * a.1 && str_lt(na, nb))
}

/// The order in which a level is reordered against rank `adj`.
pub open spec fn score_lt(
    level: Seq<Seq<char>>,
    adj: int,
    edges: Seq<(Seq<char>, Seq<char>)>,
    depths: Map<Seq<char>, int>,
    look: Map<Seq<char>, int>,
) -> spec_fn(Seq<char>, Seq<char>) -> bool {
    |x: Seq<char>, y: Seq<char>|
        key_lt(score(x, level, adj, edges, depths, look), x, score(y, level, adj, edges, depths, look), y)
}

/// The level reordered against rank `adj`.
pub open spec fn reorder(
    level: Seq<Seq<char>>,
    adj: int,
    edges: Seq<(Seq<char>, Seq<char>)>,
    depths: Map<Seq<char>, int>,
    look: Map<Seq<char>, int>,
) -> Seq<Seq<char>> {
    isort(level, score_lt(level, adj, edges, depths, look))
}

/// Comparing two fractions by their whole parts and remainders.
proof fn lemma_fraction_parts(a: int, b: int, c: int, d: int, q1: int, r1: int, q2: int, r2: int)
    requires
        b > 0,
        d > 0,
        a == q1 * b + r1,
        0 <= r1 < b,
        c == q2 * d + r2,
        0 <= r2 < d,
    ensures
        q1 < q2 ==> a * d < c * b,
        q1 > q2 ==> a * d > c * b,
        q1 == q2 ==> (a * d < c * b <==> r1 * d < r2 * b),
        q1 == q2 ==> (a * d == c * b <==> r1 * d == r2 * b),
{
    assert(a * d == q1 * b * d + r1 * d) by (nonlinear_arith)
        requires
            a == q1 * b + r1;
    assert(c * b == q2 * b * d + r2 * b) by (nonlinear_arith)
        requires
            c == q2 * d + r2;
    assert(r1 * d < b * d) by (nonlinear_arith)
        requires
            0 <= r1 < b,
            d > 0;
    assert(r2 * b < b * d) by (nonlinear_arith)
        requires
            0 <= r2 < d,
            b > 0;
    assert(r1 * d >= 0 && r2 * b >= 0) by (nonlinear_arith)
        requires
            r1 >= 0,
            r2 >= 0,
            b > 0,
            d > 0;
    if q1 < q2 {
        assert(q1 * b * d + b * d <= q2 * b * d) by (nonlinear_arith)
            requires
                q1 < q2,
                b > 0,
                d > 0;
    }
    if q1 > q2 {
        assert(q2 * b * d + b * d <= q1 * b * d) by (nonlinear_arith)
            requires
                q1 > q2,
                b > 0,
                d > 0;
    }
}

/// Whether key (`a`/`b`, `na`) comes before key (`c`/`d`, `nb`).
fn key_before(a: u128, b: usize, na: &String, c: u128, d: usize, nb: &String) -> (r: bool)
    requires
        b > 0,
        d > 0,
    ensures
        r == key_lt((a as int, b as int), na@, (c as int, d as int), nb@),
{
    let bb = b as u128;
    let dd = d as u128;
    let q1 = a / bb;
    let r1 = a % bb;
    let q2 = c / dd;
    let r2 = c % dd;
    proof {
        vstd::arithmetic::div_mod::lemma_fundamental_div_mod(a as int, bb as int);
        vstd::arithmetic::div_mod::lemma_fundamental_div_mod(c as int, dd as int);
        assert(a as int == q1 * b + r1) by (nonlinear_arith)
            requires
                a as int == bb * (a as int / bb as int) + (a as int % bb as int),
                q1 == a as int / bb as int,
                r1 == a as int % bb as int,
                bb == b;
        assert(c as int == q2 * d + r2) by (nonlinear_arith)
            requires
                c as int == dd * (c as int / dd as int) + (c as int % dd as int),
                q2 == c as int / dd as int,
                r2 == c as int % dd as int,
                dd == d;
        lemma_fraction_parts(a as int, b as int, c as int, d as int, q1 as int, r1 as int, q2 as int, r2 as int);
    }
    if q1 < q2 {
        true
    } else if q1 > q2 {
        false
    } else {
        assert(r1 * dd < bb * dd <= u64::MAX * u64::MAX) by (nonlinear_arith)
            requires
                r1 < bb,
                bb <= u64::MAX,
                dd <= u64::MAX,
                dd > 0;
        assert(r2 * bb < dd * bb <= u64::MAX * u64::MAX) by (nonlinear_arith)
            requires
                r2 < dd,
                bb <= u64::MAX,
                dd <= u64::MAX,
                bb > 0;
        let x = r1 * dd;
        let y = r2 * bb;
        if x < y {
            true
        } else if x == y {
            chars_lt(&chars_of(na.as_str()), &chars_of(nb.as_str()))
        } else {
            false
        }
    }
}

/// The sort key of `state`.
fn score_of(
    state: &String,
    current_order: &RankMap,
    adjacent_rank: usize,
    edge_pairs: &Vec<(String, String)>,
    depths: &RankMap,
    order_lookup: &RankMap,
) -> (r: (u128, usize))
    ensures
        r.1 > 0,
        (r.0 as int, r.1 as int) == ({
            let ns = neighbour_orders(state@, adjacent_rank as int, pairs_view(edge_pairs@), depths@, order_lookup@);
            if ns.len() == 0 {
                (crate::layout::rank0(current_order@, state@), 1)
            } else {
                (sum_of(ns), ns.len() as int)
            }
        }),
{
    match barycenter(state, adjacent_rank, edge_pairs, depths, order_lookup) {
        Some(sc) => sc,
        None => match current_order.get(state) {
            Some(p) => (p as u128, 1),
            None => (0, 1),
        },
    }
}

/// Reorders the level against rank `adjacent_rank`: by the mean position of
/// each state's neighbours there (a state with none keeps its own position as
/// its key), equal keys by name.
pub fn reorder_level(
    level_states: &mut Vec<String>,
    adjacent_rank: usize,
    edge_pairs: &Vec<(String, String)>,
    depths: &RankMap,
    order_lookup: &RankMap,
)
    ensures
        strings_view(final(level_states)@) == reorder(
            strings_view(old(level_states)@),
            adjacent_rank as int,
            pairs_view(edge_pairs@),
            depths@,
            order_lookup@,
        ),
{
    let ghost a = strings_view(level_states@);
    let ghost lt = score_lt(a, adjacent_rank as int, pairs_view(edge_pairs@), depths@, order_lookup@);
    let current_order = position_map(level_states);
    let mut names: Vec<String> = Vec::new();
    let mut keys: Vec<(u128, usize)> = Vec::new();
    let mut i: usize = 0;
    assert(isort(a.take(0), lt) =~= strings_view(names@));
    while i < level_states.len()
        invariant
            i <= level_states.len(),
            a == strings_view(level_states@),
            lt == score_lt(a, adjacent_rank as int, pairs_view(edge_pairs@), depths@, order_lookup@),
            current_order@ == ranks_of(positions(a)),
            names@.len() == keys@.len(),
            strings_view(names@) == isort(a.take(i as int), lt),
            forall|m: int|
                0 <= m < keys@.len() ==> (#[trigger] keys@[m]).1 > 0 && (keys@[m].0 as int, keys@[m].1 as int)
                    == score(names@[m]@, a, adjacent_rank as int, pairs_view(edge_pairs@), depths@, order_lookup@),
        decreases level_states.len() - i,
    {
        let x = level_states[i].clone();
        let kx = score_of(&x, &current_order, adjacent_rank, edge_pairs, depths, order_lookup);
        let ghost before = strings_view(names@);
        let mut p: usize = 0;
        assert(before.skip(0) =~= before);
        while p < names.len() && !key_before(kx.0, kx.1, &x, keys[p].0, keys[p].1, &names[p])
            invariant
                p <= names.len(),
                names@.len() == keys@.len(),
                before == strings_view(names@),
                kx.1 > 0,
                (kx.0 as int, kx.1 as int) == score(x@, a, adjacent_rank as int, pairs_view(edge_pairs@), depths@, order_lookup@),
                lt == score_lt(a, adjacent_rank as int, pairs_view(edge_pairs@), depths@, order_lookup@),
                forall|m: int|
                    0 <= m < keys@.len() ==> (#[trigger] keys@[m]).1 > 0 && (keys@[m].0 as int, keys@[m].1 as int)
                        == score(names@[m]@, a, adjacent_rank as int, pairs_view(edge_pairs@), depths@, order_lookup@),
                slot(before, x@, lt) == p + slot(before.skip(p as int), x@, lt),
            decreases names.len() - p,
        {
            assert(before[p as int] == names@[p as int]@);
            proof {
                lemma_slot_step(before, x@, lt, p as int);
            }
            p += 1;
        }
        proof {
            if p < names.len() {
                assert(before.skip(p as int)[0] == before[p as int]);
                assert(before[p as int] == names@[p as int]@);
            }
        }
        assert(slot(before, x@, lt) == p);
        assert(a.take(i + 1).drop_last() =~= a.take(i as int));
        assert(a.take(i + 1).last() == x@);
        let ghost old_keys = keys@;
        let ghost old_names = names@;
        names.insert(p, x);
        keys.insert(p, kx);
        assert(strings_view(names@) =~= before.insert(p as int, x@));
        assert forall|m: int|
            0 <= m < keys@.len() implies (#[trigger] keys@[m]).1 > 0 && (keys@[m].0 as int, keys@[m].1 as int)
                == score(names@[m]@, a, adjacent_rank as int, pairs_view(edge_pairs@), depths@, order_lookup@) by {
            if m < p {
                assert(keys@[m] == old_keys[m] && names@[m] == old_names[m]);
            } else if m > p {
                assert(keys@[m] == old_keys[m - 1] && names@[m] == old_names[m - 1]);
            }
        }
        i += 1;
    }
    assert(a.take(i as int) =~= a);
    *level_states = names;
}

/// The levels with `s` added at rank `r`: appended to the first level of that
/// rank, or as a new level before the first level of a greater rank.
pub open spec fn add_to(lv: Seq<(int, Seq<Seq<char>>)>, r: int, s: Seq<char>) -> Seq<(int, Seq<Seq<char>>)>
    decreases lv.len(),
{
    if lv.len() == 0 {
        seq![(r, seq![s])]
    } else if lv[0].0 == r {
        lv.update(0, (r, lv[0].1.push(s)))
    } else if r < lv[0].0 {
        seq![(r, seq![s])] + lv
    } else {
        seq![lv[0]] + add_to(lv.drop_first(), r, s)
    }
}

/// The states that have a depth, grouped into levels by depth, each level in
/// the order of the list.
pub open spec fn grouped(states: Seq<Seq<char>>, depths: Map<Seq<char>, int>) -> Seq<(int, Seq<Seq<char>>)>
    decreases states.len(),
{
    if states.len() == 0 {
        seq![]
    } else {
        let g = grouped(states.drop_last(), depths);
        let s = states.last();
        if depths.dom().contains(s) {
            add_to(g, depths[s], s)
        } else {
            g
        }
    }
}

/// The levels before any sweep: grouped by depth, each sorted by name.
pub open spec fn initial_levels(states: Seq<Seq<char>>, depths: Map<Seq<char>, int>) -> Seq<(int, Seq<Seq<char>>)> {
    grouped(states, depths).map_values(|l: (int, Seq<Seq<char>>)| (l.0, isort(l.1, name_lt())))
}

/// Level `idx` reordered against the rank of level `adj_idx`.
pub open spec fn reorder_at(
    lv: Seq<(int, Seq<Seq<char>>)>,
    idx: int,
    adj_idx: int,
    edges: Seq<(Seq<char>, Seq<char>)>,
    depths: Map<Seq<char>, int>,
) -> Seq<(int, Seq<Seq<char>>)> {
    lv.update(idx, (lv[idx].0, reorder(lv[idx].1, lv[adj_idx].0, edges, depths, lookup_of(lv))))
}

/// The downward pass up to level `k`: levels 1 to `k - 1` in turn, each
/// reordered against the level above.
pub open spec fn down_pass(
    lv: Seq<(int, Seq<Seq<char>>)>,
    k: int,
    edges: Seq<(Seq<char>, Seq<char>)>,
    depths: Map<Seq<char>, int>,
) -> Seq<(int, Seq<Seq<char>>)>
    decreases k,
{
    if k <= 1 {
        lv
    } else {
        reorder_at(down_pass(lv, k - 1, edges, depths), k - 1, k - 2, edges, depths)
    }
}

/// The upward pass, its first `m` steps: from the next-to-last level up,
/// each reordered against the level below.
pub open spec fn up_pass(
    lv: Seq<(int, Seq<Seq<char>>)>,
    m: int,
    edges: Seq<(Seq<char>, Seq<char>)>,
    depths: Map<Seq<char>, int>,
) -> Seq<(int, Seq<Seq<char>>)>
    decreases m,
{
    if m <= 0 {
        lv
    } else {
        let idx = lv.len() - 1 - m;
        reorder_at(up_pass(lv, m - 1, edges, depths), idx, idx + 1, edges, depths)
    }
}

/// One sweep: the downward pass, then the upward one.
pub open spec fn sweep(
    lv: Seq<(int, Seq<Seq<char>>)>,
    edges: Seq<(Seq<char>, Seq<char>)>,
    depths: Map<Seq<char>, int>,
) -> Seq<(int, Seq<Seq<char>>)> {
    let d = down_pass(lv, lv.len() as int, edges, depths);
    up_pass(d, lv.len() - 1, edges, depths)
}

/// `n` sweeps.
pub open spec fn sweeps(
    lv: Seq<(int, Seq<Seq<char>>)>,
    n: nat,
    edges: Seq<(Seq<char>, Seq<char>)>,
    depths: Map<Seq<char>, int>,
) -> Seq<(int, Seq<Seq<char>>)>
    decreases n,
{
    if n == 0 {
        lv
    } else {
        sweep(sweeps(lv, (n - 1) as nat, edges, depths), edges, depths)
    }
}

/// How many sweeps a machine of `n` states gets: `n`, kept within `[12, 24]`.
pub open spec fn sweep_count(n: int) -> nat {
    if n < 12 {
        12
    } else if n > 24 {
        24
    } else {
        n as nat
    }
}

/// The levels of the states, in increasing rank, each in its final order.
pub open spec fn ordered_levels(
    states: Seq<Seq<char>>,
    edges: Seq<(Seq<char>, Seq<char>)>,
    depths: Map<Seq<char>, int>,
) -> Seq<(int, Seq<Seq<char>>)> {
    sweeps(initial_levels(states, depths), sweep_count(states.len() as int), edges, depths)
}

/// Adding past levels of smaller rank leaves them in front.
proof fn lemma_add_to_skip(lv: Seq<(int, Seq<Seq<char>>)>, r: int, s: Seq<char>, i: int)
    requires
        0 <= i <= lv.len(),
        forall|j: int| 0 <= j < i ==> (#[trigger] lv[j]).0 < r,
    ensures
        add_to(lv, r, s) == lv.take(i) + add_to(lv.skip(i), r, s),
    decreases i,
{
    if i == 0 {
        assert(lv.skip(0) =~= lv);
        assert(lv.take(0) + add_to(lv, r, s) =~= add_to(lv, r, s));
    } else {
        assert(lv[0].0 < r);
        lemma_add_to_skip(lv.drop_first(), r, s, i - 1);
        assert(lv.drop_first().skip(i - 1) =~= lv.skip(i));
        assert(seq![lv[0]] + (lv.drop_first().take(i - 1) + add_to(lv.skip(i), r, s)) =~= lv.take(i) + add_to(
            lv.skip(i),
            r,
            s,
        ));
    }
}

/// Adds `s` at rank `r`.
fn add_state(levels: &mut Vec<Level>, r: usize, s: String)
    ensures
        levels_view(final(levels)@) == add_to(levels_view(old(levels)@), r as int, s@),
{
    let ghost lv = levels_view(levels@);
    let mut i: usize = 0;
    while i < levels.len() && levels[i].rank < r
        invariant
            i <= levels.len(),
            lv == levels_view(levels@),
            forall|j: int| 0 <= j < i ==> (#[trigger] lv[j]).0 < r,
        decreases levels.len() - i,
    {
        i += 1;
    }
    proof {
        lemma_add_to_skip(lv, r as int, s@, i as int);
    }
    if i < levels.len() && levels[i].rank == r {
        let ghost old_states = levels@[i as int].states@;
        levels[i].states.push(s);
        assert(strings_view(levels@[i as int].states@) =~= strings_view(old_states).push(s@));
        assert(levels_view(levels@) =~= lv.take(i as int) + add_to(lv.skip(i as int), r as int, s@));
    } else {
        let mut one: Vec<String> = Vec::new();
        one.push(s);
        levels.insert(i, Level { rank: r, states: one });
        assert(strings_view(one@) =~= seq![s@]);
        proof {
            if i < lv.len() {
                assert(lv.skip(i as int)[0] == lv[i as int]);
            }
        }
        assert(levels_view(levels@) =~= lv.take(i as int) + add_to(lv.skip(i as int), r as int, s@));
    }
}

/// The states grouped into levels by depth, in increasing rank, then each
/// level reordered in sweeps to bring states near their neighbours on the
/// adjacent levels: down the levels, each against the one above, then up,
/// each against the one below.
pub fn order_levels(states: &Vec<String>, edge_pairs: &Vec<(String, String)>, depths: &RankMap) -> (r: Vec<Level>)
    ensures
        levels_view(r@) == ordered_levels(strings_view(states@), pairs_view(edge_pairs@), depths@),
{
    let ghost sv = strings_view(states@);
    let ghost ev = pairs_view(edge_pairs@);
    let mut levels: Vec<Level> = Vec::new();
    let mut i: usize = 0;
    assert(sv.take(0) =~= Seq::<Seq<char>>::empty());
    while i < states.len()
        invariant
            i <= states.len(),
            sv == strings_view(states@),
            levels_view(levels@) == grouped(sv.take(i as int), depths@),
        decreases states.len() - i,
    {
        assert(sv.take(i + 1).drop_last() =~= sv.take(i as int));
        assert(sv.take(i + 1).last() == states@[i as int]@);
        match depths.get(&states[i]) {
            Some(rank) => add_state(&mut levels, rank, states[i].clone()),
            None => {},
        }
        i += 1;
    }
    assert(sv.take(i as int) =~= sv);
    let ghost g = levels_view(levels@);
    let mut level_vec: Vec<Level> = Vec::new();
    let mut k: usize = 0;
    while k < levels.len()
        invariant
            k <= levels.len(),
            g == levels_view(levels@),
            levels_view(level_vec@) == g.take(k as int).map_values(
                |l: (int, Seq<Seq<char>>)| (l.0, isort(l.1, name_lt())),
            ),
        decreases levels.len() - k,
    {
        let sorted = sort_by_name(&levels[k].states);
        let ghost prev = levels_view(level_vec@);
        let ghost f = |l: (int, Seq<Seq<char>>)| (l.0, isort(l.1, name_lt()));
        assert(g[k as int] == (levels@[k as int].rank as int, strings_view(levels@[k as int].states@)));
        level_vec.push(Level { rank: levels[k].rank, states: sorted });
        assert(levels_view(level_vec@) =~= prev.push(f(g[k as int])));
        assert(g.take(k + 1).map_values(f) =~= g.take(k as int).map_values(f).push(f(g[k as int])));
        k += 1;
    }
    assert(g.take(k as int) =~= g);
    let ghost init = levels_view(level_vec@);
    let n = level_vec.len();
    let sweep_total: usize = if states.len() < 12 {
        12
    } else if states.len() > 24 {
        24
    } else {
        states.len()
    };
    let mut done: usize = 0;
    while done < sweep_total
        invariant
            done <= sweep_total,
            sweep_total == sweep_count(sv.len() as int),
            n == level_vec.len(),
            n == init.len(),
            ev == pairs_view(edge_pairs@),
            levels_view(level_vec@) == sweeps(init, done as nat, ev, depths@),
        decreases sweep_total - done,
    {
        let ghost start = levels_view(level_vec@);
        let mut idx: usize = 1;
        while idx < n
            invariant
                1 <= idx,
                idx <= n || n == 0,
                n == level_vec.len(),
                start.len() == n,
                ev == pairs_view(edge_pairs@),
                levels_view(level_vec@) == down_pass(start, idx as int, ev, depths@),
            decreases n - idx,
        {
            let adjacent_rank = level_vec[idx - 1].rank;
            let lookup = order_lookup(&level_vec);
            let ghost before = levels_view(level_vec@);
            let ghost before_states = level_vec@[idx as int].states@;
            reorder_level(&mut level_vec[idx].states, adjacent_rank, edge_pairs, depths, &lookup);
            assert(levels_view(level_vec@) =~= reorder_at(before, idx as int, idx - 1, ev, depths@));
            idx += 1;
        }
        let ghost mid = levels_view(level_vec@);
        assert(mid == down_pass(start, start.len() as int, ev, depths@));
        let mut m: usize = 0;
        while n > 0 && m < n - 1
            invariant
                n == 0 || m <= n - 1,
                n == level_vec.len(),
                mid.len() == n,
                ev == pairs_view(edge_pairs@),
                levels_view(level_vec@) == up_pass(mid, m as int, ev, depths@),
            decreases n - m,
        {
            let idx = n - 2 - m;
            let adjacent_rank = level_vec[idx + 1].rank;
            let lookup = order_lookup(&level_vec);
            let ghost before = levels_view(level_vec@);
            reorder_level(&mut level_vec[idx].states, adjacent_rank, edge_pairs, depths, &lookup);
            assert(levels_view(level_vec@) =~= reorder_at(before, idx as int, idx + 1, ev, depths@));
            m += 1;
        }
        assert(levels_view(level_vec@) == sweep(start, ev, depths@));
        done += 1;
    }
    level_vec
}

/// Whether edge `e` touches `state` and its other end lies at rank `adj` at
/// position `p`.
pub open spec fn edge_gives(
    state: Seq<char>,
    adj: int,
    e: (Seq<char>, Seq<char>),
    depths: Map<Seq<char>, int>,
    look: Map<Seq<char>, int>,
    p: int,
) -> bool {
    ||| e.0 == state && holds(depths, e.1, adj) && look.dom().contains(e.1) && p == look[e.1]
    ||| e.1 == state && holds(depths, e.0, adj) && look.dom().contains(e.0) && p == look[e.0]
}

/// The neighbour positions averaged for a state come from its edges in both
/// directions: every edge into the state from a state at the adjacent rank
/// with a position, and every edge out of it to one, adds that position;
/// and every position averaged is one of these. So a state whose only edge
/// comes in from the adjacent rank still has a barycenter.
pub proof fn law_barycenter_counts_edges_both_ways(
    state: Seq<char>,
    adj: int,
    edges: Seq<(Seq<char>, Seq<char>)>,
    depths: Map<Seq<char>, int>,
    look: Map<Seq<char>, int>,
)
    ensures
        forall|q: int|
            0 <= q < edges.len() && (#[trigger] edges[q]).1 == state && edges[q].0 != state && holds(depths, edges[q].0, adj)
                && look.dom().contains(edges[q].0) ==> neighbour_orders(state, adj, edges, depths, look).contains(look[edges[q].0]),
        forall|q: int|
            0 <= q < edges.len() && (#[trigger] edges[q]).0 == state && holds(depths, edges[q].1, adj) && look.dom().contains(
                edges[q].1,
            ) ==> neighbour_orders(state, adj, edges, depths, look).contains(look[edges[q].1]),
        forall|i: int|
            0 <= i < neighbour_orders(state, adj, edges, depths, look).len() ==> exists|q: int|
                0 <= q < edges.len() && edge_gives(state, adj, #[trigger] edges[q], depths, look, #[trigger] neighbour_orders(state, adj, edges, depths, look)[i]),
        neighbour_orders(state, adj, edges, depths, look).len() <= edges.len(),
    decreases edges.len(),
{
    if edges.len() > 0 {
        let pre = edges.drop_last();
        law_barycenter_counts_edges_both_ways(state, adj, pre, depths, look);
        let l = neighbour_orders(state, adj, pre, depths, look);
        let r = neighbour_orders(state, adj, edges, depths, look);
        let n = edges.len() - 1;
        assert(edges[n] == edges.last());
        assert forall|q: int| 0 <= q < pre.len() implies pre[q] == edges[q] by {
        }
        assert forall|x: int| l.contains(x) implies r.contains(x) by {
            let k = choose|k: int| 0 <= k < l.len() && l[k] == x;
            assert(r[k] == l[k]);
        }
        if r.len() > l.len() {
            assert(r[l.len() as int] == r.last());
        }
        assert forall|q: int|
            0 <= q < edges.len() && (#[trigger] edges[q]).1 == state && edges[q].0 != state && holds(depths, edges[q].0, adj)
                && look.dom().contains(edges[q].0) implies r.contains(look[edges[q].0]) by {
            if q < n {
                assert(pre[q] == edges[q]);
                assert(l.contains(look[edges[q].0]));
            } else {
                assert(r[l.len() as int] == look[edges[q].0]);
            }
        }
        assert forall|q: int|
            0 <= q < edges.len() && (#[trigger] edges[q]).0 == state && holds(depths, edges[q].1, adj) && look.dom().contains(
                edges[q].1,
            ) implies r.contains(look[edges[q].1]) by {
            if q < n {
                assert(pre[q] == edges[q]);
                assert(l.contains(look[edges[q].1]));
            } else {
                assert(r[l.len() as int] == look[edges[q].1]);
            }
        }
        assert forall|i: int| 0 <= i < r.len() implies exists|q: int|
            0 <= q < edges.len() && edge_gives(state, adj, #[trigger] edges[q], depths, look, #[trigger] r[i]) by {
            if i < l.len() {
                assert(r[i] == l[i]);
                let q = choose|q: int| 0 <= q < pre.len() && edge_gives(state, adj, #[trigger] pre[q], depths, look, l[i]);
                assert(edges[q] == pre[q]);
            } else {
                assert(edges[n] == edges.last());
                assert(edge_gives(state, adj, edges[n], depths, look, r[i]));
            }
        }
    }
}

} // verus!
