//! Properties that hold of every parse.

use vstd::prelude::*;
use crate::model::{start_of, ActionView, MachineView};
use crate::order::{key_is, lemma_lt_total, stable_sort_of, str_lt};
use crate::parser::{add_all, declared_states, is_skipped, no_transition_warning, parses_to, process, states_in, step, warnings_of, Acc, Block};

verus! {

/// A sorted copy holds exactly the items of the list it sorts.
pub proof fn lemma_sort_keeps_items<T>(r: Seq<T>, a: Seq<T>, key: spec_fn(T) -> Seq<char>, x: T)
    requires
        stable_sort_of(r, a, key),
    ensures
        r.contains(x) <==> a.contains(x),
{
    let pr = key_is(key, key(x));
    assert(r.filter(pr) == a.filter(pr));
    if a.contains(x) {
        let i = choose|i: int| 0 <= i < a.len() && a[i] == x;
        a.lemma_filter_contains(pr, i);
        r.lemma_filter_contains_rev(pr, x);
    }
    if r.contains(x) {
        let i = choose|i: int| 0 <= i < r.len() && r[i] == x;
        r.lemma_filter_contains(pr, i);
        a.lemma_filter_contains_rev(pr, x);
    }
}

/// How many times `x` occurs in `s`.
pub open spec fn count(s: Seq<Seq<char>>, x: Seq<char>) -> int {
    s.filter(key_is(|y: Seq<char>| y, x)).len() as int
}

proof fn lemma_count_push(s: Seq<Seq<char>>, y: Seq<char>, x: Seq<char>)
    ensures
        count(s.push(y), x) == count(s, x) + if y == x { 1int } else { 0 },
{
    s.lemma_filter_push(y, key_is(|z: Seq<char>| z, x));
}

proof fn lemma_count_contains(s: Seq<Seq<char>>, x: Seq<char>)
    requires
        count(s, x) > 0,
    ensures
        s.contains(x),
{
    let pr = key_is(|z: Seq<char>| z, x);
    let f = s.filter(pr);
    s.lemma_filter_pred(pr, 0);
    assert(f.contains(f[0]));
    s.lemma_filter_contains_rev(pr, f[0]);
}

proof fn lemma_add_all_once(acc: Seq<Seq<char>>, vs: Seq<Seq<char>>, x: Seq<char>)
    requires
        count(acc, x) <= 1,
    ensures
        count(add_all(acc, vs), x) <= 1,
    decreases vs.len(),
{
    if vs.len() > 0 {
        lemma_add_all_once(acc, vs.drop_last(), x);
        let b = add_all(acc, vs.drop_last());
        if !b.contains(vs.last()) {
            lemma_count_push(b, vs.last(), x);
            if vs.last() == x && count(b, x) > 0 {
                lemma_count_contains(b, x);
            }
        }
    }
}

proof fn lemma_states_once(s: Seq<char>, ms: Seq<(int, int, (int, int, int, int))>, x: Seq<char>)
    ensures
        count(states_in(s, ms), x) <= 1,
    decreases ms.len(),
{
    if ms.len() == 0 {
        let e = Seq::<Seq<char>>::empty();
        e.lemma_filter_len(key_is(|z: Seq<char>| z, x));
    } else {
        lemma_states_once(s, ms.drop_last(), x);
        let c = ms.last().2;
        lemma_add_all_once(
            states_in(s, ms.drop_last()),
            crate::parser::quotes(s.subrange(c.2, c.3)).map_values(|q: Seq<char>| crate::text::trim(q)),
            x,
        );
    }
}

proof fn lemma_two_occurrences(r: Seq<Seq<char>>, i: int, j: int)
    requires
        0 <= i < j < r.len(),
        r[i] == r[j],
    ensures
        count(r, r[i]) >= 2,
{
    let x = r[i];
    let pr = key_is(|z: Seq<char>| z, x);
    let front = r.subrange(0, j);
    let back = r.subrange(j, r.len() as int);
    assert(r =~= front + back);
    Seq::filter_distributes_over_add(front, back, pr);
    assert(front[i] == x);
    front.lemma_filter_contains(pr, i);
    assert(back[0] == x);
    back.lemma_filter_contains(pr, 0);
}

/// The states of a parse are distinct and in strictly increasing order.
pub proof fn law_states_strictly_sorted(src: Seq<char>, m: MachineView)
    requires
        parses_to(src, m),
    ensures
        forall|i: int, j: int| 0 <= i < j < m.states.len() ==> str_lt(m.states[i], m.states[j]),
{
    let id = |y: Seq<char>| y;
    let a = declared_states(src);
    assert forall|i: int, j: int| 0 <= i < j < m.states.len() implies str_lt(m.states[i], m.states[j]) by {
        assert(!str_lt(id(m.states[j]), id(m.states[i])));
        if m.states[i] == m.states[j] {
            lemma_two_occurrences(m.states, i, j);
            lemma_states_once(src, crate::grammar::set_scan(src), m.states[i]);
            assert(m.states.filter(key_is(id, m.states[i])) == a.filter(key_is(id, m.states[i])));
        } else {
            lemma_lt_total(m.states[i], m.states[j]);
        }
    }
}

/// The actions of a parse are in order of name.
pub proof fn law_actions_sorted_by_name(src: Seq<char>, m: MachineView)
    requires
        parses_to(src, m),
    ensures
        forall|i: int, j: int| 0 <= i < j < m.actions.len() ==> !str_lt(m.actions[j].name, m.actions[i].name),
{
    let key = |a: ActionView| a.name;
    assert forall|i: int, j: int| 0 <= i < j < m.actions.len() implies !str_lt(m.actions[j].name, m.actions[i].name) by {
        assert(!str_lt(key(m.actions[j]), key(m.actions[i])));
    }
}

/// What every step keeps: actions are never state sets, `Init` or `Next`;
/// an action without transitions has its warning; each comment belongs to
/// an action with that comment.
pub open spec fn acc_ok(acc: Acc) -> bool {
    &&& forall|i: int| 0 <= i < acc.actions.len() ==> !is_skipped(#[trigger] acc.actions[i].name)
    &&& forall|i: int|
        0 <= i < acc.actions.len() && (#[trigger] acc.actions[i]).from.len() == 0 && acc.actions[i].to.len() == 0
            ==> acc.warnings.contains(no_transition_warning(acc.actions[i].name))
    &&& forall|i: int|
        0 <= i < acc.comments.len() ==> exists|j: int|
            0 <= j < acc.actions.len() && (#[trigger] acc.actions[j]).name == (#[trigger] acc.comments[i]).target
                && acc.actions[j].comment == Some(acc.comments[i].text)
}

proof fn lemma_process_ok(bs: Seq<Block>)
    ensures
        acc_ok(process(bs)),
    decreases bs.len(),
{
    if bs.len() > 0 {
        lemma_process_ok(bs.drop_last());
        let a = process(bs.drop_last());
        let b = bs.last();
        let n = step(a, b);
        assert forall|i: int|
            0 <= i < n.actions.len() && (#[trigger] n.actions[i]).from.len() == 0 && n.actions[i].to.len() == 0
                implies n.warnings.contains(no_transition_warning(n.actions[i].name)) by {
            if i < a.actions.len() && n.actions[i] == a.actions[i] {
                let k = choose|k: int| 0 <= k < a.warnings.len() && a.warnings[k] == no_transition_warning(a.actions[i].name);
                assert(n.warnings[k] == a.warnings[k]);
            } else {
                assert(n.warnings[n.warnings.len() - 1] == no_transition_warning(n.actions[i].name));
            }
        }
        assert forall|i: int| 0 <= i < n.comments.len() implies exists|j: int|
            0 <= j < n.actions.len() && (#[trigger] n.actions[j]).name == (#[trigger] n.comments[i]).target
                && n.actions[j].comment == Some(n.comments[i].text) by {
            if i < a.comments.len() && n.comments[i] == a.comments[i] {
                let j = choose|j: int| 0 <= j < a.actions.len() && (#[trigger] a.actions[j]).name == a.comments[i].target
                    && a.actions[j].comment == Some(a.comments[i].text);
                assert(n.actions[j] == a.actions[j]);
            } else {
                assert(n.actions[n.actions.len() - 1].name == n.comments[i].target);
            }
        }
    }
}

/// An action of a parse is never a state set, `Init` or `Next`.
pub proof fn law_actions_are_not_declarations(src: Seq<char>, m: MachineView)
    requires
        parses_to(src, m),
    ensures
        forall|i: int| 0 <= i < m.actions.len() ==> !is_skipped(#[trigger] m.actions[i].name),
{
    let acc = process(crate::parser::blocks_of(src));
    lemma_process_ok(crate::parser::blocks_of(src));
    assert forall|i: int| 0 <= i < m.actions.len() implies !is_skipped(#[trigger] m.actions[i].name) by {
        lemma_sort_keeps_items(m.actions, acc.actions, |a: ActionView| a.name, m.actions[i]);
        assert(m.actions.contains(m.actions[i]));
    }
}

/// An action whose transitions could not be read is never dropped
/// silently: the parse warns about it by name.
pub proof fn law_unreadable_actions_are_warned(src: Seq<char>, m: MachineView)
    requires
        parses_to(src, m),
    ensures
        forall|i: int|
            0 <= i < m.actions.len() && (#[trigger] m.actions[i]).from.len() == 0 && m.actions[i].to.len() == 0
                ==> m.warnings.contains(no_transition_warning(m.actions[i].name)),
{
    let acc = process(crate::parser::blocks_of(src));
    lemma_process_ok(crate::parser::blocks_of(src));
    assert forall|i: int|
        0 <= i < m.actions.len() && (#[trigger] m.actions[i]).from.len() == 0 && m.actions[i].to.len() == 0
            implies m.warnings.contains(no_transition_warning(m.actions[i].name)) by {
        lemma_sort_keeps_items(m.actions, acc.actions, |a: ActionView| a.name, m.actions[i]);
        assert(m.actions.contains(m.actions[i]));
        let j = choose|j: int| 0 <= j < acc.actions.len() && acc.actions[j] == m.actions[i];
        assert(acc.actions[j].from.len() == 0);
        let k = choose|k: int| 0 <= k < acc.warnings.len() && acc.warnings[k] == no_transition_warning(acc.actions[j].name);
        assert(warnings_of(src)[k] == acc.warnings[k]);
    }
}

proof fn lemma_comment_witness(src: Seq<char>, m: MachineView, i: int) -> (k: int)
    requires
        parses_to(src, m),
        0 <= i < m.comments.len(),
    ensures
        0 <= k < m.actions.len(),
        m.actions[k].name == m.comments[i].target,
        m.actions[k].comment == Some(m.comments[i].text),
{
    let acc = process(crate::parser::blocks_of(src));
    lemma_process_ok(crate::parser::blocks_of(src));
    assert(m.comments[i] == acc.comments[i]);
    let j = choose|j: int| 0 <= j < acc.actions.len() && (#[trigger] acc.actions[j]).name == acc.comments[i].target
        && acc.actions[j].comment == Some(acc.comments[i].text);
    lemma_sort_keeps_items(m.actions, acc.actions, |a: ActionView| a.name, acc.actions[j]);
    assert(acc.actions.contains(acc.actions[j]));
    choose|k: int| 0 <= k < m.actions.len() && m.actions[k] == acc.actions[j]
}

/// Whether the `i`-th comment belongs to an action that carries it.
pub open spec fn has_owner(m: MachineView, i: int) -> bool {
    exists|j: int|
        0 <= j < m.actions.len() && (#[trigger] m.actions[j]).name == m.comments[i].target
            && m.actions[j].comment == Some(m.comments[i].text)
}

/// Every comment of a parse belongs to an action that carries that comment.
pub proof fn law_comments_belong_to_actions(src: Seq<char>, m: MachineView)
    requires
        parses_to(src, m),
    ensures
        forall|i: int| 0 <= i < m.comments.len() ==> #[trigger] has_owner(m, i),
{
    assert forall|i: int| 0 <= i < m.comments.len() implies #[trigger] has_owner(m, i) by {
        let k = lemma_comment_witness(src, m, i);
        assert(m.actions[k].name == m.comments[i].target);
    }
}

/// The start state of a parse is its initial state when it has one, else
/// its first state, which no other state precedes.
pub proof fn law_start_state_is_initial_or_least(src: Seq<char>, m: MachineView)
    requires
        parses_to(src, m),
    ensures
        m.init_state matches Some(i) ==> start_of(m) == i,
        m.init_state is None && m.states.len() > 0 ==> forall|k: int|
            0 <= k < m.states.len() ==> !str_lt(#[trigger] m.states[k], start_of(m)),
{
    if m.init_state is None && m.states.len() > 0 {
        assert forall|k: int| 0 <= k < m.states.len() implies !str_lt(#[trigger] m.states[k], start_of(m)) by {
            if k > 0 {
                let id = |y: Seq<char>| y;
                assert(!str_lt(id(m.states[k]), id(m.states[0])));
            } else {
                crate::order::lemma_lt_irreflexive(m.states[0]);
            }
        }
    }
}

/// A definition that is no state set, `Init` or `Next`, names no source or
/// target state, and whose body, comments aside, holds no prime at all is
/// recorded as an invariant, `name: body`, and never as an action: taking it
/// adds that invariant and leaves the actions, comments and warnings as they were.
pub proof fn law_unprimed_definitions_are_invariants(acc: Acc, b: Block)
    requires
        !is_skipped(b.name),
        crate::parser::from_states(b.body).len() == 0,
        crate::parser::to_states(b.body).len() == 0,
        !crate::prose::strip_comments(b.body).contains('\''),
    ensures
        step(acc, b).invariants == acc.invariants.push(crate::parser::invariant_entry(b.name, b.body)),
        step(acc, b).actions == acc.actions,
        step(acc, b).warnings == acc.warnings,
        step(acc, b).comments == acc.comments,
{
    let s = crate::prose::strip_comments(b.body);
    if crate::grammar::has_primed(s) {
        let i = choose|i: int| 0 <= i && i + 1 < s.len() && #[trigger] crate::chars::is_word(s[i]) && s[i + 1] == '\'';
        assert(s.contains(s[i + 1]));
    }
}

/// Taking definitions in turn only ever adds invariants.
proof fn lemma_invariants_grow(bs: Seq<Block>, k: int)
    requires
        0 <= k <= bs.len(),
    ensures
        forall|x: Seq<char>| process(bs.take(k)).invariants.contains(x) ==> #[trigger] process(bs).invariants.contains(x),
    decreases bs.len() - k,
{
    if k < bs.len() {
        lemma_invariants_grow(bs, k + 1);
        let a = process(bs.take(k));
        assert(bs.take(k + 1).drop_last() =~= bs.take(k));
        assert(bs.take(k + 1).last() == bs[k]);
        let b = process(bs.take(k + 1));
        assert forall|x: Seq<char>| a.invariants.contains(x) implies b.invariants.contains(x) by {
            let j = choose|j: int| 0 <= j < a.invariants.len() && a.invariants[j] == x;
            assert(b.invariants[j] == x);
        }
    } else {
        assert(bs.take(k) =~= bs);
    }
}

/// Every such definition of a module is among the parse's invariants.
pub proof fn law_unprimed_definitions_listed(bs: Seq<Block>, i: int)
    requires
        0 <= i < bs.len(),
        !is_skipped(bs[i].name),
        crate::parser::from_states(bs[i].body).len() == 0,
        crate::parser::to_states(bs[i].body).len() == 0,
        !crate::prose::strip_comments(bs[i].body).contains('\''),
    ensures
        process(bs).invariants.contains(crate::parser::invariant_entry(bs[i].name, bs[i].body)),
{
    assert(bs.take(i + 1).drop_last() =~= bs.take(i));
    assert(bs.take(i + 1).last() == bs[i]);
    law_unprimed_definitions_are_invariants(process(bs.take(i)), bs[i]);
    let inv = process(bs.take(i + 1)).invariants;
    assert(inv[inv.len() - 1] == crate::parser::invariant_entry(bs[i].name, bs[i].body));
    lemma_invariants_grow(bs, i + 1);
}

/// In every parse, each definition that is no state set, `Init` or `Next`,
/// names no source or target state, and primes nothing outside comments is
/// listed among the invariants as `name: body`.
pub proof fn law_parse_lists_unprimed_definitions_as_invariants(src: Seq<char>, m: MachineView, i: int)
    requires
        parses_to(src, m),
        0 <= i < crate::parser::blocks_of(src).len(),
        !is_skipped(crate::parser::blocks_of(src)[i].name),
        crate::parser::from_states(crate::parser::blocks_of(src)[i].body).len() == 0,
        crate::parser::to_states(crate::parser::blocks_of(src)[i].body).len() == 0,
        !crate::prose::strip_comments(crate::parser::blocks_of(src)[i].body).contains('\''),
    ensures
        m.invariants.contains(
            crate::parser::invariant_entry(crate::parser::blocks_of(src)[i].name, crate::parser::blocks_of(src)[i].body),
        ),
{
    law_unprimed_definitions_listed(crate::parser::blocks_of(src), i);
}

/// A definition that is no state set, `Init` or `Next` and names a source or
/// a target state is always an action: taking it adds one action under its
/// name carrying exactly the states read, no invariant and no warning.
pub proof fn law_definitions_with_states_are_actions(acc: Acc, b: Block)
    requires
        !is_skipped(b.name),
        crate::parser::from_states(b.body).len() > 0 || crate::parser::to_states(b.body).len() > 0,
    ensures
        step(acc, b).actions.len() == acc.actions.len() + 1,
        step(acc, b).actions.take(acc.actions.len() as int) == acc.actions,
        step(acc, b).actions[acc.actions.len() as int].name == b.name,
        step(acc, b).actions[acc.actions.len() as int].from == crate::parser::from_states(b.body),
        step(acc, b).actions[acc.actions.len() as int].to == crate::parser::to_states(b.body),
        step(acc, b).invariants == acc.invariants,
        step(acc, b).warnings == acc.warnings,
{
    assert(step(acc, b).actions.take(acc.actions.len() as int) =~= acc.actions);
}

} // verus!
