//! The specification parser: from the text of a module to a `ParsedMachine`.

use vstd::prelude::*;
use crate::grammar::{action_head_at, find_all, find_heads, find_module_end, find_sets, head_hit, head_scan, hit, first_at, init_at, init_here, module_end, module_header, module_header_at, next_at, next_here, pattern_at, pattern_scan, set_hit, set_scan, HeadCaps, Pattern};
use crate::prose::{preceding, preceding_comment};
use crate::model::{opt_view, strings_view, untitled, Action, ActionView, Comment, CommentView, MachineView, ParsedMachine};
use crate::order::{sort_actions, sort_strings, stable_sort_of};
use crate::prose::{arrow, normalize, single_spaced, primed, strip, strip_comments};
use crate::grammar::{has_arrow, has_primed};
use crate::text::{at, back, chars_of, occurs_at, skip, string_of, trim, Class};

verus! {

/// The texts between the quotes of each quoted string in `t`.
pub open spec fn quotes(t: Seq<char>) -> Seq<Seq<char>> {
    pattern_scan(Pattern::Quoted, t).map_values(|m: (int, int, (int, int))| t.subrange(m.2.0, m.2.1))
}

/// `acc` with `v` added at the end unless it is already there.
pub open spec fn add_unique(acc: Seq<Seq<char>>, v: Seq<char>) -> Seq<Seq<char>> {
    if acc.contains(v) {
        acc
    } else {
        acc.push(v)
    }
}

/// `acc` with each of `vs` added in turn unless already there.
pub open spec fn add_all(acc: Seq<Seq<char>>, vs: Seq<Seq<char>>) -> Seq<Seq<char>>
    decreases vs.len(),
{
    if vs.len() == 0 {
        acc
    } else {
        add_unique(add_all(acc, vs.drop_last()), vs.last())
    }
}

/// Whether a name ends in `Stages` or `States`, the mark of a state set.
pub open spec fn is_state_set_name(name: Seq<char>) -> bool {
    name.len() >= 6 && (occurs_at(name, name.len() - 6, seq!['S', 't', 'a', 'g', 'e', 's'])
        || occurs_at(name, name.len() - 6, seq!['S', 't', 'a', 't', 'e', 's']))
}

/// The states declared by the set definitions `ms` of `s`, in order of first
/// appearance, each quoted name trimmed.
pub open spec fn states_in(s: Seq<char>, ms: Seq<(int, int, (int, int, int, int))>) -> Seq<Seq<char>>
    decreases ms.len(),
{
    if ms.len() == 0 {
        seq![]
    } else {
        let acc = states_in(s, ms.drop_last());
        let c = ms.last().2;
        if is_state_set_name(s.subrange(c.0, c.1)) {
            add_all(acc, quotes(s.subrange(c.2, c.3)).map_values(|q: Seq<char>| trim(q)))
        } else {
            acc
        }
    }
}

/// The states of a module, in order of first appearance.
pub open spec fn declared_states(s: Seq<char>) -> Seq<Seq<char>> {
    states_in(s, set_scan(s))
}

/// The characters `s[lo..hi]` as a vector of their own.
pub fn slice(s: &Vec<char>, lo: usize, hi: usize) -> (r: Vec<char>)
    requires
        lo <= hi <= s.len(),
    ensures
        r@ == s@.subrange(lo as int, hi as int),
{
    let mut r: Vec<char> = Vec::new();
    crate::prose::extend(&mut r, s, lo, hi);
    assert(r@ =~= s@.subrange(lo as int, hi as int));
    r
}

/// The range of `t` that `trim` keeps.
pub fn trim_bounds(t: &Vec<char>) -> (r: (usize, usize))
    ensures
        r.0 <= r.1 <= t.len(),
        t@.subrange(r.0 as int, r.1 as int) == trim(t@),
{
    let a = skip(t, 0, t.len(), Class::Space);
    let b = back(t, a, t.len(), Class::Space);
    (a, b)
}

/// `t` trimmed, as a string.
pub fn trimmed(t: &Vec<char>) -> (r: String)
    ensures
        r@ == trim(t@),
{
    let (a, b) = trim_bounds(t);
    string_of(t, a, b)
}

/// The quoted texts of `t`, in order.
pub fn quoted_texts(t: &Vec<char>) -> (r: Vec<Vec<char>>)
    ensures
        r@.map_values(|v: Vec<char>| v@) == quotes(t@),
{
    let hits = find_all(Pattern::Quoted, t);
    let ghost sc = pattern_scan(Pattern::Quoted, t@);
    let mut r: Vec<Vec<char>> = Vec::new();
    let mut i: usize = 0;
    while i < hits.len()
        invariant
            i <= hits.len(),
            hits@.map_values(|x: (usize, usize, usize, usize)| hit(x)) == sc,
            sc == pattern_scan(Pattern::Quoted, t@),
            r@.map_values(|v: Vec<char>| v@) =~= quotes(t@).take(i as int),
        decreases hits.len() - i,
    {
        let (_, _, a, b) = hits[i];
        assert(hit(hits@[i as int]) == sc[i as int]);
        proof {
            crate::grammar::lemma_scan(pattern_at(Pattern::Quoted, t@), 0, t@.len() as int);
            crate::grammar::lemma_quoted_range(t@, sc[i as int].0);
        }
        let v = slice(t, a, b);
        let ghost before = r@;
        r.push(v);
        assert(r@.map_values(|v: Vec<char>| v@) =~= before.map_values(|v: Vec<char>| v@).push(v@));
        assert(quotes(t@).take(i + 1) =~= quotes(t@).take(i as int).push(quotes(t@)[i as int]));
        i += 1;
    }
    assert(quotes(t@).take(i as int) =~= quotes(t@));
    r
}

/// Adds `v` at the end of `acc` unless an equal string is already there.
pub fn push_unique(acc: &mut Vec<String>, v: String)
    ensures
        strings_view(final(acc)@) == add_unique(strings_view(old(acc)@), v@),
{
    let mut k: usize = 0;
    while k < acc.len()
        invariant
            k <= acc.len(),
            forall|m: int| 0 <= m < k ==> acc@[m]@ != v@,
        decreases acc.len() - k,
    {
        if acc[k] == v {
            assert(strings_view(acc@)[k as int] == v@);
            return;
        }
        k += 1;
    }
    assert(!strings_view(acc@).contains(v@));
    let ghost before = acc@;
    acc.push(v);
    assert(strings_view(acc@) =~= strings_view(before).push(v@));
}

/// The states declared by the set definitions of `s`, in order of first appearance.
pub fn collect_states(s: &Vec<char>) -> (r: Vec<String>)
    ensures
        strings_view(r@) == declared_states(s@),
{
    let sets = find_sets(s);
    let ghost sc = set_scan(s@);
    proof {
        crate::grammar::lemma_scan(|p: int| crate::grammar::set_def_at(s@, p), 0, s@.len() as int);
    }
    let mut acc: Vec<String> = Vec::new();
    let mut i: usize = 0;
    while i < sets.len()
        invariant
            i <= sets.len(),
            sets@.map_values(|t: (usize, usize, (usize, usize, usize, usize))| set_hit(t)) == sc,
            sc == set_scan(s@),
            forall|k: int| 0 <= k < sc.len() ==> crate::grammar::set_def_at(s@, #[trigger] sc[k].0) == Some((sc[k].1, sc[k].2)),
            strings_view(acc@) == states_in(s@, sc.take(i as int)),
        decreases sets.len() - i,
    {
        let (_, _, (a, b, c, d)) = sets[i];
        assert(set_hit(sets@[i as int]) == sc[i as int]);
        proof {
            crate::grammar::lemma_set_range(s@, sc[i as int].0);
        }
        assert(sc.take(i + 1).drop_last() =~= sc.take(i as int));
        let ghost prev = strings_view(acc@);
        if state_set_name(s, a, b) {
            let body = slice(s, c, d);
            let qs = quoted_texts(&body);
            let ghost vals = quotes(body@).map_values(|q: Seq<char>| trim(q));
            let mut j: usize = 0;
            while j < qs.len()
                invariant
                    j <= qs.len(),
                    qs@.map_values(|v: Vec<char>| v@) == quotes(body@),
                    vals == quotes(body@).map_values(|q: Seq<char>| trim(q)),
                    strings_view(acc@) == add_all(prev, vals.take(j as int)),
                decreases qs.len() - j,
            {
                let t = trimmed(&qs[j]);
                assert(qs@.map_values(|v: Vec<char>| v@)[j as int] == qs@[j as int]@);
                assert(vals.take(j + 1).drop_last() =~= vals.take(j as int));
                push_unique(&mut acc, t);
                j += 1;
            }
            assert(vals.take(j as int) =~= vals);
        }
        i += 1;
    }
    assert(sc.take(i as int) =~= sc);
    acc
}

/// Whether `s[a..b]` ends in `Stages` or `States`.
pub fn state_set_name(s: &Vec<char>, a: usize, b: usize) -> (r: bool)
    requires
        a <= b <= s.len(),
    ensures
        r == is_state_set_name(s@.subrange(a as int, b as int)),
{
    let name = slice(s, a, b);
    let n = name.len();
    n >= 6 && (at(&name, n - 6, &['S', 't', 'a', 'g', 'e', 's']) || at(&name, n - 6, &['S', 't', 'a', 't', 'e', 's']))
}

/// A definition of the module: the comment right above it, its name and its
/// trimmed body (the text up to the next definition or the module end).
pub struct Block {
    pub comment: Option<Seq<char>>,
    pub name: Seq<char>,
    pub body: Seq<char>,
}

/// The definition heads of the module, before its end line.
pub open spec fn heads_of(s: Seq<char>) -> Seq<(int, int, HeadCaps)> {
    head_scan(s, module_end(s))
}

/// Where the body of the `i`-th definition ends: at the start of the next
/// definition, or at the module end.
pub open spec fn body_end(s: Seq<char>, hs: Seq<(int, int, HeadCaps)>, i: int) -> int {
    if i + 1 < hs.len() {
        hs[i + 1].0
    } else {
        module_end(s)
    }
}

/// The `i`-th definition: its one-line comment, else the comment that ends
/// right before it.
pub open spec fn block_at(s: Seq<char>, hs: Seq<(int, int, HeadCaps)>, i: int) -> Block {
    let h = hs[i];
    Block {
        comment: match h.2.0 {
            Some(r) => Some(s.subrange(r.0, r.1)),
            None => preceding_comment(s, h.0),
        },
        name: trim(s.subrange(h.2.1, h.2.2)),
        body: trim(s.subrange(h.2.3, body_end(s, hs, i))),
    }
}

/// The definitions of the module, in order.
pub open spec fn blocks_of(s: Seq<char>) -> Seq<Block> {
    let hs = heads_of(s);
    Seq::new(hs.len(), |i: int| block_at(s, hs, i))
}

/// Whether every definition body begins no later than it ends. A definition
/// whose `==` begins the module end line (`Name` on one line, `====` on the
/// next) fails this: its body would start after the module end.
pub open spec fn bodies_in_bounds(s: Seq<char>) -> bool {
    let hs = heads_of(s);
    forall|i: int| 0 <= i < hs.len() ==> #[trigger] hs[i].2.3 <= body_end(s, hs, i)
}

/// A definition as vectors of characters.
pub struct RawBlock {
    pub comment: Option<Vec<char>>,
    pub name: Vec<char>,
    pub body: Vec<char>,
}

/// The characters of an optional vector.
pub open spec fn opt_chars(o: Option<Vec<char>>) -> Option<Seq<char>> {
    match o {
        Some(v) => Some(v@),
        None => None,
    }
}

/// The value of a `RawBlock`.
pub open spec fn raw_view(b: RawBlock) -> Block {
    Block { comment: opt_chars(b.comment), name: b.name@, body: b.body@ }
}

/// `t` trimmed, as a vector.
pub fn trimmed_chars(t: &Vec<char>) -> (r: Vec<char>)
    ensures
        r@ == trim(t@),
{
    let (a, b) = trim_bounds(t);
    slice(t, a, b)
}

/// The definitions of the module in `s`, in order.
pub fn blocks(s: &Vec<char>) -> (r: Vec<RawBlock>)
    requires
        bodies_in_bounds(s@),
    ensures
        r@.map_values(|b: RawBlock| raw_view(b)) == blocks_of(s@),
{
    let end = find_module_end(s);
    let heads = find_heads(s, end);
    let ghost hs = heads_of(s@);
    proof {
        crate::grammar::lemma_scan(|p: int| action_head_at(s@, p), 0, end as int);
    }
    let mut r: Vec<RawBlock> = Vec::new();
    let mut i: usize = 0;
    while i < heads.len()
        invariant
            i <= heads.len(),
            end == module_end(s@),
            end <= s.len(),
            heads@.map_values(|t: (usize, usize, (Option<(usize, usize)>, usize, usize, usize))| head_hit(t)) == hs,
            hs == heads_of(s@),
            bodies_in_bounds(s@),
            forall|k: int| 0 <= k < hs.len() ==> action_head_at(s@, #[trigger] hs[k].0) == Some((hs[k].1, hs[k].2)) && 0 <= hs[k].0 < end,
            r@.len() == i,
            forall|k: int| 0 <= k < i ==> raw_view(#[trigger] r@[k]) == block_at(s@, hs, k),
        decreases heads.len() - i,
    {
        let (st, _, (c, q, e, g)) = heads[i];
        assert(head_hit(heads@[i as int]) == hs[i as int]);
        proof {
            crate::grammar::lemma_head_range(s@, hs[i as int].0);
        }
        let be = if i + 1 < heads.len() {
            assert(head_hit(heads@[i + 1]) == hs[i + 1]);
            heads[i + 1].0
        } else {
            end
        };
        assert(hs[i as int].2.3 <= body_end(s@, hs, i as int));
        let comment = match c {
            Some((x, y)) => Some(slice(s, x, y)),
            None => match preceding(s, st) {
                Some((x, y)) => Some(slice(s, x, y)),
                None => None,
            },
        };
        let name = trimmed_chars(&slice(s, q, e));
        let body = trimmed_chars(&slice(s, g, be));
        let b = RawBlock { comment, name, body };
        assert(raw_view(b) == block_at(s@, hs, i as int));
        r.push(b);
        i += 1;
    }
    assert(r@.map_values(|b: RawBlock| raw_view(b)) =~= blocks_of(s@));
    r
}

/// The text of each capture of a scan.
pub open spec fn captured(t: Seq<char>, ms: Seq<(int, int, (int, int))>) -> Seq<Seq<char>> {
    ms.map_values(|m: (int, int, (int, int))| t.subrange(m.2.0, m.2.1))
}

/// `base` with the quoted states of each `xState \in { ... }` of `ms` added
/// in turn unless already there.
pub open spec fn add_from_sets(t: Seq<char>, base: Seq<Seq<char>>, ms: Seq<(int, int, (int, int))>) -> Seq<Seq<char>>
    decreases ms.len(),
{
    if ms.len() == 0 {
        base
    } else {
        add_all(
            add_from_sets(t, base, ms.drop_last()),
            quotes(t.subrange(ms.last().2.0, ms.last().2.1)),
        )
    }
}

/// The source states of an action body: each `xState = "S"` in order, then
/// the states of each `xState \in { ... }` not already listed.
pub open spec fn from_states(t: Seq<char>) -> Seq<Seq<char>> {
    add_from_sets(t, captured(t, pattern_scan(Pattern::FromEq, t)), pattern_scan(Pattern::FromIn, t))
}

/// The quoted states after each primed assignment of `ms`, in order.
pub open spec fn targets_in(t: Seq<char>, ms: Seq<(int, int, (int, int))>) -> Seq<Seq<char>>
    decreases ms.len(),
{
    if ms.len() == 0 {
        seq![]
    } else {
        targets_in(t, ms.drop_last()) + quotes(t.subrange(ms.last().2.0, ms.last().2.1))
    }
}

/// The target states of an action body: the quoted names on the rest of the
/// line after each `xState' =` or `xState' \in`.
pub open spec fn to_states(t: Seq<char>) -> Seq<Seq<char>> {
    targets_in(t, pattern_scan(Pattern::To, t))
}

/// Strings made of `s[lo..hi]` for each captured range.
pub fn capture_strings(t: &Vec<char>, hits: &Vec<(usize, usize, usize, usize)>, Ghost(k): Ghost<Pattern>) -> (r: Vec<String>)
    requires
        hits@.map_values(|x: (usize, usize, usize, usize)| hit(x)) == pattern_scan(k, t@),
    ensures
        strings_view(r@) == captured(t@, pattern_scan(k, t@)),
{
    let ghost sc = pattern_scan(k, t@);
    proof {
        crate::grammar::lemma_scan(pattern_at(k, t@), 0, t@.len() as int);
    }
    let mut r: Vec<String> = Vec::new();
    let mut i: usize = 0;
    while i < hits.len()
        invariant
            i <= hits.len(),
            hits@.map_values(|x: (usize, usize, usize, usize)| hit(x)) == sc,
            sc == pattern_scan(k, t@),
            forall|m: int| 0 <= m < sc.len() ==> pattern_at(k, t@)(#[trigger] sc[m].0) == Some((sc[m].1, sc[m].2)),
            strings_view(r@) =~= captured(t@, sc).take(i as int),
        decreases hits.len() - i,
    {
        let (_, _, a, b) = hits[i];
        assert(hit(hits@[i as int]) == sc[i as int]);
        proof {
            crate::grammar::lemma_pattern_range(k, t@, sc[i as int].0);
        }
        let v = string_of(t, a, b);
        let ghost before = r@;
        r.push(v);
        assert(strings_view(r@) =~= strings_view(before).push(v@));
        assert(captured(t@, sc).take(i + 1) =~= captured(t@, sc).take(i as int).push(captured(t@, sc)[i as int]));
        i += 1;
    }
    assert(captured(t@, sc).take(i as int) =~= captured(t@, sc));
    r
}

/// The source states of an action body.
pub fn from_list(t: &Vec<char>) -> (r: Vec<String>)
    ensures
        strings_view(r@) == from_states(t@),
{
    let eqs = find_all(Pattern::FromEq, t);
    let mut acc = capture_strings(t, &eqs, Ghost(Pattern::FromEq));
    let ins = find_all(Pattern::FromIn, t);
    let ghost sc = pattern_scan(Pattern::FromIn, t@);
    let ghost base = strings_view(acc@);
    proof {
        crate::grammar::lemma_scan(pattern_at(Pattern::FromIn, t@), 0, t@.len() as int);
    }
    let mut i: usize = 0;
    while i < ins.len()
        invariant
            i <= ins.len(),
            ins@.map_values(|x: (usize, usize, usize, usize)| hit(x)) == sc,
            sc == pattern_scan(Pattern::FromIn, t@),
            base == captured(t@, pattern_scan(Pattern::FromEq, t@)),
            forall|m: int| 0 <= m < sc.len() ==> pattern_at(Pattern::FromIn, t@)(#[trigger] sc[m].0) == Some((sc[m].1, sc[m].2)),
            strings_view(acc@) == add_from_sets(t@, base, sc.take(i as int)),
        decreases ins.len() - i,
    {
        let (_, _, a, b) = ins[i];
        assert(hit(ins@[i as int]) == sc[i as int]);
        proof {
            crate::grammar::lemma_pattern_range(Pattern::FromIn, t@, sc[i as int].0);
        }
        assert(sc.take(i + 1).drop_last() =~= sc.take(i as int));
        let ghost prev = strings_view(acc@);
        let inner = slice(t, a, b);
        let qs = quoted_texts(&inner);
        let mut j: usize = 0;
        while j < qs.len()
            invariant
                j <= qs.len(),
                qs@.map_values(|v: Vec<char>| v@) == quotes(inner@),
                strings_view(acc@) == add_all(prev, quotes(inner@).take(j as int)),
            decreases qs.len() - j,
        {
            let v = string_of(&qs[j], 0, qs[j].len());
            assert(qs@.map_values(|v: Vec<char>| v@)[j as int] == qs@[j as int]@);
            assert(qs@[j as int]@.subrange(0, qs@[j as int]@.len() as int) =~= qs@[j as int]@);
            assert(quotes(inner@).take(j + 1).drop_last() =~= quotes(inner@).take(j as int));
            push_unique(&mut acc, v);
            j += 1;
        }
        assert(quotes(inner@).take(j as int) =~= quotes(inner@));
        i += 1;
    }
    assert(sc.take(i as int) =~= sc);
    acc
}

/// The target states of an action body.
pub fn to_list(t: &Vec<char>) -> (r: Vec<String>)
    ensures
        strings_view(r@) == to_states(t@),
{
    let tos = find_all(Pattern::To, t);
    let ghost sc = pattern_scan(Pattern::To, t@);
    proof {
        crate::grammar::lemma_scan(pattern_at(Pattern::To, t@), 0, t@.len() as int);
    }
    let mut acc: Vec<String> = Vec::new();
    let mut i: usize = 0;
    while i < tos.len()
        invariant
            i <= tos.len(),
            tos@.map_values(|x: (usize, usize, usize, usize)| hit(x)) == sc,
            sc == pattern_scan(Pattern::To, t@),
            forall|m: int| 0 <= m < sc.len() ==> pattern_at(Pattern::To, t@)(#[trigger] sc[m].0) == Some((sc[m].1, sc[m].2)),
            strings_view(acc@) == targets_in(t@, sc.take(i as int)),
        decreases tos.len() - i,
    {
        let (_, _, a, b) = tos[i];
        assert(hit(tos@[i as int]) == sc[i as int]);
        proof {
            crate::grammar::lemma_pattern_range(Pattern::To, t@, sc[i as int].0);
        }
        assert(sc.take(i + 1).drop_last() =~= sc.take(i as int));
        let ghost prev = strings_view(acc@);
        let inner = slice(t, a, b);
        let qs = quoted_texts(&inner);
        let mut j: usize = 0;
        while j < qs.len()
            invariant
                j <= qs.len(),
                qs@.map_values(|v: Vec<char>| v@) == quotes(inner@),
                strings_view(acc@) == prev + quotes(inner@).take(j as int),
            decreases qs.len() - j,
        {
            let v = string_of(&qs[j], 0, qs[j].len());
            assert(qs@.map_values(|v: Vec<char>| v@)[j as int] == qs@[j as int]@);
            assert(qs@[j as int]@.subrange(0, qs@[j as int]@.len() as int) =~= qs@[j as int]@);
            let ghost before = acc@;
            acc.push(v);
            assert(strings_view(acc@) =~= strings_view(before).push(v@));
            assert(prev + quotes(inner@).take(j + 1) =~= (prev + quotes(inner@).take(j as int)).push(quotes(inner@)[j as int]));
            j += 1;
        }
        assert(quotes(inner@).take(j as int) =~= quotes(inner@));
        i += 1;
    }
    assert(sc.take(i as int) =~= sc);
    acc
}

/// What the definitions parsed so far have contributed.
pub struct Acc {
    pub actions: Seq<ActionView>,
    pub invariants: Seq<Seq<char>>,
    pub comments: Seq<CommentView>,
    pub warnings: Seq<Seq<char>>,
}

/// Names of definitions that are no actions: state sets, `Init` and `Next`.
pub open spec fn is_skipped(name: Seq<char>) -> bool {
    is_state_set_name(name) || name == seq!['I', 'n', 'i', 't'] || name == seq!['N', 'e', 'x', 't']
}

/// How an invariant is recorded: its name and its body on one line.
pub open spec fn invariant_entry(name: Seq<char>, body: Seq<char>) -> Seq<char> {
    name + ": "@ + single_spaced(body)
}

/// The warning for an action whose transitions could not be read.
pub open spec fn no_transition_warning(name: Seq<char>) -> Seq<char> {
    "Could not infer transitions for `"@ + name
        + "`. This is common for complex or quantified actions in MVP mode."@
}

/// A definition with no transitions is an invariant when, comments aside, it
/// holds `=>` or primes no variable.
pub open spec fn reads_as_invariant(body: Seq<char>) -> bool {
    has_arrow(strip_comments(body)) || !has_primed(strip_comments(body))
}

/// What one definition adds: nothing for state sets, `Init` and `Next`; an
/// invariant for a definition without transitions that reads as one; else an
/// action (with a warning when no transition was found) and its comment.
pub open spec fn step(acc: Acc, b: Block) -> Acc {
    let from = from_states(b.body);
    let to = to_states(b.body);
    let none = from.len() == 0 && to.len() == 0;
    let comment = match b.comment {
        Some(c) => Some(single_spaced(c)),
        None => None,
    };
    if is_skipped(b.name) {
        acc
    } else if none && reads_as_invariant(b.body) {
        Acc {
            actions: acc.actions,
            invariants: acc.invariants.push(invariant_entry(b.name, b.body)),
            comments: acc.comments,
            warnings: acc.warnings,
        }
    } else {
        Acc {
            actions: acc.actions.push(ActionView { name: b.name, from, to, comment }),
            invariants: acc.invariants,
            comments: match comment {
                Some(c) => acc.comments.push(CommentView { target: b.name, text: c }),
                None => acc.comments,
            },
            warnings: if none {
                acc.warnings.push(no_transition_warning(b.name))
            } else {
                acc.warnings
            },
        }
    }
}

/// What a sequence of definitions contributes, taken in order.
pub open spec fn process(bs: Seq<Block>) -> Acc
    decreases bs.len(),
{
    if bs.len() == 0 {
        Acc { actions: seq![], invariants: seq![], comments: seq![], warnings: seq![] }
    } else {
        step(process(bs.drop_last()), bs.last())
    }
}

/// The executable counterpart of `Acc`.
pub struct Collected {
    pub actions: Vec<Action>,
    pub invariants: Vec<String>,
    pub comments: Vec<Comment>,
    pub warnings: Vec<String>,
}

/// The value of a `Collected`.
pub open spec fn collected_view(c: Collected) -> Acc {
    Acc {
        actions: c.actions@.map_values(|a: Action| a@),
        invariants: strings_view(c.invariants@),
        comments: c.comments@.map_values(|x: Comment| x@),
        warnings: strings_view(c.warnings@),
    }
}

/// `a` followed by `b`.
pub fn concat(a: String, b: &str) -> (r: String)
    ensures
        r@ == a@ + b@,
{
    let mut a = a;
    a.append(b);
    a
}

/// Whether the name marks a definition that is no action.
pub fn skipped(name: &Vec<char>) -> (r: bool)
    ensures
        r == is_skipped(name@),
{
    let n = name.len();
    assert(name@.subrange(0, n as int) =~= name@);
    let set = state_set_name(name, 0, n);
    let init = n == 4 && at(name, 0, &['I', 'n', 'i', 't']);
    let next = n == 4 && at(name, 0, &['N', 'e', 'x', 't']);
    assert(n == 4 ==> name@.subrange(0, 4) =~= name@);
    set || init || next
}

/// Adds what one definition contributes.
pub fn absorb(acc: &mut Collected, b: &RawBlock)
    ensures
        collected_view(*final(acc)) == step(collected_view(*old(acc)), raw_view(*b)),
{
    if skipped(&b.name) {
        return;
    }
    let from = from_list(&b.body);
    let to = to_list(&b.body);
    let none = from.len() == 0 && to.len() == 0;
    let name = string_of(&b.name, 0, b.name.len());
    assert(b.name@.subrange(0, b.name@.len() as int) =~= b.name@);
    if none {
        let code = strip(&b.body);
        if arrow(&code) || !primed(&code) {
            let norm = normalize(&b.body);
            let norm_s = string_of(&norm, 0, norm.len());
            assert(norm@.subrange(0, norm@.len() as int) =~= norm@);
            let entry = concat(concat(name, ": "), norm_s.as_str());
            let ghost before = acc.invariants@;
            acc.invariants.push(entry);
            assert(strings_view(acc.invariants@) =~= strings_view(before).push(entry@));
            return;
        }
        let w = concat(
            concat(String::from_str("Could not infer transitions for `"), name.as_str()),
            "`. This is common for complex or quantified actions in MVP mode.",
        );
        let ghost before = acc.warnings@;
        acc.warnings.push(w);
        assert(strings_view(acc.warnings@) =~= strings_view(before).push(w@));
    }
    let comment = match &b.comment {
        Some(c) => {
            let norm = normalize(c);
            assert(norm@.subrange(0, norm@.len() as int) =~= norm@);
            Some(string_of(&norm, 0, norm.len()))
        },
        None => None,
    };
    match &comment {
        Some(text) => {
            let ghost before = acc.comments@;
            let cm = Comment { target: name.clone(), text: text.clone() };
            acc.comments.push(cm);
            assert(acc.comments@.map_values(|x: Comment| x@) =~= before.map_values(|x: Comment| x@).push(cm@));
        },
        None => {},
    }
    let action = Action { name, from, to, comment };
    let ghost before = acc.actions@;
    acc.actions.push(action);
    assert(acc.actions@.map_values(|a: Action| a@) =~= before.map_values(|a: Action| a@).push(action@));
}

/// The name in the first module header, else the untitled placeholder.
pub open spec fn module_name_of(s: Seq<char>) -> Seq<char> {
    let p = first_at(|p: int| module_header_at(s, p) is Some, 0, s.len() as int);
    if p < s.len() {
        let c = module_header_at(s, p).unwrap().1;
        s.subrange(c.0, c.1)
    } else {
        untitled()
    }
}

/// The state that the first `Init == xState = "S"` line names.
pub open spec fn init_state_of(s: Seq<char>) -> Option<Seq<char>> {
    let p = first_at(|p: int| init_at(s, p) is Some, 0, s.len() as int);
    if p < s.len() {
        let c = init_at(s, p).unwrap().1;
        Some(s.subrange(c.0, c.1))
    } else {
        None
    }
}

/// Whether some line starts `Next ==`.
pub open spec fn has_next(s: Seq<char>) -> bool {
    first_at(|p: int| next_at(s, p), 0, s.len() as int) < s.len()
}

/// The warning for a module that declares no state set.
pub open spec fn no_states_warning() -> Seq<char> {
    "No state sets detected. Try naming sets like LeadStages or JobStates for the MVP parser."@
}

/// The warning for a module without an `Init` line.
pub open spec fn no_init_warning() -> Seq<char> {
    "Missing `Init == <stateVar>State = \"InitialState\"`. The graph will fall back to the alphabetically first state, which often makes the layout look wrong."@
}

/// The warning for an initial state that no state set declares.
pub open spec fn unknown_init_warning(init: Seq<char>) -> Seq<char> {
    "Init points to `"@ + init + "`, but that state is not present in the detected state set."@
}

/// The warning for a module without a `Next` definition.
pub open spec fn no_next_warning() -> Seq<char> {
    "Missing `Next == ...`. The spec may still draw, but it is not a complete TLA+ process model for this tool."@
}

/// The warnings of a module: those of its definitions, then the module-level ones.
pub open spec fn warnings_of(s: Seq<char>) -> Seq<Seq<char>> {
    let states = declared_states(s);
    process(blocks_of(s)).warnings + (if states.len() == 0 {
        seq![no_states_warning()]
    } else {
        seq![]
    }) + match init_state_of(s) {
        None => seq![no_init_warning()],
        Some(i) => if states.contains(i) {
            seq![]
        } else {
            seq![unknown_init_warning(i)]
        },
    } + (if has_next(s) {
        seq![]
    } else {
        seq![no_next_warning()]
    })
}

/// What parsing the module text `s` yields: its module name; its declared
/// states sorted; its initial state; its actions sorted by name (actions of
/// equal name in module order); its invariants, comments and warnings in
/// module order.
pub open spec fn parses_to(s: Seq<char>, m: MachineView) -> bool {
    let acc = process(blocks_of(s));
    &&& m.module_name == module_name_of(s)
    &&& stable_sort_of(m.states, declared_states(s), |x: Seq<char>| x)
    &&& m.init_state == init_state_of(s)
    &&& stable_sort_of(m.actions, acc.actions, |a: ActionView| a.name)
    &&& m.invariants == acc.invariants
    &&& m.comments == acc.comments
    &&& m.warnings == warnings_of(s)
}

/// Whether an equal string is in `v`.
pub fn contains_string(v: &Vec<String>, x: &String) -> (r: bool)
    ensures
        r == strings_view(v@).contains(x@),
{
    let mut k: usize = 0;
    while k < v.len()
        invariant
            k <= v.len(),
            forall|m: int| 0 <= m < k ==> v@[m]@ != x@,
        decreases v.len() - k,
    {
        if v[k] == *x {
            assert(strings_view(v@)[k as int] == x@);
            return true;
        }
        k += 1;
    }
    false
}

/// The range of the name in the first module header.
fn first_module_header(s: &Vec<char>) -> (r: Option<(usize, usize)>)
    ensures
        ({
            let p = first_at(|p: int| module_header_at(s@, p) is Some, 0, s@.len() as int);
            match r {
                Some((a, b)) => p < s@.len() && module_header_at(s@, p).unwrap().1 == (a as int, b as int) && a <= b <= s.len(),
                None => p >= s@.len(),
            }
        }),
{
    let n = s.len();
    let mut p: usize = 0;
    while p < n
        invariant
            p <= n == s.len(),
            first_at(|p: int| module_header_at(s@, p) is Some, 0, n as int) == first_at(
                |p: int| module_header_at(s@, p) is Some,
                p as int,
                n as int,
            ),
        decreases n - p,
    {
        match module_header(s, p) {
            Some((_, a, b)) => {
                return Some((a, b));
            },
            None => {},
        }
        p += 1;
    }
    None
}

/// The range of the state in the first `Init` line.
fn first_init(s: &Vec<char>) -> (r: Option<(usize, usize)>)
    ensures
        ({
            let p = first_at(|p: int| init_at(s@, p) is Some, 0, s@.len() as int);
            match r {
                Some((a, b)) => p < s@.len() && init_at(s@, p).unwrap().1 == (a as int, b as int) && a <= b <= s.len(),
                None => p >= s@.len(),
            }
        }),
{
    let n = s.len();
    let mut p: usize = 0;
    while p < n
        invariant
            p <= n == s.len(),
            first_at(|p: int| init_at(s@, p) is Some, 0, n as int) == first_at(
                |p: int| init_at(s@, p) is Some,
                p as int,
                n as int,
            ),
        decreases n - p,
    {
        match init_here(s, p) {
            Some((_, a, b)) => {
                return Some((a, b));
            },
            None => {},
        }
        p += 1;
    }
    None
}

/// Whether some line starts `Next ==`.
fn find_next(s: &Vec<char>) -> (r: bool)
    ensures
        r == has_next(s@),
{
    let n = s.len();
    let mut p: usize = 0;
    while p < n
        invariant
            p <= n == s.len(),
            first_at(|p: int| next_at(s@, p), 0, n as int) == first_at(|p: int| next_at(s@, p), p as int, n as int),
        decreases n - p,
    {
        if next_here(s, p) {
            return true;
        }
        p += 1;
    }
    false
}

/// Whether every definition body of the module in `s` begins no later than it ends.
pub fn bodies_fit(s: &Vec<char>) -> (r: bool)
    ensures
        r == bodies_in_bounds(s@),
{
    let end = find_module_end(s);
    let heads = find_heads(s, end);
    let ghost hs = heads_of(s@);
    let mut i: usize = 0;
    while i < heads.len()
        invariant
            i <= heads.len(),
            end == module_end(s@),
            heads@.map_values(|t: (usize, usize, (Option<(usize, usize)>, usize, usize, usize))| head_hit(t)) == hs,
            hs == heads_of(s@),
            forall|k: int| 0 <= k < i ==> #[trigger] hs[k].2.3 <= body_end(s@, hs, k),
        decreases heads.len() - i,
    {
        assert(head_hit(heads@[i as int]) == hs[i as int]);
        let be = if i + 1 < heads.len() {
            assert(head_hit(heads@[i + 1]) == hs[i + 1]);
            heads[i + 1].0
        } else {
            end
        };
        if heads[i].2.3 > be {
            return false;
        }
        i += 1;
    }
    true
}

/// What the definitions of the module contribute.
fn collect(s: &Vec<char>) -> (r: Collected)
    requires
        bodies_in_bounds(s@),
    ensures
        collected_view(r) == process(blocks_of(s@)),
{
    let bs = blocks(s);
    let ghost all = blocks_of(s@);
    let mut acc = Collected {
        actions: Vec::new(),
        invariants: Vec::new(),
        comments: Vec::new(),
        warnings: Vec::new(),
    };
    assert(collected_view(acc).actions =~= process(all.take(0)).actions);
    assert(collected_view(acc).invariants =~= process(all.take(0)).invariants);
    assert(collected_view(acc).comments =~= process(all.take(0)).comments);
    assert(collected_view(acc).warnings =~= process(all.take(0)).warnings);
    let mut i: usize = 0;
    while i < bs.len()
        invariant
            i <= bs.len(),
            bs@.map_values(|b: RawBlock| raw_view(b)) == all,
            collected_view(acc) == process(all.take(i as int)),
        decreases bs.len() - i,
    {
        assert(all.take(i + 1).drop_last() =~= all.take(i as int));
        assert(raw_view(bs@[i as int]) == all[i as int]);
        absorb(&mut acc, &bs[i]);
        i += 1;
    }
    assert(all.take(i as int) =~= all);
    acc
}

/// Parses a module of the specification subset: its name, state sets,
/// actions with their source and target states, invariants, the comments
/// above definitions, the initial state, and warnings about what is missing.
pub fn parse_tla(source: &str) -> (r: ParsedMachine)
    requires
        bodies_in_bounds(source@),
    ensures
        parses_to(source@, r@),
{
    let s = chars_of(source);
    let module_name = match first_module_header(&s) {
        Some((a, b)) => string_of(&s, a, b),
        None => String::from_str("Untitled Machine"),
    };
    let raw_states = collect_states(&s);
    let acc = collect(&s);
    let init_state = match first_init(&s) {
        Some((a, b)) => Some(string_of(&s, a, b)),
        None => None,
    };
    let mut warnings = acc.warnings;
    let ghost w0 = strings_view(warnings@);
    if raw_states.len() == 0 {
        warnings.push(
            String::from_str(
                "No state sets detected. Try naming sets like LeadStages or JobStates for the MVP parser.",
            ),
        );
    }
    let ghost w1 = strings_view(warnings@);
    match &init_state {
        None => {
            warnings.push(
                String::from_str(
                    "Missing `Init == <stateVar>State = \"InitialState\"`. The graph will fall back to the alphabetically first state, which often makes the layout look wrong.",
                ),
            );
        },
        Some(i) => {
            if !contains_string(&raw_states, i) {
                warnings.push(
                    concat(
                        concat(String::from_str("Init points to `"), i.as_str()),
                        "`, but that state is not present in the detected state set.",
                    ),
                );
            }
        },
    }
    let ghost w2 = strings_view(warnings@);
    if !find_next(&s) {
        warnings.push(
            String::from_str(
                "Missing `Next == ...`. The spec may still draw, but it is not a complete TLA+ process model for this tool.",
            ),
        );
    }
    let states = sort_strings(raw_states);
    let actions = sort_actions(acc.actions);
    let r = ParsedMachine {
        module_name,
        states,
        init_state,
        actions,
        invariants: acc.invariants,
        comments: acc.comments,
        warnings,
    };
    assert(strings_view(r.warnings@) =~= warnings_of(s@));
    r
}

/// Parses a module as `parse_tla` does, or gives `None` for a module where
/// a definition body would begin after the module end.
pub fn parse_tla_checked(source: &str) -> (r: Option<ParsedMachine>)
    ensures
        r is None <==> !bodies_in_bounds(source@),
        r matches Some(m) ==> parses_to(source@, m@),
{
    let s = chars_of(source);
    if bodies_fit(&s) {
        Some(parse_tla(source))
    } else {
        None
    }
}

/// The definitions of a module as (comment, name, body) triples, in order:
/// the comment is the one-line comment right above the definition or else
/// the block comment ending right before it; the body runs up to the next
/// definition or the module end line, trimmed.
pub fn action_blocks(source: &str) -> (r: Vec<(Option<String>, String, String)>)
    requires
        bodies_in_bounds(source@),
    ensures
        r@.len() == blocks_of(source@).len(),
        forall|i: int|
            0 <= i < r@.len() ==> {
                let b = #[trigger] blocks_of(source@)[i];
                &&& opt_view(r@[i].0) == b.comment
                &&& r@[i].1@ == b.name
                &&& r@[i].2@ == b.body
            },
{
    let s = chars_of(source);
    let bs = blocks(&s);
    let mut r: Vec<(Option<String>, String, String)> = Vec::new();
    let mut i: usize = 0;
    while i < bs.len()
        invariant
            i <= bs.len(),
            s@ == source@,
            bs@.map_values(|b: RawBlock| raw_view(b)) == blocks_of(s@),
            r@.len() == i,
            forall|k: int|
                0 <= k < i ==> {
                    let b = #[trigger] blocks_of(source@)[k];
                    &&& opt_view(r@[k].0) == b.comment
                    &&& r@[k].1@ == b.name
                    &&& r@[k].2@ == b.body
                },
        decreases bs.len() - i,
    {
        assert(raw_view(bs@[i as int]) == blocks_of(s@)[i as int]);
        let comment = match &bs[i].comment {
            Some(c) => {
                assert(c@.subrange(0, c@.len() as int) =~= c@);
                Some(string_of(c, 0, c.len()))
            },
            None => None,
        };
        let name = &bs[i].name;
        let body = &bs[i].body;
        assert(name@.subrange(0, name@.len() as int) =~= name@);
        assert(body@.subrange(0, body@.len() as int) =~= body@);
        r.push((comment, string_of(name, 0, name.len()), string_of(body, 0, body.len())));
        i += 1;
    }
    r
}

} // verus!
